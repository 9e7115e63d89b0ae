use newtua_stuffit::sitx::brimstone;
use newtua_stuffit::sitx::ppmd::context::{
    clear_mask, ctx_flags, ctx_last_state_index, ctx_one_state, ctx_states, ctx_suffix, ctx_summ_freq,
    number_of_states, rescale_context, set_ctx_summ_freq, set_state_freq, state_at, state_freq, state_successor,
    state_symbol, update_context1, update_context2, PpmdCore, See2Context, EXP_ESCAPE, MAX_FREQ,
};
use newtua_stuffit::sitx::ppmd::suballoc::BrimstoneAlloc;
use newtua_stuffit::sitx::ppmd::variant_g::{new_model, next_byte, start, update_model, PpmdModelVariantG};

// An encoder over the same model: for a known byte it commits the share of the
// range in which the decoder has to land.

struct RangeEncoder {
    out: Vec<u8>,
    low: u32,
    range: u32,
    bottom: u32,
}

impl RangeEncoder {
    fn new(bottom: u32) -> Self {
        RangeEncoder {
            out: Vec::new(),
            low: 0,
            range: 0xffff_ffff,
            bottom,
        }
    }

    fn encode_range(&mut self, lowcount: u32, highcount: u32, total: u32) {
        self.range /= total;
        self.low = self.low.wrapping_add(self.range.wrapping_mul(lowcount));
        self.range = self.range.wrapping_mul(highcount - lowcount);
        self.normalize();
    }

    fn encode_weighted_bit(&mut self, bit: u32, weight: u32, size: u32) {
        if bit == 0 {
            self.encode_range(0, weight, size);
        } else {
            self.encode_range(weight, size, size);
        }
    }

    fn normalize(&mut self) {
        loop {
            if (self.low ^ self.low.wrapping_add(self.range)) >= 0x0100_0000 {
                if self.range >= self.bottom {
                    break;
                }
                self.range = 0u32.wrapping_sub(self.low) & self.bottom.wrapping_sub(1);
            }
            self.out.push((self.low >> 24) as u8);
            self.range <<= 8;
            self.low <<= 8;
        }
    }

    fn finish(mut self) -> Vec<u8> {
        for _ in 0..4 {
            self.out.push((self.low >> 24) as u8);
            self.low <<= 8;
        }
        self.out
    }
}

struct Encoder {
    coder: RangeEncoder,
    model: PpmdModelVariantG,
}

fn encode_bin_symbol(coder: &mut RangeEncoder, core: &mut PpmdCore, ctx: u32, bs: &mut u16, target: u8) -> bool {
    let rs = ctx_one_state(ctx);
    let rs_symbol = state_symbol(&core.heap, rs);
    let bit: u32 = if target == rs_symbol { 0 } else { 1 };
    coder.encode_weighted_bit(bit, u32::from(*bs), 1 << 14);
    let mean = ((u32::from(*bs) + 32) >> 7) as u16;
    if bit == 0 {
        core.prev_success = 1;
        core.found_state = rs;
        let freq = state_freq(&core.heap, rs);
        if freq < 128 {
            set_state_freq(&mut core.heap, rs, freq + 1);
        }
        *bs = *bs + 128 - mean;
        true
    } else {
        core.prev_success = 0;
        core.found_state = 0;
        core.last_mask_index = 0;
        core.char_mask[rs_symbol as usize] = core.esc_count;
        *bs -= mean;
        core.init_esc = EXP_ESCAPE[(*bs >> 10) as usize];
        false
    }
}

fn encode_symbol1(coder: &mut RangeEncoder, core: &mut PpmdCore, ctx: u32, target: u8) -> bool {
    core.scale = u32::from(ctx_summ_freq(&core.heap, ctx));
    let states = ctx_states(&core.heap, ctx);
    let firstcount = u32::from(state_freq(&core.heap, states));
    if state_symbol(&core.heap, states) == target {
        coder.encode_range(0, firstcount, core.scale);
        core.prev_success = if 2 * firstcount > core.scale { 1 } else { 0 };
        core.found_state = states;
        set_state_freq(&mut core.heap, states, (firstcount + 4) as u8);
        let summ = i32::from(ctx_summ_freq(&core.heap, ctx)) + 4;
        set_ctx_summ_freq(&mut core.heap, ctx, summ);
        if firstcount + 4 > MAX_FREQ {
            rescale_context(core, ctx);
        }
        return true;
    }
    let mut highcount = firstcount;
    core.prev_success = 0;
    let last = ctx_last_state_index(&core.heap, ctx);
    for i in 1..=u32::from(last) {
        let si = state_at(states, i);
        let freq = u32::from(state_freq(&core.heap, si));
        highcount += freq;
        if state_symbol(&core.heap, si) == target {
            coder.encode_range(highcount - freq, highcount, core.scale);
            update_context1(core, ctx, si);
            return true;
        }
    }
    coder.encode_range(highcount, core.scale, core.scale);
    core.last_mask_index = last;
    core.found_state = 0;
    for i in 0..=u32::from(last) {
        let sym = state_symbol(&core.heap, state_at(states, i));
        core.char_mask[sym as usize] = core.esc_count;
    }
    false
}

fn encode_symbol2(
    coder: &mut RangeEncoder,
    core: &mut PpmdCore,
    ctx: u32,
    see: &mut See2Context,
    target: u8,
) -> bool {
    let last = ctx_last_state_index(&core.heap, ctx);
    let n = (last - core.last_mask_index) as usize;
    let mut ps = Vec::new();
    let mut total = 0u32;
    let mut state = ctx_states(&core.heap, ctx);
    while ps.len() < n {
        while core.char_mask[state_symbol(&core.heap, state) as usize] == core.esc_count {
            state = state_at(state, 1);
        }
        total += u32::from(state_freq(&core.heap, state));
        ps.push(state);
        state = state_at(state, 1);
    }
    core.scale += total;
    match ps.iter().position(|&p| state_symbol(&core.heap, p) == target) {
        Some(i) => {
            let highcount: u32 = ps[..=i].iter().map(|&p| u32::from(state_freq(&core.heap, p))).sum();
            let freq = u32::from(state_freq(&core.heap, ps[i]));
            coder.encode_range(highcount - freq, highcount, core.scale);
            see.update();
            update_context2(core, ctx, ps[i]);
            true
        }
        None => {
            coder.encode_range(total, core.scale, core.scale);
            core.last_mask_index = last;
            see.summ = see.summ.wrapping_add(core.scale as u16);
            for &p in &ps {
                let sym = state_symbol(&core.heap, p);
                core.char_mask[sym as usize] = core.esc_count;
            }
            false
        }
    }
}

fn bin_class(i: u8) -> usize {
    match i {
        0..=5 => 2 * i as usize,
        6..=49 => 12,
        _ => 14,
    }
}

fn see_class(i: usize) -> usize {
    match i {
        0..=3 => i,
        4..=11 => 4 + ((i - 4) >> 1),
        12..=43 => 8 + ((i - 12) >> 2),
        _ => 16 + ((i - 44) >> 3),
    }
}

impl Encoder {
    fn new(alloc_size: u32, maxorder: i32, brimstone: bool) -> Self {
        let core = PpmdCore {
            heap: BrimstoneAlloc::new(alloc_size),
            scale: 0,
            found_state: 0,
            order_fall: 0,
            init_esc: 0,
            char_mask: vec![0u8; 256],
            last_mask_index: 0,
            esc_count: 1,
            prev_success: 0,
        };
        Encoder {
            coder: RangeEncoder::new(if brimstone { 0x10000 } else { 0x8000 }),
            model: new_model(core, maxorder, brimstone),
        }
    }

    fn bin(&mut self, ctx: u32, target: u8) -> bool {
        let core = &mut self.model.core;
        let freq = state_freq(&core.heap, ctx_one_state(ctx));
        let suffix = ctx_suffix(&core.heap, ctx);
        let col = core.prev_success as usize + bin_class(ctx_last_state_index(&core.heap, suffix));
        let i = 16 * (freq as usize - 1) + col;
        encode_bin_symbol(&mut self.coder, core, ctx, &mut self.model.bin_summ[i], target)
    }

    fn open(&mut self, ctx: u32, target: u8) -> bool {
        let core = &mut self.model.core;
        let last = i32::from(ctx_last_state_index(&core.heap, ctx));
        let masked = i32::from(core.last_mask_index);
        let diff = last - masked;
        if last == 255 {
            core.scale = 1;
            return encode_symbol2(&mut self.coder, core, ctx, &mut self.model.dummy_see2_cont, target);
        }
        let suffix = ctx_suffix(&core.heap, ctx);
        let suffix_last = i32::from(ctx_last_state_index(&core.heap, suffix));
        let summ = u32::from(ctx_summ_freq(&core.heap, ctx));
        let mut i = 8 * see_class((diff - 1) as usize);
        if diff < suffix_last - last {
            i += 1;
        }
        if summ < 11 * number_of_states(&core.heap, ctx) {
            i += 2;
        }
        if masked + 1 > diff {
            i += 4;
        }
        core.scale = self.model.see2_cont[i].mean_masked();
        encode_symbol2(&mut self.coder, core, ctx, &mut self.model.see2_cont[i], target)
    }

    fn byte(&mut self, target: u8) -> bool {
        let ctx = self.model.min_context;
        if ctx == 0 {
            return false;
        }
        let mut found = if number_of_states(&self.model.core.heap, ctx) != 1 {
            encode_symbol1(&mut self.coder, &mut self.model.core, ctx, target)
        } else {
            self.bin(ctx, target)
        };
        while !found {
            loop {
                self.model.core.order_fall += 1;
                self.model.min_context = ctx_suffix(&self.model.core.heap, self.model.min_context);
                if self.model.min_context == 0 {
                    return false;
                }
                let last = ctx_last_state_index(&self.model.core.heap, self.model.min_context);
                if last != self.model.core.last_mask_index {
                    break;
                }
            }
            found = self.open(self.model.min_context, target);
        }
        let succ = state_successor(&self.model.core.heap, self.model.core.found_state);
        if self.model.core.order_fall == 0 && ctx_flags(&self.model.core.heap, succ) == 0 {
            self.model.min_context = succ;
            self.model.med_context = succ;
        } else {
            update_model(&mut self.model);
            if self.model.core.esc_count == 0 {
                clear_mask(&mut self.model.core);
            }
        }
        true
    }
}

fn encode_message(message: &[u8], alloc_size: u32, order: i32, brimstone: bool) -> Vec<u8> {
    let mut enc = Encoder::new(alloc_size, order, brimstone);
    for &b in message {
        assert!(enc.byte(b), "encoder ran out of context chain for byte {b}");
    }
    enc.coder.finish()
}

fn decode_message(encoded: &[u8], len: usize, alloc_size: u32, order: i32, brimstone: bool) -> Vec<u8> {
    let (mut coder, mut model) = start(encoded, alloc_size, order, brimstone);
    let mut out = Vec::with_capacity(len);
    for _ in 0..len {
        let b = next_byte(&mut coder, &mut model);
        assert!(b >= 0, "decoder hit EOF early");
        out.push(b as u8);
    }
    assert!(!model.core.heap.lost);
    out
}

#[test]
fn round_trip_repetitive_text() {
    let message: Vec<u8> = b"the quick brown fox jumps over the lazy dog. "
        .iter()
        .cloned()
        .cycle()
        .take(3000)
        .collect();
    let alloc_size = 1u32 << 16;
    let order = 4;

    let encoded = encode_message(&message, alloc_size, order, true);
    assert_eq!(decode_message(&encoded, message.len(), alloc_size, order, true), message);
}

#[test]
fn round_trip_via_brimstone_decode_wrapper() {
    let message: Vec<u8> = (0u32..2500)
        .map(|i| (i.wrapping_mul(2654435761) >> 20) as u8)
        .collect();
    let alloc_size = 1u32 << 16;
    let order = 6;

    let encoded = encode_message(&message, alloc_size, order, true);
    let decoded = brimstone::decode(&encoded, message.len(), order as u32, alloc_size as usize).unwrap();
    assert_eq!(decoded, message);
}

#[test]
fn round_trip_single_repeated_byte_forces_rescale() {
    let message = vec![b'x'; 5000];
    let alloc_size = 1u32 << 15;
    let order = 3;

    let encoded = encode_message(&message, alloc_size, order, true);
    let decoded = brimstone::decode(&encoded, message.len(), order as u32, alloc_size as usize).unwrap();
    assert_eq!(decoded, message);
}

#[test]
fn round_trip_short_message() {
    let message = b"AB";
    let alloc_size = 1u32 << 14;
    let order = 4;

    let encoded = encode_message(message, alloc_size, order, true);
    let decoded = brimstone::decode(&encoded, message.len(), order as u32, alloc_size as usize).unwrap();
    assert_eq!(decoded, message);
}

#[test]
fn round_trip_plain_variant_g_not_just_brimstone() {
    let message: Vec<u8> = b"mississippi river ".iter().cloned().cycle().take(1200).collect();
    let alloc_size = 1u32 << 15;
    let order = 4;

    let encoded = encode_message(&message, alloc_size, order, false);
    assert_eq!(decode_message(&encoded, message.len(), alloc_size, order, false), message);
}

#[test]
fn round_trip_with_a_heap_that_fills_up() {
    // Noise in a heap of a few thousand bytes: the model starts over again and again.
    let mut x = 1u32;
    let message: Vec<u8> = (0..6000)
        .map(|_| {
            x = x.wrapping_mul(1664525).wrapping_add(1013904223);
            (x >> 24) as u8
        })
        .collect();
    let alloc_size = 1u32 << 13;

    let encoded = encode_message(&message, alloc_size, 5, true);
    let decoded = brimstone::decode(&encoded, message.len(), 5, alloc_size as usize).unwrap();
    assert_eq!(decoded, message);
}
