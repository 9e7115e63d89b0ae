use newtua_stuffit::checksum::crc32_ieee;
use newtua_stuffit::error::ErrorKind;
use newtua_stuffit::sitx::bwt::MtfState;
use newtua_stuffit::stuffit15::{decode, inverse_bwt, next_symbol, Bits, Coder, Model, HALF, NUM_BITS, ONE};

fn bwt_decode(block: &[u8], index: usize) -> Vec<u8> {
    let t = inverse_bwt(block);
    let mut idx = index;
    (0..block.len())
        .map(|_| {
            idx = t[idx];
            block[idx]
        })
        .collect()
}

fn forward_bwt(s: &[u8]) -> (Vec<u8>, usize) {
    let n = s.len();
    let mut rot: Vec<usize> = (0..n).collect();
    rot.sort_by(|&a, &b| {
        for k in 0..n {
            let ca = s[(a + k) % n];
            let cb = s[(b + k) % n];
            if ca != cb {
                return ca.cmp(&cb);
            }
        }
        std::cmp::Ordering::Equal
    });
    let block: Vec<u8> = rot.iter().map(|&r| s[(r + n - 1) % n]).collect();
    for idx in 0..n {
        if bwt_decode(&block, idx) == s {
            return (block, idx);
        }
    }
    panic!("forward_bwt: no index reproduces the input");
}

fn bwt_roundtrip(s: &[u8]) {
    let (block, index) = forward_bwt(s);
    assert_eq!(bwt_decode(&block, index), s);
}

#[test]
fn bwt_roundtrips_various_strings() {
    bwt_roundtrip(b"a");
    bwt_roundtrip(b"banana");
    bwt_roundtrip(b"the quick brown fox");
    bwt_roundtrip(b"aaaaaaaa");
    bwt_roundtrip(b"abababababab");
    bwt_roundtrip(&(0u8..=255).collect::<Vec<u8>>());
}

fn mtf_encode(table: &mut [u16; 256], byte: u8) -> usize {
    let sym = table.iter().position(|&x| x == u16::from(byte)).unwrap();
    let res = table[sym];
    for i in (1..=sym).rev() {
        table[i] = table[i - 1];
    }
    table[0] = res;
    sym
}

#[test]
fn mtf_encode_decode_roundtrip() {
    let data = b"mississippi river banana bandana";
    let mut enc_table: [u16; 256] = core::array::from_fn(|i| i as u16);
    let mut dec = MtfState::new();
    for &b in data {
        let sym = mtf_encode(&mut enc_table, b);
        assert_eq!(dec.decode(sym as u8), b);
    }
}

struct ArithEncoder {
    low: u64,
    range: u32,
    bits: Vec<bool>,
}

const TOP: u64 = 1 << NUM_BITS;

impl ArithEncoder {
    fn new() -> Self {
        Self {
            low: 0,
            range: ONE,
            bits: Vec::new(),
        }
    }

    fn carry(&mut self) {
        let mut i = self.bits.len();
        while i > 0 {
            i -= 1;
            if !self.bits[i] {
                self.bits[i] = true;
                return;
            }
            self.bits[i] = false;
        }
        panic!("arithmetic encoder: carry past start of stream");
    }

    fn encode(&mut self, symlow: u32, symsize: u32, symtot: u32, is_last: bool) {
        let renorm_factor = self.range / symtot;
        let lowincr = renorm_factor * symlow;
        self.low += u64::from(lowincr);
        if self.low >= TOP {
            self.low -= TOP;
            self.carry();
        }
        if is_last {
            self.range -= lowincr;
        } else {
            self.range = symsize * renorm_factor;
        }
        while self.range <= HALF {
            self.bits.push((self.low >> (NUM_BITS - 1)) & 1 != 0);
            self.low = (self.low << 1) & (TOP - 1);
            self.range <<= 1;
        }
    }

    fn finish(mut self) -> Vec<u8> {
        for _ in 0..NUM_BITS {
            self.bits.push((self.low >> (NUM_BITS - 1)) & 1 != 0);
            self.low = (self.low << 1) & (TOP - 1);
        }
        let mut bytes = Vec::new();
        for chunk in self.bits.chunks(8) {
            let mut b = 0u8;
            for (k, &bit) in chunk.iter().enumerate() {
                if bit {
                    b |= 1 << (7 - k);
                }
            }
            bytes.push(b);
        }
        bytes
    }
}

fn enc_symbol(enc: &mut ArithEncoder, model: &mut Model, value: i32) {
    let n = (value - model.first) as usize;
    let cumulative: u32 = model.freqs[..n].iter().sum();
    let symsize = model.freqs[n];
    let is_last = n == model.freqs.len() - 1;
    enc.encode(
        cumulative,
        symsize,
        model.total_frequency,
        is_last,
    );
    model.increase(n);
}

fn enc_bitstring(enc: &mut ArithEncoder, model: &mut Model, value: u32, nbits: u32) {
    for i in 0..nbits {
        enc_symbol(enc, model, ((value >> i) & 1) as i32);
    }
}

#[test]
fn arithmetic_roundtrip_through_models() {
    let syms_a: Vec<i32> = (0..200).map(|i| i % 11).collect();
    let syms_b: Vec<i32> = (0..200).map(|i| 2 + (i * 7) % 6).collect();

    let mut enc = ArithEncoder::new();
    let mut ma = Model::new(0, 10, 8, 1024);
    let mut mb = Model::new(2, 7, 4, 1024);
    for (&a, &b) in syms_a.iter().zip(&syms_b) {
        enc_symbol(&mut enc, &mut ma, a);
        enc_symbol(&mut enc, &mut mb, b);
    }
    let bytes = enc.finish();

    let mut bits = Bits::new(&bytes[..]);
    let mut coder = Coder::init(&mut bits);
    let mut ma = Model::new(0, 10, 8, 1024);
    let mut mb = Model::new(2, 7, 4, 1024);
    for (&a, &b) in syms_a.iter().zip(&syms_b) {
        assert_eq!(next_symbol(&mut coder, &mut bits, &mut ma), a);
        assert_eq!(next_symbol(&mut coder, &mut bits, &mut mb), b);
    }
}

fn rle_encode(content: &[u8]) -> Vec<u8> {
    let mut s = Vec::new();
    let mut i = 0;
    while i < content.len() {
        let b = content[i];
        let mut j = i;
        while j < content.len() && content[j] == b {
            j += 1;
        }
        let mut run = j - i;
        while run > 0 {
            if run < 4 {
                for _ in 0..run {
                    s.push(b);
                }
                run = 0;
            } else {
                for _ in 0..4 {
                    s.push(b);
                }
                let l = (run - 4).min(255);
                s.push(l as u8);
                run -= 4 + l;
            }
        }
        i = j;
    }
    s
}

fn mtf_encode_block(block: &[u8]) -> Vec<usize> {
    let mut table: [u16; 256] = core::array::from_fn(|i| i as u16);
    block.iter().map(|&b| mtf_encode(&mut table, b)).collect()
}

fn selector_for(sym: usize) -> (i32, usize) {
    match sym {
        2..=3 => (3, 0),
        4..=7 => (4, 1),
        8..=15 => (5, 2),
        16..=31 => (6, 3),
        32..=63 => (7, 4),
        64..=127 => (8, 5),
        _ => (9, 6),
    }
}

fn encode_zero_run(enc: &mut ArithEncoder, selector: &mut Model, mut z: usize) {
    while z > 0 {
        if z & 1 == 1 {
            enc_symbol(enc, selector, 0);
            z = (z - 1) / 2;
        } else {
            enc_symbol(enc, selector, 1);
            z = (z - 2) / 2;
        }
    }
}

fn encode_block_symbols(
    enc: &mut ArithEncoder,
    selector: &mut Model,
    mtfm: &mut [Model; 7],
    msyms: &[usize],
) {
    let mut i = 0;
    loop {
        let mut z = 0usize;
        while i < msyms.len() && msyms[i] == 0 {
            z += 1;
            i += 1;
        }
        if z > 0 {
            encode_zero_run(enc, selector, z);
        }
        if i == msyms.len() {
            enc_symbol(enc, selector, 10);
            break;
        }
        let sym = msyms[i];
        i += 1;
        if sym == 1 {
            enc_symbol(enc, selector, 2);
        } else {
            let (sel, k) = selector_for(sym);
            enc_symbol(enc, selector, sel);
            enc_symbol(enc, &mut mtfm[k], sym as i32);
        }
    }
}

fn encode_fork(content: &[u8]) -> Vec<u8> {
    let s = rle_encode(content);
    let (block, transformindex) = forward_bwt(&s);
    let msyms = mtf_encode_block(&block);

    let mut blockbits = 9u32;
    while (1usize << blockbits) < s.len() {
        blockbits += 1;
    }
    assert!(blockbits <= 24, "fixture too large for a single block");

    let mut enc = ArithEncoder::new();
    let mut initial = Model::new(0, 1, 1, 256);
    let mut selector = Model::new(0, 10, 8, 1024);
    let mut mtfm = [
        Model::new(2, 3, 8, 1024),
        Model::new(4, 7, 4, 1024),
        Model::new(8, 15, 4, 1024),
        Model::new(16, 31, 4, 1024),
        Model::new(32, 63, 2, 1024),
        Model::new(64, 127, 2, 1024),
        Model::new(128, 255, 1, 1024),
    ];

    enc_bitstring(&mut enc, &mut initial, u32::from(b'A'), 8);
    enc_bitstring(&mut enc, &mut initial, u32::from(b's'), 8);
    enc_bitstring(&mut enc, &mut initial, blockbits - 9, 4);
    enc_symbol(&mut enc, &mut initial, 0);

    enc_symbol(&mut enc, &mut initial, 0);
    enc_bitstring(&mut enc, &mut initial, transformindex as u32, blockbits);
    encode_block_symbols(&mut enc, &mut selector, &mut mtfm, &msyms);

    enc_symbol(&mut enc, &mut initial, 1);
    enc_bitstring(&mut enc, &mut initial, crc32_ieee(content), 32);

    enc.finish()
}

fn roundtrip(content: &[u8]) {
    let stream = encode_fork(content);
    assert_eq!(decode(&stream, content.len()).unwrap(), content);
}

#[test]
fn plain_literals() {
    roundtrip(b"Arsenic method fifteen, plain literal text.");
}

#[test]
fn repeated_text_exercises_bwt_and_selectors() {
    roundtrip(b"the cat sat on the mat, the cat sat on the hat, the cat ran.");
}

#[test]
fn final_rle_long_run() {
    let mut data = vec![b'x'; 300];
    data.extend_from_slice(b"tail");
    roundtrip(&data);
}

#[test]
fn zero_runs_and_mixed_mtf_ranges() {
    let mut data = Vec::new();
    for round in 0..8u8 {
        for b in 0..40u8 {
            data.push(b.wrapping_mul(3).wrapping_add(round));
        }
    }
    roundtrip(&data);
}

#[test]
fn single_byte() {
    roundtrip(b"Z");
}

#[test]
fn stuffit15_zero_outlen_returns_empty_without_parsing() {
    assert_eq!(decode(&[], 0).unwrap(), Vec::<u8>::new());
    assert_eq!(decode(&[0xFF, 0x00], 0).unwrap(), Vec::<u8>::new());
}

#[test]
fn stream_shorter_than_outlen_is_unexpected_eof() {
    let content = b"short content";
    let stream = encode_fork(content);
    let err = decode(&stream, content.len() + 5).unwrap_err();
    assert_eq!(err, ErrorKind::UnexpectedEof);
}

#[test]
fn bad_signature_is_invalid_data() {
    let err = decode(&[0u8; 32], 4).unwrap_err();
    assert_eq!(err, ErrorKind::InvalidData);
}

#[test]
fn model_of_any_symbols_is_halved_past_its_limit() {
    let mut m = Model::new(-2, 0, 100, 350);
    assert_eq!(m.freqs, vec![100, 100, 100]);
    assert_eq!(m.total_frequency, 300);
    m.increase(1);
    assert_eq!(m.freqs, vec![50, 100, 50]);
    assert_eq!(m.total_frequency, 200);
    let mut one = Model::new(7, 7, 1, 0);
    one.increase(0);
    assert_eq!(one.freqs, vec![1]);
}
