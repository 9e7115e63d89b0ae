use newtua_stuffit::sitx::rangecoder::RangeCoder;

struct CarrylessEncoder {
    out: Vec<u8>,
    low: u32,
    range: u32,
    bottom: u32,
}

impl CarrylessEncoder {
    fn new(bottom: u32) -> Self {
        CarrylessEncoder {
            out: Vec::new(),
            low: 0,
            range: 0xffff_ffff,
            bottom,
        }
    }

    fn normalize(&mut self) {
        loop {
            if (self.low ^ self.low.wrapping_add(self.range)) >= 0x0100_0000 {
                if self.range >= self.bottom {
                    break;
                }
                self.range = 0u32.wrapping_sub(self.low) & self.bottom.wrapping_sub(1);
            }
            self.out.push((self.low >> 24) as u8);
            self.range <<= 8;
            self.low <<= 8;
        }
    }

    fn encode(&mut self, lowcount: u32, highcount: u32, total: u32) {
        self.range /= total;
        self.low = self.low.wrapping_add(self.range.wrapping_mul(lowcount));
        self.range = self.range.wrapping_mul(highcount - lowcount);
        self.normalize();
    }

    fn encode_symbol(&mut self, freqs: &[u32], symbol: usize) {
        let total: u32 = freqs.iter().sum();
        let cumulative: u32 = freqs[..symbol].iter().sum();
        self.encode(cumulative, cumulative + freqs[symbol], total);
    }

    fn encode_bit(&mut self, bit: u32) {
        self.encode_symbol(&[1, 1], bit as usize);
    }

    fn encode_weighted_bit(&mut self, bit: u32, weight: u32, size: u32) {
        if bit == 0 {
            self.encode(0, weight, size);
        } else {
            self.encode(weight, size, size);
        }
    }

    fn encode_weighted_bit2(&mut self, bit: u32, weight: u32, shift: u32) {
        let threshold = (self.range >> shift).wrapping_mul(weight);
        if bit == 0 {
            self.range = threshold;
        } else {
            self.low = self.low.wrapping_add(threshold);
            self.range = self.range.wrapping_sub(threshold);
        }
        self.normalize();
    }

    fn finish(mut self) -> Vec<u8> {
        for _ in 0..4 {
            self.out.push((self.low >> 24) as u8);
            self.low <<= 8;
        }
        self.out
    }
}

struct CarryEncoder {
    out: Vec<u8>,
    low: u64,
    range: u32,
    cache: u8,
    cache_size: u64,
    started: bool,
}

impl CarryEncoder {
    fn new() -> Self {
        CarryEncoder {
            out: Vec::new(),
            low: 0,
            range: 0xffff_ffff,
            cache: 0,
            cache_size: 1,
            started: false,
        }
    }

    fn shift_low(&mut self) {
        if (self.low as u32) < 0xff00_0000 || (self.low >> 32) != 0 {
            let carry = (self.low >> 32) as u8;
            let mut temp = self.cache;
            let mut pending = self.cache_size;
            loop {
                if self.started || pending != self.cache_size {
                    self.out.push(temp.wrapping_add(carry));
                }
                temp = 0xff;
                pending -= 1;
                if pending == 0 {
                    break;
                }
            }
            self.started = true;
            self.cache = (self.low >> 24) as u8;
            self.cache_size = 0;
        }
        self.cache_size += 1;
        self.low = (self.low << 8) & 0xffff_ffff;
    }

    fn normalize(&mut self) {
        while self.range < 0x0100_0000 {
            self.range <<= 8;
            self.shift_low();
        }
    }

    fn encode(&mut self, lowcount: u32, highcount: u32, total: u32) {
        self.range /= total;
        self.low += u64::from(self.range.wrapping_mul(lowcount));
        self.range = self.range.wrapping_mul(highcount - lowcount);
        self.normalize();
    }

    fn encode_bit(&mut self, bit: u32) {
        let freqs = [1u32, 1];
        let cumulative: u32 = freqs[..bit as usize].iter().sum();
        self.encode(cumulative, cumulative + freqs[bit as usize], 2);
    }

    fn encode_weighted_bit2(&mut self, bit: u32, weight: u32, shift: u32) {
        let threshold = (self.range >> shift).wrapping_mul(weight);
        if bit == 0 {
            self.range = threshold;
        } else {
            self.low += u64::from(threshold);
            self.range = self.range.wrapping_sub(threshold);
        }
        self.normalize();
    }

    fn finish(mut self) -> Vec<u8> {
        for _ in 0..5 {
            self.shift_low();
        }
        self.out
    }
}

#[test]
fn next_symbol_round_trips() {
    let freqs = [5u32, 3, 1, 7];
    let symbols = [0usize, 3, 2, 1, 3, 3, 0, 1];

    let mut enc = CarrylessEncoder::new(0);
    for &s in &symbols {
        enc.encode_symbol(&freqs, s);
    }
    let bytes = enc.finish();

    let mut dec = RangeCoder::new(&bytes, true, 0);
    let decoded: Vec<usize> = (0..symbols.len())
        .map(|_| dec.next_symbol(&freqs).unwrap())
        .collect();
    assert_eq!(decoded, symbols);
}

#[test]
fn next_bit_round_trips_uselow_true() {
    let bits = [0u32, 1, 1, 0, 0, 0, 1, 1, 1, 0];

    let mut enc = CarrylessEncoder::new(0);
    for &b in &bits {
        enc.encode_bit(b);
    }
    let bytes = enc.finish();

    let mut dec = RangeCoder::new(&bytes, true, 0);
    let decoded: Vec<u32> = (0..bits.len()).map(|_| dec.next_bit().unwrap()).collect();
    assert_eq!(decoded, bits);
}

#[test]
fn next_bit_round_trips_uselow_false() {
    let bits = [1u32, 1, 0, 1, 0, 0, 0, 1, 1, 0, 1, 1];

    let mut enc = CarryEncoder::new();
    for &b in &bits {
        enc.encode_bit(b);
    }
    let bytes = enc.finish();

    let mut dec = RangeCoder::new(&bytes, false, 0);
    let decoded: Vec<u32> = (0..bits.len()).map(|_| dec.next_bit().unwrap()).collect();
    assert_eq!(decoded, bits);
}

#[test]
fn rangecoder_next_weighted_bit_round_trips() {
    let weight = 0x300u32;
    let size = 0x1000u32;
    let bits = [0u32, 0, 1, 0, 1, 1, 0, 1];

    let mut enc = CarrylessEncoder::new(0);
    for &b in &bits {
        enc.encode_weighted_bit(b, weight, size);
    }
    let bytes = enc.finish();

    let mut dec = RangeCoder::new(&bytes, true, 0);
    let decoded: Vec<u32> = (0..bits.len())
        .map(|_| dec.next_weighted_bit(weight, size).unwrap())
        .collect();
    assert_eq!(decoded, bits);
}

#[test]
fn next_weighted_bit2_round_trips_uselow_true() {
    let weight = 0x900u32;
    let shift = 12u32;
    let bits = [1u32, 0, 0, 1, 1, 0, 1, 0, 0];

    let mut enc = CarrylessEncoder::new(0);
    for &b in &bits {
        enc.encode_weighted_bit2(b, weight, shift);
    }
    let bytes = enc.finish();

    let mut dec = RangeCoder::new(&bytes, true, 0);
    let decoded: Vec<u32> = (0..bits.len())
        .map(|_| dec.next_weighted_bit2(weight, shift))
        .collect();
    assert_eq!(decoded, bits);
}

#[test]
fn next_weighted_bit2_round_trips_uselow_false() {
    let weight = 0x900u32;
    let shift = 12u32;
    let bits = [0u32, 1, 1, 0, 0, 1, 0, 1, 1, 0];

    let mut enc = CarryEncoder::new();
    for &b in &bits {
        enc.encode_weighted_bit2(b, weight, shift);
    }
    let bytes = enc.finish();

    let mut dec = RangeCoder::new(&bytes, false, 0);
    let decoded: Vec<u32> = (0..bits.len())
        .map(|_| dec.next_weighted_bit2(weight, shift))
        .collect();
    assert_eq!(decoded, bits);
}

#[test]
fn next_bit_with_weight2_adapts_like_darkhorse() {
    let bits = [0u32, 0, 1, 0, 0, 1, 1, 0, 0, 0];
    let mut weight = 0x800u32;

    let mut enc = CarryEncoder::new();
    for &b in &bits {
        enc.encode_weighted_bit2(b, weight, 12);
        if b == 0 {
            weight += (0x1000 - weight) >> 5;
        } else {
            weight -= weight >> 5;
        }
    }
    let expected_weight = weight;
    let bytes = enc.finish();

    let mut dec = RangeCoder::new(&bytes, false, 0);
    let mut decoded_weight = 0x800u32;
    let decoded: Vec<u32> = bits
        .iter()
        .map(|_| dec.next_bit_with_weight2(&mut decoded_weight))
        .collect();

    assert_eq!(decoded, bits);
    assert_eq!(decoded_weight, expected_weight);
}

#[test]
fn next_bit_with_weight_adapts_like_iron() {
    let bits = [1u32, 0, 0, 1, 1, 1, 0, 0, 1, 0];
    let shift = 5u32;
    let mut weight = 0x800u32;

    let mut enc = CarrylessEncoder::new(0);
    for &b in &bits {
        enc.encode_weighted_bit(b, weight, 0x1000);
        if b == 0 {
            weight += (0x1000 - weight) >> shift;
        } else {
            weight -= weight >> shift;
        }
    }
    let expected_weight = weight;
    let bytes = enc.finish();

    let mut dec = RangeCoder::new(&bytes, true, 0);
    let mut decoded_weight = 0x800u32;
    let decoded: Vec<u32> = bits
        .iter()
        .map(|_| dec.next_bit_with_weight(&mut decoded_weight, shift).unwrap())
        .collect();

    assert_eq!(decoded, bits);
    assert_eq!(decoded_weight, expected_weight);
}

#[test]
fn next_bit_with_double_weights_adapts_like_iron() {
    let bits = [0u32, 1, 0, 0, 1, 0, 1, 1, 0, 0];
    let (shift1, shift2) = (4u32, 6u32);
    let mut w1 = 0x900u32;
    let mut w2 = 0x700u32;

    let mut enc = CarrylessEncoder::new(0);
    for &b in &bits {
        enc.encode_weighted_bit(b, (w1 + w2) / 2, 0x1000);
        if b == 0 {
            w1 += (0x1000 - w1) >> shift1;
            w2 += (0x1000 - w2) >> shift2;
        } else {
            w1 -= w1 >> shift1;
            w2 -= w2 >> shift2;
        }
    }
    let (expected_w1, expected_w2) = (w1, w2);
    let bytes = enc.finish();

    let mut dec = RangeCoder::new(&bytes, true, 0);
    let (mut d1, mut d2) = (0x900u32, 0x700u32);
    let decoded: Vec<u32> = bits
        .iter()
        .map(|_| dec.next_bit_with_double_weights(&mut d1, shift1, &mut d2, shift2).unwrap())
        .collect();

    assert_eq!(decoded, bits);
    assert_eq!((d1, d2), (expected_w1, expected_w2));
}

#[test]
fn position_starts_at_four_after_the_initial_code_read() {
    let bytes = [0u8; 8];
    let dec = RangeCoder::new(&bytes, true, 0);
    assert_eq!(
        dec.position(),
        4,
        "new() reads exactly the leading code word"
    );
}

#[test]
fn position_advances_monotonically_as_symbols_are_decoded() {
    let freqs = [1u32, 1, 1, 1];
    let symbols = [0usize, 1, 2, 3, 0, 1, 2, 3];

    let mut enc = CarrylessEncoder::new(0);
    for &s in &symbols {
        enc.encode_symbol(&freqs, s);
    }
    let bytes = enc.finish();

    let mut dec = RangeCoder::new(&bytes, true, 0);
    let mut last = dec.position();
    assert_eq!(last, 4);
    for &s in &symbols {
        assert_eq!(dec.next_symbol(&freqs).unwrap(), s);
        let now = dec.position();
        assert!(now >= last, "position must never move backwards");
        last = now;
    }
    assert!(last > 4, "decoding several symbols must consume more input");
}

#[test]
fn nonzero_bottom_forces_underflow_branch() {
    let bottom = 0x10000u32;
    let freqs = [1u32, 1, 1, 1, 1, 1, 1, 1];
    let symbols = [0usize, 7, 3, 5, 1, 6, 2, 4, 0, 7, 7, 3];

    let mut enc = CarrylessEncoder::new(bottom);
    for &s in &symbols {
        enc.encode_symbol(&freqs, s);
    }
    let bytes = enc.finish();

    let mut dec = RangeCoder::new(&bytes, true, bottom);
    let decoded: Vec<usize> = (0..symbols.len())
        .map(|_| dec.next_symbol(&freqs).unwrap())
        .collect();
    assert_eq!(decoded, symbols);
}

#[test]
fn other_bounds_round_trip() {
    for bottom in [1u32, 0x100, 0x2000, 0x20_0000, 0x80_0000] {
        let freqs = [1u32, 3, 2, 5];
        let symbols: Vec<usize> = (0..400).map(|i| (i * i + i / 3) % 4).collect();
        let mut enc = CarrylessEncoder::new(bottom);
        for &s in &symbols {
            enc.encode_symbol(&freqs, s);
        }
        let data = enc.finish();
        let mut dec = RangeCoder::new(&data, true, bottom);
        for &s in &symbols {
            assert_eq!(dec.next_symbol(&freqs), Some(s), "bottom {bottom}");
        }
    }
}

#[test]
fn weight_above_the_size_widens_the_interval() {
    let data = [0u8; 16];
    let mut dec = RangeCoder::new(&data, false, 0);
    let unit = 0xffff_ffffu32 / 0x1000;
    assert_eq!(dec.next_weighted_bit(0x800, 0x1000), Some(0));
    assert_eq!(dec.width(), unit * 0x800);
    let unit = dec.width() / 0x1000;
    assert_eq!(dec.next_weighted_bit(0x1400, 0x1000), Some(0));
    assert_eq!(dec.width(), unit * 0x1400);
}

#[test]
fn large_shifts_leave_the_interval_to_one() {
    let data = [0x12u8; 16];
    let mut dec = RangeCoder::new(&data, false, 0);
    let width = dec.width();
    assert_eq!(dec.next_weighted_bit2(0, 31), 1);
    assert_eq!(dec.width(), width);
}
