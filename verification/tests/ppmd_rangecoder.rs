use newtua_stuffit::sitx::rangecoder::RangeCoder;

struct MirrorEncoder {
    out: Vec<u8>,
    low: u32,
    range: u32,
    bottom: u32,
}

impl MirrorEncoder {
    fn new(bottom: u32) -> Self {
        MirrorEncoder {
            out: Vec::new(),
            low: 0,
            range: 0xffff_ffff,
            bottom,
        }
    }

    fn normalize(&mut self) {
        loop {
            if (self.low ^ self.low.wrapping_add(self.range)) >= 0x0100_0000 {
                if self.range >= self.bottom {
                    break;
                }
                self.range = 0u32.wrapping_sub(self.low) & self.bottom.wrapping_sub(1);
            }
            self.out.push((self.low >> 24) as u8);
            self.range <<= 8;
            self.low <<= 8;
        }
    }

    fn encode(&mut self, lowcount: u32, highcount: u32, total: u32) {
        self.range /= total;
        self.low = self.low.wrapping_add(self.range.wrapping_mul(lowcount));
        self.range = self.range.wrapping_mul(highcount - lowcount);
        self.normalize();
    }

    fn encode_weighted_bit(&mut self, bit: u32, weight: u32, size: u32) {
        if bit == 0 {
            self.encode(0, weight, size);
        } else {
            self.encode(weight, size, size);
        }
    }

    fn encode_weighted_bit2(&mut self, bit: u32, weight: u32, shift: u32) {
        let threshold = (self.range >> shift).wrapping_mul(weight);
        if bit == 0 {
            self.range = threshold;
        } else {
            self.low = self.low.wrapping_add(threshold);
            self.range = self.range.wrapping_sub(threshold);
        }
        self.normalize();
    }

    fn finish(mut self) -> Vec<u8> {
        for _ in 0..4 {
            self.out.push((self.low >> 24) as u8);
            self.low <<= 8;
        }
        self.out
    }
}

#[test]
fn current_count_and_remove_subrange_round_trip_a_symbol_stream() {
    let freqs = [5u32, 3, 1, 7];
    let symbols = [0usize, 3, 2, 1, 3, 3, 0, 1];

    let mut enc = MirrorEncoder::new(0);
    for &s in &symbols {
        let total: u32 = freqs.iter().sum();
        let cumulative: u32 = freqs[..s].iter().sum();
        enc.encode(cumulative, cumulative + freqs[s], total);
    }
    let bytes = enc.finish();

    let mut dec = RangeCoder::new(&bytes, true, 0);
    for &want in &symbols {
        let total: u32 = freqs.iter().sum();
        let tmp = dec.current_count(total).unwrap();
        let mut cumulative = 0u32;
        let mut n = 0usize;
        while n < freqs.len() - 1 && cumulative + freqs[n] <= tmp {
            cumulative += freqs[n];
            n += 1;
        }
        assert!(dec.narrow(cumulative, cumulative + freqs[n], total));
        assert_eq!(n, want);
    }
}

#[test]
fn ppmd_next_weighted_bit_round_trips() {
    let weight = 0x300u32;
    let size = 0x1000u32;
    let bits = [0u32, 0, 1, 0, 1, 1, 0, 1];

    let mut enc = MirrorEncoder::new(0);
    for &b in &bits {
        enc.encode_weighted_bit(b, weight, size);
    }
    let bytes = enc.finish();

    let mut dec = RangeCoder::new(&bytes, true, 0);
    let decoded: Vec<u32> = (0..bits.len())
        .map(|_| dec.next_weighted_bit(weight, size).unwrap())
        .collect();
    assert_eq!(decoded, bits);
}

#[test]
fn next_weighted_bit2_round_trips() {
    let weight = 0x900u32;
    let shift = 14u32;
    let bits = [1u32, 0, 0, 1, 1, 0, 1, 0, 0];

    let mut enc = MirrorEncoder::new(0);
    for &b in &bits {
        enc.encode_weighted_bit2(b, weight, shift);
    }
    let bytes = enc.finish();

    let mut dec = RangeCoder::new(&bytes, true, 0);
    let decoded: Vec<u32> = (0..bits.len())
        .map(|_| dec.next_weighted_bit2(weight, shift))
        .collect();
    assert_eq!(decoded, bits);
}

#[test]
fn brimstone_bottom_forces_the_underflow_branch() {
    let bottom = 0x10000u32;
    let freqs = [1u32, 1, 1, 1, 1, 1, 1, 1];
    let symbols = [0usize, 7, 3, 5, 1, 6, 2, 4, 0, 7, 7, 3];

    let mut enc = MirrorEncoder::new(bottom);
    for &s in &symbols {
        let total: u32 = freqs.iter().sum();
        enc.encode(s as u32, s as u32 + 1, total);
    }
    let bytes = enc.finish();

    let mut dec = RangeCoder::new(&bytes, true, bottom);
    for &want in &symbols {
        let tmp = dec.current_count(8).unwrap();
        assert!(dec.narrow(tmp, tmp + 1, 8));
        assert_eq!(tmp as usize, want);
    }
}

#[test]
fn new_reads_exactly_four_leading_bytes() {
    let bytes = [0x11, 0x22, 0x33, 0x44, 0x55, 0x66];
    let dec = RangeCoder::new(&bytes, true, 0);
    assert_eq!(dec.code(), 0x1122_3344);
    assert_eq!(dec.position(), 4);
}
