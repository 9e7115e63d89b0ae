use newtua_stuffit::error::ErrorKind;
use newtua_stuffit::sitx::bwt::{unsort_bwt, unsort_st4, MtfState};
use newtua_stuffit::sitx::iron::{decode, reset_block_stream, FancyMtf, Header, Mtf};
use newtua_stuffit::sitx::p2::Reader;

struct CarryEncoder {
    out: Vec<u8>,
    low: u64,
    range: u32,
    cache: u8,
    cache_size: u64,
    started: bool,
}

impl CarryEncoder {
    fn new() -> Self {
        CarryEncoder {
            out: Vec::new(),
            low: 0,
            range: 0xffff_ffff,
            cache: 0,
            cache_size: 1,
            started: false,
        }
    }

    fn shift_low(&mut self) {
        if (self.low as u32) < 0xff00_0000 || (self.low >> 32) != 0 {
            let carry = (self.low >> 32) as u8;
            let mut temp = self.cache;
            let mut pending = self.cache_size;
            loop {
                if self.started || pending != self.cache_size {
                    self.out.push(temp.wrapping_add(carry));
                }
                temp = 0xff;
                pending -= 1;
                if pending == 0 {
                    break;
                }
            }
            self.started = true;
            self.cache = (self.low >> 24) as u8;
            self.cache_size = 0;
        }
        self.cache_size += 1;
        self.low = (self.low << 8) & 0xffff_ffff;
    }

    fn normalize(&mut self) {
        while self.range < 0x0100_0000 {
            self.range <<= 8;
            self.shift_low();
        }
    }

    fn encode(&mut self, lowcount: u32, highcount: u32, total: u32) {
        self.range /= total;
        self.low += u64::from(self.range.wrapping_mul(lowcount));
        self.range = self.range.wrapping_mul(highcount - lowcount);
        self.normalize();
    }

    fn encode_symbol(&mut self, freqs: &[u32], symbol: usize) {
        let total: u32 = freqs.iter().sum();
        let cumulative: u32 = freqs[..symbol].iter().sum();
        self.encode(cumulative, cumulative + freqs[symbol], total);
    }

    fn encode_weighted_bit(&mut self, bit: u32, weight: u32, size: u32) {
        if bit == 0 {
            self.encode(0, weight, size);
        } else {
            self.encode(weight, size, size);
        }
    }

    fn encode_bit_with_weight(&mut self, bit: u32, weight: &mut u32, shift: u32) {
        self.encode_weighted_bit(bit, *weight, 0x1000);
        adapt(weight, bit, shift);
    }

    fn encode_bit_with_double_weights(&mut self, bit: u32, w1: &mut u32, shift1: u32, w2: &mut u32, shift2: u32) {
        self.encode_weighted_bit(bit, (*w1 + *w2) / 2, 0x1000);
        adapt(w1, bit, shift1);
        adapt(w2, bit, shift2);
    }

    fn finish(mut self) -> Vec<u8> {
        for _ in 0..5 {
            self.shift_low();
        }
        self.out
    }
}

fn adapt(weight: &mut u32, bit: u32, shift: u32) {
    if bit == 0 {
        *weight += (0x1000 - *weight) >> shift;
    } else {
        *weight -= *weight >> shift;
    }
}

#[derive(Default)]
struct Writer {
    out: Vec<u8>,
    cur: u8,
    nbits: u8,
}

impl Writer {
    fn bit(&mut self, b: u32) {
        if b & 1 != 0 {
            self.cur |= 1 << self.nbits;
        }
        self.nbits += 1;
        if self.nbits == 8 {
            self.out.push(self.cur);
            self.cur = 0;
            self.nbits = 0;
        }
    }

    fn p2(&mut self, result: u64) {
        let value = result + 1;
        let n = value.count_ones();
        for _ in 0..n - 1 {
            self.bit(1);
        }
        self.bit(0);
        let hb = 63 - value.leading_zeros();
        for i in 0..=hb {
            self.bit(((value >> i) & 1) as u32);
        }
    }

    fn flush(&mut self) {
        if self.nbits > 0 {
            self.out.push(self.cur);
            self.cur = 0;
            self.nbits = 0;
        }
    }

    fn raw(&mut self, data: &[u8]) {
        assert_eq!(self.nbits, 0, "raw write off a byte boundary");
        self.out.extend_from_slice(data);
    }

    fn finish(mut self) -> Vec<u8> {
        self.flush();
        self.out
    }
}

#[allow(clippy::too_many_arguments)]
fn write_header(
    w: &mut Writer,
    st4: bool,
    fancy: bool,
    maxfreq1: u32,
    maxfreq2: u32,
    maxfreq3: u32,
    byteshift1: u32,
    byteshift2: u32,
    byteshift3: u32,
    countshift1: u32,
    countshift2: u32,
    countshift3: u32,
) {
    w.bit(st4 as u32);
    w.bit(fancy as u32);
    w.p2(u64::from(maxfreq1.trailing_zeros()));
    w.p2(u64::from(maxfreq2.trailing_zeros()));
    w.p2(u64::from(maxfreq3.trailing_zeros()));
    w.p2(u64::from(byteshift1));
    w.p2(u64::from(byteshift2));
    w.p2(u64::from(byteshift3));
    w.p2(u64::from(countshift1));
    w.p2(u64::from(countshift2));
    w.p2(u64::from(countshift3));
    w.flush();
}

fn write_default_header(w: &mut Writer, st4: bool, fancy: bool) {
    write_header(w, st4, fancy, 0x2000, 0x2000, 0x2000, 5, 5, 5, 4, 4, 4);
}

fn write_end_marker(w: &mut Writer) {
    w.bit(1);
}

#[test]
fn header_fields_round_trip_in_declared_order() {
    let mut w = Writer::default();
    write_header(&mut w, true, false, 0x40, 0x8, 0x1000, 1, 2, 3, 4, 5, 6);
    write_end_marker(&mut w);
    let bytes = w.finish();

    let mut r = Reader::new(&bytes);
    let header = reset_block_stream(&mut r).unwrap();
    assert!(header.st4transform);
    assert!(!header.fancymtf);
    assert_eq!(header.maxfreq1, 0x40);
    assert_eq!(header.maxfreq2, 0x8);
    assert_eq!(header.maxfreq3, 0x1000);
    assert_eq!(header.byteshift1, 1);
    assert_eq!(header.byteshift2, 2);
    assert_eq!(header.byteshift3, 3);
    assert_eq!(header.countshift1, 4);
    assert_eq!(header.countshift2, 5);
    assert_eq!(header.countshift3, 6);
}

#[test]
fn immediate_end_marker_decodes_to_nothing() {
    let mut w = Writer::default();
    write_default_header(&mut w, false, false);
    write_end_marker(&mut w);
    let bytes = w.finish();
    assert_eq!(decode(&bytes, 0).unwrap(), Vec::<u8>::new());
}

#[test]
fn single_uncompressed_block_round_trips() {
    let payload = b"iron uncompressed block payload".to_vec();
    let mut w = Writer::default();
    write_default_header(&mut w, false, false);
    w.bit(0);
    w.p2(payload.len() as u64);
    w.bit(1);
    w.flush();
    w.raw(&payload);
    write_end_marker(&mut w);
    let bytes = w.finish();

    assert_eq!(decode(&bytes, payload.len()).unwrap(), payload);
}

#[test]
fn multiple_uncompressed_blocks_concatenate() {
    let a = b"first block ".to_vec();
    let b = b"second block, longer than the first one".to_vec();
    let mut w = Writer::default();
    write_default_header(&mut w, false, false);
    for chunk in [&a, &b] {
        w.bit(0);
        w.p2(chunk.len() as u64);
        w.bit(1);
        w.flush();
        w.raw(chunk);
    }
    write_end_marker(&mut w);
    let bytes = w.finish();

    let mut expected = a.clone();
    expected.extend_from_slice(&b);
    assert_eq!(decode(&bytes, expected.len()).unwrap(), expected);
}

#[test]
fn stream_stops_once_size_is_reached_even_without_an_end_marker() {
    let payload = b"only this much matters".to_vec();
    let mut w = Writer::default();
    write_default_header(&mut w, false, false);
    w.bit(0);
    w.p2(payload.len() as u64);
    w.bit(1);
    w.flush();
    w.raw(&payload);
    let bytes = w.finish();

    let want = 4usize;
    assert_eq!(decode(&bytes, want).unwrap(), payload[..want]);
}

#[test]
fn iron_truncated_header_is_rejected() {
    let bytes: Vec<u8> = vec![];
    let err = decode(&bytes, 0).unwrap_err();
    assert_eq!(err, ErrorKind::UnexpectedEof);
}

#[test]
fn oversized_maxfreq_exponent_is_rejected_without_panicking() {
    let mut w = Writer::default();
    w.bit(0);
    w.bit(0);
    w.p2(63);
    let bytes = w.finish();
    let err = decode(&bytes, 0).unwrap_err();
    assert_eq!(err, ErrorKind::InvalidData);
}

#[test]
fn fancy_mtf_first_symbol_of_each_rank_is_identity() {
    let mut mtf = FancyMtf::new();
    assert_eq!(mtf.decode(0), 1);
    assert_eq!(mtf.find_rank(1), 0);
}

#[test]
fn fancy_mtf_find_rank_matches_a_freshly_decoded_value() {
    let mut mtf = FancyMtf::new();
    for v in [0u32, 5, 2, 9, 0] {
        let byte = mtf.decode(v);
        assert_eq!(mtf.find_rank(byte), mtf.intarray2[byte as usize]);
    }
}

fn runs_of(data: &[u8]) -> Vec<(u8, u32)> {
    let mut out = Vec::new();
    let mut it = data.iter();
    if let Some(&first) = it.next() {
        let mut cur = first;
        let mut count = 1u32;
        for &b in it {
            if b == cur {
                count += 1;
            } else {
                out.push((cur, count));
                cur = b;
                count = 1;
            }
        }
        out.push((cur, count));
    }
    out
}

struct ModelEncoder {
    bits: CarryEncoder,
    mainfrequencies: [u32; 4],
    lastbytefrequencies: Vec<[u32; 4]>,
    somethingfrequencies: Vec<[u32; 4]>,
    bytelengthweights: [u32; 8],
    bytelengthweights2: [[u32; 8]; 8],
    bytebitweights: [[u32; 128]; 8],
    countlengthweights: [[[u32; 24]; 16]; 4],
    countlengthweights2: [[u32; 24]; 256],
    countbitweights: [[u32; 24]; 24],
    mtf: Mtf,
    valuehistory: u32,
    lengthhistory: u32,
    lastbits: u32,
    lastbyte: u8,
}

impl ModelEncoder {
    fn new(fancymtf: bool) -> Self {
        ModelEncoder {
            bits: CarryEncoder::new(),
            mainfrequencies: [1u32; 4],
            lastbytefrequencies: vec![[0u32; 4]; 256],
            somethingfrequencies: vec![[0u32; 4]; 4 * 256],
            bytelengthweights: [0x800u32; 8],
            bytelengthweights2: [[0x800u32; 8]; 8],
            bytebitweights: [[0x800u32; 128]; 8],
            countlengthweights: [[[0x800u32; 24]; 16]; 4],
            countlengthweights2: [[0x800u32; 24]; 256],
            countbitweights: [[0x800u32; 24]; 24],
            mtf: if fancymtf {
                Mtf::Fancy(FancyMtf::new())
            } else {
                Mtf::Plain(MtfState::new())
            },
            valuehistory: 0,
            lengthhistory: 0,
            lastbits: 0,
            lastbyte: 0,
        }
    }

    fn rank_of(&self, byte: u8) -> usize {
        let rank = match &self.mtf {
            Mtf::Fancy(f) => f.find_rank(byte) as usize,
            Mtf::Plain(m) => m.find(byte).unwrap(),
        };
        assert_ne!(
            rank, 256,
            "test sequence pushed byte {byte} to the unreachable phantom slot"
        );
        rank
    }

    fn encode_run(&mut self, byte: u8, count: u32, header: &Header) {
        let rank = self.rank_of(byte);
        let value = ((rank + 255) % 256) as u32;

        let something_idx =
            (self.lengthhistory & 3) as usize * 256 + self.valuehistory as usize;
        let freqs1 = self.mainfrequencies;
        let freqs2 = self.lastbytefrequencies[self.lastbyte as usize];
        let freqs3 = self.somethingfrequencies[something_idx];
        let frequencies: [u32; 4] = std::array::from_fn(|j| freqs1[j] + freqs2[j] + freqs3[j]);

        let symbol = if value < 3 { value as usize } else { 3 };
        self.bits.encode_symbol(&frequencies, symbol);

        self.mainfrequencies[symbol] += 2;
        self.lastbytefrequencies[self.lastbyte as usize][symbol] += 2;
        self.somethingfrequencies[something_idx][symbol] += 2;

        let total1: u32 = self.mainfrequencies.iter().sum();
        let total2: u32 = self.lastbytefrequencies[self.lastbyte as usize]
            .iter()
            .sum();
        let total3: u32 = self.somethingfrequencies[something_idx].iter().sum();
        if total1 > header.maxfreq1 {
            for f in self.mainfrequencies.iter_mut() {
                *f = f.div_ceil(2);
            }
        }
        if total2 > header.maxfreq2 {
            for f in self.lastbytefrequencies[self.lastbyte as usize].iter_mut() {
                *f /= 2;
            }
        }
        if total3 > header.maxfreq3 {
            for f in self.somethingfrequencies[something_idx].iter_mut() {
                *f /= 2;
            }
        }

        if symbol == 3 {
            let v0 = value - 1;
            let bitlen = 32 - v0.leading_zeros();
            let bits_final = bitlen - 2;
            assert!(
                bits_final <= 6,
                "value {value} needs an unreachable escape length"
            );

            let mut position = 0u32;
            while position < bits_final {
                self.bits.encode_bit_with_double_weights(
                    1,
                    &mut self.bytelengthweights[position as usize],
                    header.byteshift1,
                    &mut self.bytelengthweights2[self.lastbits as usize][position as usize],
                    header.byteshift2,
                );
                position += 1;
            }
            if bits_final < 6 {
                self.bits.encode_bit_with_double_weights(
                    0,
                    &mut self.bytelengthweights[bits_final as usize],
                    header.byteshift1,
                    &mut self.bytelengthweights2[self.lastbits as usize][bits_final as usize],
                    header.byteshift2,
                );
            }

            let mut acc: u32 = 1;
            for j in (0..=bits_final).rev() {
                let bit = (v0 >> j) & 1;
                self.bits.encode_bit_with_weight(
                    bit,
                    &mut self.bytebitweights[bits_final as usize][acc as usize],
                    header.byteshift3,
                );
                acc = (acc << 1) | bit;
            }
            self.lastbits = bits_final;
        }

        let produced = self.mtf.decode(value);
        assert_eq!(produced, byte);

        let shortvalue = value.min(3);

        assert!(count >= 1);
        let count_bits = 32 - count.leading_zeros() - 1;
        assert!(
            count_bits < 24,
            "run count {count} needs an illegal-data length"
        );

        let mut position = 0u32;
        while position < count_bits {
            self.bits.encode_bit_with_double_weights(
                1,
                &mut self.countlengthweights[shortvalue as usize][self.lengthhistory as usize]
                    [position as usize],
                header.countshift1,
                &mut self.countlengthweights2[byte as usize][position as usize],
                header.countshift2,
            );
            position += 1;
        }
        self.bits.encode_bit_with_double_weights(
            0,
            &mut self.countlengthweights[shortvalue as usize][self.lengthhistory as usize]
                [count_bits as usize],
            header.countshift1,
            &mut self.countlengthweights2[byte as usize][count_bits as usize],
            header.countshift2,
        );

        for j in 0..count_bits {
            let bit = (count >> (count_bits - 1 - j)) & 1;
            self.bits.encode_bit_with_weight(
                bit,
                &mut self.countbitweights[count_bits as usize][j as usize],
                header.countshift3,
            );
        }

        self.valuehistory = ((self.valuehistory << 2) | shortvalue) & 0xff;
        self.lengthhistory = (self.lengthhistory << 1) & 0x0e;
        if count_bits > 1 {
            self.lengthhistory |= 1;
        }
        self.lastbyte = byte;
    }

    fn finish(self) -> Vec<u8> {
        self.bits.finish()
    }
}

fn default_header(st4transform: bool, fancymtf: bool) -> Header {
    Header {
        st4transform,
        fancymtf,
        maxfreq1: 0x2000,
        maxfreq2: 0x2000,
        maxfreq3: 0x2000,
        byteshift1: 5,
        byteshift2: 5,
        byteshift3: 5,
        countshift1: 4,
        countshift2: 4,
        countshift3: 4,
    }
}

fn single_compressed_block_stream(
    st4transform: bool,
    fancymtf: bool,
    firstindex: usize,
    sorted: &[u8],
) -> Vec<u8> {
    let header = default_header(st4transform, fancymtf);
    let mut enc = ModelEncoder::new(fancymtf);
    for (byte, count) in runs_of(sorted) {
        enc.encode_run(byte, count, &header);
    }
    let coded = enc.finish();

    let mut w = Writer::default();
    write_header(
        &mut w,
        st4transform,
        fancymtf,
        header.maxfreq1,
        header.maxfreq2,
        header.maxfreq3,
        header.byteshift1,
        header.byteshift2,
        header.byteshift3,
        header.countshift1,
        header.countshift2,
        header.countshift3,
    );
    w.bit(0);
    w.p2(sorted.len() as u64);
    w.bit(0);
    w.p2(firstindex as u64);
    w.flush();
    w.raw(&[0u8]);
    w.raw(&coded);
    w.finish()
}

#[test]
fn compressed_block_with_plain_mtf_and_bwt_round_trips() {
    let sorted = b"aaabbbcccaaabbbccc".to_vec();
    let firstindex = 3usize;
    let stream = single_compressed_block_stream(false, false, firstindex, &sorted);
    let expected = unsort_bwt(&sorted, firstindex);
    assert_eq!(decode(&stream, expected.len()).unwrap(), expected);
}

#[test]
fn compressed_block_with_fancy_mtf_and_bwt_round_trips() {
    let sorted = b"aaabbbcccaaabbbccc".to_vec();
    let firstindex = 5usize;
    let stream = single_compressed_block_stream(false, true, firstindex, &sorted);
    let expected = unsort_bwt(&sorted, firstindex);
    assert_eq!(decode(&stream, expected.len()).unwrap(), expected);
}

#[test]
fn compressed_block_with_st4_dispatch_round_trips() {
    let sorted = vec![1u8, 1, 2, 1];
    let firstindex = 0usize;
    let stream = single_compressed_block_stream(true, false, firstindex, &sorted);
    let expected = unsort_st4(&sorted, firstindex).unwrap();
    assert_eq!(decode(&stream, expected.len()).unwrap(), expected);
}

#[test]
fn escape_encoded_values_round_trip() {
    let sorted: Vec<u8> = (0u8..40).chain((0u8..40).rev()).collect();
    let firstindex = 7usize;
    let stream = single_compressed_block_stream(false, false, firstindex, &sorted);
    let expected = unsort_bwt(&sorted, firstindex);
    assert_eq!(decode(&stream, expected.len()).unwrap(), expected);
}

#[test]
fn escape_encoded_values_round_trip_with_fancy_mtf() {
    let sorted: Vec<u8> = (0u8..40).chain((0u8..40).rev()).collect();
    let firstindex = 11usize;
    let stream = single_compressed_block_stream(false, true, firstindex, &sorted);
    let expected = unsort_bwt(&sorted, firstindex);
    assert_eq!(decode(&stream, expected.len()).unwrap(), expected);
}

#[test]
fn long_run_needs_a_multi_bit_count_round_trips() {
    let mut sorted = vec![b'x'; 300];
    sorted.extend_from_slice(b"trailer");
    let firstindex = 42usize;
    let stream = single_compressed_block_stream(false, false, firstindex, &sorted);
    let expected = unsort_bwt(&sorted, firstindex);
    assert_eq!(decode(&stream, expected.len()).unwrap(), expected);
}

#[test]
fn single_byte_block_round_trips() {
    let sorted = vec![42u8];
    let stream = single_compressed_block_stream(false, false, 0, &sorted);
    let expected = unsort_bwt(&sorted, 0);
    assert_eq!(decode(&stream, expected.len()).unwrap(), expected);
}

#[test]
fn fancy_mtf_takes_the_low_bits_of_any_value() {
    let mut small = FancyMtf::new();
    let mut large = FancyMtf::new();
    for value in [5u32, 5, 0, 254, 17, 17, 3, 255] {
        let b = small.decode(value);
        assert_eq!(large.decode(0xffff_ff00 + value - u32::from(value == 255) * 0x100), b);
        assert_eq!(small.intarray2[b as usize], 0);
        assert_eq!(small.intarray2, large.intarray2);
    }
}
