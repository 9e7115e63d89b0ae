use newtua_stuffit::error::ErrorKind;
use newtua_stuffit::lzss::LzssWindow;
use newtua_stuffit::sitx::blend::{self, is_valid_marker, scan_marker};
use newtua_stuffit::sitx::darkhorse::{
    decode, mtf_shift_distance, next_guess_distance, read_symbol, windowsize_for, INITIAL_WEIGHT,
};
use newtua_stuffit::sitx::rangecoder::RangeCoder;

const OFFSET_TABLE: [i64; 64] = [
    0, 1, 2, 3, 4, 6, 8, 0xc, 0x10, 0x18, 0x20, 0x30, 0x40, 0x60, 0x80, 0xc0, 0x100, 0x180, 0x200,
    0x300, 0x400, 0x600, 0x800, 0xc00, 0x1000, 0x1800, 0x2000, 0x3000, 0x4000, 0x6000, 0x8000,
    0xc000, 0x10000, 0x18000, 0x20000, 0x30000, 0x40000, 0x60000, 0x80000, 0xc0000, 0x100000,
    0x180000, 0x200000, 0x300000, 0x400000, 0x600000, 0x800000, 0xc00000, 0x1000000, 0x1800000,
    0x2000000, 0x3000000, 0x4000000, 0x6000000, 0x8000000, 0xc000000, 0x10000000, 0x18000000,
    0x20000000, 0x30000000, 0, 0, 0, 0,
];

const BITLENGTH_TABLE: [u32; 64] = [
    0, 0, 0, 0, 1, 1, 2, 2, 3, 3, 4, 4, 5, 5, 6, 6, 7, 7, 8, 8, 9, 9, 10, 10, 11, 11, 12, 12, 13,
    13, 14, 14, 15, 15, 16, 16, 17, 17, 18, 18, 19, 19, 20, 20, 21, 21, 22, 22, 23, 23, 24, 24, 25,
    25, 26, 26, 27, 27, 28, 28, 0, 0, 0, 0,
];

struct CarryEncoder {
    out: Vec<u8>,
    low: u64,
    range: u32,
    cache: u8,
    cache_size: u64,
    started: bool,
}

impl CarryEncoder {
    fn new() -> Self {
        CarryEncoder {
            out: Vec::new(),
            low: 0,
            range: 0xffff_ffff,
            cache: 0,
            cache_size: 1,
            started: false,
        }
    }

    fn shift_low(&mut self) {
        if (self.low as u32) < 0xff00_0000 || (self.low >> 32) != 0 {
            let carry = (self.low >> 32) as u8;
            let mut temp = self.cache;
            let mut pending = self.cache_size;
            loop {
                if self.started || pending != self.cache_size {
                    self.out.push(temp.wrapping_add(carry));
                }
                temp = 0xff;
                pending -= 1;
                if pending == 0 {
                    break;
                }
            }
            self.started = true;
            self.cache = (self.low >> 24) as u8;
            self.cache_size = 0;
        }
        self.cache_size += 1;
        self.low = (self.low << 8) & 0xffff_ffff;
    }

    fn normalize(&mut self) {
        while self.range < 0x0100_0000 {
            self.range <<= 8;
            self.shift_low();
        }
    }

    fn encode(&mut self, lowcount: u32, highcount: u32, total: u32) {
        self.range /= total;
        self.low += u64::from(self.range.wrapping_mul(lowcount));
        self.range = self.range.wrapping_mul(highcount - lowcount);
        self.normalize();
    }

    fn encode_bit(&mut self, bit: u32) {
        let freqs = [1u32, 1];
        let cumulative: u32 = freqs[..bit as usize].iter().sum();
        self.encode(cumulative, cumulative + freqs[bit as usize], 2);
    }

    fn encode_bit_with_weight2(&mut self, bit: u32, weight: &mut u32) {
        self.encode_weighted_bit2(bit, *weight, 12);
        adapt(weight, bit, 5);
    }

    fn encode_weighted_bit2(&mut self, bit: u32, weight: u32, shift: u32) {
        let threshold = (self.range >> shift).wrapping_mul(weight);
        if bit == 0 {
            self.range = threshold;
        } else {
            self.low += u64::from(threshold);
            self.range = self.range.wrapping_sub(threshold);
        }
        self.normalize();
    }

    fn finish(mut self) -> Vec<u8> {
        for _ in 0..5 {
            self.shift_low();
        }
        self.out
    }
}

fn adapt(weight: &mut u32, bit: u32, shift: u32) {
    if bit == 0 {
        *weight += (0x1000 - *weight) >> shift;
    } else {
        *weight -= *weight >> shift;
    }
}

fn encode_symbol(enc: &mut CarryEncoder, weights: &mut [u32], num: u32, value: i32) {
    let mut val: u32 = 1;
    for i in (0..num).rev() {
        let bit = (value as u32 >> i) & 1;
        enc.encode_bit_with_weight2(bit, &mut weights[val as usize]);
        val = (val << 1) | bit;
    }
}

#[test]
fn read_symbol_round_trips_various_values() {
    let values = [0i32, 15, 7, 1, 14, 8, 0, 15];
    let mut enc = CarryEncoder::new();
    let mut enc_weights = [0x800u32; 16];
    for &v in &values {
        encode_symbol(&mut enc, &mut enc_weights, 4, v);
    }
    let bytes = enc.finish();

    let mut coder = RangeCoder::new(&bytes, false, 0);
    let mut dec_weights = vec![0x800u32; 16];
    let decoded: Vec<i32> = values
        .iter()
        .map(|_| read_symbol(&mut coder, &mut dec_weights, 0, 4) as i32)
        .collect();
    assert_eq!(decoded, values);
}

#[test]
fn read_symbol_round_trips_eight_bit_values() {
    let values = [0i32, 255, 128, 64, 200, 1];
    let mut enc = CarryEncoder::new();
    let mut enc_weights = [0x800u32; 256];
    for &v in &values {
        encode_symbol(&mut enc, &mut enc_weights, 8, v);
    }
    let bytes = enc.finish();

    let mut coder = RangeCoder::new(&bytes, false, 0);
    let mut dec_weights = vec![0x800u32; 256];
    let decoded: Vec<i32> = values
        .iter()
        .map(|_| read_symbol(&mut coder, &mut dec_weights, 0, 8) as i32)
        .collect();
    assert_eq!(decoded, values);
}

fn distance_slot(offs: i64) -> (usize, i64, u32) {
    if offs < 4 {
        return (offs as usize, 0, 0);
    }
    for sym in 4..60 {
        let base = OFFSET_TABLE[sym];
        let numbits = BITLENGTH_TABLE[sym];
        let range = 1i64 << numbits;
        if offs < base + range {
            return (sym, offs - base, numbits);
        }
    }
    panic!("distance {offs} out of table range");
}

struct Encoder {
    bits: CarryEncoder,
    window: LzssWindow,
    pos: i64,
    next: i32,
    flagweights: [u32; 4],
    flagweight2: u32,
    litweights: Box<[[u32; 256]; 16]>,
    litweights2: Box<[[[u32; 2]; 256]; 16]>,
    recencyweight1: u32,
    recencyweight2: u32,
    recencyweight3: u32,
    recencyweights: [u32; 4],
    lenweight: u32,
    shortweights: [[u32; 16]; 4],
    longweights: [u32; 256],
    distlenweights: [[u32; 64]; 4],
    distweights: [[u32; 32]; 10],
    distlowbitweights: [u32; 16],
    distancetable: Vec<u64>,
    expected: Vec<u8>,
}

impl Encoder {
    fn new(window_size: usize) -> Self {
        Encoder {
            bits: CarryEncoder::new(),
            window: LzssWindow::new(window_size),
            pos: 0,
            next: -1,
            flagweights: [INITIAL_WEIGHT; 4],
            flagweight2: INITIAL_WEIGHT,
            litweights: Box::new([[INITIAL_WEIGHT; 256]; 16]),
            litweights2: Box::new([[[INITIAL_WEIGHT; 2]; 256]; 16]),
            recencyweight1: INITIAL_WEIGHT,
            recencyweight2: INITIAL_WEIGHT,
            recencyweight3: INITIAL_WEIGHT,
            recencyweights: [INITIAL_WEIGHT; 4],
            lenweight: INITIAL_WEIGHT,
            shortweights: [[INITIAL_WEIGHT; 16]; 4],
            longweights: [INITIAL_WEIGHT; 256],
            distlenweights: [[INITIAL_WEIGHT; 64]; 4],
            distweights: [[INITIAL_WEIGHT; 32]; 10],
            distlowbitweights: [INITIAL_WEIGHT; 16],
            distancetable: vec![0; 4],
            expected: Vec::new(),
        }
    }

    fn encode_literal_bits(&mut self, row: usize, guess: i32, target: u8) {
        let mut acc: u32 = 1;
        let target = u32::from(target);
        let mut bit_index: i32 = 7;
        if guess != -1 {
            let mut g = guess as u32;
            while acc < 0x100 {
                let gbit = (g >> 7) & 1;
                let bit = (target >> bit_index) & 1;
                self.bits.encode_bit_with_weight2(
                    bit,
                    &mut self.litweights2[row][acc as usize][gbit as usize],
                );
                acc = (acc << 1) | bit;
                bit_index -= 1;
                if bit != gbit {
                    break;
                }
                g <<= 1;
            }
        }
        while acc < 0x100 {
            let bit = (target >> bit_index) & 1;
            self.bits
                .encode_bit_with_weight2(bit, &mut self.litweights[row][acc as usize]);
            acc = (acc << 1) | bit;
            bit_index -= 1;
        }
    }

    fn encode_length(&mut self, index: usize, value: i32) {
        if value < 16 {
            self.bits.encode_bit_with_weight2(0, &mut self.lenweight);
            encode_symbol(&mut self.bits, &mut self.shortweights[index], 4, value);
        } else {
            self.bits.encode_bit_with_weight2(1, &mut self.lenweight);
            encode_symbol(&mut self.bits, &mut self.longweights, 8, value - 16);
        }
    }

    fn encode_distance(&mut self, len: i32, offs: i64) {
        let mut lenidx = len - 2;
        if lenidx > 3 {
            lenidx = 3;
        }
        let (sym, extra, numbits) = distance_slot(offs);
        encode_symbol(
            &mut self.bits,
            &mut self.distlenweights[lenidx as usize],
            6,
            sym as i32,
        );
        if sym < 4 {
        } else if sym < 14 {
            encode_symbol(
                &mut self.bits,
                &mut self.distweights[sym - 4],
                numbits,
                extra as i32,
            );
        } else {
            for i in (4..numbits).rev() {
                let bit = ((extra >> i) & 1) as u32;
                self.bits.encode_bit(bit);
            }
            encode_symbol(
                &mut self.bits,
                &mut self.distlowbitweights,
                4,
                (extra & 0xf) as i32,
            );
        }
    }

    fn encode_recency(&mut self, index: usize, value: i32) {
        match value {
            -1 => {
                self.bits
                    .encode_bit_with_weight2(0, &mut self.recencyweight1);
                self.bits
                    .encode_bit_with_weight2(0, &mut self.recencyweights[index]);
            }
            0 => {
                self.bits
                    .encode_bit_with_weight2(0, &mut self.recencyweight1);
                self.bits
                    .encode_bit_with_weight2(1, &mut self.recencyweights[index]);
            }
            1 => {
                self.bits
                    .encode_bit_with_weight2(1, &mut self.recencyweight1);
                self.bits
                    .encode_bit_with_weight2(0, &mut self.recencyweight2);
            }
            2 => {
                self.bits
                    .encode_bit_with_weight2(1, &mut self.recencyweight1);
                self.bits
                    .encode_bit_with_weight2(1, &mut self.recencyweight2);
                self.bits
                    .encode_bit_with_weight2(0, &mut self.recencyweight3);
            }
            _ => {
                self.bits
                    .encode_bit_with_weight2(1, &mut self.recencyweight1);
                self.bits
                    .encode_bit_with_weight2(1, &mut self.recencyweight2);
                self.bits
                    .encode_bit_with_weight2(1, &mut self.recencyweight3);
            }
        }
    }

    fn finish_match(&mut self, distance: usize, length: usize) {
        let offs = distance as i64 - 1;
        self.next = i32::from(self.window.back(next_guess_distance(offs as u64, length as u32)));
        self.window.emit_match(distance as u64, length, &mut self.expected);
        self.pos += length as i64;
    }

    fn literal(&mut self, byte: u8) {
        let idx = (self.pos & 3) as usize;
        self.bits
            .encode_bit_with_weight2(0, &mut self.flagweights[idx]);
        let prev = self.window.back(1);
        let row = (prev / 16) as usize;
        let guess = self.next;
        self.encode_literal_bits(row, guess, byte);
        self.next = -1;
        self.window.emit_literal(byte, &mut self.expected);
        self.pos += 1;
    }

    fn new_match(&mut self, distance: usize, length: usize) {
        let idx = (self.pos & 3) as usize;
        self.bits
            .encode_bit_with_weight2(1, &mut self.flagweights[idx]);
        self.bits.encode_bit_with_weight2(0, &mut self.flagweight2);
        let offs = distance as i64 - 1;
        self.encode_length(idx, length as i32 - 2);
        self.encode_distance(length as i32, offs);
        mtf_shift_distance(&mut self.distancetable, 3, offs as u64);
        self.finish_match(distance, length);
    }

    fn recency_repeat(&mut self) {
        let idx = (self.pos & 3) as usize;
        self.bits
            .encode_bit_with_weight2(1, &mut self.flagweights[idx]);
        self.bits.encode_bit_with_weight2(1, &mut self.flagweight2);
        self.encode_recency(idx, -1);
        let offs = self.distancetable[0];
        self.finish_match((offs + 1) as usize, 1);
    }

    fn recency_match(&mut self, index: usize, length: usize) {
        let idx = (self.pos & 3) as usize;
        self.bits
            .encode_bit_with_weight2(1, &mut self.flagweights[idx]);
        self.bits.encode_bit_with_weight2(1, &mut self.flagweight2);
        self.encode_recency(idx, index as i32);
        let offs = self.distancetable[index];
        mtf_shift_distance(&mut self.distancetable, index, offs);
        self.encode_length(idx, length as i32 - 2);
        self.finish_match((offs + 1) as usize, length);
    }

    fn end(&mut self) {
        let idx = (self.pos & 3) as usize;
        self.bits
            .encode_bit_with_weight2(1, &mut self.flagweights[idx]);
        self.bits.encode_bit_with_weight2(0, &mut self.flagweight2);
        self.encode_length(idx, 0x10f);
    }

    fn finish(self, window_byte: u8) -> (Vec<u8>, Vec<u8>) {
        let mut blocks = vec![window_byte, 0u8];
        blocks.extend(self.bits.finish());
        (blocks, self.expected)
    }
}

#[test]
fn literals_only_round_trip() {
    let window_byte = 0u8;
    let mut enc = Encoder::new(windowsize_for(window_byte));
    for &b in b"hello darkhorse literal test data, the quick brown fox" {
        enc.literal(b);
    }
    let (blocks, expected) = enc.finish(window_byte);
    let got = decode(&blocks, expected.len()).unwrap();
    assert_eq!(got, expected);
}

#[test]
fn new_match_exercises_all_distance_symbol_branches() {
    let window_byte = 0u8;
    let mut enc = Encoder::new(windowsize_for(window_byte));
    for &b in b"ABCDEFGH" {
        enc.literal(b);
    }
    enc.new_match(1, 3);
    enc.new_match(50, 10);
    enc.new_match(500, 20);
    enc.new_match(900_000, 5);
    let (blocks, expected) = enc.finish(window_byte);
    let got = decode(&blocks, expected.len()).unwrap();
    assert_eq!(got, expected);
}

#[test]
fn length_boundary_between_short_and_long_codes_round_trips() {
    let window_byte = 0u8;
    let mut enc = Encoder::new(windowsize_for(window_byte));
    for &b in b"boundary test data padding" {
        enc.literal(b);
    }
    enc.new_match(4, 17);
    enc.new_match(4, 18);
    enc.new_match(4, 272);
    let (blocks, expected) = enc.finish(window_byte);
    let got = decode(&blocks, expected.len()).unwrap();
    assert_eq!(got, expected);
}

#[test]
fn recency_repeat_reuses_the_most_recent_distance_at_length_one() {
    let window_byte = 0u8;
    let mut enc = Encoder::new(windowsize_for(window_byte));
    for &b in b"XYZXYZXYZ" {
        enc.literal(b);
    }
    enc.new_match(3, 6);
    enc.recency_repeat();
    let (blocks, expected) = enc.finish(window_byte);
    let got = decode(&blocks, expected.len()).unwrap();
    assert_eq!(got, expected);
}

#[test]
fn recency_repeat_as_the_very_first_token_reads_the_zeroed_distance_table() {
    let window_byte = 0u8;
    let mut enc = Encoder::new(windowsize_for(window_byte));
    enc.recency_repeat();
    for &b in b"after" {
        enc.literal(b);
    }
    let (blocks, expected) = enc.finish(window_byte);
    let got = decode(&blocks, expected.len()).unwrap();
    assert_eq!(got, expected);
}

#[test]
fn recency_match_all_four_indices_round_trip() {
    let window_byte = 0u8;
    let mut enc = Encoder::new(windowsize_for(window_byte));
    for &b in b"0123456789abcdef" {
        enc.literal(b);
    }
    enc.new_match(2, 3);
    enc.new_match(5, 3);
    enc.new_match(9, 3);
    enc.new_match(13, 3);
    enc.recency_match(0, 4);
    enc.recency_match(1, 5);
    enc.recency_match(2, 6);
    enc.recency_match(3, 7);
    let (blocks, expected) = enc.finish(window_byte);
    let got = decode(&blocks, expected.len()).unwrap();
    assert_eq!(got, expected);
}

#[test]
fn explicit_end_marker_stops_decoding_before_the_declared_size() {
    let window_byte = 0u8;
    let mut enc = Encoder::new(windowsize_for(window_byte));
    for &b in b"stop here" {
        enc.literal(b);
    }
    let expected_before_end = enc.expected.clone();
    enc.end();
    let (blocks, _) = enc.finish(window_byte);
    let got = decode(&blocks, expected_before_end.len() + 100).unwrap();
    assert_eq!(got, expected_before_end);
}

#[test]
fn output_wraps_around_the_one_megabyte_minimum_window() {
    let window_byte = 0u8;
    let mut enc = Encoder::new(windowsize_for(window_byte));
    for &b in b"wraptest" {
        enc.literal(b);
    }
    while (enc.pos as usize) < 0x100000 + 4096 {
        enc.new_match(8, 272);
    }
    let (blocks, expected) = enc.finish(window_byte);
    let got = decode(&blocks, expected.len()).unwrap();
    assert_eq!(got, expected);
}

#[test]
fn illegal_window_byte_is_rejected_without_panicking() {
    let blocks = vec![250u8, 0u8, 0, 0, 0, 0];
    let err = decode(&blocks, 4).unwrap_err();
    assert_eq!(err, ErrorKind::InvalidData);
}

#[test]
fn darkhorse_truncated_header_is_rejected() {
    let blocks = vec![5u8];
    let err = decode(&blocks, 4).unwrap_err();
    assert_eq!(err, ErrorKind::UnexpectedEof);
}

fn marker(typ: u8, size_field: u32) -> Vec<u8> {
    let mut v = vec![0x77, typ];
    v.extend_from_slice(&size_field.to_be_bytes());
    v
}

#[test]
fn accepts_marker_with_no_later_match_visible() {
    let mut buf = [0u8; 6];
    buf[0] = 0x77;
    buf[1] = 2;
    buf[2] = 0xAA;
    buf[3] = 0xBB;
    buf[4] = 0xCC;
    buf[5] = 0xDD;
    assert!(is_valid_marker(&buf));
}

#[test]
fn rejects_marker_whose_type_byte_is_out_of_range() {
    let buf = [0x77, 4, 0, 0, 0, 0];
    assert!(!is_valid_marker(&buf));
}

#[test]
fn accepts_marker_with_later_possible_match_when_size_field_low_bits_clear() {
    let mut buf = [0x77u8, 1, 0x77, 1, 0, 0];
    assert_eq!(
        u32::from_be_bytes([buf[2], buf[3], buf[4], buf[5]]) & 0x1fff,
        0
    );
    assert!(is_valid_marker(&buf));
    buf[5] = 1;
    assert_eq!(
        u32::from_be_bytes([buf[2], buf[3], buf[4], buf[5]]) & 0x1fff,
        1
    );
    assert!(!is_valid_marker(&buf));
}

#[test]
fn scan_marker_slides_past_a_false_positive_0x77() {
    let mut blocks = vec![0x77u8, 0xff];
    blocks.extend_from_slice(&marker(0, 3));
    blocks.extend_from_slice(b"abc");
    let found = scan_marker(&blocks, 0).unwrap();
    assert_eq!(found, 2);
}

#[test]
fn scan_marker_returns_none_when_fewer_than_six_bytes_remain() {
    assert_eq!(scan_marker(&[0x77, 0, 0], 0), None);
    assert_eq!(scan_marker(&[], 0), None);
}

#[test]
fn single_stored_subblock_round_trips() {
    let mut blocks = marker(0, 5);
    blocks.extend_from_slice(b"hello");
    let out = blend::decode(&blocks, 5).unwrap();
    assert_eq!(out, b"hello");
}

#[test]
fn multiple_stored_subblocks_concatenate() {
    let mut blocks = marker(0, 3);
    blocks.extend_from_slice(b"foo");
    blocks.extend_from_slice(&marker(0, 3));
    blocks.extend_from_slice(b"bar");
    let out = blend::decode(&blocks, 6).unwrap();
    assert_eq!(out, b"foobar");
}

#[test]
fn stream_ends_early_when_no_further_marker_is_found() {
    let mut blocks = marker(0, 3);
    blocks.extend_from_slice(b"foo");
    let out = blend::decode(&blocks, 100).unwrap();
    assert_eq!(out, b"foo");
}

#[test]
fn truncated_stored_body_is_rejected() {
    let mut blocks = marker(0, 10);
    blocks.extend_from_slice(b"short");
    let err = blend::decode(&blocks, 10).unwrap_err();
    assert_eq!(err, ErrorKind::UnexpectedEof);
}

#[test]
fn darkhorse_subblock_round_trips() {
    let window_byte = 0u8;
    let mut enc = Encoder::new(windowsize_for(window_byte));
    for &b in b"blend darkhorse payload" {
        enc.literal(b);
    }
    let (dh_blocks, expected) = enc.finish(window_byte);

    let mut blocks = marker(1, expected.len() as u32);
    blocks.extend_from_slice(&dh_blocks);
    blocks.extend_from_slice(&marker(0, 3));
    blocks.extend_from_slice(b"XYZ");

    let mut want = expected.clone();
    want.extend_from_slice(b"XYZ");
    let out = blend::decode(&blocks, want.len()).unwrap();
    assert_eq!(out, want);
}

#[test]
fn cyanide_subblock_of_empty_blocks_round_trips() {
    let mut cy_blocks = vec![0u8];
    cy_blocks.push(0xff);

    let mut blocks = marker(2, 0);
    blocks.extend_from_slice(&cy_blocks);
    blocks.extend_from_slice(&marker(0, 4));
    blocks.extend_from_slice(b"tail");

    let out = blend::decode(&blocks, 4).unwrap();
    assert_eq!(out, b"tail");
}

#[test]
fn brimstone_subblock_stops_at_declared_size_field() {
    let mut blocks = marker(3, 4);
    blocks.push(16);
    blocks.push(4);
    blocks.extend_from_slice(&[0xAAu8; 64]);

    let out = blend::decode(&blocks, 4).unwrap();
    assert!(out.len() <= 4);
}

#[test]
fn mixed_stream_of_all_four_subcodec_types_concatenates_in_order() {
    let window_byte = 0u8;
    let mut enc = Encoder::new(windowsize_for(window_byte));
    for &b in b"mix" {
        enc.literal(b);
    }
    let (dh_blocks, dh_expected) = enc.finish(window_byte);

    let mut blocks = marker(0, 3);
    blocks.extend_from_slice(b"AAA");
    blocks.extend_from_slice(&marker(1, dh_expected.len() as u32));
    blocks.extend_from_slice(&dh_blocks);
    blocks.extend_from_slice(&marker(0, 3));
    blocks.extend_from_slice(b"BBB");

    let mut want = b"AAA".to_vec();
    want.extend_from_slice(&dh_expected);
    want.extend_from_slice(b"BBB");

    let out = blend::decode(&blocks, want.len()).unwrap();
    assert_eq!(out, want);
}

#[test]
fn illegal_marker_type_byte_is_never_reached_by_scan() {
    let mut blocks = vec![0x77u8, 5, 0, 0, 0, 0];
    blocks.extend_from_slice(&marker(0, 2));
    blocks.extend_from_slice(b"ok");
    let out = blend::decode(&blocks, 2).unwrap();
    assert_eq!(out, b"ok");
}
