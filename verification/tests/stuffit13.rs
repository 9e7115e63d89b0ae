use newtua_stuffit::bits::BitWriter;
use newtua_stuffit::error::ErrorKind;
use newtua_stuffit::stuffit13::{decode, NUM_LITERAL_SYMBOLS};
use newtua_stuffit::stuffit13_tables::{FIRST_CODE_LENGTHS_1, META_CODES, META_CODE_LENGTHS};
use std::collections::HashMap;

fn canonical_codes(lengths: &[u32]) -> HashMap<usize, (u32, u32)> {
    let mut map = HashMap::new();
    let mut code = 0u32;
    for length in 1..=32u32 {
        for (i, &len) in lengths.iter().enumerate() {
            if len != length {
                continue;
            }
            map.insert(i, (code, length));
            code += 1;
        }
        code <<= 1;
    }
    map
}

fn write_canonical(w: &mut BitWriter, code: u32, length: u32) {
    for bitpos in (0..length).rev() {
        w.bit((code >> bitpos) & 1 != 0);
    }
}

fn write_meta(w: &mut BitWriter, sym: usize) {
    w.bits(META_CODES[sym], META_CODE_LENGTHS[sym]);
}

fn write_length_table(w: &mut BitWriter, lengths: &[u32]) {
    for &l in lengths {
        if l == 0 {
            write_meta(w, 31);
        } else {
            write_meta(w, (l - 1) as usize);
        }
    }
}

fn ceil_log2(n: usize) -> u32 {
    if n <= 1 {
        0
    } else {
        32 - (n as u32 - 1).leading_zeros()
    }
}

#[derive(Clone, Copy)]
enum Op {
    Lit(u8),
    Match { dist: usize, len: usize },
}

fn length_symbol(len: usize) -> usize {
    if len <= 64 {
        0x100 + (len - 3)
    } else if len - 65 < 1024 {
        0x13e
    } else {
        0x13f
    }
}

fn offset_fields(dist: usize) -> (usize, u32, u8) {
    match dist {
        1 => (0, 0, 0),
        2 => (1, 0, 0),
        d => {
            let x = (d - 1) as u32;
            let bl_minus_1 = 31 - x.leading_zeros();
            let extra = x - (1 << bl_minus_1);
            ((bl_minus_1 + 1) as usize, extra, bl_minus_1 as u8)
        }
    }
}

fn encode_dynamic(ops: &[Op]) -> Vec<u8> {
    let mut data_syms: Vec<usize> = Vec::new();
    let mut off_syms: Vec<usize> = Vec::new();
    for op in ops {
        match *op {
            Op::Lit(b) => data_syms.push(b as usize),
            Op::Match { dist, len } => {
                data_syms.push(length_symbol(len));
                off_syms.push(offset_fields(dist).0);
            }
        }
    }
    data_syms.sort_unstable();
    data_syms.dedup();
    off_syms.sort_unstable();
    off_syms.dedup();

    let data_bits = ceil_log2(data_syms.len()).max(1);
    let off_bits = ceil_log2(off_syms.len()).max(1);

    let mut first_lengths = vec![0u32; NUM_LITERAL_SYMBOLS];
    for &s in &data_syms {
        first_lengths[s] = data_bits;
    }
    const OFF_SIZE: usize = 17;
    let mut off_lengths = vec![0u32; OFF_SIZE];
    for &s in &off_syms {
        off_lengths[s] = off_bits;
    }

    let first_codes = canonical_codes(&first_lengths);
    let off_codes = canonical_codes(&off_lengths);

    let mut w = BitWriter::default();
    w.bits(0x0F, 8);
    write_length_table(&mut w, &first_lengths);
    write_length_table(&mut w, &off_lengths);

    for op in ops {
        match *op {
            Op::Lit(b) => {
                let (c, l) = first_codes[&(b as usize)];
                write_canonical(&mut w, c, l);
            }
            Op::Match { dist, len } => {
                let sym = length_symbol(len);
                let (c, l) = first_codes[&sym];
                write_canonical(&mut w, c, l);
                if sym == 0x13e {
                    w.bits((len - 65) as u32, 10);
                } else if sym == 0x13f {
                    w.bits((len - 65) as u32, 15);
                }
                let (osym, extra, ebits) = offset_fields(dist);
                let (oc, ol) = off_codes[&osym];
                write_canonical(&mut w, oc, ol);
                if ebits > 0 {
                    w.bits(extra, ebits as u32);
                }
            }
        }
    }
    w.finish()
}

fn encode_static_literals(content: &[u8]) -> Vec<u8> {
    let codes = canonical_codes(&FIRST_CODE_LENGTHS_1);
    let mut w = BitWriter::default();
    w.bits(0x10, 8);
    for &b in content {
        let (c, l) = codes[&(b as usize)];
        write_canonical(&mut w, c, l);
    }
    w.finish()
}

fn expand(ops: &[Op]) -> Vec<u8> {
    let mut out = Vec::new();
    for op in ops {
        match *op {
            Op::Lit(b) => out.push(b),
            Op::Match { dist, len } => {
                for _ in 0..len {
                    let src = out.len() - dist;
                    out.push(out[src]);
                }
            }
        }
    }
    out
}

fn roundtrip(ops: &[Op]) {
    let expected = expand(ops);
    let stream = encode_dynamic(ops);
    let got = decode(&stream, expected.len()).unwrap();
    assert_eq!(got, expected);
}

#[test]
fn dynamic_literals_only() {
    let ops: Vec<Op> = b"hello, dynamic StuffIt world"
        .iter()
        .map(|&b| Op::Lit(b))
        .collect();
    roundtrip(&ops);
}

#[test]
fn dynamic_literal_then_match() {
    let ops = [
        Op::Lit(b'a'),
        Op::Lit(b'b'),
        Op::Lit(b'c'),
        Op::Lit(b'd'),
        Op::Match { dist: 4, len: 4 },
    ];
    roundtrip(&ops);
}

#[test]
fn dynamic_match_distance_extra_bits() {
    let ops = [
        Op::Lit(b'a'),
        Op::Lit(b'b'),
        Op::Lit(b'c'),
        Op::Lit(b'd'),
        Op::Lit(b'e'),
        Op::Match { dist: 5, len: 5 },
    ];
    roundtrip(&ops);
}

#[test]
fn dynamic_overlapping_run() {
    let ops = [Op::Lit(b'z'), Op::Match { dist: 1, len: 30 }];
    roundtrip(&ops);
}

#[test]
fn dynamic_length_short_branch() {
    let ops = [Op::Lit(b'p'), Op::Match { dist: 1, len: 64 }];
    roundtrip(&ops);
}

#[test]
fn dynamic_length_0x13e_branch() {
    let ops = [Op::Lit(b'q'), Op::Match { dist: 1, len: 100 }];
    roundtrip(&ops);
}

#[test]
fn dynamic_length_0x13f_branch() {
    let ops = [Op::Lit(b'w'), Op::Match { dist: 1, len: 1089 }];
    roundtrip(&ops);
}

#[test]
fn static_table_literals_roundtrip() {
    let content = b"Static StuffIt 13 table, literals only!";
    let stream = encode_static_literals(content);
    let got = decode(&stream, content.len()).unwrap();
    assert_eq!(got, content);
}

#[test]
fn stuffit13_zero_outlen_returns_empty_without_parsing() {
    assert_eq!(decode(&[], 0).unwrap(), Vec::<u8>::new());
    assert_eq!(decode(&[0x60], 0).unwrap(), Vec::<u8>::new());
}

#[test]
fn illegal_table_selector_is_invalid_data() {
    let err = decode(&[0x60], 5).unwrap_err();
    assert_eq!(err, ErrorKind::InvalidData);
}

#[test]
fn stuffit13_truncated_stream_is_unexpected_eof() {
    let ops = [Op::Lit(b'a'), Op::Match { dist: 1, len: 1089 }];
    let mut stream = encode_dynamic(&ops);
    stream.truncate(stream.len() - 2);
    let err = decode(&stream, expand(&ops).len()).unwrap_err();
    assert_eq!(err, ErrorKind::UnexpectedEof);
}
