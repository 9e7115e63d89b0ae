use newtua_stuffit::sitx::p2::{read_block_stream, Reader};

fn encode_p2(bits: &mut Vec<bool>, result: u64) {
    let value = result + 1;
    let n = value.count_ones();
    for _ in 0..n - 1 {
        bits.push(true);
    }
    bits.push(false);
    let hb = 63 - value.leading_zeros();
    for i in 0..=hb {
        bits.push((value >> i) & 1 != 0);
    }
}

fn pack(bits: &[bool]) -> Vec<u8> {
    let mut out = vec![0u8; bits.len().div_ceil(8)];
    for (i, &b) in bits.iter().enumerate() {
        if b {
            out[i / 8] |= 1 << (i % 8);
        }
    }
    out
}

#[test]
fn bits_le_reads_lsb_first_across_bytes() {
    let mut r = Reader::new(&[0b1011_0010, 0b0000_0001]);
    assert_eq!(r.bit().unwrap(), 0);
    assert_eq!(r.bit().unwrap(), 1);
    assert_eq!(r.bits_le(3).unwrap(), 0b100);
    assert_eq!(r.bits_le(6).unwrap(), 0b00_1101);
}

#[test]
fn byte_on_boundary_returns_raw_byte() {
    let mut r = Reader::new(&[0xAB, 0xCD]);
    assert_eq!(r.byte().unwrap(), 0xAB);
    assert_eq!(r.byte().unwrap(), 0xCD);
}

#[test]
fn u32_and_u64_are_big_endian() {
    let mut r = Reader::new(&[0x12, 0x34, 0x56, 0x78]);
    assert_eq!(r.read_u32_be().unwrap(), 0x1234_5678);
    let mut r = Reader::new(&[1, 2, 3, 4, 5, 6, 7, 8]);
    assert_eq!(r.read_u64_be().unwrap(), 0x0102_0304_0506_0708);
}

#[test]
fn read_p2_round_trips_via_mirror_encoder() {
    for result in [0u64, 1, 2, 3, 7, 8, 15, 16, 127, 255, 1000, 65535, 1 << 20] {
        let mut bits = Vec::new();
        encode_p2(&mut bits, result);
        let bytes = pack(&bits);
        let mut r = Reader::new(&bytes);
        assert_eq!(r.read_p2().unwrap(), result, "result={result}");
    }
}

#[test]
fn read_p2_zero_is_two_bits() {
    let mut r = Reader::new(&[0b10]);
    assert_eq!(r.read_p2().unwrap(), 0);
}

#[test]
fn read_p2_sequence_shares_the_bitstream() {
    let mut bits = Vec::new();
    for v in [5u64, 0, 42, 3] {
        encode_p2(&mut bits, v);
    }
    let bytes = pack(&bits);
    let mut r = Reader::new(&bytes);
    for v in [5u64, 0, 42, 3] {
        assert_eq!(r.read_p2().unwrap(), v);
    }
}

#[test]
fn string_reads_length_then_raw_bytes_then_flushes() {
    let mut bits = Vec::new();
    encode_p2(&mut bits, 3);
    let mut bytes = pack(&bits);
    bytes.extend_from_slice(b"abc");
    let mut r = Reader::new(&bytes);
    assert_eq!(r.read_string().unwrap(), b"abc");
}

#[test]
fn offset_points_past_partially_read_byte() {
    let mut r = Reader::new(&[0xFF, 0xAA]);
    r.bit().unwrap();
    assert_eq!(r.offset(), 1);
    let raw = r.raw(1).unwrap();
    assert_eq!(raw, &[0xAA]);
}

#[test]
fn seek_and_flush_restart_on_a_byte_boundary() {
    let mut r = Reader::new(&[0b0000_0001, 0xAA, 0xBB]);
    r.bit().unwrap();
    r.seek(1);
    r.flush();
    assert_eq!(r.byte().unwrap(), 0xAA);
    assert_eq!(r.offset(), 2);
}

fn encode_block_stream(chunks: &[&[u8]]) -> Vec<u8> {
    let mut out = Vec::new();
    for chunk in chunks {
        let mut bits = Vec::new();
        encode_p2(&mut bits, chunk.len() as u64);
        out.extend_from_slice(&pack(&bits));
        out.extend_from_slice(chunk);
    }
    let mut bits = Vec::new();
    encode_p2(&mut bits, 0);
    out.extend_from_slice(&pack(&bits));
    out
}

#[test]
fn block_stream_concatenates_chunks_until_terminator() {
    let bytes = encode_block_stream(&[b"hello ", b"block ", b"stream"]);
    let mut r = Reader::new(&bytes);
    assert_eq!(read_block_stream(&mut r, 0).unwrap(), b"hello block stream");
}

#[test]
fn empty_block_stream_is_empty() {
    let bytes = encode_block_stream(&[]);
    let mut r = Reader::new(&bytes);
    assert_eq!(read_block_stream(&mut r, 0).unwrap(), b"");
}

#[test]
fn block_stream_respects_dataoffset() {
    let mut bytes = vec![0xDE, 0xAD];
    bytes.extend_from_slice(&encode_block_stream(&[b"payload"]));
    let mut r = Reader::new(&bytes);
    assert_eq!(read_block_stream(&mut r, 2).unwrap(), b"payload");
}

#[test]
fn reading_past_end_errors() {
    let mut r = Reader::new(&[0x01]);
    assert!(r.raw(2).is_err());
    let mut r = Reader::new(&[]);
    assert!(r.bit().is_err());
}

#[test]
fn held_bits_come_back_with_the_position() {
    let data = [0b1010_0101, 0xAA, 0xBB, 0xCC];
    let mut r = Reader::new(&data);
    assert_eq!(r.bits_le(3).unwrap(), 0b101);
    r.seek(3);
    assert_eq!(r.offset(), 3);
    r.seek(1);
    assert_eq!(r.bits_le(5).unwrap(), 0b10100);
    assert_eq!(r.byte().unwrap(), 0xAA);

    let mut r = Reader::new(&data);
    assert_eq!(r.bits_le(3).unwrap(), 0b101);
    r.seek(0);
    assert_eq!(r.raw(1).unwrap(), &[0b1010_0101]);
    assert_eq!(r.bits_le(5).unwrap(), 0b10100);

    let mut r = Reader::new(&data);
    assert_eq!(r.bits_le(3).unwrap(), 0b101);
    r.seek(2);
    assert_eq!(r.bit().unwrap(), 1);
    r.seek(1);
    assert_eq!(r.byte().unwrap(), 0xAA);
}

#[test]
fn nothing_can_be_read_anywhere() {
    let mut r = Reader::new(&[0x01]);
    r.seek(9);
    assert_eq!(r.bits_le(0).unwrap(), 0);
    assert_eq!(r.read_data(0).unwrap(), b"");
    assert!(r.raw(0).is_err());
    assert!(r.bits_le(1).is_err());
}

#[test]
fn block_stream_leaves_the_reader_behind_its_end() {
    let mut bytes = encode_block_stream(&[b"ab", b"c"]);
    let end = bytes.len();
    bytes.extend_from_slice(b"Z");
    let mut r = Reader::new(&bytes);
    assert_eq!(read_block_stream(&mut r, 0).unwrap(), b"abc");
    assert_eq!(r.offset(), end);
    r.flush();
    assert_eq!(r.byte().unwrap(), b'Z');
}

#[test]
fn failed_bit_reads_take_what_is_left() {
    let data = [0xffu8, 0xff];
    let mut r = Reader::new(&data);
    r.bits_le(4).unwrap();
    assert_eq!(r.offset(), 1);
    assert!(r.bits_le(16).is_err());
    assert_eq!(r.offset(), 2);
    assert!(r.bit().is_err());

    let mut r = Reader::new(&[1, 2, 3]);
    assert!(r.read_u32_be().is_err());
    assert_eq!(r.offset(), 3);
    r.seek(0);
    assert!(r.read_u64_be().is_err());
    assert_eq!(r.offset(), 3);
    r.seek(1);
    assert!(r.read_data(3).is_err());
    assert_eq!(r.offset(), 3);
    r.seek(2);
    assert_eq!(r.byte().unwrap(), 3);
    assert!(r.byte().is_err());
    assert_eq!(r.offset(), 3);

    // Ones without an end.
    let mut r = Reader::new(&data);
    assert!(r.read_p2().is_err());
    assert_eq!(r.offset(), 2);

    // Beyond the end nothing moves.
    r.seek(9);
    assert!(r.read_p2().is_err());
    assert_eq!(r.offset(), 9);
}

#[test]
fn failed_byte_reads_take_nothing() {
    let mut r = Reader::new(&[1, 2, 3]);
    r.byte().unwrap();
    assert!(r.raw(3).is_err());
    assert_eq!(r.offset(), 1);
    assert!(r.skip(3).is_err());
    assert_eq!(r.offset(), 1);
    assert!(r.read_raw_u32_be().is_err());
    assert_eq!(r.offset(), 1);
    assert_eq!(r.raw(2).unwrap(), [2, 3]);
}

#[test]
fn string_or_block_that_is_cut_short_leaves_the_reader_behind_its_length() {
    // The number 4 takes five bits, and three ones are left.
    let data = [0xf5u8, b'a', b'b'];
    let mut r = Reader::new(&data);
    assert!(r.read_string().is_err());
    assert_eq!(r.offset(), 1);
    assert_eq!(r.bits_le(3).unwrap(), 7);

    let mut r = Reader::new(&data);
    assert!(read_block_stream(&mut r, 0).is_err());
    assert_eq!(r.offset(), 1);
    assert_eq!(r.bits_le(3).unwrap(), 7);
}
