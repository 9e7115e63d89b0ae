use newtua_stuffit::sitx::x86::decode;

fn encode_clean(instrs: &[(u8, i32, &[u8])]) -> (Vec<u8>, Vec<u8>) {
    let mut filtered = Vec::new();
    let mut plain = Vec::new();
    for &(opcode, rel, filler) in instrs {
        let pos = filtered.len() as i32;
        let abs = rel.wrapping_add(pos).wrapping_add(6);
        filtered.push(opcode);
        filtered.extend_from_slice(&abs.to_le_bytes());
        plain.push(opcode);
        plain.extend_from_slice(&rel.to_le_bytes());
        filtered.extend_from_slice(filler);
        plain.extend_from_slice(filler);
    }
    (filtered, plain)
}

#[test]
fn data_without_branches_is_identity() {
    let data: Vec<u8> = (0..200u32).map(|i| (i % 200) as u8).collect();
    let data: Vec<u8> = data
        .into_iter()
        .map(|b| if b == 0xe8 || b == 0xe9 { 0 } else { b })
        .collect();
    assert_eq!(decode(&data, data.len()), data);
}

#[test]
fn clean_conversions_round_trip() {
    let filler: &[u8] = b"padding-no-branch-bytes-here";
    let (filtered, plain) = encode_clean(&[
        (0xe8, 0x10, filler),
        (0xe9, 0x2000, filler),
        (0xe8, 0x123, filler),
    ]);
    assert_eq!(decode(&filtered, plain.len()), plain);
}

#[test]
fn single_negative_address_sign_extends() {
    let abs: i32 = 0xff00_0002u32 as i32;
    let pos = 0i32;
    let mut input = vec![0xe8u8];
    input.extend_from_slice(&abs.to_le_bytes());
    let out = decode(&input, input.len());
    let mut expected_rel = abs.wrapping_sub(pos).wrapping_sub(6) & 0x01ff_ffff;
    if expected_rel >= 0x0100_0000 {
        expected_rel |= 0xff00_0000u32 as i32;
    }
    assert_eq!(out[0], 0xe8);
    assert_eq!(&out[1..5], &expected_rel.to_le_bytes());
}

#[test]
fn middle_top_byte_is_not_converted() {
    let mut input = vec![0xe8u8, 0x11, 0x22, 0x33, 0x44];
    input.extend_from_slice(b"tail");
    let out = decode(&input, input.len());
    assert_eq!(out, input);
}

#[test]
fn branch_opcode_near_eof_is_left_as_is() {
    let input = vec![b'x', 0xe8, 0x01, 0x02];
    assert_eq!(decode(&input, input.len()), input);
}

#[test]
fn stops_at_requested_length() {
    let input: Vec<u8> = (0..50).map(|_| b'z').collect();
    assert_eq!(decode(&input, 10).len(), 10);
}

#[test]
fn branches_behind_other_bytes_are_restored() {
    let lead = b"no branch before this";
    let mut input = lead.to_vec();
    let mut plain = lead.to_vec();
    for (opcode, rel) in [(0xe9u8, -0x40i32), (0xe8, 0x00ab_cdef), (0xe8, -0x00ff_0000)] {
        let abs = rel.wrapping_add(input.len() as i32).wrapping_add(6);
        input.push(opcode);
        input.extend_from_slice(&abs.to_le_bytes());
        plain.push(opcode);
        plain.extend_from_slice(&rel.to_le_bytes());
    }
    assert_eq!(decode(&input, input.len()), plain);
}
