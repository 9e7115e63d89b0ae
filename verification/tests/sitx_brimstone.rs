use newtua_stuffit::sitx::brimstone::decode;

#[test]
fn decode_stops_early_on_model_eof_without_erroring() {
    let out = decode(&[0u8; 8], 4096, 4, 1 << 16).unwrap();
    assert!(out.len() <= 4096);
}

#[test]
fn decode_respects_outlen_when_the_model_keeps_producing() {
    let src = vec![0xAAu8; 4096];
    let out = decode(&src, 16, 4, 1 << 16).unwrap();
    assert!(out.len() <= 16);
}
