use newtua_stuffit::error::ErrorKind;
use newtua_stuffit::rle90::Rle90Reader;

fn decode(input: &[u8]) -> Result<Vec<u8>, ErrorKind> {
    let mut out = Vec::new();
    Rle90Reader::new(input).read_to_end(&mut out)?;
    Ok(out)
}

#[test]
fn passes_plain_bytes_through() {
    assert_eq!(decode(b"ABC").unwrap(), b"ABC");
}

#[test]
fn empty_input_yields_empty_output() {
    assert_eq!(decode(b"").unwrap(), b"");
}

#[test]
fn escaped_marker_is_literal_0x90() {
    assert_eq!(decode(&[0x90, 0x00]).unwrap(), vec![0x90]);
}

#[test]
fn run_repeats_previous_byte_to_total_count() {
    assert_eq!(decode(&[0x41, 0x90, 0x04]).unwrap(), vec![0x41; 4]);
}

#[test]
fn run_after_escaped_marker_repeats_0x90() {
    assert_eq!(decode(&[0x90, 0x00, 0x90, 0x03]).unwrap(), vec![0x90; 3]);
}

#[test]
fn count_of_one_is_invalid() {
    assert!(decode(&[0x41, 0x90, 0x01]).is_err());
}

#[test]
fn run_at_start_repeats_initial_zero() {
    assert_eq!(decode(&[0x90, 0x03]).unwrap(), vec![0x00; 2]);
}

#[test]
fn bytes_before_an_error_are_kept_and_reading_goes_on_behind_it() {
    let mut reader = Rle90Reader::new(&[b'a', b'b', 0x90, 1, b'c', 0x90, 3, b'd']);
    let mut out = b"<".to_vec();
    assert_eq!(reader.read_to_end(&mut out).unwrap_err(), ErrorKind::InvalidData);
    assert_eq!(out, b"<ab");
    assert_eq!(reader.read_exact(2).unwrap(), b"cc");
    assert_eq!(reader.read_exact(1).unwrap(), b"c");
    assert_eq!(reader.read_exact(2).unwrap_err(), ErrorKind::UnexpectedEof);
    assert_eq!(reader.produce_byte().unwrap(), None);
}

#[test]
fn runs_of_any_byte_round_trip() {
    let mut input = Vec::new();
    let mut text = Vec::new();
    for (b, n) in [(7u8, 1u8), (0x90, 1), (0x90, 200), (9, 255), (9, 2)] {
        input.push(b);
        if b == 0x90 {
            input.push(0);
        }
        if n > 1 {
            input.extend_from_slice(&[0x90, n]);
        }
        text.extend(std::iter::repeat(b).take(n as usize));
    }
    let mut out = Vec::new();
    Rle90Reader::new(&input).read_to_end(&mut out).unwrap();
    assert_eq!(out, text);
}
