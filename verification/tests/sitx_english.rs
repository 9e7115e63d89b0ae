use newtua_stuffit::sitx::english::{build_pointers, decode_with_dictionary, Dictionary};

const ESC: u8 = 0xF0;
const WORD: u8 = 0xF1;
const FIRST: u8 = 0xF2;
const UPPER: u8 = 0xF3;

fn mock_dictionary(words: &[&str]) -> (Vec<u8>, Vec<u32>) {
    let mut bytes = Vec::new();
    for w in words {
        bytes.extend_from_slice(w.as_bytes());
        bytes.push(b'\n');
    }
    let pointers = build_pointers(&bytes, words.len()).unwrap();
    (bytes, pointers)
}

fn header() -> Vec<u8> {
    vec![ESC, WORD, FIRST, UPPER]
}

#[test]
fn escape_code_emits_raw_byte_and_clears_caseflag() {
    let (bytes, pointers) = mock_dictionary(&["alpha", "beta", "gamma"]);
    let dict = Dictionary::new(&bytes, &pointers);

    let mut input = header();
    input.extend_from_slice(&[ESC, b'X', b'y']);

    let out = decode_with_dictionary(&input, 2, &dict).unwrap();
    assert_eq!(out, b"Xy");
}

#[test]
fn word_code_decodes_plain_word() {
    let (bytes, pointers) = mock_dictionary(&["alpha", "beta", "gamma"]);
    let dict = Dictionary::new(&bytes, &pointers);

    let mut input = header();
    input.extend_from_slice(&[ESC, b' ', WORD, b'a', b' ']);

    let out = decode_with_dictionary(&input, 6, &dict).unwrap();
    assert_eq!(out, b" beta ");
}

#[test]
fn first_code_capitalizes_first_letter() {
    let (bytes, pointers) = mock_dictionary(&["alpha", "beta", "gamma"]);
    let dict = Dictionary::new(&bytes, &pointers);

    let mut input = header();
    input.extend_from_slice(&[ESC, b' ', FIRST, b'a', b' ']);

    let out = decode_with_dictionary(&input, 6, &dict).unwrap();
    assert_eq!(out, b" Beta ");
}

#[test]
fn upper_code_uppercases_whole_word() {
    let (bytes, pointers) = mock_dictionary(&["alpha", "beta", "gamma"]);
    let dict = Dictionary::new(&bytes, &pointers);

    let mut input = header();
    input.extend_from_slice(&[ESC, b' ', UPPER, b'a', b' ']);

    let out = decode_with_dictionary(&input, 6, &dict).unwrap();
    assert_eq!(out, b" BETA ");
}

#[test]
fn caseflag_recovers_after_sentence_end() {
    let (bytes, pointers) = mock_dictionary(&["alpha", "beta", "gamma"]);
    let dict = Dictionary::new(&bytes, &pointers);

    let mut input = header();
    input.extend_from_slice(&[ESC, b' ', WORD, b'a', b'.', WORD, b'a', b' ']);

    let out = decode_with_dictionary(&input, 11, &dict).unwrap();
    assert_eq!(out, b" beta.Beta ");
}

#[test]
fn multi_letter_index_uses_base_52() {
    let words: Vec<String> = (0..150).map(|i| format!("w{i}")).collect();
    let word_refs: Vec<&str> = words.iter().map(String::as_str).collect();
    let (bytes, pointers) = mock_dictionary(&word_refs);
    let dict = Dictionary::new(&bytes, &pointers);
    assert_eq!(dict.word(105), b"w105");

    let mut input = header();
    input.extend_from_slice(&[ESC, b' ', WORD, b'b', b'a', b' ']);

    let out = decode_with_dictionary(&input, 6, &dict).unwrap();
    assert_eq!(out, b" w105 ");
}

#[test]
fn terminator_equal_to_esc_code_is_reread() {
    let (bytes, pointers) = mock_dictionary(&["alpha", "beta", "gamma"]);
    let dict = Dictionary::new(&bytes, &pointers);

    let mut input = header();
    input.extend_from_slice(&[ESC, b' ', WORD, b'a', ESC, b'Z']);

    let out = decode_with_dictionary(&input, 6, &dict).unwrap();
    assert_eq!(out, b" betaZ");
}

#[test]
fn index_out_of_range_is_an_error() {
    let (bytes, pointers) = mock_dictionary(&["alpha", "beta", "gamma"]);
    let dict = Dictionary::new(&bytes, &pointers);

    let mut input = header();
    input.extend_from_slice(&[ESC, b' ', WORD, b'c', b' ']);

    assert!(decode_with_dictionary(&input, 10, &dict).is_err());
}

#[test]
fn truncated_header_is_an_error() {
    let (bytes, pointers) = mock_dictionary(&["alpha"]);
    let dict = Dictionary::new(&bytes, &pointers);
    assert!(decode_with_dictionary(&[ESC, WORD], 1, &dict).is_err());
}

#[test]
fn stops_early_when_input_is_exhausted_at_a_boundary() {
    let (bytes, pointers) = mock_dictionary(&["alpha", "beta", "gamma"]);
    let dict = Dictionary::new(&bytes, &pointers);

    let mut input = header();
    input.extend_from_slice(&[ESC, b' ']);

    let out = decode_with_dictionary(&input, 10, &dict).unwrap();
    assert_eq!(out, b" ");
}

#[test]
fn any_text_is_read_behind_the_escape_code() {
    let (bytes, pointers) = mock_dictionary(&["alpha"]);
    let dict = Dictionary::new(&bytes, &pointers);
    let text: Vec<u8> = (0..=255).collect();
    let mut input = header();
    for &b in &text {
        input.extend_from_slice(&[ESC, b]);
    }
    assert_eq!(decode_with_dictionary(&input, text.len(), &dict).unwrap(), text);
    assert_eq!(decode_with_dictionary(&input, 10, &dict).unwrap(), &text[..10]);
}

#[test]
fn listed_words_are_found_by_number() {
    let words = ["", "a", "list", "of", "words"];
    let (bytes, pointers) = mock_dictionary(&words);
    let dict = Dictionary::new(&bytes, &pointers);
    assert_eq!(dict.len(), words.len());
    for (i, w) in words.iter().enumerate() {
        assert_eq!(dict.word(i), w.as_bytes());
    }
}
