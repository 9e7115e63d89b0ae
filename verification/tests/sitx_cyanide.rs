use newtua_stuffit::error::ErrorKind;
use newtua_stuffit::sitx::cyanide::{calculate_ternary_frequencies, decode, RangeCoderModel};

#[test]
fn model_new_ranks_symbols_in_descending_mapping_order() {
    let m = RangeCoderModel::new(4);
    assert_eq!(&m.frequencies[..4], &[1, 1, 1, 1]);
    assert_eq!(&m.mapping[..4], &[3, 2, 1, 0]);
}

#[test]
fn model_bump_without_halving_just_increments_and_may_resort() {
    let mut m = RangeCoderModel::new(3);
    let last = m.bump(0, 1000);
    assert_eq!(last, 2, "ties push the bumped symbol to the last tied slot");
    assert_eq!(&m.frequencies[..3], &[1, 1, 2]);
    assert_eq!(&m.mapping[..3], &[0, 1, 2]);
}

#[test]
fn model_bump_no_tie_keeps_mapping_and_increments_in_place() {
    let mut m = RangeCoderModel::new(3);
    m.bump(2, 1000);
    let before = m.mapping.clone();
    let last = m.bump(2, 1000);
    assert_eq!(last, 2);
    assert_eq!(m.frequencies[2], 3);
    assert_eq!(m.mapping, before, "no tie to break: mapping unchanged");
}

#[test]
fn model_bump_halves_all_frequencies_once_total_hits_maxtotal() {
    let mut m = RangeCoderModel::new(2);
    m.frequencies[0] = 50;
    m.frequencies[1] = 50;
    let last = m.bump(1, 100);
    assert_eq!(last, 1);
    assert_eq!(&m.frequencies[..2], &[25, 26]);
}

#[test]
fn model_symbol_reads_back_the_mapping() {
    let m = RangeCoderModel::new(5);
    for i in 0..5 {
        assert_eq!(m.symbol(i), m.mapping[i]);
    }
}

#[test]
fn ternary_frequencies_strict_orderings() {
    let cases: [(u32, u32, u32, [usize; 3]); 6] = [
        (1, 2, 3, [0, 1, 2]),
        (1, 3, 2, [0, 2, 1]),
        (3, 1, 2, [1, 2, 0]),
        (2, 3, 1, [2, 0, 1]),
        (2, 1, 3, [1, 0, 2]),
        (3, 2, 1, [2, 1, 0]),
    ];
    for (a, b, c, want) in cases {
        let (_, got) = calculate_ternary_frequencies(&[a, b, c]);
        assert_eq!(got, want, "a={a} b={b} c={c}");
    }
}

#[test]
fn ternary_frequencies_output_is_sorted_ascending_and_plus_one() {
    let (freqs, meanings) = calculate_ternary_frequencies(&[5, 1, 3]);
    assert_eq!(meanings, [1, 2, 0]);
    assert_eq!(freqs, [2, 4, 6]);
    assert!(freqs[0] <= freqs[1] && freqs[1] <= freqs[2]);
}

#[test]
fn ternary_frequencies_tie_break_matches_reference_tree() {
    let (freqs, meanings) = calculate_ternary_frequencies(&[7, 7, 7]);
    assert_eq!(meanings, [2, 1, 0]);
    assert_eq!(freqs, [8, 8, 8]);

    let (_, meanings) = calculate_ternary_frequencies(&[4, 4, 9]);
    assert_eq!(meanings, [1, 0, 2]);

    let (_, meanings) = calculate_ternary_frequencies(&[1, 9, 9]);
    assert_eq!(meanings, [0, 2, 1]);

    let (_, meanings) = calculate_ternary_frequencies(&[3, 9, 3]);
    assert_eq!(meanings, [2, 0, 1]);
}

fn zero_block(blocksize_marker: bool, numsymbols: u8) -> Vec<u8> {
    let mut v = vec![0u8];
    if blocksize_marker {
        v.push(0x77);
        v.extend_from_slice(&0u32.to_be_bytes());
        v.extend_from_slice(&0u32.to_be_bytes());
        v.push(numsymbols);
        v.extend_from_slice(&[0u8; 4]);
    }
    v.push(0xff);
    v
}

#[test]
fn empty_stream_decodes_to_nothing() {
    let blocks = vec![0u8, 0xff];
    assert_eq!(decode(&blocks, 0).unwrap(), Vec::<u8>::new());
}

#[test]
fn single_empty_block_decodes_to_nothing() {
    let blocks = zero_block(true, 4);
    assert_eq!(decode(&blocks, 0).unwrap(), Vec::<u8>::new());
}

#[test]
fn multiple_empty_blocks_concatenate_to_nothing() {
    let mut blocks = vec![0u8];
    for _ in 0..3 {
        blocks.push(0x77);
        blocks.extend_from_slice(&0u32.to_be_bytes());
        blocks.extend_from_slice(&0u32.to_be_bytes());
        blocks.push(4);
        blocks.extend_from_slice(&[0u8; 4]);
    }
    blocks.push(0xff);
    assert_eq!(decode(&blocks, 0).unwrap(), Vec::<u8>::new());
}

#[test]
fn small_numsymbols_do_not_panic_building_the_lowbits_models() {
    for numsymbols in [0u8, 1, 2, 3, 255] {
        let blocks = zero_block(true, numsymbols);
        assert_eq!(
            decode(&blocks, 0).unwrap(),
            Vec::<u8>::new(),
            "numsymbols={numsymbols}"
        );
    }
}

#[test]
fn illegal_marker_byte_is_rejected() {
    let blocks = vec![0u8, 0x42];
    let err = decode(&blocks, 0).unwrap_err();
    assert_eq!(err, ErrorKind::InvalidData);
}

#[test]
fn cyanide_truncated_header_is_rejected() {
    let blocks = vec![0u8, 0x77, 0, 0];
    let err = decode(&blocks, 0).unwrap_err();
    assert_eq!(err, ErrorKind::UnexpectedEof);
}

#[test]
fn model_bump_takes_any_maximum() {
    let mut m = RangeCoderModel::new(3);
    m.frequencies[0] = 5;
    m.frequencies[1] = 9;
    m.frequencies[2] = 0x2_0000;
    assert_eq!(m.bump(1, u32::MAX), 1);
    assert_eq!(&m.frequencies[..3], &[5, 10, 0x2_0000]);
    assert_eq!(m.bump(0, 0), 0);
    assert_eq!(&m.frequencies[..3], &[4, 5, 0x1_0000]);
}
