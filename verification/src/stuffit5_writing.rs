use vstd::prelude::*;
use vstd::arithmetic::power2::lemma2_to64;
use crate::bits::msb_value;
use crate::canonical::{canonical_word_is_read, count_from, has_room, room_from};
use crate::error::ErrorKind;
use crate::lzss::{tokens_text, Token};
use crate::method_laws::low_half;
use crate::methods::fork_decoded;
use crate::prefix_code::{canonical, word_stands, BitOrder};
use crate::stuffit5::{
    distance_at, distance_lengths, distance_lengths_are, first_window, tree_start, RECONSTRUCT_FREQ, WINDOW_SIZE,
};
use crate::stuffit5_laws::{tokens_stand, written_tokens_are_read_back};

verus! {

// The fixed parts of the method: what the window holds before the first byte, and how
// distances are spelled.

/// Before the first byte the window holds 18 zeros, each byte value 13 times, the values
/// upwards and downwards, 128 zeros and 110 spaces.
pub proof fn window_starts_filled(v: u8, k: int)
    requires
        0 <= k < 13,
    ensures
        first_window().len() == 4096,
        first_window()[18 + 13 * v + k] == v,
        first_window()[3346 + v] == v,
        first_window()[3602 + v] == 255 - v,
        first_window()[k] == 0,
        forall|i: int| 0 <= i < 18 ==> #[trigger] first_window()[i] == 0,
        forall|i: int| 3858 <= i < 3986 ==> #[trigger] first_window()[i] == 0,
        forall|i: int| 3986 <= i < 4096 ==> #[trigger] first_window()[i] == 0x20,
        WINDOW_SIZE == 4096,
{
    assert((13 * v + k) / 13 == v) by (nonlinear_arith)
        requires 0 <= k < 13;
}

/// The words for the high part of a distance: one of 3 bits, three of 4, eight of 5, twelve
/// of 6, twenty-four of 7 and sixteen of 8, the nearest distances first.
pub open spec fn distance_word_length(high: int) -> u32 {
    if high < 1 {
        3
    } else if high < 1 + 3 {
        4
    } else if high < 1 + 3 + 8 {
        5
    } else if high < 1 + 3 + 8 + 12 {
        6
    } else if high < 1 + 3 + 8 + 12 + 24 {
        7
    } else {
        8
    }
}

pub proof fn near_distances_have_short_words()
    ensures
        distance_lengths() == Seq::new(64, |high: int| distance_word_length(high)),
{
    distance_lengths_are();
    assert(distance_lengths() =~= Seq::new(64, |high: int| distance_word_length(high)));
}

proof fn distance_code_has_room()
    ensures
        has_room(distance_lengths(), 8),
{
    distance_lengths_are();
    reveal_with_fuel(count_from, 65);
    reveal_with_fuel(room_from, 10);
    lemma2_to64();
    let s = distance_lengths();
    assert(count_from(s, 1, 0) == 0);
    assert(count_from(s, 2, 0) == 0);
    assert(count_from(s, 3, 0) == 1);
    assert(count_from(s, 4, 0) == 3);
    assert(count_from(s, 5, 0) == 8);
    assert(count_from(s, 6, 0) == 12);
    assert(count_from(s, 7, 0) == 24);
    assert(count_from(s, 8, 0) == 16);
}

/// A distance is spelled as the word of its high part, which is what one less is in units of
/// 64, and its low part in 6 bits, the highest first.
pub proof fn spelled_distance_is_read(data: Seq<u8>, pos: int, distance: int, k: int)
    requires
        1 <= distance <= 4096,
        ({
            let words = canonical(Seq::new(64, |high: int| distance_word_length(high)), 8);
            &&& 0 <= k < words.len()
            &&& words[k].value == (distance - 1) / 64
            &&& word_stands(words[k], BitOrder::MsbFirst, data, pos)
            &&& pos + words[k].len + 6 <= 8 * data.len()
            &&& msb_value(data, pos + words[k].len, 6) == (distance - 1) % 64
        }),
    ensures
        ({
            let words = canonical(Seq::new(64, |high: int| distance_word_length(high)), 8);
            distance_at(data, pos) == Ok::<(int, int), ErrorKind>((distance, pos + words[k].len + 6))
        }),
{
    near_distances_have_short_words();
    distance_code_has_room();
    canonical_word_is_read(distance_lengths(), 8, k, BitOrder::MsbFirst, data, pos);
}

/// A fork of method 5 in which tokens stand is read back as their text.
pub proof fn method_5_reads_tokens(data: Seq<u8>, tokens: Seq<Token>, ends: Seq<int>)
    requires
        tokens_stand(tree_start(), data, 0, first_window(), tokens, ends),
    ensures
        fork_decoded(5, data, tokens_text(first_window(), tokens).len()) == Ok::<Seq<u8>, ErrorKind>(
            tokens_text(first_window(), tokens),
        ),
        RECONSTRUCT_FREQ == 32768,
{
    written_tokens_are_read_back(data, tokens, ends);
    low_half(5);
}

} // verus!
