use vstd::prelude::*;
use crate::bits::lsb_value;
use crate::canonical::has_room;
use crate::checksum::crc16;
use crate::error::ErrorKind;
use crate::huffman;
use crate::huffman::{led_to, paths_joined, spells, tree_bits, Tree};
use crate::lzss::tokens_text;
use crate::method_laws::low_half;
use crate::methods::{content_accepted, fork_decoded};
use crate::rle90;
use crate::rle90::{runs_written, spread, Run};
use crate::stuffit13::{static_words, NUM_LITERAL_SYMBOLS, WINDOW_SIZE};
use crate::stuffit13_laws::{
    commands_end, header_stands, lengths_told, second_end, tokens_of, tokens_of_a_built_in_set_are_read_back,
    tokens_of_told_codes_are_read_back, tokens_stand, words_of, Codes, Spelling,
};

verus! {

// Each method of the classic containers has its number. What the writer of a method wrote
// is read back from a fork that bears the number of that method.

/// Method 0: the bytes as they are, whatever stands behind them.
pub proof fn method_0_stores(content: Seq<u8>, more: Seq<u8>)
    ensures
        fork_decoded(0, content + more, content.len()) == Ok::<Seq<u8>, ErrorKind>(content),
        more.len() > 0 ==> fork_decoded(0, content, content.len() + more.len()) == Err::<Seq<u8>, ErrorKind>(
            ErrorKind::UnexpectedEof,
        ),
{
    low_half(0);
    assert((content + more).subrange(0, content.len() as int) =~= content);
}

/// Method 1: runs.
pub proof fn method_1_repeats(rs: Seq<Run>)
    requires
        forall|i: int| 0 <= i < rs.len() ==> (#[trigger] rs[i]).count >= 1,
    ensures
        fork_decoded(1, runs_written(rs), spread(rs).len()) == Ok::<Seq<u8>, ErrorKind>(spread(rs)),
{
    low_half(1);
    rle90::written_runs_are_read_back(rs);
}

/// Method 3: a code tree and the paths to its leaves.
pub proof fn method_3_follows_a_tree(tree: Tree, data: Seq<u8>, paths: Seq<Seq<bool>>, content: Seq<u8>)
    requires
        spells(data, 0, tree_bits(tree) + paths_joined(paths)),
        paths.len() == content.len(),
        forall|i: int| 0 <= i < paths.len() ==> #[trigger] led_to(tree, paths[i]) == Some(content[i]),
    ensures
        fork_decoded(3, data, content.len()) == Ok::<Seq<u8>, ErrorKind>(content),
{
    low_half(3);
    huffman::written_bytes_are_read_back(tree, data, paths, content);
}

/// Method 13: literals and matches in codes that are built in. The high half of the first
/// byte picks the set.
pub proof fn method_13_reads_built_in_codes(data: Seq<u8>, t: int, ts: Seq<Spelling>)
    requires
        1 <= t <= 5,
        data.len() > 0,
        lsb_value(data, 0, 8) / 16 == t,
        tokens_stand(static_words(t), data, 8, false, seq![], ts),
    ensures
        ({
            let text = tokens_text(seq![], tokens_of(ts));
            fork_decoded(13, data, text.len()) == Ok::<Seq<u8>, ErrorKind>(text)
        }),
        WINDOW_SIZE == 0x1_0000,
        NUM_LITERAL_SYMBOLS == 256 + 64 + 1,
{
    low_half(13);
    tokens_of_a_built_in_set_are_read_back(data, t, ts);
}

/// Method 13: literals and matches in codes that the fork tells.
pub proof fn method_13_reads_told_codes(data: Seq<u8>, codes: Codes, ts: Seq<Spelling>)
    requires
        header_stands(data, codes),
        has_room(lengths_told(codes.first, 0), 32),
        codes.second matches Some(cs) ==> has_room(lengths_told(cs, 0), 32),
        has_room(lengths_told(codes.offset, 0), 32),
        tokens_stand(words_of(codes), data, commands_end(second_end(codes), codes.offset), false, seq![], ts),
    ensures
        ({
            let text = tokens_text(seq![], tokens_of(ts));
            fork_decoded(13, data, text.len()) == Ok::<Seq<u8>, ErrorKind>(text)
        }),
{
    low_half(13);
    tokens_of_told_codes_are_read_back(data, codes, ts);
}

/// Only the low half of the method counts.
pub proof fn high_half_makes_no_difference(m: u8, n: u8, raw: Seq<u8>, size: nat)
    requires
        m % 16 == n % 16,
    ensures
        fork_decoded(m, raw, size) == fork_decoded(n, raw, size),
{
    low_half_is_rest(m);
    low_half_is_rest(n);
}

proof fn low_half_is_rest(m: u8)
    by (bit_vector)
    ensures
        m & 0x0fu8 == m % 16,
{
}

/// What is decoded is accepted if its checksum is the stored one; only of method 15 any
/// content is.
pub proof fn checksums_decide(m: u8, v: Seq<u8>, crc: u16)
    ensures
        m % 16 == 15 ==> content_accepted(m, v, crc),
        m % 16 != 15 ==> content_accepted(m, v, crc) == (crc16(v) == crc),
{
    low_half_is_rest(m);
}

} // verus!
