use vstd::prelude::*;
use crate::bits::lsb_value;
use crate::catalog::{content_of, EntryView};
use crate::compress::{code_width, lzw_cleared, lzw_grown, lzw_run, lzw_start, lzw_string, LzwState};
use crate::huffman::{leaf_at, leaves_from, tree_at, Tree};
use crate::lzss::{zero_ring, Ring};
use crate::methods::fork_decoded;
use crate::prefix_code::{symbol_at, BitOrder};
use crate::rle90::{rle90_start, rle90_step, rle90_take, Rle90State};
use crate::stuffit13;
use crate::stuffit15;
use crate::stuffit5;

verus! {

// What a method decodes has the size that was asked for.

proof fn runs_have_their_size(s: Rle90State, n: nat)
    ensures
        rle90_take(s, n) matches Ok(v) ==> v.len() == n,
    decreases n,
{
    if n > 0 {
        if let Ok(Some((b, t))) = rle90_step(s) {
            runs_have_their_size(t, (n - 1) as nat);
        }
    }
}

proof fn strings_have_their_size(data: Seq<u8>, s: LzwState, out: Seq<u8>, size: nat)
    ensures
        lzw_run(data, s, out, size) matches Ok(v) ==> v.len() == size,
    decreases 8 * data.len() - s.pos,
{
    let width = code_width(257 + s.added.len() as int);
    if out.len() < size && s.pos + width <= 8 * data.len() {
        let code = lsb_value(data, s.pos, width);
        if code == 256 {
            let t = lzw_cleared(s, width);
            if t.pos <= 8 * data.len() {
                assert(width * (8 - (s.count + 1) % 8) >= 0) by (nonlinear_arith)
                    requires
                        width >= 0,
                        8 - (s.count + 1) % 8 >= 0,
                ;
                strings_have_their_size(data, t, out, size);
            }
        } else if let Some(string) = lzw_string(s, code as int) {
            strings_have_their_size(
                data,
                LzwState {
                    added: lzw_grown(s, string),
                    previous: Some(string),
                    count: s.count + 1,
                    pos: s.pos + width,
                },
                out + string,
                size,
            );
        }
    }
}

proof fn leaves_have_their_size(tree: Tree, data: Seq<u8>, pos: int, n: nat)
    ensures
        leaves_from(tree, data, pos, n) matches Ok(v) ==> v.len() == n,
    decreases n,
{
    if n > 0 {
        if let Some((b, p)) = leaf_at(tree, data, pos) {
            leaves_have_their_size(tree, data, p, (n - 1) as nat);
        }
    }
}

/// A match is as long as it says.
proof fn copy_has_its_length(ring: Ring, distance: int, n: nat)
    ensures
        ring.copied(distance, n).len() == n,
    decreases n,
{
    if n > 0 {
        copy_has_its_length(ring.feed(ring.back(distance)), distance, (n - 1) as nat);
    }
}

proof fn adaptive_bytes_have_their_size(t: stuffit5::TreeState, data: Seq<u8>, pos: int, ring: Ring, left: nat)
    ensures
        stuffit5::bytes_from(t, data, pos, ring, left) matches Ok(v) ==> v.len() == left,
    decreases left,
{
    if left > 0 {
        if let Ok((leaf, p)) = stuffit5::leaf_from(t, data, pos, 0) {
            let t1 = stuffit5::used(t, leaf);
            let value = 626 - leaf;
            if value < 0x100 {
                adaptive_bytes_have_their_size(t1, data, p, ring.feed(value as u8), (left - 1) as nat);
            } else if let Ok((distance, p1)) = stuffit5::distance_at(data, p) {
                let n = if value - 0x100 + 3 < left {
                    (value - 0x100 + 3) as nat
                } else {
                    left
                };
                copy_has_its_length(ring, distance, n);
                adaptive_bytes_have_their_size(t1, data, p1, ring.after_copy(distance, n), (left - n) as nat);
            }
        }
    }
}

proof fn windowed_bytes_have_their_size(
    words: stuffit13::Words,
    data: Seq<u8>,
    pos: int,
    ring: Ring,
    second: bool,
    left: nat,
)
    ensures
        stuffit13::bytes_from(words, data, pos, ring, second, left) matches Ok(v) ==> v.len() == left,
    decreases left,
{
    if left > 0 {
        let code = if second {
            words.second
        } else {
            words.first
        };
        if let Ok((val, p)) = symbol_at(code, BitOrder::LsbFirst, data, pos) {
            if val < 0x100 {
                windowed_bytes_have_their_size(words, data, p, ring.feed(val as u8), false, (left - 1) as nat);
            } else if let Ok((offset, length, p1)) = stuffit13::match_at(words, val as int, data, p) {
                let n = if length < left {
                    length as nat
                } else {
                    left
                };
                copy_has_its_length(ring, offset, n);
                windowed_bytes_have_their_size(words, data, p1, ring.after_copy(offset, n), true, (left - n) as nat);
            }
        }
    }
}

proof fn sorted_bytes_have_their_size(data: Seq<u8>, s: stuffit15::ArsenicState, n: nat)
    ensures
        stuffit15::bytes_next(data, s, n) matches Ok(v) ==> v.len() == n,
    decreases n,
{
    if n > 0 {
        if let Ok((b, t)) = stuffit15::byte_next(data, s) {
            sorted_bytes_have_their_size(data, t, (n - 1) as nat);
        }
    }
}

/// A method below 16 is its own low half.
pub(crate) proof fn low_half(m: u8)
    by (bit_vector)
    requires
        m < 16u8,
    ensures
        m & 0x0fu8 == m,
{
}

/// Whatever the method, a fork that is decoded has the size that was asked for.
pub proof fn decoded_fork_has_its_size(method: u8, raw: Seq<u8>, size: nat)
    ensures
        fork_decoded(method, raw, size) matches Ok(v) ==> v.len() == size,
{
    runs_have_their_size(rle90_start(raw), size);
    strings_have_their_size(raw, lzw_start(), seq![], size);
    if let Some((tree, pos)) = tree_at(raw, 0) {
        leaves_have_their_size(tree, raw, pos, size);
    }
    adaptive_bytes_have_their_size(
        stuffit5::tree_start(),
        raw,
        0,
        Ring { bytes: stuffit5::first_window(), cursor: 0 },
        size,
    );
    if let Ok((words, pos)) = stuffit13::words_at(raw) {
        windowed_bytes_have_their_size(
            words,
            raw,
            pos,
            zero_ring(stuffit13::WINDOW_SIZE as nat),
            false,
            size,
        );
    }
    if let Ok(s) = stuffit15::arsenic_start(raw) {
        sorted_bytes_have_their_size(raw, s, size);
    }
}

/// The content of an entry has the size that the catalog gives, if what has no fork has
/// the size 0.
pub proof fn content_has_its_size(data: Seq<u8>, e: EntryView)
    requires
        e.fork is None ==> e.size == 0,
    ensures
        content_of(data, e) matches Ok(v) ==> v.len() == e.size,
{
    if let Some(f) = e.fork {
        decoded_fork_has_its_size(f.method, data.subrange(f.offset, f.offset + f.stored), e.size as nat);
    }
}

} // verus!
