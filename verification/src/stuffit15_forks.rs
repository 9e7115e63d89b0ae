use vstd::prelude::*;
use vstd::arithmetic::power2::{lemma2_to64, pow2};
use crate::error::{after, after_after, after_nothing, ErrorKind};
use crate::method_laws::low_half;
use crate::methods::fork_decoded;
use crate::rc4::xor_twice;
use crate::sitx::bwt::{
    byte_values, byte_values_are_a_table, links, links_invert_places, mtf_decoded, mtf_encoded, mtf_round_trip,
    unsorted_bwt, walked,
};
use crate::sitx::rotations::{last_column, sorts_rotations, transform_is_undone};
use crate::stuffit15::{
    arsenic_start, block_at, byte_next, bytes_next, coder_start, copies, decoded, gap, group_models, initial_model,
    loaded, model_after, model_start, raw_next, selector_model, sum, ArsenicState, BlockState, CoderState,
    ModelState, HALF, NUM_BITS, ONE,
};
use crate::stuffit15_encoding::{bits_number, number_for, reads, told_symbols_are_read, Told};
use crate::stuffit15_laws::{
    all_plain, block_is_plain, block_is_read, flag, fresh_models_are_sound, groups_sound, joined_are_plain,
    mtf_keeps_length, number_is_plain, number_is_read, one_is_plain, one_is_read, past, plain_ones_fit, reading_in_two,
    rolled, rolling_is_undone, tell_block, tell_number, told_by, unrolled,
};

verus! {

// A fork may be told in any number of blocks. Behind each of them a flag says whether it
// was the last.

// === the models ===============================================================

/// A model of `n` symbols from `first` on that all weigh `weight`, which is also what a
/// symbol gains when it comes up.
pub open spec fn even(first: int, n: nat, weight: u32, limit: int) -> ModelState {
    ModelState { first, increment: weight as int, limit, freqs: Seq::new(n, |i: int| weight) }
}

/// The model of flags and numbers.
pub open spec fn flags_at_first() -> ModelState {
    even(0, 2, 1, 256)
}

/// The model that tells runs, the positions 0 and 1, the groups of positions, and the end.
pub open spec fn selectors_at_first() -> ModelState {
    even(0, 11, 8, 1024)
}

/// The models of the positions from 2 on, in groups of 2, 4, 8, 16, 32, 64 and 128.
pub open spec fn groups_at_first() -> Seq<ModelState> {
    seq![
        even(2, 2, 8, 1024),
        even(4, 4, 4, 1024),
        even(8, 8, 4, 1024),
        even(16, 16, 4, 1024),
        even(32, 32, 2, 1024),
        even(64, 64, 2, 1024),
        even(128, 128, 1, 1024),
    ]
}

/// These are the models with which a fork and each of its blocks start.
pub proof fn models_start_even()
    ensures
        initial_model() == flags_at_first(),
        selector_model() == selectors_at_first(),
        group_models() == groups_at_first(),
{
    assert(initial_model().freqs =~= flags_at_first().freqs);
    assert(selector_model().freqs =~= selectors_at_first().freqs);
    assert(model_start(2, 3, 8, 1024).freqs =~= even(2, 2, 8, 1024).freqs);
    assert(model_start(4, 7, 4, 1024).freqs =~= even(4, 4, 4, 1024).freqs);
    assert(model_start(8, 15, 4, 1024).freqs =~= even(8, 8, 4, 1024).freqs);
    assert(model_start(16, 31, 4, 1024).freqs =~= even(16, 16, 4, 1024).freqs);
    assert(model_start(32, 63, 2, 1024).freqs =~= even(32, 32, 2, 1024).freqs);
    assert(model_start(64, 127, 2, 1024).freqs =~= even(64, 64, 2, 1024).freqs);
    assert(model_start(128, 255, 1, 1024).freqs =~= even(128, 128, 1, 1024).freqs);
    assert(group_models() =~= groups_at_first());
}

proof fn sum_with_one_more(f: Seq<u32>, n: int, v: u32)
    requires
        0 <= n < f.len(),
    ensures
        sum(f.update(n, v)) == sum(f) - f[n] + v,
    decreases f.len(),
{
    let g = f.update(n, v);
    if n == f.len() - 1 {
        assert(g.drop_last() =~= f.drop_last());
    } else {
        assert(g.drop_last() =~= f.drop_last().update(n, v));
        sum_with_one_more(f.drop_last(), n, v);
    }
}

/// A symbol that comes up gains the increment. Where the weights then come to more than
/// the limit, all of them are halved, rounding up; otherwise the others stay.
pub proof fn symbol_gains_weight(m: ModelState, n: int, i: int)
    requires
        m.wf(),
        0 <= n < m.freqs.len(),
        0 <= i < m.freqs.len(),
        m.freqs[n] + m.increment <= u32::MAX,
    ensures
        ({
            let gained = m.freqs[i] + (if i == n {
                m.increment
            } else {
                0
            });
            let m1 = model_after(m, n);
            &&& m1.freqs.len() == m.freqs.len()
            &&& m1.freqs[i] == (if sum(m.freqs) + m.increment > m.limit {
                (gained + 1) / 2
            } else {
                gained
            })
            &&& m1.first == m.first
            &&& m1.increment == m.increment
            &&& m1.limit == m.limit
        }),
{
    sum_with_one_more(m.freqs, n, (m.freqs[n] + m.increment) as u32);
}

/// The interval has 25 bits at first and never less than 24; the code has 26.
pub proof fn interval_is_wide()
    ensures
        ONE == pow2(25),
        HALF == pow2(24),
        NUM_BITS == 26,
{
    lemma2_to64();
}

// === flipped bytes ============================================================

/// The bytes with the lowest bit turned over at some places, `done` bytes having come
/// before: the next place is `at`, and each lies a gap behind the one before; there are
/// 256 gaps, over and over, of which number `k` came last.
pub open spec fn flipped(raw: Seq<u8>, done: int, at: int, k: int) -> Seq<u8>
    decreases raw.len(),
{
    if raw.len() == 0 {
        seq![]
    } else if done == at {
        let k1 = if k == 255 {
            0
        } else {
            k + 1
        };
        seq![raw[0] ^ 1u8] + flipped(raw.drop_first(), done + 1, at + gap(k1), k1)
    } else {
        seq![raw[0]] + flipped(raw.drop_first(), done + 1, at, k)
    }
}

/// Bytes that are flipped twice are as they were.
pub proof fn flipping_is_undone(raw: Seq<u8>, done: int, at: int, k: int)
    ensures
        flipped(flipped(raw, done, at, k), done, at, k) == raw,
        flipped(raw, done, at, k).len() == raw.len(),
    decreases raw.len(),
{
    let f = flipped(raw, done, at, k);
    if raw.len() == 0 {
        assert(f =~= raw);
    } else {
        let (at1, k1, b) = if done == at {
            let k1 = if k == 255 {
                0
            } else {
                k + 1
            };
            (at + gap(k1), k1, raw[0] ^ 1u8)
        } else {
            (at, k, raw[0])
        };
        xor_twice(raw[0], 1);
        flipping_is_undone(raw.drop_first(), done + 1, at1, k1);
        let rest = flipped(raw.drop_first(), done + 1, at1, k1);
        assert(f =~= seq![b] + rest);
        assert(f.drop_first() =~= rest);
        assert(seq![raw[0]] + raw.drop_first() =~= raw);
    }
}

// === telling ==================================================================

/// One block: its content, the order of the rotations of what it is made into, the place
/// of the unrotated one among them, and whether its bytes are flipped.
pub struct Packet {
    pub content: Seq<u8>,
    pub order: Seq<int>,
    pub first: nat,
    pub randomized: bool,
}

/// The bytes that are sorted: the runs are shortened, and some bytes may be flipped.
pub open spec fn sorted_bytes(p: Packet) -> Seq<u8> {
    if p.randomized {
        flipped(rolled(p.content, 0, 0), 0, gap(0), 0)
    } else {
        rolled(p.content, 0, 0)
    }
}

/// The positions of the last column in a table that moves what comes up to the front.
pub open spec fn positions(p: Packet) -> Seq<u8> {
    mtf_encoded(byte_values(), last_column(sorted_bytes(p), p.order))
}

pub open spec fn packet_ok(p: Packet, blockbits: nat) -> bool {
    &&& sorts_rotations(sorted_bytes(p), p.order)
    &&& p.first < p.order.len() <= pow2(blockbits)
    &&& p.order[p.first as int] == 0
}

pub open spec fn bit_for(b: bool) -> int {
    if b {
        1
    } else {
        0
    }
}

/// The blocks: whether each is randomized, the row to start from, the positions, and a
/// flag that is 0 but for the last block, behind which a checksum comes.
pub open spec fn tell_packets(m: ModelState, blockbits: nat, ps: Seq<Packet>, crc: nat) -> Seq<Told>
    decreases ps.len(),
{
    if ps.len() == 0 {
        seq![]
    } else {
        let r = bit_for(ps[0].randomized);
        let (row, m1) = tell_number(model_after(m, r), ps[0].first, blockbits);
        let block = tell_block(selectors_at_first(), groups_at_first(), positions(ps[0]));
        if ps.len() == 1 {
            seq![told_by(m, r)] + row + block + seq![told_by(m1, 1)] + tell_number(model_after(m1, 1), crc, 32).0
        } else {
            seq![told_by(m, r)] + row + block + seq![told_by(m1, 0)] + tell_packets(
                model_after(m1, 0),
                blockbits,
                ps.drop_first(),
                crc,
            )
        }
    }
}

/// The fork: the letters `A` and `s`, the block size, that there is a block, and the
/// blocks.
pub open spec fn tell_blocks(blockbits: nat, ps: Seq<Packet>, crc: nat) -> Seq<Told> {
    let (a, m1) = tell_number(flags_at_first(), 0x41, 8);
    let (s, m2) = tell_number(m1, 0x73, 8);
    let (size, m3) = tell_number(m2, (blockbits - 9) as nat, 4);
    a + s + size + seq![told_by(m3, 0)] + tell_packets(model_after(m3, 0), blockbits, ps, crc)
}

/// The contents of the blocks one behind the other.
pub open spec fn contents(ps: Seq<Packet>) -> Seq<u8>
    decreases ps.len(),
{
    if ps.len() == 0 {
        seq![]
    } else {
        ps[0].content + contents(ps.drop_first())
    }
}

// === what is told fits ========================================================

proof fn first_models_are_sound()
    ensures
        flag(flags_at_first()),
        selectors_at_first().wf(),
        groups_sound(groups_at_first()),
{
    models_start_even();
    fresh_models_are_sound();
}

proof fn packets_are_plain(m: ModelState, blockbits: nat, ps: Seq<Packet>, crc: nat)
    requires
        flag(m),
    ensures
        all_plain(tell_packets(m, blockbits, ps, crc)),
    decreases ps.len(),
{
    if ps.len() > 0 {
        let r = bit_for(ps[0].randomized);
        let (row, m1) = tell_number(model_after(m, r), ps[0].first, blockbits);
        let block = tell_block(selectors_at_first(), groups_at_first(), positions(ps[0]));
        let head = seq![told_by(m, r)];
        first_models_are_sound();
        one_is_plain(m, r);
        number_is_plain(model_after(m, r), ps[0].first, blockbits);
        block_is_plain(selectors_at_first(), groups_at_first(), positions(ps[0]));
        joined_are_plain(head, row);
        joined_are_plain(head + row, block);
        if ps.len() == 1 {
            let check = tell_number(model_after(m1, 1), crc, 32).0;
            one_is_plain(m1, 1);
            number_is_plain(model_after(m1, 1), crc, 32);
            joined_are_plain(head + row + block, seq![told_by(m1, 1)]);
            joined_are_plain(head + row + block + seq![told_by(m1, 1)], check);
        } else {
            let rest = tell_packets(model_after(m1, 0), blockbits, ps.drop_first(), crc);
            one_is_plain(m1, 0);
            packets_are_plain(model_after(m1, 0), blockbits, ps.drop_first(), crc);
            joined_are_plain(head + row + block, seq![told_by(m1, 0)]);
            joined_are_plain(head + row + block + seq![told_by(m1, 0)], rest);
        }
    }
}

proof fn blocks_are_plain(blockbits: nat, ps: Seq<Packet>, crc: nat)
    ensures
        all_plain(tell_blocks(blockbits, ps, crc)),
{
    first_models_are_sound();
    let (a, m1) = tell_number(flags_at_first(), 0x41, 8);
    let (s, m2) = tell_number(m1, 0x73, 8);
    let (size, m3) = tell_number(m2, (blockbits - 9) as nat, 4);
    let go = seq![told_by(m3, 0)];
    number_is_plain(flags_at_first(), 0x41, 8);
    number_is_plain(m1, 0x73, 8);
    number_is_plain(m2, (blockbits - 9) as nat, 4);
    one_is_plain(m3, 0);
    packets_are_plain(model_after(m3, 0), blockbits, ps, crc);
    joined_are_plain(a, s);
    joined_are_plain(a + s, size);
    joined_are_plain(a + s + size, go);
    joined_are_plain(a + s + size + go, tell_packets(model_after(m3, 0), blockbits, ps, crc));
}

// === reading ==================================================================

/// A block is read: its bytes, where to start, its flags, and what is told behind it.
proof fn packet_is_read(data: Seq<u8>, c: CoderState, m: ModelState, blockbits: nat, ps: Seq<Packet>, crc: nat)
    requires
        ps.len() > 0,
        flag(m),
        packet_ok(ps[0], blockbits),
        crc < pow2(32),
        reads(data, c, tell_packets(m, blockbits, ps, crc)),
    ensures
        block_at(data, c, m, blockbits) matches Ok(b) && {
            &&& b.bytes == last_column(sorted_bytes(ps[0]), ps[0].order)
            &&& b.index == ps[0].first
            &&& b.randomized == ps[0].randomized
            &&& b.last == (ps.len() == 1)
            &&& ps.len() > 1 ==> flag(b.initial) && reads(
                data,
                b.c,
                tell_packets(b.initial, blockbits, ps.drop_first(), crc),
            )
        },
{
    lemma2_to64();
    let p = ps[0];
    let r = bit_for(p.randomized);
    let idx = positions(p);
    let col = last_column(sorted_bytes(p), p.order);
    let head = seq![told_by(m, r)];
    let m0 = model_after(m, r);
    let (row, m1) = tell_number(m0, p.first, blockbits);
    let block = tell_block(selectors_at_first(), groups_at_first(), idx);
    first_models_are_sound();
    models_start_even();
    one_is_plain(m, r);
    number_is_plain(m0, p.first, blockbits);
    block_is_plain(selectors_at_first(), groups_at_first(), idx);
    byte_values_are_a_table();
    mtf_round_trip(byte_values(), col);
    mtf_keeps_length(byte_values(), idx);
    let e = if ps.len() == 1 {
        1int
    } else {
        0int
    };
    let end = seq![told_by(m1, e)];
    let tail = if ps.len() == 1 {
        tell_number(model_after(m1, 1), crc, 32).0
    } else {
        tell_packets(model_after(m1, 0), blockbits, ps.drop_first(), crc)
    };
    one_is_plain(m1, e);
    let rest3 = end + tail;
    let rest2 = block + rest3;
    let rest1 = row + rest2;
    assert(tell_packets(m, blockbits, ps, crc) =~= head + rest1);
    reading_in_two(data, c, head, rest1);
    one_is_read(data, c, m, r);
    let c1 = past(data, c, head);
    reading_in_two(data, c1, row, rest2);
    number_is_read(data, c1, m0, p.first, blockbits, 0, 0);
    assert(p.first * pow2(0) == p.first) by (nonlinear_arith)
        requires pow2(0) == 1;
    let c2 = past(data, c1, row);
    reading_in_two(data, c2, block, rest3);
    let start = BlockState {
        c: c2,
        selector: selector_model(),
        groups: group_models(),
        table: byte_values(),
        bytes: seq![],
    };
    block_is_read(data, start, idx, pow2(blockbits));
    assert(Seq::<u8>::empty() + mtf_decoded(byte_values(), idx) =~= col);
    let c3 = past(data, c2, block);
    reading_in_two(data, c3, end, tail);
    one_is_read(data, c3, m1, e);
    if ps.len() == 1 {
        number_is_read(data, past(data, c3, end), model_after(m1, 1), crc, 32, 0, 0);
    }
}

// === bytes ====================================================================

/// What is still to come of the sorted bytes.
spec fn raw_left(s: ArsenicState) -> Seq<u8> {
    let w = walked(s.bytes, links(s.bytes), s.index, (s.bytes.len() - s.done) as nat);
    if s.randomized {
        flipped(w, s.done, s.flip_at, s.flip_number)
    } else {
        w
    }
}

/// What is still to come from the block.
spec fn text_left(s: ArsenicState) -> Seq<u8> {
    copies(s.last, s.repeat) + unrolled(raw_left(s), s.count, s.last)
}

spec fn in_block(s: ArsenicState) -> bool {
    &&& 0 <= s.done <= s.bytes.len()
    &&& 0 <= s.repeat
    &&& 0 <= s.count <= 4
    &&& s.bytes.len() > 0
    &&& 0 <= s.index < s.bytes.len()
    &&& 0 <= s.flip_number < 256
}

proof fn raw_is_taken(s: ArsenicState)
    requires
        in_block(s),
        s.done < s.bytes.len(),
    ensures
        raw_left(s).len() > 0,
        raw_next(s).0 == raw_left(s)[0],
        raw_left(raw_next(s).1) == raw_left(s).drop_first(),
        in_block(raw_next(s).1),
{
    links_invert_places(s.bytes);
    let l = links(s.bytes);
    let n = (s.bytes.len() - s.done) as nat;
    let w = walked(s.bytes, l, s.index, n);
    let rest = walked(s.bytes, l, l[s.index], (n - 1) as nat);
    assert(w == seq![s.bytes[l[s.index]]] + rest);
    assert(w.drop_first() =~= rest);
    if s.randomized {
        let u = raw_next(s).1;
        assert(raw_left(s) =~= seq![raw_next(s).0] + flipped(rest, s.done + 1, u.flip_at, u.flip_number));
        assert(raw_left(s).drop_first() =~= raw_left(u));
    }
}

proof fn nothing_left(s: ArsenicState)
    requires
        in_block(s),
        s.done == s.bytes.len(),
        s.repeat == 0,
    ensures
        text_left(s) == Seq::<u8>::empty(),
{
    assert(raw_left(s) =~= Seq::<u8>::empty());
    assert(text_left(s) =~= Seq::<u8>::empty());
}

/// What comes behind the block: that of the next one.
spec fn more(data: Seq<u8>, s: ArsenicState, k: nat) -> Result<Seq<u8>, ErrorKind> {
    if k == 0 {
        Ok(seq![])
    } else {
        match loaded(data, ArsenicState { repeat: 0, ..s }) {
            Err(e) => Err(e),
            Ok(t) => bytes_next(data, t, k),
        }
    }
}

/// The two wait for the same block.
spec fn same_next(s: ArsenicState, t: ArsenicState) -> bool {
    s.c == t.c && s.initial == t.initial && s.blockbits == t.blockbits && s.ended == t.ended
}

proof fn more_is_the_same(data: Seq<u8>, s: ArsenicState, t: ArsenicState, k: nat)
    requires
        same_next(s, t),
    ensures
        more(data, s, k) == more(data, t, k),
{
    assert(loaded(data, ArsenicState { repeat: 0, ..s }) == loaded(data, ArsenicState { repeat: 0, ..t }));
}

/// A byte of the block that is not the count of a run.
proof fn plain_byte_is_next(data: Seq<u8>, s: ArsenicState)
    requires
        in_block(s),
        s.repeat == 0,
        s.done < s.bytes.len(),
        s.count < 4,
    ensures
        byte_next(data, s) matches Ok((x, t)) && {
            &&& in_block(t)
            &&& same_next(s, t)
            &&& t.repeat == 0
            &&& raw_left(t).len() < raw_left(s).len()
            &&& text_left(s) == seq![x] + text_left(t)
        },
{
    raw_is_taken(s);
    let (b, u) = raw_next(s);
    let rest = raw_left(s).drop_first();
    let t = if b == s.last {
        ArsenicState { count: s.count + 1, ..u }
    } else {
        ArsenicState { count: 1, last: b, ..u }
    };
    assert(raw_left(t) == rest);
    assert(text_left(s) =~= unrolled(raw_left(s), s.count, s.last));
    assert(text_left(t) =~= unrolled(rest, t.count, t.last));
}

/// The count of a run, if it is not 0.
proof fn run_is_next(data: Seq<u8>, s: ArsenicState)
    requires
        in_block(s),
        s.repeat == 0,
        s.done < s.bytes.len(),
        s.count == 4,
        raw_next(s).0 != 0,
    ensures
        byte_next(data, s) matches Ok((x, t)) && {
            &&& in_block(t)
            &&& same_next(s, t)
            &&& raw_left(t).len() < raw_left(s).len()
            &&& text_left(s) == seq![x] + text_left(t)
        },
{
    raw_is_taken(s);
    let (b, u) = raw_next(s);
    let rest = raw_left(s).drop_first();
    let t = ArsenicState { count: 0, repeat: b - 1, ..u };
    assert(raw_left(t) == rest);
    assert(text_left(s) =~= copies(s.last, b as int) + unrolled(rest, 0, s.last));
    assert(text_left(s) =~= seq![s.last] + text_left(t));
}

/// The count 0 is passed over.
proof fn empty_run_is_passed(data: Seq<u8>, s: ArsenicState)
    requires
        in_block(s),
        s.repeat == 0,
        s.done < s.bytes.len(),
        s.count == 4,
        raw_next(s).0 == 0,
    ensures
        ({
            let t = ArsenicState { count: 0, ..raw_next(s).1 };
            &&& in_block(t)
            &&& same_next(s, t)
            &&& raw_left(t).len() < raw_left(s).len()
            &&& text_left(s) == text_left(t)
            &&& byte_next(data, s) == byte_next(data, t)
        }),
{
    raw_is_taken(s);
    let rest = raw_left(s).drop_first();
    let t = ArsenicState { count: 0, ..raw_next(s).1 };
    assert(raw_left(t) == rest);
    assert(text_left(s) =~= copies(s.last, 0) + unrolled(rest, 0, s.last));
    assert(text_left(s) =~= text_left(t));
}

proof fn block_is_used_up(data: Seq<u8>, s: ArsenicState, k: nat)
    requires
        in_block(s),
    ensures
        bytes_next(data, s, text_left(s).len() + k) == after(text_left(s), more(data, s, k)),
    decreases raw_left(s).len(), s.repeat,
{
    let text = text_left(s);
    let n = text.len() + k;
    if s.repeat > 0 {
        let t = ArsenicState { repeat: s.repeat - 1, ..s };
        assert(text =~= seq![s.last] + text_left(t));
        block_is_used_up(data, t, k);
        more_is_the_same(data, s, t, k);
        after_after(seq![s.last], text_left(t), more(data, s, k));
    } else if s.done >= s.bytes.len() {
        nothing_left(s);
        after_nothing(more(data, s, k));
        if k > 0 {
            if let Ok(t) = loaded(data, s) {
                assert(t.bytes.len() > 0);
                assert(byte_next(data, s) == byte_next(data, t));
            }
        }
    } else if s.count == 4 && raw_next(s).0 == 0 {
        empty_run_is_passed(data, s);
        let t = ArsenicState { count: 0, ..raw_next(s).1 };
        block_is_used_up(data, t, k);
        more_is_the_same(data, s, t, k);
    } else {
        if s.count == 4 {
            run_is_next(data, s);
        } else {
            plain_byte_is_next(data, s);
        }
        let (x, t) = byte_next(data, s)->Ok_0;
        block_is_used_up(data, t, k);
        more_is_the_same(data, s, t, k);
        after_after(seq![x], text_left(t), more(data, s, k));
    }
}

proof fn packets_are_read(data: Seq<u8>, s: ArsenicState, ps: Seq<Packet>, crc: nat)
    requires
        ps.len() > 0,
        !s.ended,
        s.repeat == 0,
        s.done >= s.bytes.len(),
        flag(s.initial),
        crc < pow2(32),
        forall|i: int| 0 <= i < ps.len() ==> packet_ok(#[trigger] ps[i], s.blockbits),
        reads(data, s.c, tell_packets(s.initial, s.blockbits, ps, crc)),
    ensures
        bytes_next(data, s, contents(ps).len()) == Ok::<Seq<u8>, ErrorKind>(contents(ps)),
    decreases ps.len(),
{
    let p = ps[0];
    let raw = sorted_bytes(p);
    let rest = ps.drop_first();
    let k = contents(rest).len();
    assert(packet_ok(ps[0], s.blockbits));
    packet_is_read(data, s.c, s.initial, s.blockbits, ps, crc);
    let t = loaded(data, s)->Ok_0;
    let col = last_column(raw, p.order);
    assert(t.bytes == col);
    assert(col.len() > 0);
    transform_is_undone(raw, p.order, p.first as int);
    rolling_is_undone(p.content, 0, 0);
    flipping_is_undone(rolled(p.content, 0, 0), 0, gap(0), 0);
    assert(raw_left(t) == rolled(p.content, 0, 0)) by {
        assert(walked(t.bytes, links(t.bytes), t.index, t.bytes.len()) == unsorted_bwt(col, p.first as int));
    }
    assert(copies(t.last, 0) + unrolled(rolled(p.content, 0, 0), 0, 0) =~= p.content);
    assert(text_left(t) =~= p.content);
    assert(p.content.len() > 0) by {
        if p.content.len() == 0 {
            assert(rolled(p.content, 0, 0).len() == 0);
        }
    }
    assert(byte_next(data, s) == byte_next(data, t));
    assert(contents(ps).len() == p.content.len() + k);
    assert(bytes_next(data, s, contents(ps).len()) == bytes_next(data, t, contents(ps).len()));
    block_is_used_up(data, t, k);
    if ps.len() == 1 {
        assert(contents(rest) =~= seq![]);
        assert(contents(ps) =~= p.content);
        assert(p.content + Seq::<u8>::empty() =~= p.content);
    } else {
        let t2 = ArsenicState { done: t.bytes.len() as int, ..t };
        assert forall|i: int| 0 <= i < rest.len() implies packet_ok(#[trigger] rest[i], t2.blockbits) by {
            assert(packet_ok(ps[i + 1], s.blockbits));
        }
        packets_are_read(data, t2, rest, crc);
        nothing_left(t2);
        block_is_used_up(data, t2, k);
        after_nothing(more(data, t2, k));
        assert(more(data, t2, k) == more(data, t, k));
        assert(after(p.content, Ok(contents(rest))) == Ok::<Seq<u8>, ErrorKind>(contents(ps)));
    }
}

/// Where the bits of `data` are those of the number that stands for a fork of any number
/// of blocks, of which each but the last is followed by the flag 0 and the last by the flag
/// 1, decoding gives the contents of the blocks one behind the other.
pub proof fn told_blocks_are_read_back(data: Seq<u8>, blockbits: nat, ps: Seq<Packet>, crc: nat)
    requires
        9 <= blockbits <= 24,
        crc < pow2(32),
        ps.len() > 0,
        forall|i: int| 0 <= i < ps.len() ==> packet_ok(#[trigger] ps[i], blockbits),
        ({
            let (v, r) = number_for(0x200_0000, tell_blocks(blockbits, ps, crc));
            8 * data.len() >= 26 + r && bits_number(data, 0, 26 + r) == v
        }),
    ensures
        decoded(data, contents(ps).len()) == Ok::<Seq<u8>, ErrorKind>(contents(ps)),
        fork_decoded(15, data, contents(ps).len()) == Ok::<Seq<u8>, ErrorKind>(contents(ps)),
{
    lemma2_to64();
    let told = tell_blocks(blockbits, ps, crc);
    first_models_are_sound();
    models_start_even();
    blocks_are_plain(blockbits, ps, crc);
    plain_ones_fit(ONE as int, told);
    told_symbols_are_read(data, told);
    let (a, m1) = tell_number(flags_at_first(), 0x41, 8);
    let (b, m2) = tell_number(m1, 0x73, 8);
    let (size, m3) = tell_number(m2, (blockbits - 9) as nat, 4);
    let go = seq![told_by(m3, 0)];
    let blocks = tell_packets(model_after(m3, 0), blockbits, ps, crc);
    number_is_plain(flags_at_first(), 0x41, 8);
    number_is_plain(m1, 0x73, 8);
    number_is_plain(m2, (blockbits - 9) as nat, 4);
    one_is_plain(m3, 0);
    let rest3 = go + blocks;
    let rest2 = size + rest3;
    let rest1 = b + rest2;
    assert(told =~= a + rest1);
    let c0 = coder_start(data);
    reading_in_two(data, c0, a, rest1);
    number_is_read(data, c0, flags_at_first(), 0x41, 8, 0, 0);
    let c1 = past(data, c0, a);
    reading_in_two(data, c1, b, rest2);
    number_is_read(data, c1, m1, 0x73, 8, 0, 0);
    let c2 = past(data, c1, b);
    reading_in_two(data, c2, size, rest3);
    number_is_read(data, c2, m2, (blockbits - 9) as nat, 4, 0, 0);
    let c3 = past(data, c2, size);
    reading_in_two(data, c3, go, blocks);
    one_is_read(data, c3, m3, 0);
    assert(0x41 * pow2(0) == 0x41 && 0x73 * pow2(0) == 0x73 && (blockbits - 9) * pow2(0) == blockbits - 9);
    let s = arsenic_start(data)->Ok_0;
    packets_are_read(data, s, ps, crc);
    low_half(15);
}

} // verus!
