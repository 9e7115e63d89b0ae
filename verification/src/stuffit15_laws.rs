use vstd::prelude::*;
use vstd::arithmetic::power2::{lemma2_to64, lemma_pow2_unfold, pow2};
use crate::error::ErrorKind;
use crate::sitx::bwt::{
    byte_values, byte_values_are_a_table, links, links_invert_places, moved_to_front, mtf_decoded, mtf_encoded,
    mtf_round_trip, unsorted_bwt, walked,
};
use crate::sitx::rotations::{last_column, sorts_rotations, transform_is_undone};
use crate::stuffit15::{
    arsenic_start, block_at, block_from, byte_next, bytes_next, coder_start, copies, decoded, group_models,
    initial_model, loaded, model_after, model_after_wf, model_start, narrowed, number_next, picked, picked_facts,
    raw_next, run_next, selector_model, sum, sum_constant, symbol_next, ArsenicState, BlockState, CoderState,
    ModelState, HALF, NUM_BITS, ONE,
};
use crate::stuffit15_encoding::{
    all_fit, bits_number, doubling_bounds, number_for, part_is_inside, range_after, reads, told_symbols_are_read, Told,
};

verus! {

// === run lengths ==============================================================

/// The bytes that `raw` stands for: behind four equal bytes one says how many more
/// follow. `count` equal bytes, `last`, have come before.
pub open spec fn unrolled(raw: Seq<u8>, count: int, last: u8) -> Seq<u8>
    decreases raw.len(),
{
    if raw.len() == 0 {
        seq![]
    } else {
        let b = raw[0];
        let rest = raw.drop_first();
        if count == 4 {
            copies(last, b as int) + unrolled(rest, 0, last)
        } else if b == last {
            seq![b] + unrolled(rest, count + 1, last)
        } else {
            seq![b] + unrolled(rest, 1, b)
        }
    }
}

/// How many of the first bytes are `b`, 255 at most.
pub open spec fn leading(s: Seq<u8>, b: u8) -> nat
    decreases s.len(),
{
    if s.len() == 0 || s[0] != b {
        0
    } else {
        let n = leading(s.drop_first(), b);
        if n < 255 {
            n + 1
        } else {
            255
        }
    }
}

/// The bytes with their runs shortened so that `unrolled` undoes it.
pub open spec fn rolled(s: Seq<u8>, count: int, last: u8) -> Seq<u8>
    decreases s.len(), (if count == 4 { 1int } else { 0 }),
{
    if s.len() == 0 {
        seq![]
    } else if count == 4 {
        let n = leading(s, last);
        seq![n as u8] + (if n <= s.len() {
            rolled(s.skip(n as int), 0, last)
        } else {
            seq![]
        })
    } else {
        seq![s[0]] + rolled(
            s.drop_first(),
            if s[0] == last {
                count + 1
            } else {
                1
            },
            s[0],
        )
    }
}

proof fn leading_facts(s: Seq<u8>, b: u8)
    ensures
        leading(s, b) <= s.len(),
        leading(s, b) <= 255,
        forall|i: int| 0 <= i < leading(s, b) ==> s[i] == b,
    decreases s.len(),
{
    if s.len() > 0 && s[0] == b {
        leading_facts(s.drop_first(), b);
        assert forall|i: int| 0 <= i < leading(s, b) implies s[i] == b by {
            if i > 0 {
                assert(s[i] == s.drop_first()[i - 1]);
            }
        }
    }
}

/// Shortening runs and expanding them again gives the bytes back.
pub proof fn rolling_is_undone(s: Seq<u8>, count: int, last: u8)
    ensures
        unrolled(rolled(s, count, last), count, last) == s,
    decreases s.len(), (if count == 4 { 1int } else { 0 }),
{
    let r = rolled(s, count, last);
    if s.len() == 0 {
        assert(s =~= seq![]);
    } else if count == 4 {
        let n = leading(s, last);
        leading_facts(s, last);
        rolling_is_undone(s.skip(n as int), 0, last);
        let rest = rolled(s.skip(n as int), 0, last);
        assert(r.drop_first() =~= rest);
        assert(r[0] == n);
        assert(copies(last, n as int) + s.skip(n as int) =~= s);
    } else {
        let count1 = if s[0] == last {
            count + 1
        } else {
            1
        };
        rolling_is_undone(s.drop_first(), count1, s[0]);
        assert(r.drop_first() =~= rolled(s.drop_first(), count1, s[0]));
        assert(seq![s[0]] + s.drop_first() =~= s);
    }
}

// === telling ==================================================================

/// Symbol number `n` told under a model.
pub open spec fn told_by(m: ModelState, n: int) -> Told {
    Told { freqs: m.freqs, n }
}

/// The `n` low bits of `v`, the lowest first, and the model after them.
pub open spec fn tell_number(m: ModelState, v: nat, n: nat) -> (Seq<Told>, ModelState)
    decreases n,
{
    if n == 0 {
        (seq![], m)
    } else {
        let bit = (v % 2) as int;
        let (rest, m1) = tell_number(model_after(m, bit), v / 2, (n - 1) as nat);
        (seq![told_by(m, bit)] + rest, m1)
    }
}

/// A run of `z` front bytes, in binary with the digits 1 and 2.
pub open spec fn tell_run(m: ModelState, z: nat) -> (Seq<Told>, ModelState)
    decreases z,
{
    if z == 0 {
        (seq![], m)
    } else {
        let d = (z - 1) as int % 2;
        let (rest, m1) = tell_run(model_after(m, d), ((z - 1 - d) / 2) as nat);
        (seq![told_by(m, d)] + rest, m1)
    }
}

/// How many zeros the sequence starts with.
pub open spec fn zeros(idx: Seq<u8>) -> nat
    decreases idx.len(),
{
    if idx.len() == 0 || idx[0] != 0 {
        0
    } else {
        1 + zeros(idx.drop_first())
    }
}

/// The group of a table position from 2 on.
pub open spec fn group_of(v: int) -> int {
    if v < 4 {
        0
    } else if v < 8 {
        1
    } else if v < 16 {
        2
    } else if v < 32 {
        3
    } else if v < 64 {
        4
    } else if v < 128 {
        5
    } else {
        6
    }
}

/// The first position of a group.
pub open spec fn group_start(g: int) -> int {
    if g == 0 {
        2
    } else if g == 1 {
        4
    } else if g == 2 {
        8
    } else if g == 3 {
        16
    } else if g == 4 {
        32
    } else if g == 5 {
        64
    } else {
        128
    }
}

/// The table positions of a block.
pub open spec fn tell_block(sel: ModelState, groups: Seq<ModelState>, idx: Seq<u8>) -> Seq<Told>
    decreases idx.len(),
{
    let z = zeros(idx);
    let (run, m) = tell_run(sel, z);
    if z >= idx.len() {
        run + seq![told_by(m, 10)]
    } else {
        let v = idx[z as int] as int;
        let rest = idx.skip(z as int + 1);
        if v == 1 {
            run + seq![told_by(m, 2)] + tell_block(model_after(m, 2), groups, rest)
        } else {
            let g = group_of(v);
            run + seq![told_by(m, 3 + g)] + seq![told_by(groups[g], v - group_start(g))] + tell_block(
                model_after(m, 3 + g),
                groups.update(g, model_after(groups[g], v - group_start(g))),
                rest,
            )
        }
    }
}

/// A fork of one block: the letters, the block size, that a block comes, that it is not
/// randomized, the row to start from, the table positions, that it is the last, and a
/// checksum.
pub open spec fn tell_fork(blockbits: nat, first: nat, idx: Seq<u8>, crc: nat) -> Seq<Told> {
    let (a, m1) = tell_number(initial_model(), 0x41, 8);
    let (b, m2) = tell_number(m1, 0x73, 8);
    let (size, m3) = tell_number(m2, (blockbits - 9) as nat, 4);
    let m4 = model_after(m3, 0);
    let m5 = model_after(m4, 0);
    let (row, m6) = tell_number(m5, first, blockbits);
    let m7 = model_after(m6, 1);
    let (check, _m8) = tell_number(m7, crc, 32);
    a + b + size + seq![told_by(m3, 0)] + seq![told_by(m4, 0)] + row + tell_block(
        selector_model(),
        group_models(),
        idx,
    ) + seq![told_by(m6, 1)] + check
}

// === everything that is told fits =============================================

/// Told under a sound model.
pub(crate) open spec fn plain_told(m: Told) -> bool {
    &&& 0 <= m.n < m.freqs.len()
    &&& forall|i: int| 0 <= i < m.freqs.len() ==> 1 <= #[trigger] m.freqs[i]
    &&& sum(m.freqs) <= HALF
}

pub(crate) open spec fn all_plain(ms: Seq<Told>) -> bool {
    forall|i: int| 0 <= i < ms.len() ==> plain_told(#[trigger] ms[i])
}

pub(crate) proof fn plain_ones_fit(range: int, ms: Seq<Told>)
    requires
        all_plain(ms),
        HALF <= range <= ONE,
    ensures
        all_fit(range, ms),
    decreases ms.len(),
{
    if ms.len() > 0 {
        assert(plain_told(ms[0]));
        part_is_inside(range, ms[0]);
        doubling_bounds(ms[0].width(range));
        assert forall|i: int| 0 <= i < ms.drop_first().len() implies plain_told(#[trigger] ms.drop_first()[i]) by {
            assert(ms.drop_first()[i] == ms[i + 1]);
        }
        plain_ones_fit(range_after(range, ms[0]), ms.drop_first());
    }
}

pub(crate) proof fn joined_are_plain(a: Seq<Told>, b: Seq<Told>)
    requires
        all_plain(a),
        all_plain(b),
    ensures
        all_plain(a + b),
{
    assert forall|i: int| 0 <= i < (a + b).len() implies plain_told(#[trigger] (a + b)[i]) by {
        if i < a.len() {
            assert((a + b)[i] == a[i]);
        } else {
            assert((a + b)[i] == b[i - a.len()]);
        }
    }
}

pub(crate) proof fn one_is_plain(m: ModelState, n: int)
    requires
        m.wf(),
        0 <= n < m.freqs.len(),
    ensures
        all_plain(seq![told_by(m, n)]),
        model_after(m, n).wf(),
        model_after(m, n).freqs.len() == m.freqs.len(),
        model_after(m, n).first == m.first,
{
    model_after_wf(m, n);
}

pub(crate) proof fn number_is_plain(m: ModelState, v: nat, n: nat)
    requires
        m.wf(),
        m.freqs.len() == 2,
    ensures
        all_plain(tell_number(m, v, n).0),
        tell_number(m, v, n).1.wf(),
        tell_number(m, v, n).1.freqs.len() == 2,
        tell_number(m, v, n).1.first == m.first,
    decreases n,
{
    if n > 0 {
        let bit = (v % 2) as int;
        one_is_plain(m, bit);
        number_is_plain(model_after(m, bit), v / 2, (n - 1) as nat);
        joined_are_plain(seq![told_by(m, bit)], tell_number(model_after(m, bit), v / 2, (n - 1) as nat).0);
    }
}

proof fn run_is_plain(m: ModelState, z: nat)
    requires
        m.wf(),
        m.freqs.len() == 11,
    ensures
        all_plain(tell_run(m, z).0),
        tell_run(m, z).1.wf(),
        tell_run(m, z).1.freqs.len() == 11,
        tell_run(m, z).1.first == m.first,
    decreases z,
{
    if z > 0 {
        let d = (z - 1) as int % 2;
        one_is_plain(m, d);
        run_is_plain(model_after(m, d), ((z - 1 - d) / 2) as nat);
        joined_are_plain(seq![told_by(m, d)], tell_run(model_after(m, d), ((z - 1 - d) / 2) as nat).0);
    }
}

/// The models of the groups are sound.
pub(crate) open spec fn groups_sound(groups: Seq<ModelState>) -> bool {
    &&& groups.len() == 7
    &&& forall|g: int|
        0 <= g < 7 ==> {
            &&& (#[trigger] groups[g]).wf()
            &&& groups[g].first == group_start(g)
            &&& groups[g].freqs.len() == group_start(g)
        }
}

pub(crate) proof fn block_is_plain(sel: ModelState, groups: Seq<ModelState>, idx: Seq<u8>)
    requires
        sel.wf(),
        sel.freqs.len() == 11,
        groups_sound(groups),
    ensures
        all_plain(tell_block(sel, groups, idx)),
    decreases idx.len(),
{
    let z = zeros(idx);
    zeros_bound(idx);
    let (run, m) = tell_run(sel, z);
    run_is_plain(sel, z);
    if z >= idx.len() {
        one_is_plain(m, 10);
        joined_are_plain(run, seq![told_by(m, 10)]);
    } else {
        let v = idx[z as int] as int;
        let rest = idx.skip(z as int + 1);
        if v == 1 {
            one_is_plain(m, 2);
            block_is_plain(model_after(m, 2), groups, rest);
            joined_are_plain(run, seq![told_by(m, 2)]);
            joined_are_plain(run + seq![told_by(m, 2)], tell_block(model_after(m, 2), groups, rest));
        } else {
            let g = group_of(v);
            let n = v - group_start(g);
            one_is_plain(m, 3 + g);
            assert(groups[g].wf());
            one_is_plain(groups[g], n);
            let groups1 = groups.update(g, model_after(groups[g], n));
            assert(groups_sound(groups1));
            block_is_plain(model_after(m, 3 + g), groups1, rest);
            joined_are_plain(run, seq![told_by(m, 3 + g)]);
            joined_are_plain(run + seq![told_by(m, 3 + g)], seq![told_by(groups[g], n)]);
            joined_are_plain(
                run + seq![told_by(m, 3 + g)] + seq![told_by(groups[g], n)],
                tell_block(model_after(m, 3 + g), groups1, rest),
            );
        }
    }
}

proof fn zeros_bound(idx: Seq<u8>)
    ensures
        zeros(idx) <= idx.len(),
        forall|i: int| 0 <= i < zeros(idx) ==> idx[i] == 0,
        zeros(idx) < idx.len() ==> idx[zeros(idx) as int] != 0,
    decreases idx.len(),
{
    if idx.len() > 0 && idx[0] == 0 {
        zeros_bound(idx.drop_first());
        assert forall|i: int| 0 <= i < zeros(idx) implies idx[i] == 0 by {
            if i > 0 {
                assert(idx[i] == idx.drop_first()[i - 1]);
            }
        }
        if zeros(idx) < idx.len() {
            assert(idx[zeros(idx) as int] == idx.drop_first()[zeros(idx) - 1]);
        }
    }
}

// === reading ==================================================================

/// The decoder after some symbols.
pub(crate) open spec fn past(data: Seq<u8>, c: CoderState, ms: Seq<Told>) -> CoderState
    decreases ms.len(),
{
    if ms.len() == 0 {
        c
    } else {
        let m = ms[0];
        past(data, narrowed(data, c, m.low(), m.freqs[m.n] as int, m.total()), ms.drop_first())
    }
}

proof fn first_is_read(data: Seq<u8>, c: CoderState, ms: Seq<Told>)
    requires
        ms.len() > 0,
        0 <= ms[0].n < ms[0].freqs.len(),
    ensures
        ({
            let m = ms[0];
            let target = (c.code as int / (c.range / m.total())) as u32;
            reads(data, c, ms) == (picked(m.freqs, target, 0, 0) == (m.n, m.low()) && reads(
                data,
                narrowed(data, c, m.low(), m.freqs[m.n] as int, m.total()),
                ms.drop_first(),
            ))
        }),
{
    let m = ms[0];
    let target = (c.code as int / (c.range / m.total())) as u32;
    assert(m.freqs.subrange(0, 0) =~= Seq::<u32>::empty());
    picked_facts(m.freqs, target, 0, 0);
}

pub(crate) proof fn reading_in_two(data: Seq<u8>, c: CoderState, a: Seq<Told>, b: Seq<Told>)
    requires
        all_plain(a),
    ensures
        reads(data, c, a + b) == (reads(data, c, a) && reads(data, past(data, c, a), b)),
        past(data, c, a + b) == past(data, past(data, c, a), b),
    decreases a.len(),
{
    if a.len() == 0 {
        assert(a + b =~= b);
    } else {
        let m = a[0];
        assert(plain_told(a[0]));
        assert((a + b).drop_first() =~= a.drop_first() + b);
        assert forall|i: int| 0 <= i < a.drop_first().len() implies plain_told(#[trigger] a.drop_first()[i]) by {
            assert(a.drop_first()[i] == a[i + 1]);
        }
        first_is_read(data, c, a);
        first_is_read(data, c, a + b);
        reading_in_two(
            data,
            narrowed(data, c, m.low(), m.freqs[m.n] as int, m.total()),
            a.drop_first(),
            b,
        );
    }
}

pub(crate) proof fn one_is_read(data: Seq<u8>, c: CoderState, m: ModelState, n: int)
    requires
        m.wf(),
        0 <= n < m.freqs.len(),
        reads(data, c, seq![told_by(m, n)]),
    ensures
        symbol_next(data, c, m) == (m.first + n, past(data, c, seq![told_by(m, n)]), model_after(m, n)),
{
    let ms = seq![told_by(m, n)];
    first_is_read(data, c, ms);
    assert(ms.drop_first() =~= seq![]);
    let t = ms[0];
    assert(past(data, c, ms) == past(
        data,
        narrowed(data, c, t.low(), t.freqs[t.n] as int, t.total()),
        ms.drop_first(),
    ));
}

pub(crate) proof fn number_is_read(data: Seq<u8>, c: CoderState, m: ModelState, v: nat, n: nat, i: nat, acc: nat)
    requires
        m.wf(),
        m.freqs.len() == 2,
        m.first == 0,
        v < pow2(n),
        reads(data, c, tell_number(m, v, n).0),
    ensures
        number_next(data, c, m, i, n, acc) == (
            acc + v * pow2(i),
            past(data, c, tell_number(m, v, n).0),
            tell_number(m, v, n).1,
        ),
    decreases n,
{
    lemma2_to64();
    if n == 0 {
        assert(v * pow2(i) == 0) by (nonlinear_arith)
            requires v == 0;
    } else {
        let bit = (v % 2) as int;
        let m1 = model_after(m, bit);
        let first = seq![told_by(m, bit)];
        let rest = tell_number(m1, v / 2, (n - 1) as nat).0;
        one_is_plain(m, bit);
        reading_in_two(data, c, first, rest);
        one_is_read(data, c, m, bit);
        lemma_pow2_unfold(n);
        number_is_read(
            data,
            past(data, c, first),
            m1,
            v / 2,
            (n - 1) as nat,
            i + 1,
            acc + (if bit != 0 {
                pow2(i)
            } else {
                0
            }),
        );
        lemma_pow2_unfold(i + 1);
        let p = pow2(i) as int;
        let h = (v / 2) as int;
        assert(v == 2 * h + bit);
        assert(h * (2 * p) + bit * p == (2 * h + bit) * p) by (nonlinear_arith);
        assert(bit * p == (if bit != 0 {
            p
        } else {
            0
        })) by (nonlinear_arith)
            requires bit == 0 || bit == 1;
    }
}

/// A run and the selector behind it are read.
proof fn run_is_read(data: Seq<u8>, c: CoderState, m: ModelState, z: nat, t: int, w: int, n: int, room: int)
    requires
        m.wf(),
        m.freqs.len() == 11,
        m.first == 0,
        2 <= t < 11,
        w > 0,
        n + z * w <= room,
        reads(data, c, tell_run(m, z).0 + seq![told_by(tell_run(m, z).1, t)]),
    ensures
        ({
            let (run, m1) = tell_run(m, z);
            let (sel0, c0, m0) = symbol_next(data, c, m);
            run_next(data, c0, m0, sel0, w, n, room) == Ok::<(int, int, CoderState, ModelState), ErrorKind>(
                (n + z * w, t, past(data, c, run + seq![told_by(m1, t)]), model_after(m1, t)),
            )
        }),
    decreases z,
{
    let (run, m1) = tell_run(m, z);
    let end = seq![told_by(m1, t)];
    run_is_plain(m, z);
    if z == 0 {
        assert(run + end =~= end);
        assert(z * w == 0) by (nonlinear_arith)
            requires z == 0;
        one_is_read(data, c, m, t);
    } else {
        let d = (z - 1) as int % 2;
        let y = ((z - 1 - d) / 2) as nat;
        let m2 = model_after(m, d);
        let first = seq![told_by(m, d)];
        let rest = tell_run(m2, y).0;
        one_is_plain(m, d);
        assert(run + end =~= first + (rest + end));
        reading_in_two(data, c, first, rest + end);
        one_is_read(data, c, m, d);
        assert(z == 2 * y + d + 1);
        assert(n + (d + 1) * w + y * (2 * w) == n + z * w) by (nonlinear_arith)
            requires z == 2 * y + d + 1;
        assert(y * (2 * w) >= 0) by (nonlinear_arith)
            requires w > 0, y >= 0;
        run_is_read(data, past(data, c, first), m2, y, t, 2 * w, n + (d + 1) * w, room);
    }
}

proof fn front_stays(table: Seq<u8>)
    requires
        table.len() > 0,
    ensures
        moved_to_front(table, 0) == table,
{
    assert(moved_to_front(table, 0) =~= table);
}

/// Front positions stand for copies of the front byte.
proof fn zeros_are_copies(table: Seq<u8>, idx: Seq<u8>, z: nat)
    requires
        table.len() > 0,
        z <= idx.len(),
        forall|i: int| 0 <= i < z ==> idx[i] == 0,
    ensures
        mtf_decoded(table, idx) == copies(table[0], z as int) + mtf_decoded(table, idx.skip(z as int)),
    decreases z,
{
    if z == 0 {
        assert(idx.skip(0) =~= idx);
        assert(copies(table[0], 0) + mtf_decoded(table, idx) =~= mtf_decoded(table, idx));
    } else {
        front_stays(table);
        assert(idx[0] == 0);
        let rest = idx.skip(1);
        assert forall|i: int| 0 <= i < z - 1 implies rest[i] == 0 by {
            assert(rest[i] == idx[i + 1]);
        }
        zeros_are_copies(table, rest, (z - 1) as nat);
        assert(rest.skip(z - 1) =~= idx.skip(z as int));
        assert(seq![table[0]] + (copies(table[0], z - 1) + mtf_decoded(table, idx.skip(z as int))) =~= copies(
            table[0],
            z as int,
        ) + mtf_decoded(table, idx.skip(z as int)));
    }
}

pub(crate) proof fn block_is_read(data: Seq<u8>, b: BlockState, idx: Seq<u8>, size: nat)
    requires
        b.selector.wf(),
        b.selector.freqs.len() == 11,
        b.selector.first == 0,
        groups_sound(b.groups),
        b.table.len() == 256,
        b.bytes.len() + idx.len() <= size,
        reads(data, b.c, tell_block(b.selector, b.groups, idx)),
    ensures
        block_from(data, b, size) == Ok::<(Seq<u8>, CoderState), ErrorKind>(
            (b.bytes + mtf_decoded(b.table, idx), past(data, b.c, tell_block(b.selector, b.groups, idx))),
        ),
    decreases idx.len(),
{
    let z = zeros(idx);
    zeros_bound(idx);
    let (run, m) = tell_run(b.selector, z);
    run_is_plain(b.selector, z);
    zeros_are_copies(b.table, idx, z);
    let room = size - b.bytes.len();
    assert(0 + z * 1 == z) by (nonlinear_arith);
    let bytes = b.bytes + copies(b.table[0], z as int);
    if z >= idx.len() {
        run_is_read(data, b.c, b.selector, z, 10, 1, 0, room);
        assert(idx.skip(z as int) =~= seq![]);
        assert(bytes =~= b.bytes + mtf_decoded(b.table, idx));
    } else {
        let v = idx[z as int] as int;
        let rest = idx.skip(z as int + 1);
        let left = idx.skip(z as int);
        assert(left[0] == v);
        assert(left.skip(1) =~= rest);
        let table1 = moved_to_front(b.table, v);
        assert(table1.len() == 256);
        assert(bytes.push(b.table[v]) + mtf_decoded(table1, rest) =~= b.bytes + mtf_decoded(b.table, idx));
        if v == 1 {
            let head = run + seq![told_by(m, 2)];
            one_is_plain(m, 2);
            joined_are_plain(run, seq![told_by(m, 2)]);
            reading_in_two(data, b.c, head, tell_block(model_after(m, 2), b.groups, rest));
            run_is_read(data, b.c, b.selector, z, 2, 1, 0, room);
            block_is_read(
                data,
                BlockState {
                    c: past(data, b.c, head),
                    selector: model_after(m, 2),
                    groups: b.groups,
                    table: table1,
                    bytes: bytes.push(b.table[v]),
                },
                rest,
                size,
            );
        } else {
            let g = group_of(v);
            let n = v - group_start(g);
            let groups1 = b.groups.update(g, model_after(b.groups[g], n));
            let head = run + seq![told_by(m, 3 + g)];
            let which = seq![told_by(b.groups[g], n)];
            let tail = tell_block(model_after(m, 3 + g), groups1, rest);
            one_is_plain(m, 3 + g);
            assert(b.groups[g].wf());
            one_is_plain(b.groups[g], n);
            assert(groups_sound(groups1));
            joined_are_plain(run, seq![told_by(m, 3 + g)]);
            joined_are_plain(head, which);
            reading_in_two(data, b.c, head + which, tail);
            reading_in_two(data, b.c, head, which);
            run_is_read(data, b.c, b.selector, z, 3 + g, 1, 0, room);
            one_is_read(data, past(data, b.c, head), b.groups[g], n);
            block_is_read(
                data,
                BlockState {
                    c: past(data, b.c, head + which),
                    selector: model_after(m, 3 + g),
                    groups: groups1,
                    table: table1,
                    bytes: bytes.push(b.table[v]),
                },
                rest,
                size,
            );
        }
    }
}

// === bytes ====================================================================

/// The bytes that are still to come from the block, as they were sorted.
spec fn raw_left(s: ArsenicState) -> Seq<u8> {
    walked(s.bytes, links(s.bytes), s.index, (s.bytes.len() - s.done) as nat)
}

/// What is still to come from the block.
spec fn text_left(s: ArsenicState) -> Seq<u8> {
    copies(s.last, s.repeat) + unrolled(raw_left(s), s.count, s.last)
}

/// A block under way that is not randomized.
spec fn in_block(s: ArsenicState) -> bool {
    &&& !s.randomized
    &&& 0 <= s.done <= s.bytes.len()
    &&& 0 <= s.repeat
    &&& 0 <= s.count <= 4
    &&& s.bytes.len() > 0
    &&& 0 <= s.index < s.bytes.len()
}

proof fn raw_is_taken(s: ArsenicState)
    requires
        in_block(s),
        s.done < s.bytes.len(),
    ensures
        raw_left(s).len() > 0,
        raw_next(s).0 == raw_left(s)[0],
        raw_left(raw_next(s).1) == raw_left(s).drop_first(),
        in_block(raw_next(s).1),
{
    links_invert_places(s.bytes);
    let l = links(s.bytes);
    let n = (s.bytes.len() - s.done) as nat;
    assert(raw_left(s) == seq![s.bytes[l[s.index]]] + walked(s.bytes, l, l[s.index], (n - 1) as nat));
    assert(raw_left(s).drop_first() =~= walked(s.bytes, l, l[s.index], (n - 1) as nat));
}

proof fn block_is_spelled(data: Seq<u8>, s: ArsenicState, n: nat)
    requires
        in_block(s),
        n <= text_left(s).len(),
    ensures
        bytes_next(data, s, n) == Ok::<Seq<u8>, ErrorKind>(text_left(s).subrange(0, n as int)),
    decreases n, raw_left(s).len(),
{
    let text = text_left(s);
    if n == 0 {
        assert(text.subrange(0, 0) =~= seq![]);
    } else if s.repeat > 0 {
        let t = ArsenicState { repeat: s.repeat - 1, ..s };
        assert(text =~= seq![s.last] + text_left(t));
        block_is_spelled(data, t, (n - 1) as nat);
        assert(text.subrange(0, n as int) =~= seq![s.last] + text_left(t).subrange(0, n - 1));
    } else {
        assert(text =~= unrolled(raw_left(s), s.count, s.last));
        assert(s.done < s.bytes.len()) by {
            if s.done >= s.bytes.len() {
                assert(raw_left(s).len() == 0);
            }
        }
        raw_is_taken(s);
        let (b, u) = raw_next(s);
        let rest = raw_left(s).drop_first();
        if s.count == 4 {
            if b == 0 {
                let t = ArsenicState { count: 0, ..u };
                assert(copies(s.last, 0) + unrolled(rest, 0, s.last) =~= unrolled(rest, 0, s.last));
                assert(text_left(t) =~= unrolled(rest, 0, s.last));
                assert(raw_left(t) == rest);
                block_is_spelled(data, t, n);
                assert(byte_next(data, s) == byte_next(data, t));
            } else {
                let t = ArsenicState { count: 0, repeat: b - 1, ..u };
                assert(raw_left(t) == rest);
                assert(text =~= seq![s.last] + text_left(t));
                block_is_spelled(data, t, (n - 1) as nat);
                assert(text.subrange(0, n as int) =~= seq![s.last] + text_left(t).subrange(0, n - 1));
            }
        } else if b == s.last {
            let t = ArsenicState { count: s.count + 1, ..u };
            assert(raw_left(t) == rest);
            assert(text =~= seq![b] + text_left(t));
            block_is_spelled(data, t, (n - 1) as nat);
            assert(text.subrange(0, n as int) =~= seq![b] + text_left(t).subrange(0, n - 1));
        } else {
            let t = ArsenicState { count: 1, last: b, ..u };
            assert(raw_left(t) == rest);
            assert(text =~= seq![b] + text_left(t));
            block_is_spelled(data, t, (n - 1) as nat);
            assert(text.subrange(0, n as int) =~= seq![b] + text_left(t).subrange(0, n - 1));
        }
    }
}

// === forks ====================================================================

proof fn fresh_model_is_sound(first: int, last: int, increment: int, limit: int)
    requires
        0 <= first < last < 256,
        1 <= increment <= 8,
        increment * (last - first + 1) <= limit <= 1024,
        increment + (last - first + 1) <= limit,
    ensures
        model_start(first, last, increment, limit).wf(),
{
    let n = (last - first + 1) as nat;
    sum_constant(n, increment as u32);
    assert(model_start(first, last, increment, limit).freqs =~= Seq::new(n, |i: int| increment as u32));
    assert(n * (increment as u32) == increment * (last - first + 1)) by (nonlinear_arith)
        requires n == last - first + 1, increment as u32 == increment;
}

pub(crate) proof fn fresh_models_are_sound()
    ensures
        initial_model().wf(),
        selector_model().wf(),
        groups_sound(group_models()),
{
    fresh_model_is_sound(0, 1, 1, 256);
    fresh_model_is_sound(0, 10, 8, 1024);
    fresh_model_is_sound(2, 3, 8, 1024);
    fresh_model_is_sound(4, 7, 4, 1024);
    fresh_model_is_sound(8, 15, 4, 1024);
    fresh_model_is_sound(16, 31, 4, 1024);
    fresh_model_is_sound(32, 63, 2, 1024);
    fresh_model_is_sound(64, 127, 2, 1024);
    fresh_model_is_sound(128, 255, 1, 1024);
    let groups = group_models();
    assert forall|g: int| 0 <= g < 7 implies {
        &&& (#[trigger] groups[g]).wf()
        &&& groups[g].first == group_start(g)
        &&& groups[g].freqs.len() == group_start(g)
    } by {
        assert(g == 0 || g == 1 || g == 2 || g == 3 || g == 4 || g == 5 || g == 6);
    }
}

pub(crate) proof fn mtf_keeps_length(table: Seq<u8>, idx: Seq<u8>)
    ensures
        mtf_decoded(table, idx).len() == idx.len(),
    decreases idx.len(),
{
    if idx.len() > 0 {
        mtf_keeps_length(moved_to_front(table, idx[0] as int), idx.skip(1));
    }
}

/// The parts of what is told for a fork.
struct ForkParts {
    a: Seq<Told>,
    b: Seq<Told>,
    size: Seq<Told>,
    row: Seq<Told>,
    block: Seq<Told>,
    check: Seq<Told>,
    m1: ModelState,
    m2: ModelState,
    m3: ModelState,
    m4: ModelState,
    m5: ModelState,
    m6: ModelState,
    m7: ModelState,
}

spec fn fork_parts(blockbits: nat, first: nat, idx: Seq<u8>, crc: nat) -> ForkParts {
    let (a, m1) = tell_number(initial_model(), 0x41, 8);
    let (b, m2) = tell_number(m1, 0x73, 8);
    let (size, m3) = tell_number(m2, (blockbits - 9) as nat, 4);
    let m4 = model_after(m3, 0);
    let m5 = model_after(m4, 0);
    let (row, m6) = tell_number(m5, first, blockbits);
    let m7 = model_after(m6, 1);
    let check = tell_number(m7, crc, 32).0;
    ForkParts {
        a,
        b,
        size,
        row,
        block: tell_block(selector_model(), group_models(), idx),
        check,
        m1,
        m2,
        m3,
        m4,
        m5,
        m6,
        m7,
    }
}

pub(crate) open spec fn flag(m: ModelState) -> bool {
    m.wf() && m.freqs.len() == 2 && m.first == 0
}

proof fn parts_are_plain(blockbits: nat, first: nat, idx: Seq<u8>, crc: nat)
    ensures
        ({
            let p = fork_parts(blockbits, first, idx, crc);
            &&& all_plain(p.a) && all_plain(p.b) && all_plain(p.size)
            &&& all_plain(p.row) && all_plain(p.block) && all_plain(p.check)
            &&& flag(initial_model()) && flag(p.m1) && flag(p.m2) && flag(p.m3) && flag(p.m4) && flag(p.m5) && flag(
                p.m6,
            ) && flag(p.m7)
        }),
{
    fresh_models_are_sound();
    let p = fork_parts(blockbits, first, idx, crc);
    number_is_plain(initial_model(), 0x41, 8);
    number_is_plain(p.m1, 0x73, 8);
    number_is_plain(p.m2, (blockbits - 9) as nat, 4);
    one_is_plain(p.m3, 0);
    one_is_plain(p.m4, 0);
    number_is_plain(p.m5, first, blockbits);
    one_is_plain(p.m6, 1);
    number_is_plain(p.m7, crc, 32);
    block_is_plain(selector_model(), group_models(), idx);
}

/// What is told for a fork is read piece by piece.
proof fn fork_is_read(data: Seq<u8>, blockbits: nat, first: nat, idx: Seq<u8>, crc: nat)
    requires
        9 <= blockbits <= 24,
        first < idx.len() <= pow2(blockbits),
        crc < pow2(32),
        reads(data, coder_start(data), tell_fork(blockbits, first, idx, crc)),
    ensures
        arsenic_start(data) matches Ok(s) && {
            &&& s.blockbits == blockbits
            &&& !s.ended
            &&& s.bytes.len() == 0
            &&& s.done == 0
            &&& s.repeat == 0
            &&& block_at(data, s.c, s.initial, blockbits) matches Ok(b) && {
                &&& b.bytes == mtf_decoded(byte_values(), idx)
                &&& b.index == first
                &&& !b.randomized
                &&& b.last
            }
        },
{
    lemma2_to64();
    let p = fork_parts(blockbits, first, idx, crc);
    parts_are_plain(blockbits, first, idx, crc);
    let go = seq![told_by(p.m3, 0)];
    let plain = seq![told_by(p.m4, 0)];
    let last = seq![told_by(p.m6, 1)];
    one_is_plain(p.m3, 0);
    one_is_plain(p.m4, 0);
    one_is_plain(p.m6, 1);
    let c0 = coder_start(data);
    let rest8 = last + p.check;
    let rest7 = p.block + rest8;
    let rest6 = p.row + rest7;
    let rest5 = plain + rest6;
    let rest4 = go + rest5;
    let rest3 = p.size + rest4;
    let rest2 = p.b + rest3;
    assert(tell_fork(blockbits, first, idx, crc) =~= p.a + rest2);
    reading_in_two(data, c0, p.a, rest2);
    number_is_read(data, c0, initial_model(), 0x41, 8, 0, 0);
    let c1 = past(data, c0, p.a);
    reading_in_two(data, c1, p.b, rest3);
    number_is_read(data, c1, p.m1, 0x73, 8, 0, 0);
    let c2 = past(data, c1, p.b);
    reading_in_two(data, c2, p.size, rest4);
    number_is_read(data, c2, p.m2, (blockbits - 9) as nat, 4, 0, 0);
    let c3 = past(data, c2, p.size);
    reading_in_two(data, c3, go, rest5);
    one_is_read(data, c3, p.m3, 0);
    let c4 = past(data, c3, go);
    reading_in_two(data, c4, plain, rest6);
    one_is_read(data, c4, p.m4, 0);
    let c5 = past(data, c4, plain);
    reading_in_two(data, c5, p.row, rest7);
    number_is_read(data, c5, p.m5, first, blockbits, 0, 0);
    let c6 = past(data, c5, p.row);
    reading_in_two(data, c6, p.block, rest8);
    let start = BlockState {
        c: c6,
        selector: selector_model(),
        groups: group_models(),
        table: byte_values(),
        bytes: seq![],
    };
    fresh_models_are_sound();
    block_is_read(data, start, idx, pow2(blockbits));
    assert(Seq::<u8>::empty() + mtf_decoded(byte_values(), idx) =~= mtf_decoded(byte_values(), idx));
    mtf_keeps_length(byte_values(), idx);
    let c7 = past(data, c6, p.block);
    reading_in_two(data, c7, last, p.check);
    one_is_read(data, c7, p.m6, 1);
    number_is_read(data, past(data, c7, last), p.m7, crc, 32, 0, 0);
    assert(0x41 * pow2(0) == 0x41 && 0x73 * pow2(0) == 0x73 && (blockbits - 9) * pow2(0) == blockbits - 9 && first
        * pow2(0) == first);
}

/// Where the bits of `data` are those of the number that stands for a fork of one block
/// (its runs shortened, its rotations sorted, and the places of their last bytes in a
/// table that moves them to the front told one by one), decoding gives the content.
pub proof fn told_fork_is_read_back(
    data: Seq<u8>,
    content: Seq<u8>,
    order: Seq<int>,
    first: nat,
    blockbits: nat,
    crc: nat,
)
    requires
        9 <= blockbits <= 24,
        crc < pow2(32),
        sorts_rotations(rolled(content, 0, 0), order),
        first < order.len() <= pow2(blockbits),
        order[first as int] == 0,
        ({
            let idx = mtf_encoded(byte_values(), last_column(rolled(content, 0, 0), order));
            let (v, r) = number_for(ONE as int, tell_fork(blockbits, first, idx, crc));
            8 * data.len() >= NUM_BITS + r && bits_number(data, 0, NUM_BITS as nat + r) == v
        }),
    ensures
        decoded(data, content.len()) == Ok::<Seq<u8>, ErrorKind>(content),
{
    let raw = rolled(content, 0, 0);
    let col = last_column(raw, order);
    let idx = mtf_encoded(byte_values(), col);
    let told = tell_fork(blockbits, first, idx, crc);
    byte_values_are_a_table();
    mtf_round_trip(byte_values(), col);
    mtf_keeps_length(byte_values(), idx);
    fork_is_plain(blockbits, first, idx, crc);
    plain_ones_fit(ONE as int, told);
    told_symbols_are_read(data, told);
    fork_is_read(data, blockbits, first, idx, crc);
    transform_is_undone(raw, order, first as int);
    rolling_is_undone(content, 0, 0);
    let s = arsenic_start(data)->Ok_0;
    if content.len() > 0 {
        let t = loaded(data, s)->Ok_0;
        assert(t.bytes == col);
        assert(in_block(t));
        assert(raw_left(t) == unsorted_bwt(col, first as int));
        assert(copies(t.last, 0) + unrolled(raw, 0, 0) =~= content);
        assert(text_left(t) =~= content);
        block_is_spelled(data, t, content.len());
        assert(byte_next(data, s) == byte_next(data, t));
        assert(bytes_next(data, s, content.len()) == bytes_next(data, t, content.len()));
        assert(content.subrange(0, content.len() as int) =~= content);
    } else {
        assert(content =~= seq![]);
    }
}

proof fn fork_is_plain(blockbits: nat, first: nat, idx: Seq<u8>, crc: nat)
    ensures
        all_plain(tell_fork(blockbits, first, idx, crc)),
{
    let p = fork_parts(blockbits, first, idx, crc);
    parts_are_plain(blockbits, first, idx, crc);
    let go = seq![told_by(p.m3, 0)];
    let plain = seq![told_by(p.m4, 0)];
    let last = seq![told_by(p.m6, 1)];
    one_is_plain(p.m3, 0);
    one_is_plain(p.m4, 0);
    one_is_plain(p.m6, 1);
    joined_are_plain(p.a, p.b);
    joined_are_plain(p.a + p.b, p.size);
    joined_are_plain(p.a + p.b + p.size, go);
    joined_are_plain(p.a + p.b + p.size + go, plain);
    joined_are_plain(p.a + p.b + p.size + go + plain, p.row);
    joined_are_plain(p.a + p.b + p.size + go + plain + p.row, p.block);
    joined_are_plain(p.a + p.b + p.size + go + plain + p.row + p.block, last);
    joined_are_plain(p.a + p.b + p.size + go + plain + p.row + p.block + last, p.check);
}

} // verus!
