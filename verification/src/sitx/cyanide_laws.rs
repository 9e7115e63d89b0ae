use vstd::prelude::*;
use vstd::arithmetic::power2::{lemma2_to64, lemma_pow2_strictly_increases, lemma_pow2_unfold, pow2};
use crate::catalog::be32;
use crate::error::ErrorKind;
use crate::sitx::bwt::{
    byte_values, byte_values_are_a_table, m1ffn_decoded, m1ffn_encoded_from, m1ffn_round_trip, moved_forward,
    next_age, unsorted_bwt,
};
use crate::sitx::cyanide::{
    blocks_from, bumped, coder_kind, counted, escape_next, framed, halved, last_tied, last_tied_range, low_sizes,
    model_start, ranked_freqs, ranked_symbol, sum, sum_bounds, sum_halved, sum_ones, sum_update, ternary_from,
    ternary_next, ternary_start, ModelState, TernaryState, Triple, MARKOV_GROUPS,
};
use crate::sitx::range_encoding::{
    after_reading, modest_symbols_fit, moving, reading_symbols_in_parts, reads, sender_start, sent_symbols_are_read,
    written, Sent,
};
use crate::sitx::rangecoder::{freq_sum, symbol_next, RangeState};
use crate::sitx::rotations::{last_column, sorts_rotations, transform_is_undone};
use crate::sitx::sending::{height, height_is_tight};

verus! {

// What a writer of the format sends, symbol by symbol under the same models, is read
// back. The writer keeps the same state as the reader, but for the range decoder,
// which has no meaning there.

/// Which of the three symbols stands for `v`.
pub open spec fn third_of(v: u8) -> int {
    if v <= 1 {
        v as int
    } else {
        2
    }
}

/// The place of symbol `t` by rising frequency.
pub open spec fn rank_of(g: Triple, t: int) -> int {
    if ranked_symbol(g, 0) == t {
        0
    } else if ranked_symbol(g, 1) == t {
        1
    } else {
        2
    }
}

/// Which of the models from 1 on holds a symbol from 3 on, if there are `n`.
pub open spec fn model_for(v: u8, n: int) -> int {
    if v <= 2 {
        0
    } else if height(v - 1) < n {
        height(v - 1)
    } else {
        n
    }
}

/// The frequency group that applies.
pub open spec fn group_of(st: TernaryState) -> int {
    MARKOV_GROUPS@[st.prev3 * 9 + st.prev2 * 3 + st.prev] as int
}

/// The first part of a symbol and the state after it.
pub open spec fn send_third(st: TernaryState, v: u8) -> (Sent, TernaryState) {
    let g = st.groups[group_of(st)];
    let t = third_of(v);
    let (g1, quiet1) = counted(g, t, group_of(st), st.quiet);
    (
        Sent { freqs: ranked_freqs(g), symbol: rank_of(g, t) },
        TernaryState {
            groups: st.groups.update(group_of(st), g1),
            quiet: quiet1,
            prev: t,
            prev2: st.prev,
            prev3: st.prev2,
            ..st
        },
    )
}

/// Symbol `x` under a model.
pub open spec fn sent_by(m: ModelState, x: int) -> Sent {
    Sent { freqs: m.freqs, symbol: m.mapping.index_of(x as u32) }
}

/// How large the frequencies of a model of low parts may grow.
pub open spec fn low_limit(m: ModelState) -> u32 {
    if m.freqs.len() * 128 < 0x4000 {
        (m.freqs.len() * 128) as u32
    } else {
        0x4000u32
    }
}

/// What follows for a symbol from 2 on, and the state after it.
pub open spec fn send_escape(st: TernaryState, v: u8) -> (Seq<Sent>, TernaryState) {
    let h = model_for(v, st.low.len() as int);
    let first = sent_by(st.high, h);
    let (high1, place) = bumped(st.high, first.symbol, 0x100);
    let (high2, place2) = bumped(high1, place, 0x1_0000);
    if h == 0 {
        (seq![first], TernaryState { high: high2, ..st })
    } else {
        let m = st.low[h - 1];
        let second = sent_by(m, v - 1 - pow2(h as nat));
        (
            seq![first, second],
            TernaryState {
                high: high2,
                low: st.low.update(h - 1, bumped(m, second.symbol, low_limit(m)).0),
                ..st
            },
        )
    }
}

/// A symbol and the state after it.
pub open spec fn send_symbol(st: TernaryState, v: u8) -> (Seq<Sent>, TernaryState) {
    let (first, st1) = send_third(st, v);
    if v <= 1 {
        (seq![first], st1)
    } else {
        let (rest, st2) = send_escape(st1, v);
        (seq![first] + rest, st2)
    }
}

pub open spec fn send_all(st: TernaryState, vs: Seq<u8>) -> Seq<Sent>
    decreases vs.len(),
{
    if vs.len() == 0 {
        seq![]
    } else {
        let (first, st1) = send_symbol(st, vs[0]);
        first + send_all(st1, vs.drop_first())
    }
}

// === models ===================================================================

/// A model of the symbols below `num`, each of which can come.
spec fn model_ok(m: ModelState, num: nat) -> bool {
    &&& m.freqs.len() == num
    &&& m.mapping.len() == num
    &&& num <= 256
    &&& sum(m.freqs) <= 0x1_0000
    &&& forall|i: int| 0 <= i < num ==> (#[trigger] m.freqs[i]) >= 1
    &&& forall|x: u32| x < num ==> #[trigger] m.mapping.contains(x)
}

proof fn fresh_model_is_ok(num: nat)
    requires
        num <= 256,
    ensures
        model_ok(model_start(num), num),
{
    let m = model_start(num);
    sum_ones(num);
    assert(m.freqs =~= Seq::new(num, |i: int| 1u32));
    assert forall|x: u32| x < num implies #[trigger] m.mapping.contains(x) by {
        assert(m.mapping[num - 1 - x] == x);
    }
}

proof fn bumping_keeps_model(m: ModelState, num: nat, i: int, max: u32)
    requires
        model_ok(m, num),
        0 <= i < num,
        max <= 0x1_0000,
    ensures
        model_ok(bumped(m, i, max).0, num),
        0 <= bumped(m, i, max).1 < num,
{
    let freqs = if sum(m.freqs) >= max {
        halved(m.freqs)
    } else {
        m.freqs
    };
    sum_halved(m.freqs);
    assert forall|j: int| 0 <= j < num implies (#[trigger] freqs[j]) >= 1 && freqs[j] <= 0x1_0000 by {
        assert(m.freqs[j] >= 1);
        sum_bounds(m.freqs, j);
    }
    let last = last_tied(freqs, i);
    last_tied_range(freqs, i);
    sum_update(freqs, last, (freqs[last] + 1) as u32);
    let r = bumped(m, i, max).0;
    assert forall|j: int| 0 <= j < num implies (#[trigger] r.freqs[j]) >= 1 by {
        assert(freqs[j] >= 1);
    }
    assert forall|x: u32| x < num implies #[trigger] r.mapping.contains(x) by {
        assert(m.mapping.contains(x));
        let j = m.mapping.index_of(x);
        if j == i {
            assert(r.mapping[last] == x);
        } else if j == last {
            assert(r.mapping[i] == x);
        } else {
            assert(r.mapping[j] == x);
        }
    }
}

proof fn sum_is_total(freqs: Seq<u32>)
    ensures
        freq_sum(freqs, freqs.len() as int) == sum(freqs),
    decreases freqs.len(),
{
    if freqs.len() > 0 {
        let less = freqs.drop_last();
        sum_is_total(less);
        sum_of_front(freqs, less, less.len() as int);
    }
}

proof fn sum_of_front(a: Seq<u32>, b: Seq<u32>, n: int)
    requires
        n <= a.len(),
        n <= b.len(),
        forall|i: int| 0 <= i < n ==> a[i] == #[trigger] b[i],
    ensures
        freq_sum(a, n) == freq_sum(b, n),
    decreases n,
{
    if n > 0 {
        assert(b[n - 1] == a[n - 1]);
        sum_of_front(a, b, n - 1);
    }
}

proof fn modelled_symbol_fits(m: ModelState, num: nat, x: int)
    requires
        model_ok(m, num),
        0 <= x < num,
    ensures
        sent_by(m, x).fits(0x1_0000),
        m.mapping[sent_by(m, x).symbol] == x,
{
    assert(m.mapping.contains(x as u32));
    let i = m.mapping.index_of(x as u32);
    assert(0 <= i < m.mapping.len());
    assert(m.freqs[i] >= 1);
    sum_is_total(m.freqs);
}

proof fn ranking_is_undone(g: Triple, t: int)
    requires
        0 <= t <= 2,
    ensures
        0 <= rank_of(g, t) <= 2,
        ranked_symbol(g, rank_of(g, t)) == t,
{
}

proof fn third_fits(g: Triple, t: int)
    requires
        g.sum() <= 0x2000,
        0 <= t <= 2,
    ensures
        (Sent { freqs: ranked_freqs(g), symbol: rank_of(g, t) }).fits(0x1_0000),
{
    ranking_is_undone(g, t);
    reveal_with_fuel(freq_sum, 4);
    let f = ranked_freqs(g);
    assert(freq_sum(f, 3) == f[0] + f[1] + f[2]);
}

/// The sizes of the models double, but for the last, and together hold all symbols.
proof fn sizes_double(n: nat, shift: nat)
    requires
        shift >= 1,
        n <= 255,
        shift <= 9,
    ensures
        ({
            let sizes = low_sizes(n, shift);
            &&& n > 0 ==> sizes.len() > 0
            &&& forall|i: int|
                0 <= i < sizes.len() - 1 ==> (#[trigger] sizes[i]) == pow2((shift + i) as nat)
            &&& n > 0 ==> sizes.last() + pow2((shift + sizes.len() - 1) as nat) == n + pow2(shift)
            &&& forall|i: int| 0 <= i < sizes.len() ==> (#[trigger] sizes[i]) <= n
        }),
    decreases n,
{
    lemma2_to64();
    let sizes = low_sizes(n, shift);
    if n > 0 && n >= 3 * pow2(shift) && pow2(shift) != 0 {
        assert(shift < 7) by {
            if shift > 7 {
                lemma_pow2_strictly_increases(7, shift);
            }
        }
        let less = (n - pow2(shift)) as nat;
        let rest = low_sizes(less, shift + 1);
        lemma_pow2_unfold(shift + 1);
        sizes_double(less, shift + 1);
        assert(sizes.drop_first() =~= rest);
        assert(sizes.last() == rest.last());
        assert forall|i: int| 0 <= i < sizes.len() - 1 implies (#[trigger] sizes[i]) == pow2((shift + i) as nat) by {
            if i > 0 {
                assert(sizes[i] == rest[i - 1]);
            }
        }
        assert forall|i: int| 0 <= i < sizes.len() implies (#[trigger] sizes[i]) <= n by {
            if i > 0 {
                assert(sizes[i] == rest[i - 1]);
            }
        }
    }
}

/// A symbol from 3 on has a place in its model.
proof fn symbol_has_a_place(n: u8, v: u8)
    requires
        3 <= v <= n + 2,
    ensures
        ({
            let sizes = low_sizes(n as nat, 1);
            let h = model_for(v, sizes.len() as int);
            &&& 1 <= h <= sizes.len()
            &&& h <= 8
            &&& 0 <= v - 1 - pow2(h as nat) < sizes[h - 1]
        }),
{
    lemma2_to64();
    sizes_double(n as nat, 1);
    height_is_tight(v - 1);
    let sizes = low_sizes(n as nat, 1);
    let k = height(v - 1);
    let h = model_for(v, sizes.len() as int);
    if h < k {
        lemma_pow2_strictly_increases(h as nat, k as nat);
    }
    if k > 8 {
        lemma_pow2_strictly_increases(8, k as nat);
    }
    if h < sizes.len() {
        assert(sizes[h - 1] == pow2((1 + (h - 1)) as nat));
    }
}

// === the writer's state =======================================================

/// The models and groups are in order; `n` is the number of symbols from 3 on.
spec fn state_ok(st: TernaryState, n: u8) -> bool {
    let sizes = low_sizes(n as nat, 1);
    &&& st.groups.len() == 14
    &&& forall|i: int| 0 <= i < 14 ==> (#[trigger] st.groups[i]).sum() <= 0x2000
    &&& model_ok(st.high, sizes.len() + 1)
    &&& st.low.len() == sizes.len()
    &&& forall|i: int| 0 <= i < sizes.len() ==> model_ok(#[trigger] st.low[i], sizes[i])
    &&& 0 <= st.prev <= 2
    &&& 0 <= st.prev2 <= 2
    &&& 0 <= st.prev3 <= 2
}

proof fn few_models(n: u8)
    ensures
        low_sizes(n as nat, 1).len() <= 8,
        forall|i: int| 0 <= i < low_sizes(n as nat, 1).len() ==> (#[trigger] low_sizes(n as nat, 1)[i]) <= 255,
{
    sizes_double(n as nat, 1);
    lemma2_to64();
    let sizes = low_sizes(n as nat, 1);
    if sizes.len() > 8 {
        assert(sizes[7] == pow2(8));
    }
}

proof fn start_is_ok(n: u8)
    ensures
        state_ok(ternary_start(seq![], n as nat), n),
{
    few_models(n);
    let sizes = low_sizes(n as nat, 1);
    let st = ternary_start(seq![], n as nat);
    fresh_model_is_ok(sizes.len() + 1);
    assert forall|i: int| 0 <= i < sizes.len() implies model_ok(#[trigger] st.low[i], sizes[i]) by {
        fresh_model_is_ok(sizes[i]);
    }
}

proof fn group_is_one_of_them(st: TernaryState)
    requires
        0 <= st.prev <= 2,
        0 <= st.prev2 <= 2,
        0 <= st.prev3 <= 2,
    ensures
        0 <= group_of(st) < 14,
{
    let i = st.prev3 * 9 + st.prev2 * 3 + st.prev;
    assert(0 <= i < 27);
    assert(MARKOV_GROUPS@[i] < 14);
}

proof fn third_keeps_state(st: TernaryState, n: u8, v: u8)
    requires
        state_ok(st, n),
    ensures
        state_ok(send_third(st, v).1, n),
        send_third(st, v).0.fits(0x1_0000),
{
    group_is_one_of_them(st);
    let group = group_of(st);
    let g = st.groups[group];
    let t = third_of(v);
    assert(g.sum() <= 0x2000);
    third_fits(g, t);
    assert(counted(g, t, group, st.quiet).0.sum() <= 0x2000);
}

proof fn escape_keeps_state(st: TernaryState, n: u8, v: u8)
    requires
        state_ok(st, n),
        2 <= v <= n + 2,
    ensures
        state_ok(send_escape(st, v).1, n),
        forall|i: int| 0 <= i < send_escape(st, v).0.len() ==> (#[trigger] send_escape(st, v).0[i]).fits(0x1_0000),
{
    let sizes = low_sizes(n as nat, 1);
    let h = model_for(v, st.low.len() as int);
    if v >= 3 {
        symbol_has_a_place(n, v);
    }
    let first = sent_by(st.high, h);
    modelled_symbol_fits(st.high, sizes.len() + 1, h);
    let (high1, place) = bumped(st.high, first.symbol, 0x100);
    bumping_keeps_model(st.high, sizes.len() + 1, first.symbol, 0x100);
    bumping_keeps_model(high1, sizes.len() + 1, place, 0x1_0000);
    if h > 0 {
        let m = st.low[h - 1];
        let x = v - 1 - pow2(h as nat);
        let second = sent_by(m, x);
        modelled_symbol_fits(m, sizes[h - 1], x);
        bumping_keeps_model(m, sizes[h - 1], second.symbol, low_limit(m));
        let low1 = send_escape(st, v).1.low;
        assert forall|i: int| 0 <= i < sizes.len() implies model_ok(#[trigger] low1[i], sizes[i]) by {
            if i != h - 1 {
                assert(model_ok(st.low[i], sizes[i]));
            }
        }
    }
}

proof fn symbol_keeps_state(st: TernaryState, n: u8, v: u8)
    requires
        state_ok(st, n),
        v <= n + 2,
    ensures
        state_ok(send_symbol(st, v).1, n),
        forall|i: int| 0 <= i < send_symbol(st, v).0.len() ==> (#[trigger] send_symbol(st, v).0[i]).fits(0x1_0000),
{
    third_keeps_state(st, n, v);
    if v >= 2 {
        escape_keeps_state(send_third(st, v).1, n, v);
    }
}

proof fn all_symbols_fit(st: TernaryState, n: u8, vs: Seq<u8>)
    requires
        state_ok(st, n),
        forall|i: int| 0 <= i < vs.len() ==> (#[trigger] vs[i]) <= n + 2,
    ensures
        forall|i: int| 0 <= i < send_all(st, vs).len() ==> (#[trigger] send_all(st, vs)[i]).fits(0x1_0000),
    decreases vs.len(),
{
    if vs.len() > 0 {
        assert(vs[0] <= n + 2);
        symbol_keeps_state(st, n, vs[0]);
        let (first, st1) = send_symbol(st, vs[0]);
        assert forall|i: int| 0 <= i < vs.drop_first().len() implies (#[trigger] vs.drop_first()[i]) <= n + 2 by {
            assert(vs.drop_first()[i] == vs[i + 1]);
        }
        all_symbols_fit(st1, n, vs.drop_first());
        let rest = send_all(st1, vs.drop_first());
        assert forall|i: int| 0 <= i < send_all(st, vs).len() implies (#[trigger] send_all(st, vs)[i]).fits(0x1_0000) by {
            if i < first.len() {
                assert(send_all(st, vs)[i] == first[i]);
            } else {
                assert(send_all(st, vs)[i] == rest[i - first.len()]);
            }
        }
    }
}

// === reading ==================================================================

/// The reader is where the writer is.
spec fn in_step(st: TernaryState, wr: TernaryState) -> bool {
    st == (TernaryState { s: st.s, ..wr })
}

proof fn one_symbol(input: Seq<u8>, s: RangeState, m: Sent)
    requires
        reads(input, s, coder_kind(), seq![m]),
    ensures
        symbol_next(input, s, coder_kind(), m.freqs) == Some((m.symbol, after_reading(input, s, coder_kind(), seq![m]))),
{
    let ms = seq![m];
    assert(ms.drop_first() =~= seq![]);
    let s1 = symbol_next(input, s, coder_kind(), m.freqs)->Some_0.1;
    assert(after_reading(input, s, coder_kind(), ms) == after_reading(input, s1, coder_kind(), ms.drop_first()));
}

proof fn escape_is_read(input: Seq<u8>, st: TernaryState, wr: TernaryState, n: u8, v: u8)
    requires
        in_step(st, wr),
        state_ok(wr, n),
        2 <= v <= n + 2,
        reads(input, st.s, coder_kind(), send_escape(wr, v).0),
    ensures
        escape_next(input, st) matches Some((x, st1)) && x == v && in_step(st1, send_escape(wr, v).1) && st1.s
            == after_reading(input, st.s, coder_kind(), send_escape(wr, v).0),
{
    let k = coder_kind();
    let sizes = low_sizes(n as nat, 1);
    let h = model_for(v, wr.low.len() as int);
    if v >= 3 {
        symbol_has_a_place(n, v);
    }
    let first = sent_by(wr.high, h);
    modelled_symbol_fits(wr.high, sizes.len() + 1, h);
    if h == 0 {
        one_symbol(input, st.s, first);
    } else {
        let m = wr.low[h - 1];
        let x = v - 1 - pow2(h as nat);
        let second = sent_by(m, x);
        assert(seq![first] + seq![second] =~= send_escape(wr, v).0);
        reading_symbols_in_parts(input, st.s, k, seq![first], seq![second]);
        one_symbol(input, st.s, first);
        let s1 = after_reading(input, st.s, k, seq![first]);
        modelled_symbol_fits(m, sizes[h - 1], x);
        one_symbol(input, s1, second);
    }
}

proof fn symbol_is_read(input: Seq<u8>, st: TernaryState, wr: TernaryState, n: u8, v: u8)
    requires
        in_step(st, wr),
        state_ok(wr, n),
        v <= n + 2,
        reads(input, st.s, coder_kind(), send_symbol(wr, v).0),
    ensures
        ternary_next(input, st) matches Some((x, st1)) && x == v && in_step(st1, send_symbol(wr, v).1) && st1.s
            == after_reading(input, st.s, coder_kind(), send_symbol(wr, v).0),
{
    let k = coder_kind();
    let (first, wr1) = send_third(wr, v);
    let g = wr.groups[group_of(wr)];
    ranking_is_undone(g, third_of(v));
    third_keeps_state(wr, n, v);
    if v <= 1 {
        one_symbol(input, st.s, first);
    } else {
        let rest = send_escape(wr1, v).0;
        reading_symbols_in_parts(input, st.s, k, seq![first], rest);
        one_symbol(input, st.s, first);
        let s1 = after_reading(input, st.s, k, seq![first]);
        escape_is_read(input, TernaryState { s: s1, ..wr1 }, wr1, n, v);
    }
}

proof fn symbols_are_read(input: Seq<u8>, st: TernaryState, wr: TernaryState, n: u8, vs: Seq<u8>, found: Seq<u8>)
    requires
        in_step(st, wr),
        state_ok(wr, n),
        forall|i: int| 0 <= i < vs.len() ==> (#[trigger] vs[i]) <= n + 2,
        reads(input, st.s, coder_kind(), send_all(wr, vs)),
    ensures
        ternary_from(input, st, found, found.len() + vs.len()) == Some(
            (found + vs, after_reading(input, st.s, coder_kind(), send_all(wr, vs))),
        ),
    decreases vs.len(),
{
    if vs.len() == 0 {
        assert(found + vs =~= found);
    } else {
        let v = vs[0];
        let rest = vs.drop_first();
        let (first, wr1) = send_symbol(wr, v);
        assert(v <= n + 2);
        symbol_keeps_state(wr, n, v);
        reading_symbols_in_parts(input, st.s, coder_kind(), first, send_all(wr1, rest));
        symbol_is_read(input, st, wr, n, v);
        let st1 = ternary_next(input, st)->Some_0.1;
        assert forall|i: int| 0 <= i < rest.len() implies (#[trigger] rest[i]) <= n + 2 by {
            assert(rest[i] == vs[i + 1]);
        }
        symbols_are_read(input, st1, wr1, n, rest, found.push(v));
        assert(found.push(v) + rest =~= found + vs);
    }
}

// === the stream ===============================================================

/// The symbols of a block, of which those from 3 on number `count`, and where its
/// string starts.
pub struct Block {
    pub symbols: Seq<u8>,
    pub count: u8,
    pub first: u32,
}

pub open spec fn block_ok(b: Block) -> bool {
    &&& b.symbols.len() <= u32::MAX
    &&& b.symbols.len() > 0 ==> b.first < b.symbols.len()
    &&& forall|i: int| 0 <= i < b.symbols.len() ==> (#[trigger] b.symbols[i]) <= b.count + 2
}

/// The bytes that are written for the symbols.
pub open spec fn block_body(b: Block) -> Seq<u8> {
    written(sender_start(), coder_kind(), send_all(ternary_start(seq![], b.count as nat), b.symbols))
}

pub open spec fn block_text(b: Block) -> Seq<u8> {
    unsorted_bwt(m1ffn_decoded(b.symbols, 2), b.first as int)
}

/// The block stands at `at`.
pub open spec fn block_stands(data: Seq<u8>, at: int, b: Block) -> bool {
    let end = at + 10 + block_body(b).len();
    &&& 0 <= at
    &&& end <= data.len()
    &&& data[at] == 0x77
    &&& be32(data, at + 1) == b.symbols.len()
    &&& be32(data, at + 5) == b.first
    &&& data[at + 9] == b.count
    &&& data.subrange(at + 10, end) == block_body(b)
}

/// The blocks stand one behind the other, and the mark of the end behind them.
pub open spec fn blocks_stand(data: Seq<u8>, at: int, bs: Seq<Block>) -> bool
    decreases bs.len(),
{
    if bs.len() == 0 {
        0 <= at < data.len() && data[at] == 0xff
    } else {
        &&& block_ok(bs[0])
        &&& block_stands(data, at, bs[0])
        &&& blocks_stand(data, at + 10 + block_body(bs[0]).len(), bs.drop_first())
    }
}

/// Where the blocks end.
pub open spec fn blocks_end(at: int, bs: Seq<Block>) -> int
    decreases bs.len(),
{
    if bs.len() == 0 {
        at
    } else {
        blocks_end(at + 10 + block_body(bs[0]).len(), bs.drop_first())
    }
}

pub open spec fn blocks_text(bs: Seq<Block>) -> Seq<u8>
    decreases bs.len(),
{
    if bs.len() == 0 {
        seq![]
    } else {
        block_text(bs[0]) + blocks_text(bs.drop_first())
    }
}

proof fn block_is_read(data: Seq<u8>, at: int, b: Block)
    requires
        data.len() <= u64::MAX,
        block_ok(b),
        block_stands(data, at, b),
    ensures
        ({
            let input = data.skip(at + 10);
            ternary_from(input, ternary_start(input, b.count as nat), seq![], b.symbols.len()) matches Some((vs, s))
                && vs == b.symbols && s.pos == block_body(b).len()
        }),
{
    let input = data.skip(at + 10);
    let body = block_body(b);
    let behind = data.skip(at + 10 + body.len());
    let wr = ternary_start(seq![], b.count as nat);
    let ms = send_all(wr, b.symbols);
    assert(input =~= body + behind) by {
        assert forall|i: int| 0 <= i < body.len() implies input[i] == body[i] by {
            assert(data.subrange(at + 10, at + 10 + body.len())[i] == body[i]);
        }
    }
    start_is_ok(b.count);
    all_symbols_fit(wr, b.count, b.symbols);
    assert(coder_kind() == moving(0x1_0000));
    assert(0x80_0000int % 0x1_0000int == 0);
    modest_symbols_fit(sender_start(), 0x1_0000, ms);
    sent_symbols_are_read(0x1_0000, ms, behind);
    symbols_are_read(input, ternary_start(input, b.count as nat), wr, b.count, b.symbols, seq![]);
    assert(Seq::<u8>::empty() + b.symbols =~= b.symbols);
}

proof fn blocks_are_read(data: Seq<u8>, at: int, bs: Seq<Block>, found: Seq<u8>)
    requires
        data.len() <= u64::MAX,
        blocks_stand(data, at, bs),
    ensures
        blocks_from(data, at, found) == Ok::<(Seq<u8>, int), ErrorKind>(
            (found + blocks_text(bs), blocks_end(at, bs) + 1),
        ),
        blocks_end(at, bs) >= at,
    decreases bs.len(),
{
    if bs.len() == 0 {
        assert(found + blocks_text(bs) =~= found);
    } else {
        let b = bs[0];
        block_is_read(data, at, b);
        blocks_are_read(data, at + 10 + block_body(b).len(), bs.drop_first(), found + block_text(b));
        assert((found + block_text(b)) + blocks_text(bs.drop_first()) =~= found + blocks_text(bs));
    }
}

/// A stream of blocks that was written is read back as their text, and nothing is
/// taken of what stands behind.
pub proof fn written_blocks_are_read_back(data: Seq<u8>, bs: Seq<Block>)
    requires
        data.len() <= u64::MAX,
        blocks_stand(data, 1, bs),
    ensures
        framed(data) == Ok::<(Seq<u8>, nat), ErrorKind>((blocks_text(bs), (blocks_end(1, bs) + 1) as nat)),
{
    blocks_are_read(data, 1, bs, seq![]);
    assert(Seq::<u8>::empty() + blocks_text(bs) =~= blocks_text(bs));
}

/// Any string can be told by a block: its bytes are sorted by the rotations that they
/// precede, and looked up under the delayed rule.
pub proof fn any_string_can_be_told(s: Seq<u8>, order: Seq<int>, first: u32)
    requires
        s.len() <= u32::MAX,
        sorts_rotations(s, order),
        first < s.len(),
        order[first as int] == 0,
    ensures
        ({
            let symbols = m1ffn_encoded_from(byte_values(), last_column(s, order), 1, 2);
            let b = Block { symbols, count: 255, first };
            block_ok(b) && block_text(b) == s
        }),
{
    let sorted = last_column(s, order);
    let symbols = m1ffn_encoded_from(byte_values(), sorted, 1, 2);
    byte_values_are_a_table();
    m1ffn_round_trip(byte_values(), sorted, 1, 2);
    transform_is_undone(s, order, first as int);
    looking_up_keeps_length(byte_values(), sorted, 1, 2);
}

proof fn looking_up_keeps_length(table: Seq<u8>, data: Seq<u8>, age: usize, order: usize)
    ensures
        m1ffn_encoded_from(table, data, age, order).len() == data.len(),
    decreases data.len(),
{
    if data.len() > 0 {
        let k = table.index_of(data[0]);
        looking_up_keeps_length(moved_forward(table, k, age, order), data.skip(1), next_age(k, age), order);
    }
}

} // verus!
