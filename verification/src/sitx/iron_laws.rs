use vstd::prelude::*;
use vstd::arithmetic::power2::{lemma2_to64, lemma_pow2_pos, lemma_pow2_strictly_increases, lemma_pow2_unfold, pow2};
use crate::bits::lsb_bit;
use crate::error::ErrorKind;
use crate::sitx::bwt::{byte_values_are_a_table, is_byte_table, moved_to_front, moving_keeps_byte_table};
use crate::sitx::iron::{
    block_at, blocks_from, body_from, coder_kind, copies, count_bits, count_rest, counted, decoded, four, freqs_after,
    header_of, iron_start, joint, mtf_next, past_at, run_next, short, small_next, smalls_from, unsorted, value_bits,
    value_next, value_rest, weigh, weigh2, Dec, Header, IronState, MtfView, BYTEBIT, BYTELEN, BYTELEN2, COUNTBIT,
    COUNTLEN, COUNTLEN2, LAST, MAIN, NUM_FREQS, NUM_WEIGHTS,
};
use crate::sitx::p2::{byte_pos, written_number_is_read_back};
use crate::sitx::range_encoding::{
    after_item, after_items, all_easy, easy_items_fit, is_easy, items_fit, items_written, reading_in_parts, reads_item,
    reads_items, sent_items_are_read, weighted_bit_is_a_symbol, Item, Sent,
};
use crate::sitx::rangecoder::{adapted, freq_sum, RangeState};
use crate::sitx::rotations::{last_column, sorts_rotations, transform_is_undone};
use crate::sitx::st4_laws::{column, sort_of_order_4_is_undone, sorts_contexts};
use crate::sitx::sending::{
    behind_the_highest, digit, height, height_is_below, height_is_tight, low_bits, send_nothing, then_send, Plan,
};
use crate::sitx::writing::{number_end, number_stands};

verus! {

// What a writer of the format sends, item by item under the same weights and
// frequencies, is read back. The writer keeps the same state as the reader, but for the
// range decoder, which has no meaning there.

/// A bit of which 0 has the share `weight`.
pub open spec fn weighted_item(weight: u32, bit: int) -> Item {
    Item::Symbol(Sent { freqs: seq![weight, (0x1000 - weight) as u32], symbol: bit })
}

/// A bit under weight `i`, which adapts.
pub open spec fn send_bit(w: Seq<u32>, i: int, shift: u32, bit: int) -> Plan {
    Plan { items: seq![weighted_item(w[i], bit)], w: w.update(i, adapted(w[i], bit as u32, shift)) }
}

/// A bit under the mean of weights `i` and `j`, which both adapt.
pub open spec fn send_bit2(w: Seq<u32>, i: int, shift1: u32, j: int, shift2: u32, bit: int) -> Plan {
    Plan {
        items: seq![weighted_item(((w[i] + w[j]) / 2) as u32, bit)],
        w: w.update(i, adapted(w[i], bit as u32, shift1)).update(j, adapted(w[j], bit as u32, shift2)),
    }
}

/// That a large value has `bits` bits, of which `k` are known.
pub open spec fn send_value_bits(w: Seq<u32>, h: Header, lastbits: int, k: int, bits: int) -> Plan
    decreases 6 - k,
{
    if k >= 6 {
        send_nothing(w)
    } else {
        let bit = if k < bits {
            1int
        } else {
            0int
        };
        let first = send_bit2(w, BYTELEN + k, h.byteshift1, BYTELEN2 + 8 * lastbits + k, h.byteshift2, bit);
        if k < bits {
            then_send(first, send_value_bits(first.w, h, lastbits, k + 1, bits))
        } else {
            first
        }
    }
}

/// The `n` low bits of `v` behind those in `val`.
pub open spec fn send_value_rest(w: Seq<u32>, h: Header, bits: int, n: nat, val: int, v: int) -> Plan
    decreases n,
{
    if n == 0 {
        send_nothing(w)
    } else {
        let bit = digit(v, (n - 1) as nat);
        let first = send_bit(w, BYTEBIT + 128 * bits + val, h.byteshift3, bit);
        then_send(first, send_value_rest(first.w, h, bits, (n - 1) as nat, 2 * val + bit, v))
    }
}

/// What follows the small symbol for `value`.
#[verifier::opaque]
pub open spec fn send_value(w: Seq<u32>, h: Header, lastbits: int, value: int) -> Plan {
    if value < 3 {
        send_nothing(w)
    } else {
        let bits = height(value - 1) - 1;
        let first = send_value_bits(w, h, lastbits, 0, bits);
        then_send(first, send_value_rest(first.w, h, bits, (bits + 1) as nat, 1, value - 1))
    }
}

/// That a count has `bits` bits behind its leading 1, of which `k` are known.
pub open spec fn send_count_bits(w: Seq<u32>, h: Header, value: int, counts: int, byte: u8, k: int, bits: int) -> Plan
    decreases bits - k,
{
    let bit = if k < bits {
        1int
    } else {
        0int
    };
    let first = send_bit2(
        w,
        COUNTLEN + 384 * value + 24 * counts + k,
        h.countshift1,
        COUNTLEN2 + 24 * byte + k,
        h.countshift2,
        bit,
    );
    if k < bits {
        then_send(first, send_count_bits(first.w, h, value, counts, byte, k + 1, bits))
    } else {
        first
    }
}

/// The bits of `v` from number `j` on, the highest first.
pub open spec fn send_count_rest(w: Seq<u32>, h: Header, bits: int, j: int, v: int) -> Plan
    decreases bits - j,
{
    if j >= bits {
        send_nothing(w)
    } else {
        let first = send_bit(w, COUNTBIT + 24 * bits + j, h.countshift3, digit(v, (bits - 1 - j) as nat));
        then_send(first, send_count_rest(first.w, h, bits, j + 1, v))
    }
}

#[verifier::opaque]
pub open spec fn send_count(w: Seq<u32>, h: Header, value: int, counts: int, byte: u8, count: int) -> Plan {
    let bits = height(count);
    let first = send_count_bits(w, h, value, counts, byte, 0, bits);
    then_send(first, send_count_rest(first.w, h, bits, 0, count))
}

/// A byte, by its distance from the front, and how often it comes.
pub struct Run {
    pub value: int,
    pub count: int,
}

pub open spec fn run_ok(r: Run) -> bool {
    0 <= r.value <= 256 && 1 <= r.count < 0x100_0000
}

/// The frequencies of the small symbols.
pub open spec fn joints(st: IronState) -> Seq<u32> {
    seq![joint(st, 0) as u32, joint(st, 1) as u32, joint(st, 2) as u32, joint(st, 3) as u32]
}

/// The small symbol of a run.
pub open spec fn send_small(st: IronState, value: int) -> Plan {
    Plan { items: seq![Item::Symbol(Sent { freqs: joints(st), symbol: short(value) })], w: st.d.w }
}

pub open spec fn run_byte(st: IronState, r: Run) -> u8 {
    mtf_next(st.mtf, r.value).0
}

pub open spec fn send_run(st: IronState, h: Header, r: Run) -> Plan {
    let first = send_small(st, r.value);
    let second = send_value(first.w, h, st.lastbits, r.value);
    let third = send_count(second.w, h, short(r.value), st.counts, run_byte(st, r), r.count);
    then_send(first, then_send(second, third))
}

/// The writer after a run.
pub open spec fn after_run(st: IronState, h: Header, r: Run) -> IronState {
    IronState {
        d: Dec { s: st.d.s, w: send_run(st, h, r).w },
        f: freqs_after(st, h, short(r.value)),
        mtf: mtf_next(st.mtf, r.value).1,
        values: (st.values * 4 + short(r.value)) % 256,
        counts: (st.counts * 2) % 16 + (if height(r.count) > 1 {
            1int
        } else {
            0int
        }),
        lastbits: if r.value < 3 {
            st.lastbits
        } else {
            height(r.value - 1) - 1
        },
        lastbyte: run_byte(st, r),
    }
}

pub open spec fn run_text(st: IronState, r: Run) -> Seq<u8> {
    copies(run_byte(st, r), r.count)
}

pub open spec fn all_items(st: IronState, h: Header, rs: Seq<Run>) -> Seq<Item>
    decreases rs.len(),
{
    if rs.len() == 0 {
        seq![]
    } else {
        send_run(st, h, rs[0]).items + all_items(after_run(st, h, rs[0]), h, rs.drop_first())
    }
}

pub open spec fn all_text(st: IronState, h: Header, rs: Seq<Run>) -> Seq<u8>
    decreases rs.len(),
{
    if rs.len() == 0 {
        seq![]
    } else {
        run_text(st, rs[0]) + all_text(after_run(st, h, rs[0]), h, rs.drop_first())
    }
}

/// The frequencies of the small symbols add up to a number of 32 bits all along.
pub open spec fn sums_fit(st: IronState, h: Header, rs: Seq<Run>) -> bool
    decreases rs.len(),
{
    rs.len() > 0 ==> {
        &&& joint(st, 0) + joint(st, 1) + joint(st, 2) + joint(st, 3) <= u32::MAX
        &&& sums_fit(after_run(st, h, rs[0]), h, rs.drop_first())
    }
}

// === weights stay within bounds ===============================================

/// The weights keep `m` away from the bounds.
spec fn ranged(w: Seq<u32>, m: int) -> bool {
    w.len() == NUM_WEIGHTS && forall|i: int| 0 <= i < w.len() ==> m <= (#[trigger] w[i]) <= 0x1000 - m
}

/// The plan leaves weights that keep away from the bounds, and if these are strict,
/// it can be sent.
spec fn sound(p: Plan, m: int) -> bool {
    ranged(p.w, m) && (m >= 1 ==> all_easy(p.items))
}

/// The weights move, but if `m` is 1 never by their whole distance from a bound.
spec fn moves_by(shift: u32, m: int) -> bool {
    0 <= m <= 1 && m <= shift < 32
}

/// All weights do.
spec fn all_move_by(h: Header, m: int) -> bool {
    &&& moves_by(h.byteshift1, m)
    &&& moves_by(h.byteshift2, m)
    &&& moves_by(h.byteshift3, m)
    &&& moves_by(h.countshift1, m)
    &&& moves_by(h.countshift2, m)
    &&& moves_by(h.countshift3, m)
}

proof fn weight_moves(weight: u32, shift: u32)
    by (bit_vector)
    requires
        weight <= 0x1000u32,
        shift < 32u32,
    ensures
        weight + (((0x1000u32 - weight) as u32) >> shift) <= 0x1000u32,
        weight >> shift <= weight,
        shift >= 1u32 && 1u32 <= weight < 0x1000u32 ==> weight + (((0x1000u32 - weight) as u32) >> shift) < 0x1000u32,
        shift >= 1u32 && 1u32 <= weight ==> weight >> shift < weight,
{
}

proof fn adapting_keeps(weight: u32, bit: u32, shift: u32, m: int)
    requires
        m <= weight <= 0x1000 - m,
        moves_by(shift, m),
        bit <= 1,
    ensures
        m <= adapted(weight, bit, shift) <= 0x1000 - m,
{
    weight_moves(weight, shift);
}

proof fn weighted_item_is_easy(weight: u32, bit: int)
    requires
        1 <= weight < 0x1000,
        0 <= bit <= 1,
    ensures
        all_easy(seq![weighted_item(weight, bit)]),
{
    let freqs = seq![weight, (0x1000 - weight) as u32];
    reveal_with_fuel(freq_sum, 3);
    assert(freq_sum(freqs, 2) == 0x1000);
}

proof fn bit_is_sound(w: Seq<u32>, i: int, shift: u32, bit: int, m: int)
    requires
        ranged(w, m),
        0 <= i < NUM_WEIGHTS,
        0 <= bit <= 1,
        moves_by(shift, m),
    ensures
        sound(send_bit(w, i, shift, bit), m),
        w[i] <= 0x1000,
{
    assert(m <= w[i] <= 0x1000 - m);
    adapting_keeps(w[i], bit as u32, shift, m);
    if m == 1 {
        weighted_item_is_easy(w[i], bit);
    }
}

proof fn bit2_is_sound(w: Seq<u32>, i: int, shift1: u32, j: int, shift2: u32, bit: int, m: int)
    requires
        ranged(w, m),
        0 <= i < NUM_WEIGHTS,
        0 <= j < NUM_WEIGHTS,
        i != j,
        0 <= bit <= 1,
        moves_by(shift1, m),
        moves_by(shift2, m),
    ensures
        sound(send_bit2(w, i, shift1, j, shift2, bit), m),
        (w[i] + w[j]) / 2 <= 0x1000,
{
    assert(m <= w[i] <= 0x1000 - m);
    assert(m <= w[j] <= 0x1000 - m);
    adapting_keeps(w[i], bit as u32, shift1, m);
    adapting_keeps(w[j], bit as u32, shift2, m);
    if m == 1 {
        weighted_item_is_easy(((w[i] + w[j]) / 2) as u32, bit);
    }
}

proof fn joining_is_sound(a: Plan, b: Plan, m: int)
    requires
        sound(a, m),
        sound(b, m),
    ensures
        sound(then_send(a, b), m),
{
    let items = a.items + b.items;
    if m >= 1 {
        assert forall|i: int| 0 <= i < items.len() implies is_easy(#[trigger] items[i]) by {
            if i < a.items.len() {
                assert(items[i] == a.items[i]);
            } else {
                assert(items[i] == b.items[i - a.items.len()]);
            }
        }
    }
}

proof fn value_bits_are_sound(w: Seq<u32>, h: Header, lastbits: int, k: int, bits: int, m: int)
    requires
        ranged(w, m),
        all_move_by(h, m),
        0 <= lastbits <= 6,
        0 <= k,
    ensures
        sound(send_value_bits(w, h, lastbits, k, bits), m),
    decreases 6 - k,
{
    if k < 6 {
        let bit = if k < bits {
            1int
        } else {
            0int
        };
        let first = send_bit2(w, BYTELEN + k, h.byteshift1, BYTELEN2 + 8 * lastbits + k, h.byteshift2, bit);
        bit2_is_sound(w, BYTELEN + k, h.byteshift1, BYTELEN2 + 8 * lastbits + k, h.byteshift2, bit, m);
        if k < bits {
            value_bits_are_sound(first.w, h, lastbits, k + 1, bits, m);
            joining_is_sound(first, send_value_bits(first.w, h, lastbits, k + 1, bits), m);
        }
    }
}

/// The bits before and the one that follows lead to a weight of the set.
proof fn one_bit_further(val: int, bit: int, n: nat)
    requires
        n > 0,
        0 <= bit <= 1,
        0 <= val,
        (val + 1) * pow2(n) <= 256,
    ensures
        val < 128,
        (2 * val + bit + 1) * pow2((n - 1) as nat) <= 256,
{
    lemma_pow2_unfold(n);
    lemma_pow2_pos((n - 1) as nat);
    let p = pow2((n - 1) as nat) as int;
    assert((2 * val + bit + 1) * p <= (val + 1) * (2 * p)) by (nonlinear_arith)
        requires bit <= 1, p >= 1;
    assert((val + 1) * (2 * p) >= 2 * (val + 1)) by (nonlinear_arith)
        requires val >= 0, p >= 1;
}

proof fn value_rest_is_sound(w: Seq<u32>, h: Header, bits: int, n: nat, val: int, v: int, m: int)
    requires
        ranged(w, m),
        all_move_by(h, m),
        0 <= bits <= 6,
        0 <= val,
        (val + 1) * pow2(n) <= 256,
    ensures
        sound(send_value_rest(w, h, bits, n, val, v), m),
    decreases n,
{
    if n > 0 {
        let bit = digit(v, (n - 1) as nat);
        let first = send_bit(w, BYTEBIT + 128 * bits + val, h.byteshift3, bit);
        one_bit_further(val, bit, n);
        bit_is_sound(w, BYTEBIT + 128 * bits + val, h.byteshift3, bit, m);
        value_rest_is_sound(first.w, h, bits, (n - 1) as nat, 2 * val + bit, v, m);
        joining_is_sound(first, send_value_rest(first.w, h, bits, (n - 1) as nat, 2 * val + bit, v), m);
    }
}

/// A large value has a few bits.
proof fn large_value(value: int)
    requires
        3 <= value <= 256,
    ensures
        0 <= height(value - 1) - 1 <= 6,
        2 * pow2(height(value - 1) as nat) <= 256,
        pow2(height(value - 1) as nat) <= value - 1 < 2 * pow2(height(value - 1) as nat),
{
    lemma2_to64();
    height_is_tight(value - 1);
    height_is_below(value - 1, 8);
    let k = height(value - 1) as nat;
    if k < 7 {
        lemma_pow2_strictly_increases(k, 7);
    }
}

proof fn value_is_sound(w: Seq<u32>, h: Header, lastbits: int, value: int, m: int)
    requires
        ranged(w, m),
        all_move_by(h, m),
        0 <= lastbits <= 6,
        0 <= value <= 256,
    ensures
        sound(send_value(w, h, lastbits, value), m),
{
    reveal(send_value);
    if value >= 3 {
        large_value(value);
        let bits = height(value - 1) - 1;
        let first = send_value_bits(w, h, lastbits, 0, bits);
        value_bits_are_sound(w, h, lastbits, 0, bits, m);
        value_rest_is_sound(first.w, h, bits, (bits + 1) as nat, 1, value - 1, m);
        joining_is_sound(first, send_value_rest(first.w, h, bits, (bits + 1) as nat, 1, value - 1), m);
    }
}

proof fn count_bits_are_sound(w: Seq<u32>, h: Header, value: int, counts: int, byte: u8, k: int, bits: int, m: int)
    requires
        ranged(w, m),
        all_move_by(h, m),
        0 <= value <= 3,
        0 <= counts < 16,
        0 <= k <= bits < 24,
    ensures
        sound(send_count_bits(w, h, value, counts, byte, k, bits), m),
    decreases bits - k,
{
    let bit = if k < bits {
        1int
    } else {
        0int
    };
    let i = COUNTLEN + 384 * value + 24 * counts + k;
    let j = COUNTLEN2 + 24 * byte + k;
    let first = send_bit2(w, i, h.countshift1, j, h.countshift2, bit);
    bit2_is_sound(w, i, h.countshift1, j, h.countshift2, bit, m);
    if k < bits {
        count_bits_are_sound(first.w, h, value, counts, byte, k + 1, bits, m);
        joining_is_sound(first, send_count_bits(first.w, h, value, counts, byte, k + 1, bits), m);
    }
}

proof fn count_rest_is_sound(w: Seq<u32>, h: Header, bits: int, j: int, v: int, m: int)
    requires
        ranged(w, m),
        all_move_by(h, m),
        0 <= j,
        bits < 24,
    ensures
        sound(send_count_rest(w, h, bits, j, v), m),
    decreases bits - j,
{
    if j < bits {
        let bit = digit(v, (bits - 1 - j) as nat);
        let first = send_bit(w, COUNTBIT + 24 * bits + j, h.countshift3, bit);
        bit_is_sound(w, COUNTBIT + 24 * bits + j, h.countshift3, bit, m);
        count_rest_is_sound(first.w, h, bits, j + 1, v, m);
        joining_is_sound(first, send_count_rest(first.w, h, bits, j + 1, v), m);
    }
}

proof fn count_height(count: int)
    requires
        1 <= count < 0x100_0000,
    ensures
        0 <= height(count) < 24,
        pow2(height(count) as nat) <= count < 2 * pow2(height(count) as nat),
{
    lemma2_to64();
    height_is_tight(count);
    height_is_below(count, 24);
}

proof fn count_is_sound(w: Seq<u32>, h: Header, value: int, counts: int, byte: u8, count: int, m: int)
    requires
        ranged(w, m),
        all_move_by(h, m),
        0 <= value <= 3,
        0 <= counts < 16,
        1 <= count < 0x100_0000,
    ensures
        sound(send_count(w, h, value, counts, byte, count), m),
{
    reveal(send_count);
    count_height(count);
    let bits = height(count);
    let first = send_count_bits(w, h, value, counts, byte, 0, bits);
    count_bits_are_sound(w, h, value, counts, byte, 0, bits, m);
    count_rest_is_sound(first.w, h, bits, 0, count, m);
    joining_is_sound(first, send_count_rest(first.w, h, bits, 0, count), m);
}

/// The writer's numbers are within the tables.
spec fn state_ok(st: IronState, m: int) -> bool {
    &&& ranged(st.d.w, m)
    &&& 0 <= st.lastbits <= 6
    &&& 0 <= st.values < 256
    &&& 0 <= st.counts < 16
}

proof fn run_keeps_state(st: IronState, h: Header, r: Run, m: int)
    requires
        state_ok(st, m),
        all_move_by(h, m),
        run_ok(r),
    ensures
        state_ok(after_run(st, h, r), m),
{
    let w = st.d.w;
    value_is_sound(w, h, st.lastbits, r.value, m);
    let second = send_value(w, h, st.lastbits, r.value);
    count_is_sound(second.w, h, short(r.value), st.counts, run_byte(st, r), r.count, m);
    if r.value >= 3 {
        large_value(r.value);
    }
}

// === reading ==================================================================

/// The decoder after a plan has been read.
spec fn behind(input: Seq<u8>, s: RangeState, p: Plan) -> Dec {
    Dec { s: after_items(input, s, p.items), w: p.w }
}

/// The plan comes next.
spec fn comes(input: Seq<u8>, d: Dec, p: Plan) -> bool {
    reads_items(input, d.s, p.items)
}

proof fn parts_come(input: Seq<u8>, d: Dec, a: Plan, b: Plan)
    requires
        comes(input, d, then_send(a, b)),
    ensures
        comes(input, d, a),
        comes(input, behind(input, d.s, a), b),
        behind(input, d.s, then_send(a, b)) == behind(input, behind(input, d.s, a).s, b),
{
    reading_in_parts(input, d.s, a.items, b.items);
}

proof fn one_item(input: Seq<u8>, s: RangeState, it: Item)
    ensures
        after_items(input, s, seq![it]) == after_item(input, s, it),
        reads_items(input, s, seq![it]) == reads_item(input, s, it),
{
    let items = seq![it];
    assert(items.drop_first() =~= seq![]);
    assert(after_items(input, s, items) == after_items(input, after_item(input, s, items[0]), items.drop_first()));
    assert(reads_items(input, after_item(input, s, it), items.drop_first()));
}

proof fn bit_is_read(input: Seq<u8>, d: Dec, i: int, shift: u32, bit: int)
    requires
        0 <= bit <= 1,
        d.w[i] <= 0x1000,
        comes(input, d, send_bit(d.w, i, shift, bit)),
    ensures
        weigh(input, d, i, shift) == Some((bit as u32, behind(input, d.s, send_bit(d.w, i, shift, bit)))),
{
    one_item(input, d.s, weighted_item(d.w[i], bit));
    weighted_bit_is_a_symbol(input, d.s, coder_kind(), d.w[i], 0x1000);
}

proof fn bit2_is_read(input: Seq<u8>, d: Dec, i: int, shift1: u32, j: int, shift2: u32, bit: int)
    requires
        0 <= bit <= 1,
        (d.w[i] + d.w[j]) / 2 <= 0x1000,
        comes(input, d, send_bit2(d.w, i, shift1, j, shift2, bit)),
    ensures
        weigh2(input, d, i, shift1, j, shift2) == Some(
            (bit as u32, behind(input, d.s, send_bit2(d.w, i, shift1, j, shift2, bit))),
        ),
{
    let weight = ((d.w[i] + d.w[j]) / 2) as u32;
    one_item(input, d.s, weighted_item(weight, bit));
    weighted_bit_is_a_symbol(input, d.s, coder_kind(), weight, 0x1000);
}

proof fn value_bits_are_read(input: Seq<u8>, d: Dec, h: Header, lastbits: int, k: int, bits: int)
    requires
        ranged(d.w, 0),
        all_move_by(h, 0),
        0 <= lastbits <= 6,
        0 <= k <= bits <= 6,
        comes(input, d, send_value_bits(d.w, h, lastbits, k, bits)),
    ensures
        value_bits(input, d, h, lastbits, k) == Some(
            (bits, behind(input, d.s, send_value_bits(d.w, h, lastbits, k, bits))),
        ),
    decreases 6 - k,
{
    if k < 6 {
        let bit = if k < bits {
            1int
        } else {
            0int
        };
        let i = BYTELEN + k;
        let j = BYTELEN2 + 8 * lastbits + k;
        let first = send_bit2(d.w, i, h.byteshift1, j, h.byteshift2, bit);
        bit2_is_sound(d.w, i, h.byteshift1, j, h.byteshift2, bit, 0);
        if k < bits {
            let rest = send_value_bits(first.w, h, lastbits, k + 1, bits);
            parts_come(input, d, first, rest);
            bit2_is_read(input, d, i, h.byteshift1, j, h.byteshift2, bit);
            value_bits_are_read(input, behind(input, d.s, first), h, lastbits, k + 1, bits);
        } else {
            bit2_is_read(input, d, i, h.byteshift1, j, h.byteshift2, bit);
        }
    }
}

proof fn value_rest_is_read(input: Seq<u8>, d: Dec, h: Header, bits: int, n: nat, val: int, v: int)
    requires
        ranged(d.w, 0),
        all_move_by(h, 0),
        0 <= bits <= 6,
        0 <= val,
        (val + 1) * pow2(n) <= 256,
        comes(input, d, send_value_rest(d.w, h, bits, n, val, v)),
    ensures
        value_rest(input, d, h, bits, n, val) == Some(
            (
                val * pow2(n) + v % (pow2(n) as int),
                behind(input, d.s, send_value_rest(d.w, h, bits, n, val, v)),
            ),
        ),
    decreases n,
{
    lemma2_to64();
    if n == 0 {
        assert(val * 1 == val) by (nonlinear_arith);
        assert(v % 1 == 0);
    } else {
        low_bits(v, n);
        let bit = digit(v, (n - 1) as nat);
        let i = BYTEBIT + 128 * bits + val;
        let first = send_bit(d.w, i, h.byteshift3, bit);
        let rest = send_value_rest(first.w, h, bits, (n - 1) as nat, 2 * val + bit, v);
        one_bit_further(val, bit, n);
        bit_is_sound(d.w, i, h.byteshift3, bit, 0);
        parts_come(input, d, first, rest);
        bit_is_read(input, d, i, h.byteshift3, bit);
        value_rest_is_read(input, behind(input, d.s, first), h, bits, (n - 1) as nat, 2 * val + bit, v);
        lemma_pow2_unfold(n);
        let p = pow2((n - 1) as nat) as int;
        assert((2 * val + bit) * p == val * (2 * p) + bit * p) by (nonlinear_arith);
    }
}

proof fn value_is_read(input: Seq<u8>, st: IronState, h: Header, value: int)
    requires
        ranged(st.d.w, 0),
        all_move_by(h, 0),
        0 <= st.lastbits <= 6,
        0 <= value <= 256,
        comes(input, st.d, send_value(st.d.w, h, st.lastbits, value)),
    ensures
        value_next(input, st, h, short(value)) == Some(
            (
                value,
                IronState {
                    d: behind(input, st.d.s, send_value(st.d.w, h, st.lastbits, value)),
                    lastbits: if value < 3 {
                        st.lastbits
                    } else {
                        height(value - 1) - 1
                    },
                    ..st
                },
            ),
        ),
{
    reveal(send_value);
    reveal(value_next);
    if value >= 3 {
        large_value(value);
        let d = st.d;
        let bits = height(value - 1) - 1;
        let n = (bits + 1) as nat;
        let first = send_value_bits(d.w, h, st.lastbits, 0, bits);
        let rest = send_value_rest(first.w, h, bits, n, 1, value - 1);
        value_bits_are_sound(d.w, h, st.lastbits, 0, bits, 0);
        parts_come(input, d, first, rest);
        value_bits_are_read(input, d, h, st.lastbits, 0, bits);
        value_rest_is_read(input, behind(input, d.s, first), h, bits, n, 1, value - 1);
        behind_the_highest(value - 1, n);
    }
}

proof fn count_bits_are_read(
    input: Seq<u8>,
    d: Dec,
    h: Header,
    value: int,
    counts: int,
    byte: u8,
    k: int,
    bits: int,
)
    requires
        ranged(d.w, 0),
        all_move_by(h, 0),
        0 <= value <= 3,
        0 <= counts < 16,
        0 <= k <= bits < 24,
        comes(input, d, send_count_bits(d.w, h, value, counts, byte, k, bits)),
    ensures
        count_bits(input, d, h, value, counts, byte, k) == Some(
            (bits, behind(input, d.s, send_count_bits(d.w, h, value, counts, byte, k, bits))),
        ),
    decreases bits - k,
{
    let bit = if k < bits {
        1int
    } else {
        0int
    };
    let i = COUNTLEN + 384 * value + 24 * counts + k;
    let j = COUNTLEN2 + 24 * byte + k;
    let first = send_bit2(d.w, i, h.countshift1, j, h.countshift2, bit);
    bit2_is_sound(d.w, i, h.countshift1, j, h.countshift2, bit, 0);
    if k < bits {
        let rest = send_count_bits(first.w, h, value, counts, byte, k + 1, bits);
        parts_come(input, d, first, rest);
        bit2_is_read(input, d, i, h.countshift1, j, h.countshift2, bit);
        count_bits_are_read(input, behind(input, d.s, first), h, value, counts, byte, k + 1, bits);
    } else {
        bit2_is_read(input, d, i, h.countshift1, j, h.countshift2, bit);
    }
}

proof fn count_rest_is_read(input: Seq<u8>, d: Dec, h: Header, bits: int, j: int, count: int, v: int)
    requires
        ranged(d.w, 0),
        all_move_by(h, 0),
        0 <= j <= bits < 24,
        comes(input, d, send_count_rest(d.w, h, bits, j, v)),
    ensures
        count_rest(input, d, h, bits, j, count) == Some(
            (
                count * pow2((bits - j) as nat) + v % (pow2((bits - j) as nat) as int),
                behind(input, d.s, send_count_rest(d.w, h, bits, j, v)),
            ),
        ),
    decreases bits - j,
{
    lemma2_to64();
    let n = (bits - j) as nat;
    if n == 0 {
        assert(count * 1 == count) by (nonlinear_arith);
        assert(v % 1 == 0);
    } else {
        low_bits(v, n);
        let bit = digit(v, (n - 1) as nat);
        let i = COUNTBIT + 24 * bits + j;
        let first = send_bit(d.w, i, h.countshift3, bit);
        let rest = send_count_rest(first.w, h, bits, j + 1, v);
        bit_is_sound(d.w, i, h.countshift3, bit, 0);
        parts_come(input, d, first, rest);
        bit_is_read(input, d, i, h.countshift3, bit);
        count_rest_is_read(input, behind(input, d.s, first), h, bits, j + 1, 2 * count + bit, v);
        lemma_pow2_unfold(n);
        let p = pow2((n - 1) as nat) as int;
        assert((2 * count + bit) * p == count * (2 * p) + bit * p) by (nonlinear_arith);
    }
}

proof fn count_is_read(input: Seq<u8>, d: Dec, h: Header, value: int, counts: int, byte: u8, count: int)
    requires
        ranged(d.w, 0),
        all_move_by(h, 0),
        0 <= value <= 3,
        0 <= counts < 16,
        1 <= count < 0x100_0000,
        comes(input, d, send_count(d.w, h, value, counts, byte, count)),
    ensures
        ({
            let plan = send_count(d.w, h, value, counts, byte, count);
            count_bits(input, d, h, value, counts, byte, 0) matches Some((bits, d1)) && bits == height(count)
                && count_rest(input, d1, h, bits, 0, 1) == Some((count, behind(input, d.s, plan)))
        }),
{
    reveal(send_count);
    count_height(count);
    let bits = height(count);
    let first = send_count_bits(d.w, h, value, counts, byte, 0, bits);
    let rest = send_count_rest(first.w, h, bits, 0, count);
    count_bits_are_sound(d.w, h, value, counts, byte, 0, bits, 0);
    parts_come(input, d, first, rest);
    count_bits_are_read(input, d, h, value, counts, byte, 0, bits);
    count_rest_is_read(input, behind(input, d.s, first), h, bits, 0, 1, count);
    behind_the_highest(count, bits as nat);
}

proof fn joints_add_up(st: IronState)
    requires
        joint(st, 0) + joint(st, 1) + joint(st, 2) + joint(st, 3) <= u32::MAX,
    ensures
        freq_sum(joints(st), 4) == joint(st, 0) + joint(st, 1) + joint(st, 2) + joint(st, 3),
{
    reveal_with_fuel(freq_sum, 5);
}

proof fn small_is_read(input: Seq<u8>, st: IronState, value: int)
    requires
        joint(st, 0) + joint(st, 1) + joint(st, 2) + joint(st, 3) <= u32::MAX,
        comes(input, st.d, send_small(st, value)),
    ensures
        small_next(input, st) == Some((short(value), behind(input, st.d.s, send_small(st, value)).s)),
{
    reveal(small_next);
    joints_add_up(st);
    one_item(input, st.d.s, send_small(st, value).items[0]);
}

/// The reader is where the writer is.
spec fn in_step(st: IronState, wr: IronState) -> bool {
    st == (IronState { d: Dec { s: st.d.s, w: wr.d.w }, ..wr })
}

proof fn run_is_read(input: Seq<u8>, st: IronState, wr: IronState, h: Header, r: Run)
    requires
        in_step(st, wr),
        state_ok(wr, 0),
        all_move_by(h, 0),
        run_ok(r),
        joint(wr, 0) + joint(wr, 1) + joint(wr, 2) + joint(wr, 3) <= u32::MAX,
        comes(input, st.d, send_run(wr, h, r)),
    ensures
        run_next(input, st, h) matches Some((byte, count, st1)) && byte == run_byte(wr, r) && count == r.count && in_step(
            st1,
            after_run(wr, h, r),
        ) && st1.d.s == after_items(input, st.d.s, send_run(wr, h, r).items),
{
    let d = st.d;
    let first = send_small(wr, r.value);
    let second = send_value(first.w, h, wr.lastbits, r.value);
    let third = send_count(second.w, h, short(r.value), wr.counts, run_byte(wr, r), r.count);
    parts_come(input, d, first, then_send(second, third));
    let d1 = behind(input, d.s, first);
    parts_come(input, d1, second, third);
    let d2 = behind(input, d1.s, second);
    assert(joints(st) == joints(wr));
    assert(freqs_after(st, h, short(r.value)) == freqs_after(wr, h, short(r.value))) by {
        reveal(freqs_after);
    }
    small_is_read(input, st, r.value);
    let st1 = IronState { d: d1, f: freqs_after(st, h, short(r.value)), ..st };
    value_is_sound(d1.w, h, wr.lastbits, r.value, 0);
    value_is_read(input, st1, h, r.value);
    count_is_read(input, d2, h, short(r.value), wr.counts, run_byte(wr, r), r.count);
}

proof fn runs_are_read(input: Seq<u8>, st: IronState, wr: IronState, h: Header, rs: Seq<Run>, found: Seq<u8>)
    requires
        in_step(st, wr),
        state_ok(wr, 0),
        all_move_by(h, 0),
        forall|i: int| 0 <= i < rs.len() ==> run_ok(#[trigger] rs[i]),
        sums_fit(wr, h, rs),
        reads_items(input, st.d.s, all_items(wr, h, rs)),
    ensures
        body_from(input, st, h, found, found.len() + all_text(wr, h, rs).len()) == Some(
            (found + all_text(wr, h, rs), after_items(input, st.d.s, all_items(wr, h, rs)).pos),
        ),
    decreases rs.len(),
{
    let all = all_text(wr, h, rs);
    if rs.len() == 0 {
        assert(found + all =~= found);
    } else {
        let r = rs[0];
        assert(run_ok(r));
        let next = after_run(wr, h, r);
        let text = run_text(wr, r);
        let rest = all_text(next, h, rs.drop_first());
        let plan = send_run(wr, h, r);
        reading_in_parts(input, st.d.s, plan.items, all_items(next, h, rs.drop_first()));
        run_is_read(input, st, wr, h, r);
        run_keeps_state(wr, h, r, 0);
        let (byte, count, st1) = run_next(input, st, h)->0;
        assert forall|i: int| 0 <= i < rs.drop_first().len() implies run_ok(#[trigger] rs.drop_first()[i]) by {
            assert(rs.drop_first()[i] == rs[i + 1]);
        }
        runs_are_read(input, st1, next, h, rs.drop_first(), found + text);
        assert((found + text) + rest =~= found + all);
        assert(text.len() == count);
    }
}

// === what can be sent =========================================================

/// Where the frequencies of set `k` start.
spec fn set_at(k: int) -> int {
    4 * k
}

/// The sets of frequencies add up to `cap` at most, and none of the frequencies by
/// nothing is 0.
spec fn capped(f: Seq<u32>, cap: int) -> bool {
    &&& f.len() == NUM_FREQS
    &&& forall|k: int| 0 <= k < 1281 ==> four(f, #[trigger] set_at(k)) <= cap
    &&& f[0] >= 1 && f[1] >= 1 && f[2] >= 1 && f[3] >= 1
}

proof fn counted_elsewhere(f: Seq<u32>, base: int, n: int, max: u32, up: bool, j: int)
    requires
        0 <= base,
        base + 4 <= f.len(),
        0 <= n < 4,
        0 <= j < f.len(),
        j < base || j >= base + 4,
    ensures
        counted(f, base, n, max, up)[j] == f[j],
{
}

proof fn counted_here(f: Seq<u32>, base: int, n: int, max: u32, up: bool, cap: int, next: int)
    requires
        0 <= base,
        base + 4 <= f.len(),
        0 <= n < 4,
        four(f, base) <= cap,
        6 <= cap <= next <= 0x40_0000,
        max <= next || cap + 2 <= next,
    ensures
        counted(f, base, n, max, up).len() == f.len(),
        four(counted(f, base, n, max, up), base) <= next,
        up ==> forall|i: int| #![trigger f[base + i]]
            0 <= i < 4 && f[base + i] >= 1 ==> counted(f, base, n, max, up)[base + i] >= 1,
{
    let g = f.update(base + n, (f[base + n] + 2) as u32);
    assert(four(g, base) == four(f, base) + 2) by {
        assert(n == 0 || n == 1 || n == 2 || n == 3);
    }
}

proof fn counting_keeps_cap(f: Seq<u32>, k: int, n: int, max: u32, up: bool, cap: int, next: int)
    requires
        capped(f, cap),
        0 <= k < 1281,
        0 <= n < 4,
        k == 0 ==> up,
        6 <= cap <= next <= 0x40_0000,
        max <= next || cap + 2 <= next,
    ensures
        capped(counted(f, set_at(k), n, max, up), next),
{
    let base = set_at(k);
    let g = counted(f, base, n, max, up);
    assert(four(f, base) <= cap);
    counted_here(f, base, n, max, up, cap, next);
    assert forall|i: int| 0 <= i < 1281 implies four(g, #[trigger] set_at(i)) <= next by {
        if i != k {
            let j = set_at(i);
            assert(four(f, set_at(i)) <= cap);
            counted_elsewhere(f, base, n, max, up, j);
            counted_elsewhere(f, base, n, max, up, j + 1);
            counted_elsewhere(f, base, n, max, up, j + 2);
            counted_elsewhere(f, base, n, max, up, j + 3);
        }
    }
    if k == 0 {
        assert(f[base + 0] >= 1 && f[base + 1] >= 1 && f[base + 2] >= 1 && f[base + 3] >= 1);
    } else {
        counted_elsewhere(f, base, n, max, up, 0);
        counted_elsewhere(f, base, n, max, up, 1);
        counted_elsewhere(f, base, n, max, up, 2);
        counted_elsewhere(f, base, n, max, up, 3);
    }
}

/// How far the sums can grow during one more run.
spec fn next_cap(h: Header, cap: int) -> int {
    if h.maxfreq1 <= cap && h.maxfreq2 <= cap && h.maxfreq3 <= cap {
        cap
    } else {
        cap + 6
    }
}

proof fn run_keeps_cap(st: IronState, h: Header, n: int, cap: int)
    requires
        capped(st.f, cap),
        0 <= n < 4,
        6 <= cap,
        next_cap(h, cap) <= 0x40_0000,
        0 <= st.values < 256,
        0 <= st.counts < 16,
    ensures
        capped(freqs_after(st, h, n), next_cap(h, cap)),
{
    reveal(freqs_after);
    let k2 = 1 + st.lastbyte;
    let k3 = 257 + (st.counts % 4) * 256 + st.values;
    assert(set_at(0) == MAIN && set_at(k2) == LAST + 4 * st.lastbyte && set_at(k3) == past_at(st));
    let still = next_cap(h, cap) == cap;
    let c1 = if still {
        cap
    } else {
        cap + 2
    };
    let c2 = if still {
        cap
    } else {
        cap + 4
    };
    let f1 = counted(st.f, set_at(0), n, h.maxfreq1, true);
    let f2 = counted(f1, set_at(k2), n, h.maxfreq2, false);
    counting_keeps_cap(st.f, 0, n, h.maxfreq1, true, cap, c1);
    counting_keeps_cap(f1, k2, n, h.maxfreq2, false, c1, c2);
    counting_keeps_cap(f2, k3, n, h.maxfreq3, false, c2, next_cap(h, cap));
}

proof fn capped_joints(st: IronState, cap: int)
    requires
        capped(st.f, cap),
        cap <= 0x40_0000,
        0 <= st.values < 256,
        0 <= st.counts < 16,
    ensures
        joint(st, 0) >= 1 && joint(st, 1) >= 1 && joint(st, 2) >= 1 && joint(st, 3) >= 1,
        joint(st, 0) + joint(st, 1) + joint(st, 2) + joint(st, 3) <= 0x100_0000,
{
    let k2 = 1 + st.lastbyte;
    let k3 = 257 + (st.counts % 4) * 256 + st.values;
    assert(set_at(0) == MAIN && set_at(k2) == LAST + 4 * st.lastbyte && set_at(k3) == past_at(st));
    assert(four(st.f, set_at(0)) <= cap);
    assert(four(st.f, set_at(k2)) <= cap);
    assert(four(st.f, set_at(k3)) <= cap);
}

proof fn small_is_sound(st: IronState, value: int, cap: int)
    requires
        capped(st.f, cap),
        cap <= 0x40_0000,
        state_ok(st, 1),
        0 <= value,
    ensures
        sound(send_small(st, value), 1),
        joint(st, 0) + joint(st, 1) + joint(st, 2) + joint(st, 3) <= u32::MAX,
{
    capped_joints(st, cap);
    joints_add_up(st);
}

/// The frequencies stay small for `n` runs, by the bounds that the header gives or
/// because there are few runs, and no weight rules a bit out.
pub open spec fn tame(h: Header, n: nat) -> bool {
    &&& 1 <= h.byteshift1 < 32
    &&& 1 <= h.byteshift2 < 32
    &&& 1 <= h.byteshift3 < 32
    &&& 1 <= h.countshift1 < 32
    &&& 1 <= h.countshift2 < 32
    &&& 1 <= h.countshift3 < 32
    &&& h.maxfreq1 <= 0x40_0000 && h.maxfreq2 <= 0x40_0000 && h.maxfreq3 <= 0x40_0000 || 6 + 6 * n <= 0x40_0000
}

proof fn tame_from(st: IronState, h: Header, rs: Seq<Run>, cap: int)
    requires
        state_ok(st, 1),
        all_move_by(h, 1),
        capped(st.f, cap),
        6 <= cap <= 0x40_0000,
        next_cap(h, cap) == cap || cap + 6 * rs.len() <= 0x40_0000,
        forall|i: int| 0 <= i < rs.len() ==> run_ok(#[trigger] rs[i]),
    ensures
        all_easy(all_items(st, h, rs)),
        sums_fit(st, h, rs),
    decreases rs.len(),
{
    if rs.len() > 0 {
        let r = rs[0];
        assert(run_ok(r));
        let next = after_run(st, h, r);
        small_is_sound(st, r.value, cap);
        let first = send_small(st, r.value);
        let second = send_value(first.w, h, st.lastbits, r.value);
        let third = send_count(second.w, h, short(r.value), st.counts, run_byte(st, r), r.count);
        value_is_sound(first.w, h, st.lastbits, r.value, 1);
        count_is_sound(second.w, h, short(r.value), st.counts, run_byte(st, r), r.count, 1);
        joining_is_sound(second, third, 1);
        joining_is_sound(first, then_send(second, third), 1);
        run_keeps_state(st, h, r, 1);
        run_keeps_cap(st, h, short(r.value), cap);
        assert forall|i: int| 0 <= i < rs.drop_first().len() implies run_ok(#[trigger] rs.drop_first()[i]) by {
            assert(rs.drop_first()[i] == rs[i + 1]);
        }
        tame_from(next, h, rs.drop_first(), next_cap(h, cap));
        let rest = Plan { items: all_items(next, h, rs.drop_first()), w: next.d.w };
        joining_is_sound(send_run(st, h, r), rest, 1);
    }
}

/// The writer before the first run of a block.
pub open spec fn writer_start(h: Header) -> IronState {
    iron_start(seq![], h.fancymtf)
}

/// The runs can be sent.
pub open spec fn runs_fit(h: Header, rs: Seq<Run>) -> bool {
    &&& forall|i: int| 0 <= i < rs.len() ==> run_ok(#[trigger] rs[i])
    &&& sums_fit(writer_start(h), h, rs)
    &&& items_fit(0xffff_ffff, all_items(writer_start(h), h, rs))
}

/// Under a tame header all runs can be sent.
pub proof fn tame_runs_fit(h: Header, rs: Seq<Run>)
    requires
        tame(h, rs.len()),
        forall|i: int| 0 <= i < rs.len() ==> run_ok(#[trigger] rs[i]),
    ensures
        runs_fit(h, rs),
{
    let st = writer_start(h);
    let cap = if h.maxfreq1 <= 0x40_0000 && h.maxfreq2 <= 0x40_0000 && h.maxfreq3 <= 0x40_0000 {
        0x40_0000int
    } else {
        6
    };
    assert forall|k: int| 0 <= k < 1281 implies four(st.f, #[trigger] set_at(k)) <= cap by {
        if k > 0 {
            assert(four(st.f, set_at(k)) == 0);
        }
    }
    tame_from(st, h, rs, cap);
    easy_items_fit(0xffff_ffff, all_items(st, h, rs));
}

// === the stream ===============================================================

/// The numbers stand at `q`, one behind the other.
pub open spec fn numbers_stand(data: Seq<u8>, q: int, v: Seq<u32>) -> bool
    decreases v.len(),
{
    v.len() > 0 ==> {
        &&& v[0] < 32
        &&& number_stands(data, q, v[0] as u64)
        &&& numbers_stand(data, number_end(q, v[0] as u64), v.drop_first())
    }
}

/// Where they end.
pub open spec fn numbers_end(q: int, v: Seq<u32>) -> int
    decreases v.len(),
{
    if v.len() == 0 {
        q
    } else {
        numbers_end(number_end(q, v[0] as u64), v.drop_first())
    }
}

/// The header that two bits and nine numbers make.
pub open spec fn header_with(st4: bool, fancy: bool, v: Seq<u32>) -> Header {
    Header {
        st4transform: st4,
        fancymtf: fancy,
        maxfreq1: pow2(v[0] as nat) as u32,
        maxfreq2: pow2(v[1] as nat) as u32,
        maxfreq3: pow2(v[2] as nat) as u32,
        byteshift1: v[3],
        byteshift2: v[4],
        byteshift3: v[5],
        countshift1: v[6],
        countshift2: v[7],
        countshift3: v[8],
    }
}

/// They stand at the start of the data.
pub open spec fn header_stands(data: Seq<u8>, st4: bool, fancy: bool, v: Seq<u32>) -> bool {
    &&& data.len() > 0
    &&& lsb_bit(data, 0) == st4
    &&& lsb_bit(data, 1) == fancy
    &&& v.len() == 9
    &&& numbers_stand(data, 2, v)
}

proof fn numbers_are_read(data: Seq<u8>, q: int, v: Seq<u32>, found: Seq<u32>)
    requires
        numbers_stand(data, q, v),
    ensures
        smalls_from(data, q, v.len(), found) == Ok::<(Seq<u32>, int), ErrorKind>((found + v, numbers_end(q, v))),
        forall|i: int| 0 <= i < v.len() ==> (#[trigger] v[i]) < 32,
    decreases v.len(),
{
    if v.len() == 0 {
        assert(found + v =~= found);
    } else {
        written_number_is_read_back(data, q, v[0] as u64);
        numbers_are_read(data, number_end(q, v[0] as u64), v.drop_first(), found.push(v[0]));
        assert(found.push(v[0]) + v.drop_first() =~= found + v);
        assert forall|i: int| 0 <= i < v.len() implies (#[trigger] v[i]) < 32 by {
            if i > 0 {
                assert(v.drop_first()[i - 1] < 32);
            }
        }
    }
}

/// A header that was written is read back.
pub proof fn written_header_is_read_back(data: Seq<u8>, st4: bool, fancy: bool, v: Seq<u32>)
    requires
        header_stands(data, st4, fancy, v),
    ensures
        header_of(data) == Ok::<(Header, int), ErrorKind>((header_with(st4, fancy, v), numbers_end(2, v))),
{
    numbers_are_read(data, 2, v, seq![]);
    assert(Seq::<u32>::empty() + v =~= v);
}

/// A block: bytes as they are, or the runs of the sorted bytes and where the string
/// starts among them.
pub enum Block {
    Plain(Seq<u8>),
    Sorted { runs: Seq<Run>, first: u64 },
}

/// The bytes that are written for a block, sorted or not.
pub open spec fn block_bytes(h: Header, b: Block) -> Seq<u8> {
    match b {
        Block::Plain(v) => v,
        Block::Sorted { runs, first } => all_text(writer_start(h), h, runs),
    }
}

pub open spec fn block_text(h: Header, b: Block) -> Option<Seq<u8>> {
    match b {
        Block::Plain(v) => Some(v),
        Block::Sorted { runs, first } => unsorted(h, block_bytes(h, b), first),
    }
}

/// The block can be written.
pub open spec fn block_ok(h: Header, b: Block) -> bool {
    &&& block_text(h, b) is Some
    &&& block_bytes(h, b).len() < u64::MAX
    &&& match b {
        Block::Plain(v) => true,
        Block::Sorted { runs, first } => runs_fit(h, runs),
    }
}

/// The body of a block.
pub open spec fn block_body(h: Header, b: Block) -> Seq<u8> {
    match b {
        Block::Plain(v) => v,
        Block::Sorted { runs, first } => items_written(all_items(writer_start(h), h, runs)),
    }
}

/// The bit that says whether the bytes are plain, for a block at `q`.
pub open spec fn kind_bit_at(q: int, h: Header, b: Block) -> int {
    number_end(8 * byte_pos(q) + 1, block_bytes(h, b).len() as u64)
}

/// Where its body starts, in bytes; a byte without meaning stands before sorted
/// bytes.
pub open spec fn body_at(q: int, h: Header, b: Block) -> int {
    let p = kind_bit_at(q, h, b) + 1;
    match b {
        Block::Plain(v) => byte_pos(p),
        Block::Sorted { runs, first } => byte_pos(number_end(p, first)) + 1,
    }
}

pub open spec fn block_end(q: int, h: Header, b: Block) -> int {
    8 * (body_at(q, h, b) + block_body(h, b).len())
}

/// The block stands at the byte boundary after `q`.
pub open spec fn block_stands(data: Seq<u8>, q: int, h: Header, b: Block) -> bool {
    let a = 8 * byte_pos(q);
    let p = kind_bit_at(q, h, b);
    let start = body_at(q, h, b);
    let body = block_body(h, b);
    &&& 0 <= a < 8 * data.len()
    &&& !lsb_bit(data, a)
    &&& number_stands(data, a + 1, block_bytes(h, b).len() as u64)
    &&& p < 8 * data.len()
    &&& lsb_bit(data, p) == (b is Plain)
    &&& b matches Block::Sorted { runs, first } ==> number_stands(data, p + 1, first)
    &&& start + body.len() <= data.len()
    &&& data.subrange(start, start + body.len()) == body
}

/// The blocks stand one behind the other.
pub open spec fn blocks_stand(data: Seq<u8>, q: int, h: Header, bs: Seq<Block>) -> bool
    decreases bs.len(),
{
    bs.len() > 0 ==> {
        &&& block_ok(h, bs[0])
        &&& block_stands(data, q, h, bs[0])
        &&& blocks_stand(data, block_end(q, h, bs[0]), h, bs.drop_first())
    }
}

/// Where they end.
pub open spec fn blocks_end(q: int, h: Header, bs: Seq<Block>) -> int
    decreases bs.len(),
{
    if bs.len() == 0 {
        q
    } else {
        blocks_end(block_end(q, h, bs[0]), h, bs.drop_first())
    }
}

/// The text of the blocks.
pub open spec fn blocks_text(h: Header, bs: Seq<Block>) -> Seq<u8>
    decreases bs.len(),
{
    if bs.len() == 0 {
        seq![]
    } else {
        block_text(h, bs[0])->0 + blocks_text(h, bs.drop_first())
    }
}

/// The 1 bit that ends the blocks stands at the byte boundary after `q`.
pub open spec fn end_stands(data: Seq<u8>, q: int) -> bool {
    byte_pos(q) < data.len() && lsb_bit(data, 8 * byte_pos(q))
}

proof fn start_is_ok(h: Header)
    ensures
        state_ok(writer_start(h), 0),
{
}

/// A written block is read back.
proof fn block_is_read(data: Seq<u8>, q: int, h: Header, b: Block)
    requires
        data.len() <= u64::MAX,
        0 <= q,
        all_move_by(h, 0),
        block_ok(h, b),
        block_stands(data, q, h, b),
    ensures
        block_at(data, q, h) == Ok::<Option<(Seq<u8>, int)>, ErrorKind>(
            Some((block_text(h, b)->0, block_end(q, h, b))),
        ),
        block_end(q, h, b) > q,
        q < 8 * data.len(),
{
    let a = 8 * byte_pos(q);
    let n = block_bytes(h, b).len() as u64;
    let p = kind_bit_at(q, h, b);
    let start = body_at(q, h, b);
    let body = block_body(h, b);
    written_number_is_read_back(data, a + 1, n);
    match b {
        Block::Plain(v) => {},
        Block::Sorted { runs, first } => {
            written_number_is_read_back(data, p + 1, first);
            let input = data.skip(start);
            let rest = data.skip(start + body.len());
            assert(input =~= body + rest) by {
                assert forall|i: int| 0 <= i < body.len() implies input[i] == body[i] by {
                    assert(data.subrange(start, start + body.len())[i] == body[i]);
                }
            }
            let items = all_items(writer_start(h), h, runs);
            sent_items_are_read(items, rest);
            start_is_ok(h);
            let st = iron_start(input, h.fancymtf);
            runs_are_read(input, st, writer_start(h), h, runs, seq![]);
            assert(Seq::<u8>::empty() + block_bytes(h, b) =~= block_bytes(h, b));
        },
    }
}

proof fn blocks_are_read(data: Seq<u8>, q: int, h: Header, bs: Seq<Block>, found: Seq<u8>, size: nat)
    requires
        data.len() <= u64::MAX,
        0 <= q,
        all_move_by(h, 0),
        blocks_stand(data, q, h, bs),
        size <= found.len() + blocks_text(h, bs).len() || end_stands(data, blocks_end(q, h, bs)),
    ensures
        ({
            let all = found + blocks_text(h, bs);
            blocks_from(data, q, h, found, size) matches Ok(read) && read.is_prefix_of(all) && (read.len() >= size || read
                == all)
        }),
    decreases bs.len(),
{
    let all = found + blocks_text(h, bs);
    if found.len() >= size {
        assert(found.is_prefix_of(all)) by {
            assert(all.subrange(0, found.len() as int) =~= found);
        }
    } else if bs.len() == 0 {
        assert(all =~= found);
    } else {
        let b = bs[0];
        let text = block_text(h, b)->0;
        block_is_read(data, q, h, b);
        assert((found + text) + blocks_text(h, bs.drop_first()) =~= all);
        blocks_are_read(data, block_end(q, h, b), h, bs.drop_first(), found + text, size);
    }
}

/// A stream that was written is read back: as many bytes of the text of its blocks as
/// are asked for, or all of them if there are no more and the end is marked.
pub proof fn written_stream_is_read_back(
    data: Seq<u8>,
    st4: bool,
    fancy: bool,
    v: Seq<u32>,
    bs: Seq<Block>,
    size: nat,
)
    requires
        data.len() <= u64::MAX,
        header_stands(data, st4, fancy, v),
        blocks_stand(data, numbers_end(2, v), header_with(st4, fancy, v), bs),
        size <= blocks_text(header_with(st4, fancy, v), bs).len() || end_stands(
            data,
            blocks_end(numbers_end(2, v), header_with(st4, fancy, v), bs),
        ),
    ensures
        ({
            let text = blocks_text(header_with(st4, fancy, v), bs);
            decoded(data, size) == Ok::<Seq<u8>, ErrorKind>(
                if size < text.len() {
                    text.subrange(0, size as int)
                } else {
                    text
                },
            )
        }),
{
    let h = header_with(st4, fancy, v);
    let text = blocks_text(h, bs);
    written_header_is_read_back(data, st4, fancy, v);
    numbers_are_read(data, 2, v, seq![]);
    numbers_advance(2, v);
    blocks_are_read(data, numbers_end(2, v), h, bs, seq![], size);
    assert(Seq::<u8>::empty() + text =~= text);
    let read = blocks_from(data, numbers_end(2, v), h, seq![], size)->Ok_0;
    assert(read =~= text.subrange(0, read.len() as int));
    assert(text.subrange(0, text.len() as int) =~= text);
    if read.len() > size {
        assert(read.subrange(0, size as int) =~= text.subrange(0, size as int));
    }
}

proof fn numbers_advance(q: int, v: Seq<u32>)
    ensures
        numbers_end(q, v) >= q,
    decreases v.len(),
{
    if v.len() > 0 {
        numbers_advance(number_end(q, v[0] as u64), v.drop_first());
    }
}

// === from strings to runs =====================================================

/// A byte and how often it comes.
pub struct Copies {
    pub byte: u8,
    pub count: int,
}

/// The bytes that they stand for.
pub open spec fn spread(cs: Seq<Copies>) -> Seq<u8>
    decreases cs.len(),
{
    if cs.len() == 0 {
        seq![]
    } else {
        copies(cs[0].byte, cs[0].count) + spread(cs.drop_first())
    }
}

/// How far a byte is from the front.
pub open spec fn rank_of(m: MtfView, b: u8) -> int {
    match m {
        MtfView::Fancy(f) => f.ranks.index_of(b as u32),
        MtfView::Plain(t) => t.index_of(b),
    }
}

/// The byte has a value of its own.
pub open spec fn within_reach(m: MtfView, b: u8) -> bool {
    match m {
        MtfView::Fancy(f) => f.ranks.contains(b as u32) && f.ranks.index_of(b as u32) < 256,
        MtfView::Plain(t) => t.contains(b) && t.index_of(b) < 256,
    }
}

/// The runs for some copies, under the state of the writer.
pub open spec fn runs_for(st: IronState, h: Header, cs: Seq<Copies>) -> Seq<Run>
    decreases cs.len(),
{
    if cs.len() == 0 {
        seq![]
    } else {
        let r = Run { value: (rank_of(st.mtf, cs[0].byte) + 255) % 256, count: cs[0].count };
        seq![r] + runs_for(after_run(st, h, r), h, cs.drop_first())
    }
}

/// Each byte can be told when it comes.
pub open spec fn all_within_reach(st: IronState, h: Header, cs: Seq<Copies>) -> bool
    decreases cs.len(),
{
    cs.len() > 0 ==> {
        let r = Run { value: (rank_of(st.mtf, cs[0].byte) + 255) % 256, count: cs[0].count };
        &&& 1 <= cs[0].count < 0x100_0000
        &&& within_reach(st.mtf, cs[0].byte)
        &&& all_within_reach(after_run(st, h, r), h, cs.drop_first())
    }
}

/// Bytes that can be told are told by their runs.
pub proof fn runs_tell_the_bytes(st: IronState, h: Header, cs: Seq<Copies>)
    requires
        all_within_reach(st, h, cs),
    ensures
        all_text(st, h, runs_for(st, h, cs)) == spread(cs),
        forall|i: int| 0 <= i < runs_for(st, h, cs).len() ==> run_ok(#[trigger] runs_for(st, h, cs)[i]),
    decreases cs.len(),
{
    if cs.len() > 0 {
        let c = cs[0];
        let k = rank_of(st.mtf, c.byte);
        let r = Run { value: (k + 255) % 256, count: c.count };
        let next = after_run(st, h, r);
        let rest = runs_for(next, h, cs.drop_first());
        let rs = runs_for(st, h, cs);
        runs_tell_the_bytes(next, h, cs.drop_first());
        assert(rs[0] == r && rs.drop_first() =~= rest);
        assert(0 <= k < 256);
        assert((r.value + 1) % 256 == k);
        assert(run_byte(st, r) == c.byte) by {
            reveal(mtf_next);
        }
        assert forall|i: int| 0 <= i < rs.len() implies run_ok(#[trigger] rs[i]) by {
            if i > 0 {
                assert(rs[i] == rest[i - 1]);
            }
        }
    }
}

/// Where bytes are moved to the front plainly, all of them can be told.
proof fn plain_reaches_all(st: IronState, h: Header, cs: Seq<Copies>)
    requires
        st.mtf matches MtfView::Plain(t) && is_byte_table(t),
        forall|i: int| 0 <= i < cs.len() ==> 1 <= (#[trigger] cs[i]).count < 0x100_0000,
    ensures
        all_within_reach(st, h, cs),
    decreases cs.len(),
{
    if cs.len() > 0 {
        let t = st.mtf->Plain_0;
        let k = t.index_of(cs[0].byte);
        assert(t.contains(cs[0].byte));
        let r = Run { value: (k + 255) % 256, count: cs[0].count };
        assert((r.value + 1) % 256 == k);
        moving_keeps_byte_table(t, k);
        assert(after_run(st, h, r).mtf == MtfView::Plain(moved_to_front(t, k))) by {
            reveal(mtf_next);
        }
        assert forall|i: int| 0 <= i < cs.drop_first().len() implies 1 <= (#[trigger] cs.drop_first()[i]).count
            < 0x100_0000 by {
            assert(cs.drop_first()[i] == cs[i + 1]);
        }
        plain_reaches_all(after_run(st, h, r), h, cs.drop_first());
    }
}

/// Under plain moving to the front, whatever copies a string is made of, a block of
/// sorted bytes can say it.
pub proof fn sorted_string_is_told(h: Header, s: Seq<u8>, order: Seq<int>, first: u64, cs: Seq<Copies>)
    requires
        !h.st4transform,
        !h.fancymtf,
        0 < s.len() <= u32::MAX,
        sorts_rotations(s, order),
        first < s.len(),
        order[first as int] == 0,
        spread(cs) == last_column(s, order),
        forall|i: int| 0 <= i < cs.len() ==> 1 <= (#[trigger] cs[i]).count < 0x100_0000,
        tame(h, cs.len()),
    ensures
        ({
            let b = Block::Sorted { runs: runs_for(writer_start(h), h, cs), first };
            block_ok(h, b) && block_text(h, b) == Some(s)
        }),
{
    let st = writer_start(h);
    byte_values_are_a_table();
    plain_reaches_all(st, h, cs);
    runs_tell_the_bytes(st, h, cs);
    runs_keep_length(st, h, cs);
    tame_runs_fit(h, runs_for(st, h, cs));
    transform_is_undone(s, order, first as int);
}

/// The same for bytes that are sorted by the four before them.
pub proof fn string_sorted_by_contexts_is_told(h: Header, s: Seq<u8>, rows: Seq<int>, first: u64, cs: Seq<Copies>)
    requires
        h.st4transform,
        !h.fancymtf,
        0 < s.len() <= 0x7f_ffff,
        sorts_contexts(s, rows),
        first < s.len(),
        rows[first as int] == s.len() - 1,
        spread(cs) == column(s, rows),
        forall|i: int| 0 <= i < cs.len() ==> 1 <= (#[trigger] cs[i]).count < 0x100_0000,
        tame(h, cs.len()),
    ensures
        ({
            let b = Block::Sorted { runs: runs_for(writer_start(h), h, cs), first };
            block_ok(h, b) && block_text(h, b) == Some(s)
        }),
{
    let st = writer_start(h);
    byte_values_are_a_table();
    plain_reaches_all(st, h, cs);
    runs_tell_the_bytes(st, h, cs);
    runs_keep_length(st, h, cs);
    tame_runs_fit(h, runs_for(st, h, cs));
    sort_of_order_4_is_undone(s, rows, first as int);
}

proof fn runs_keep_length(st: IronState, h: Header, cs: Seq<Copies>)
    ensures
        runs_for(st, h, cs).len() == cs.len(),
    decreases cs.len(),
{
    if cs.len() > 0 {
        let r = Run { value: (rank_of(st.mtf, cs[0].byte) + 255) % 256, count: cs[0].count };
        runs_keep_length(after_run(st, h, r), h, cs.drop_first());
    }
}

} // verus!
