use vstd::prelude::*;
use vstd::arithmetic::power2::{lemma2_to64, lemma_pow2_adds, lemma_pow2_pos, lemma_pow2_unfold, pow2};
use crate::stuffit15::{
    code_from, coder_start, narrowed, padded_bit, padded_next, picked, sum, sum_prefix,
    sum_prefix_bound, widened, CoderState, HALF, NUM_BITS, ONE,
};

verus! {

// What an arithmetic encoder writes, the decoder reads. All that is written is one
// large number: that of the first symbol counts most, and each widening of the
// interval makes room for another bit.

/// A symbol number and the frequencies under which it is told.
pub struct Told {
    pub freqs: Seq<u32>,
    pub n: int,
}

impl Told {
    pub open spec fn total(self) -> int {
        sum(self.freqs)
    }

    /// The sum of the frequencies before the symbol.
    pub open spec fn low(self) -> int {
        sum(self.freqs.subrange(0, self.n))
    }

    /// The symbol can come, and an interval of width `range` has room for all.
    pub open spec fn fits(self, range: int) -> bool {
        &&& 0 <= self.n < self.freqs.len()
        &&& forall|i: int| 0 <= i < self.freqs.len() ==> 1 <= #[trigger] self.freqs[i]
        &&& self.total() <= range
    }

    /// Where the part of the symbol starts in an interval of width `range`.
    pub open spec fn start(self, range: int) -> int {
        (range / self.total()) * self.low()
    }

    /// How wide the part is; the last symbol takes what the division leaves over.
    pub open spec fn width(self, range: int) -> int {
        if self.low() + self.freqs[self.n] == self.total() {
            range - self.start(range)
        } else {
            (range / self.total()) * self.freqs[self.n]
        }
    }
}

/// How often an interval is doubled.
pub open spec fn doublings(range: int) -> nat
    decreases ONE - range,
{
    if range <= 0 || range > HALF {
        0
    } else {
        1 + doublings(2 * range)
    }
}

pub open spec fn range_after(range: int, m: Told) -> int {
    m.width(range) * pow2(doublings(m.width(range)))
}

pub open spec fn all_fit(range: int, ms: Seq<Told>) -> bool
    decreases ms.len(),
{
    ms.len() > 0 ==> ms[0].fits(range) && all_fit(range_after(range, ms[0]), ms.drop_first())
}

/// The number that stands for the symbols, and how many bits it has behind the
/// first ones.
pub open spec fn number_for(range: int, ms: Seq<Told>) -> (nat, nat)
    decreases ms.len(),
{
    if ms.len() == 0 {
        (0, 0)
    } else {
        let (v, r) = number_for(range_after(range, ms[0]), ms.drop_first());
        let k = doublings(ms[0].width(range)) + r;
        ((ms[0].start(range) * pow2(k) + v) as nat, k)
    }
}

/// The number of the `n` bits from `pos` on, the highest first.
pub open spec fn bits_number(data: Seq<u8>, pos: int, n: nat) -> nat
    decreases n,
{
    if n == 0 {
        0
    } else {
        padded_bit(data, pos) as nat * pow2((n - 1) as nat) + bits_number(data, pos + 1, (n - 1) as nat)
    }
}

/// The decoder reads the symbols one after another, each under its frequencies.
pub open spec fn reads(data: Seq<u8>, c: CoderState, ms: Seq<Told>) -> bool
    decreases ms.len(),
{
    ms.len() > 0 ==> {
        let m = ms[0];
        let target = (c.code as int / (c.range / m.total())) as u32;
        let (n, low) = picked(m.freqs, target, 0, 0);
        n == m.n && reads(data, narrowed(data, c, low, m.freqs[n] as int, m.total()), ms.drop_first())
    }
}

// === the interval =============================================================

pub(crate) proof fn part_is_inside(range: int, m: Told)
    requires
        1 <= range <= ONE,
        m.fits(range),
    ensures
        1 <= m.total(),
        range / m.total() >= 1,
        0 <= m.low(),
        m.low() + m.freqs[m.n] <= m.total(),
        0 <= m.start(range),
        1 <= m.width(range),
        m.start(range) + m.width(range) <= range,
        m.low() + m.freqs[m.n] < m.total() ==> m.start(range) + m.width(range) == (range / m.total()) * (m.low()
            + m.freqs[m.n]),
{
    sum_prefix(m.freqs, m.n);
    sum_prefix_bound(m.freqs, m.n);
    sum_prefix_bound(m.freqs, m.n + 1);
    let total = m.total();
    let unit = range / total;
    let low = m.low();
    let size = m.freqs[m.n] as int;
    assert(1 <= m.freqs[m.n]);
    assert(unit >= 1) by (nonlinear_arith)
        requires unit == range / total, 1 <= total <= range;
    assert(unit * low >= 0) by (nonlinear_arith)
        requires unit >= 1, low >= 0;
    assert(unit * low + unit * size == unit * (low + size)) by (nonlinear_arith);
    assert(unit * (low + size) <= unit * total) by (nonlinear_arith)
        requires low + size <= total, unit >= 1;
    assert(unit * total <= range) by (nonlinear_arith)
        requires unit == range / total, 1 <= total, range >= 0;
    assert(unit * size >= 1) by (nonlinear_arith)
        requires unit >= 1, size >= 1;
}

pub(crate) proof fn doubling_bounds(range: int)
    requires
        1 <= range <= ONE,
    ensures
        HALF < range * pow2(doublings(range)) <= ONE,
    decreases ONE - range,
{
    lemma2_to64();
    if range > HALF {
        assert(range * pow2(0) == range) by (nonlinear_arith)
            requires pow2(0) == 1;
    } else {
        doubling_bounds(2 * range);
        let d = doublings(2 * range);
        lemma_pow2_unfold(d + 1);
        let p = pow2(d) as int;
        assert((2 * range) * p == range * (2 * p)) by (nonlinear_arith);
    }
}

/// The number for some symbols lies in the part of the first.
proof fn number_fits(range: int, ms: Seq<Told>)
    requires
        1 <= range <= ONE,
        all_fit(range, ms),
    ensures
        number_for(range, ms).0 < range * pow2(number_for(range, ms).1),
        ms.len() > 0 ==> ({
            let (v, k) = number_for(range, ms);
            let start = ms[0].start(range);
            let width = ms[0].width(range);
            &&& start * pow2(k) <= v < (start + width) * pow2(k)
            &&& v - start * pow2(k) == number_for(range_after(range, ms[0]), ms.drop_first()).0
            &&& k - doublings(width) == number_for(range_after(range, ms[0]), ms.drop_first()).1
        }),
    decreases ms.len(),
{
    lemma2_to64();
    if ms.len() == 0 {
        assert(range * pow2(0) >= 1) by (nonlinear_arith)
            requires range >= 1, pow2(0) == 1;
    } else {
        let m = ms[0];
        let start = m.start(range);
        let width = m.width(range);
        part_is_inside(range, m);
        doubling_bounds(width);
        let next = range_after(range, m);
        number_fits(next, ms.drop_first());
        let (v1, r) = number_for(next, ms.drop_first());
        let d = doublings(width);
        lemma_pow2_adds(d, r);
        lemma_pow2_pos(d + r);
        let a = pow2(d) as int;
        let b = pow2(r) as int;
        let p = pow2(d + r) as int;
        assert((width * a) * b == width * p) by (nonlinear_arith)
            requires p == a * b;
        assert(start * p >= 0) by (nonlinear_arith)
            requires start >= 0, p >= 1;
        assert((start + width) * p == start * p + width * p) by (nonlinear_arith);
        assert((start + width) * p <= range * p) by (nonlinear_arith)
            requires start + width <= range, p >= 1;
    }
}

// === reading ==================================================================

/// The decoder holds the leading bits of `v`, and `r` more come.
spec fn carries(data: Seq<u8>, pos: int, code: u32, v: nat, r: nat) -> bool {
    &&& code * pow2(r) + bits_number(data, pos, r) == v
    &&& 0 <= pos
    &&& pos + r <= 8 * data.len()
}

proof fn bits_are_small(data: Seq<u8>, pos: int, n: nat)
    ensures
        bits_number(data, pos, n) < pow2(n),
    decreases n,
{
    lemma2_to64();
    if n > 0 {
        bits_are_small(data, pos + 1, (n - 1) as nat);
        lemma_pow2_unfold(n);
        let b = padded_bit(data, pos) as int;
        let p = pow2((n - 1) as nat) as int;
        assert(b * p + p <= 2 * p) by (nonlinear_arith)
            requires 0 <= b <= 1, p >= 0;
    }
}

proof fn shift_is_double(code: u32, bit: u32)
    by (bit_vector)
    requires
        code < 0x8000_0000u32,
        bit <= 1u32,
    ensures
        (code << 1u32) | bit == 2 * code + bit,
{
}

proof fn carrying_on(data: Seq<u8>, pos: int, code: u32, v: nat, r: nat)
    requires
        carries(data, pos, code, v, r),
        r > 0,
        code < 0x8000_0000,
    ensures
        padded_next(data, pos) == pos + 1,
        carries(data, pos + 1, (code << 1u32) | padded_bit(data, pos), v, (r - 1) as nat),
        ((code << 1u32) | padded_bit(data, pos)) == 2 * code + padded_bit(data, pos),
{
    let bit = padded_bit(data, pos);
    shift_is_double(code, bit);
    lemma_pow2_unfold(r);
    let p = pow2((r - 1) as nat) as int;
    let c = code as int;
    let b = bit as int;
    assert(c * (2 * p) + b * p == (2 * c + b) * p) by (nonlinear_arith);
}

proof fn widening_carries(data: Seq<u8>, c: CoderState, v: nat, r: nat)
    requires
        1 <= c.range <= ONE,
        c.code < c.range,
        carries(data, c.pos, c.code, v, r),
        doublings(c.range) <= r,
    ensures
        widened(data, c).range == c.range * pow2(doublings(c.range)),
        carries(data, widened(data, c).pos, widened(data, c).code, v, (r - doublings(c.range)) as nat),
    decreases ONE - c.range,
{
    lemma2_to64();
    if c.range > HALF {
        assert(c.range * pow2(0) == c.range) by (nonlinear_arith)
            requires pow2(0) == 1;
    } else {
        carrying_on(data, c.pos, c.code, v, r);
        let next = CoderState {
            pos: padded_next(data, c.pos),
            range: 2 * c.range,
            code: (c.code << 1u32) | padded_bit(data, c.pos),
        };
        widening_carries(data, next, v, (r - 1) as nat);
        let d = doublings(2 * c.range);
        lemma_pow2_unfold(d + 1);
        let p = pow2(d) as int;
        let x = c.range;
        assert((2 * x) * p == x * (2 * p)) by (nonlinear_arith);
    }
}

/// A target within the share of a symbol, or beyond that of the last, picks it.
proof fn target_picks_symbol(m: Told, target: u32, i: int)
    requires
        0 <= i <= m.n < m.freqs.len(),
        m.low() <= target,
        m.n < m.freqs.len() - 1 ==> target < m.low() + m.freqs[m.n],
    ensures
        picked(m.freqs, target, i, sum(m.freqs.subrange(0, i))) == (m.n, m.low()),
    decreases m.n - i,
{
    if i < m.n {
        sum_prefix(m.freqs, i);
        prefix_sums_rise(m.freqs, i + 1, m.n);
        target_picks_symbol(m, target, i + 1);
    }
}

proof fn prefix_sums_rise(freqs: Seq<u32>, i: int, n: int)
    requires
        0 <= i <= n <= freqs.len(),
    ensures
        sum(freqs.subrange(0, i)) <= sum(freqs.subrange(0, n)),
    decreases n - i,
{
    if i < n {
        sum_prefix(freqs, i);
        prefix_sums_rise(freqs, i + 1, n);
    }
}

/// Only the last symbol's share ends at the total.
proof fn last_share_ends(m: Told)
    requires
        0 <= m.n < m.freqs.len(),
        forall|i: int| 0 <= i < m.freqs.len() ==> 1 <= #[trigger] m.freqs[i],
    ensures
        (m.low() + m.freqs[m.n] == m.total()) == (m.n == m.freqs.len() - 1),
{
    sum_prefix(m.freqs, m.n);
    if m.n < m.freqs.len() - 1 {
        sum_prefix(m.freqs, m.n + 1);
        assert(1 <= m.freqs[m.n + 1]);
        sum_prefix_bound(m.freqs, m.n + 2);
    } else {
        assert(m.freqs.subrange(0, m.freqs.len() as int) =~= m.freqs);
    }
}

proof fn told_is_read_from(data: Seq<u8>, c: CoderState, ms: Seq<Told>)
    requires
        1 <= c.range <= ONE,
        all_fit(c.range, ms),
        carries(data, c.pos, c.code, number_for(c.range, ms).0, number_for(c.range, ms).1),
    ensures
        reads(data, c, ms),
    decreases ms.len(),
{
    if ms.len() > 0 {
        let m = ms[0];
        let (v, k) = number_for(c.range, ms);
        let start = m.start(c.range);
        let width = m.width(c.range);
        part_is_inside(c.range, m);
        number_fits(c.range, ms);
        bits_are_small(data, c.pos, k);
        lemma_pow2_pos(k);
        let p = pow2(k) as int;
        let code = c.code as int;
        let x = bits_number(data, c.pos, k) as int;
        assert(start <= code < start + width) by (nonlinear_arith)
            requires start * p <= code * p + x < (start + width) * p, 0 <= x < p, p >= 1;
        let unit = c.range / m.total();
        let low = m.low();
        let size = m.freqs[m.n] as int;
        let target = code / unit;
        last_share_ends(m);
        assert(low <= target) by (nonlinear_arith)
            requires unit >= 1, unit * low <= code, target == code / unit;
        assert(target <= code) by (nonlinear_arith)
            requires unit >= 1, code >= 0, target == code / unit;
        if m.n < m.freqs.len() - 1 {
            let hi = low + size;
            assert(target < hi) by (nonlinear_arith)
                requires unit >= 1, code < unit * hi, target == code / unit;
        }
        assert(m.freqs.subrange(0, 0) =~= Seq::<u32>::empty());
        target_picks_symbol(m, target as u32, 0);
        let t = CoderState { pos: c.pos, range: width, code: (code - start) as u32 };
        let v1 = (v - start * p) as nat;
        assert((code - start) * p == code * p - start * p) by (nonlinear_arith);
        widening_carries(data, t, v1, k);
        doubling_bounds(width);
        assert(c.code.wrapping_sub((unit * low) as u32) == code - start);
        assert(narrowed(data, c, low, size, m.total()) == widened(data, t));
        told_is_read_from(data, widened(data, t), ms.drop_first());
    }
}

proof fn start_carries(data: Seq<u8>, pos: int, n: nat, code: u32, v: nat, r: nat)
    requires
        carries(data, pos, code, v, r + n),
        code < pow2((26 - n) as nat),
        n <= 26,
    ensures
        ({
            let (c, p) = code_from(data, pos, n, code);
            carries(data, p, c, v, r)
        }),
    decreases n,
{
    lemma2_to64();
    if n > 0 {
        lemma_pow2_unfold((27 - n) as nat);
        vstd::arithmetic::power2::lemma_pow2_strictly_increases((26 - n) as nat, 26);
        carrying_on(data, pos, code, v, r + n);
        start_carries(
            data,
            padded_next(data, pos),
            (n - 1) as nat,
            (code << 1u32) | padded_bit(data, pos),
            v,
            r,
        );
    }
}

/// Where the bits of `data` are those of the number that stands for some symbols,
/// the decoder reads the symbols, as long as the interval never gets too narrow for
/// them.
pub proof fn told_symbols_are_read(data: Seq<u8>, ms: Seq<Told>)
    requires
        all_fit(ONE as int, ms),
        8 * data.len() >= NUM_BITS + number_for(ONE as int, ms).1,
        bits_number(data, 0, NUM_BITS as nat + number_for(ONE as int, ms).1) == number_for(ONE as int, ms).0,
    ensures
        reads(data, coder_start(data), ms),
{
    let (v, r) = number_for(ONE as int, ms);
    lemma2_to64();
    assert(0 * pow2(r + 26) == 0) by (nonlinear_arith);
    assert(r + 26 == 26 + r);
    start_carries(data, 0, 26, 0, v, r);
    told_is_read_from(data, coder_start(data), ms);
}

} // verus!
