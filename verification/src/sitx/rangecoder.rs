use vstd::prelude::*;
use vstd::arithmetic::div_mod::{lemma_fundamental_div_mod, lemma_fundamental_div_mod_converse};

verus! {

// A carryless range decoder. It keeps an interval `low..low + range` of the 32-bit
// numbers and a number `code` within it. Decoding a symbol narrows the interval to
// the symbol's share; then bytes on which all of the interval agrees are shifted
// out, and an interval that has become too narrow across such a boundary is cut
// off at it.

/// The two forms of the decoder: whether `low` moves or is kept at zero, and how
/// narrow an interval may become.
#[derive(Clone, Copy, PartialEq, Eq, Structural)]
pub struct Kind {
    pub uselow: bool,
    pub bottom: u32,
}

/// The decoder between two symbols; `pos` counts the bytes taken, also past the
/// end of the input.
#[derive(Clone, Copy, PartialEq, Eq, Structural)]
pub struct RangeState {
    pub pos: u64,
    pub low: u32,
    pub code: u32,
    pub range: u32,
}

/// The bound is none or a power of two that lies below the units by which the interval
/// is shifted. With any other the interval could leave the numbers or become empty, and
/// normalizing would not end.
pub open spec fn kind_ok(k: Kind) -> bool {
    k.bottom == 0 || 0x80_0000int % (k.bottom as int) == 0
}

/// The interval is not empty and stays within the numbers.
pub open spec fn interval_ok(s: RangeState) -> bool {
    &&& s.range >= 1
    &&& s.low + s.range <= 0x1_0000_0000
    &&& s.low + s.range == 0x1_0000_0000 ==> s.low >= 0x100_0000
}

/// The ends of the interval do not agree on the top byte.
pub open spec fn top_differs(s: RangeState) -> bool {
    s.low / 0x100_0000 != s.low.wrapping_add(s.range) / 0x100_0000
}

/// The interval needs no shifting.
pub open spec fn settled(s: RangeState, k: Kind) -> bool {
    &&& interval_ok(s)
    &&& top_differs(s)
    &&& s.range >= k.bottom
    &&& !k.uselow ==> s.low == 0
}

/// The byte at `pos`, zero past the end.
pub open spec fn input_byte(input: Seq<u8>, pos: u64) -> u8 {
    if pos < input.len() {
        input[pos as int]
    } else {
        0
    }
}

pub open spec fn next_pos(pos: u64) -> u64 {
    if pos < u64::MAX {
        (pos + 1) as u64
    } else {
        pos
    }
}

/// One byte shifted out and another shifted in.
pub open spec fn shifted(input: Seq<u8>, s: RangeState) -> RangeState {
    RangeState {
        pos: next_pos(s.pos),
        low: s.low << 8u32,
        code: (s.code << 8u32) | (input_byte(input, s.pos) as u32),
        range: s.range << 8u32,
    }
}

/// The interval cut off at the next multiple of `bottom`.
pub open spec fn cut(s: RangeState, bottom: u32) -> RangeState {
    let rem = s.low as int % bottom as int;
    RangeState {
        range: if rem == 0 {
            0
        } else {
            (bottom - rem) as u32
        },
        ..s
    }
}

/// Shift and cut, at most `steps` times, until the interval is wide enough.
pub open spec fn normalized(input: Seq<u8>, s: RangeState, k: Kind, steps: nat) -> RangeState
    decreases steps,
{
    if steps == 0 {
        s
    } else if !top_differs(s) {
        normalized(input, shifted(input, s), k, (steps - 1) as nat)
    } else if s.range >= k.bottom {
        s
    } else {
        normalized(input, shifted(input, cut(s, k.bottom)), k, (steps - 1) as nat)
    }
}

/// The interval narrowed to the share `lo..hi` of `scale`.
pub open spec fn narrowed(input: Seq<u8>, s: RangeState, k: Kind, lo: int, hi: int, scale: int) -> RangeState {
    let unit = s.range as int / scale;
    normalized(
        input,
        RangeState {
            pos: s.pos,
            low: if k.uselow {
                (s.low + unit * lo) as u32
            } else {
                s.low
            },
            code: if k.uselow {
                s.code
            } else {
                s.code.wrapping_sub((unit * lo) as u32)
            },
            range: (unit * (hi - lo)) as u32,
        },
        k,
        8,
    )
}

/// Which of `scale` equal shares holds the code; there may be as many more as the
/// code lies beyond the interval.
pub open spec fn count_of(s: RangeState, scale: int) -> int {
    s.code.wrapping_sub(s.low) as int / (s.range as int / scale)
}

/// The sum of the first `n` frequencies.
pub open spec fn freq_sum(freqs: Seq<u32>, n: int) -> int
    decreases n,
{
    if n <= 0 {
        0
    } else {
        freq_sum(freqs, n - 1) + freqs[n - 1]
    }
}

/// The first symbol, from `n` on, whose share ends beyond `count`; the last symbol
/// takes what lies beyond all shares.
pub open spec fn symbol_of(freqs: Seq<u32>, count: int, n: int) -> int
    decreases freqs.len() - n,
{
    if n >= freqs.len() - 1 || freq_sum(freqs, n + 1) > count {
        n
    } else {
        symbol_of(freqs, count, n + 1)
    }
}

/// The next symbol under the given frequencies. There is none if the interval is
/// narrower than their sum or the symbol's frequency is 0.
pub open spec fn symbol_next(input: Seq<u8>, s: RangeState, k: Kind, freqs: Seq<u32>) -> Option<(int, RangeState)> {
    let total = freq_sum(freqs, freqs.len() as int);
    if freqs.len() == 0 || total == 0 || total > s.range {
        None
    } else {
        let n = symbol_of(freqs, count_of(s, total), 0);
        if freqs[n] == 0 {
            None
        } else {
            Some((n, narrowed(input, s, k, freq_sum(freqs, n), freq_sum(freqs, n + 1), total)))
        }
    }
}

/// The next bit, both values being equally likely; the value may be above 1 if the
/// code lies beyond the interval.
pub open spec fn bit_next(input: Seq<u8>, s: RangeState, k: Kind) -> Option<(u32, RangeState)> {
    if s.range < 2 {
        None
    } else {
        let bit = count_of(s, 2);
        if bit == 0 {
            Some((0u32, narrowed(input, s, k, 0, 1, 2)))
        } else {
            Some((bit as u32, narrowed(input, s, k, 1, 2, 2)))
        }
    }
}

/// The low 32 bits of a product.
pub open spec fn product(a: u32, b: u32) -> u32 {
    ((a * b) % 0x1_0000_0000) as u32
}

/// The next bit, 0 having the share `weight` of `size`. A share of more than all widens
/// the interval; there is no bit if it would become empty or leave the numbers.
pub open spec fn weighted_next(input: Seq<u8>, s: RangeState, k: Kind, weight: u32, size: u32) -> Option<
    (u32, RangeState),
> {
    if size == 0 || size > s.range {
        None
    } else if count_of(s, size as int) < weight {
        let wide = RangeState { range: product(s.range / size, weight), ..s };
        if weight <= size {
            Some((0u32, narrowed(input, s, k, 0, weight as int, size as int)))
        } else if interval_ok(wide) {
            Some((0u32, normalized(input, wide, k, 8)))
        } else {
            None
        }
    } else if weight >= size {
        None
    } else {
        Some((1u32, narrowed(input, s, k, weight as int, size as int, size as int)))
    }
}

/// The interval of the next bit, 0 having the share `weight` of 2 to the `shift`; the
/// code is compared as it is.
pub open spec fn weighted2_part(s: RangeState, weight: u32, shift: u32) -> (u32, RangeState) {
    let threshold = product(s.range >> shift, weight);
    if s.code < threshold {
        (0u32, RangeState { range: threshold, ..s })
    } else {
        (
            1u32,
            RangeState { range: s.range.wrapping_sub(threshold), code: s.code.wrapping_sub(threshold), ..s },
        )
    }
}

/// The next bit and the decoder after it.
pub open spec fn weighted2_next(input: Seq<u8>, s: RangeState, k: Kind, weight: u32, shift: u32) -> (u32, RangeState) {
    let (bit, part) = weighted2_part(s, weight, shift);
    (bit, normalized(input, part, k, 8))
}

/// A weight after a bit: it moves by a part of its distance from the bound that
/// the bit stands for.
pub open spec fn adapted(weight: u32, bit: u32, shift: u32) -> u32 {
    if bit == 0 {
        (weight + ((0x1000 - weight) as u32 >> shift)) as u32
    } else {
        (weight - (weight >> shift)) as u32
    }
}

/// The decoder before the first symbol.
pub open spec fn range_start(input: Seq<u8>) -> RangeState {
    let s0 = RangeState { pos: 0, low: 0, code: 0, range: 0xffff_ffff };
    let s4 = shifted(input, shifted(input, shifted(input, shifted(input, s0))));
    RangeState { pos: s4.pos, low: 0, code: s4.code, range: 0xffff_ffff }
}

// === normalizing ends =========================================================

proof fn top_byte_of_xor(a: u32, b: u32)
    by (bit_vector)
    ensures
        (a ^ b) >= 0x100_0000u32 <==> a / 0x100_0000u32 != b / 0x100_0000u32,
{
}

pub(crate) proof fn shift_is_product(a: u32)
    by (bit_vector)
    ensures
        a < 0x100_0000u32 ==> (a << 8u32) == a * 0x100,
        (a << 8u32) == (a % 0x100_0000u32) * 0x100,
{
}

/// How many more steps normalizing may take.
pub(crate) open spec fn steps_left(s: RangeState) -> nat {
    (if s.low + s.range < 0x1_0000_0000 {
        4nat
    } else {
        0nat
    }) + (if s.range >= 0x100_0000 {
        0nat
    } else if s.range >= 0x1_0000 {
        1nat
    } else if s.range >= 0x100 {
        2nat
    } else {
        3nat
    })
}

#[verifier::spinoff_prover]
pub(crate) proof fn shift_step(input: Seq<u8>, s: RangeState)
    requires
        interval_ok(s),
        !top_differs(s),
    ensures
        interval_ok(shifted(input, s)),
        steps_left(shifted(input, s)) < steps_left(s),
        shifted(input, s).low == 0x100 * (s.low % 0x100_0000),
        shifted(input, s).range == 0x100 * s.range,
        s.low == 0 ==> shifted(input, s).low == 0,
{
    shift_is_product(s.low);
    shift_is_product(s.range);
    let top = s.low / 0x100_0000;
    let low24 = s.low % 0x100_0000;
    assert(s.low == 0x100_0000 * top + low24);
    assert(s.low + s.range < 0x1_0000_0000);
    assert(s.low.wrapping_add(s.range) == s.low + s.range);
    assert((s.low + s.range) / 0x100_0000 == top);
    assert(low24 + s.range < 0x100_0000);
}

#[verifier::spinoff_prover]
pub(crate) proof fn cut_step(input: Seq<u8>, s: RangeState, bottom: u32)
    requires
        interval_ok(s),
        top_differs(s),
        bottom > 0,
        0x80_0000int % (bottom as int) == 0,
        s.range < bottom,
    ensures
        interval_ok(shifted(input, cut(s, bottom))),
        steps_left(shifted(input, cut(s, bottom))) < steps_left(s),
        1 <= cut(s, bottom).range <= s.range,
        shifted(input, cut(s, bottom)).low == 0x100 * (s.low % 0x100_0000),
        shifted(input, cut(s, bottom)).range == 0x100 * cut(s, bottom).range,
        s.low != 0,
{
    let top = s.low / 0x100_0000;
    let low24 = s.low % 0x100_0000;
    let m = 0x100_0000 * (top + 1);
    assert(s.low == 0x100_0000 * top + low24);
    assert(m <= s.low + s.range) by {
        if s.low + s.range < m {
            assert((s.low + s.range) / 0x100_0000 == top);
            assert(s.low.wrapping_add(s.range) == s.low + s.range);
        }
    }
    let dist = m - s.low;
    assert(1 <= dist <= s.range);
    let c = cut(s, bottom);
    let b = bottom as int;
    let n = 0x80_0000int / b;
    lemma_fundamental_div_mod(0x80_0000, b);
    assert(b <= 0x80_0000) by (nonlinear_arith)
        requires 0x80_0000 == b * n, b > 0;
    assert(s.low as int % b == b - dist) by {
        let k = 2 * n * (top + 1) - 1;
        assert(s.low == b * k + (b - dist)) by (nonlinear_arith)
            requires s.low == 0x100_0000 * (top + 1) - dist, 0x80_0000 == b * n, k == 2 * n * (top + 1) - 1;
        lemma_fundamental_div_mod_converse(s.low as int, b, k, b - dist);
    }
    assert(c.range == dist);
    shift_is_product(s.low);
    shift_is_product(c.range);
    let t = shifted(input, c);
    assert(t.range == 0x100 * dist);
    assert(low24 == 0x100_0000 - dist);
    assert(t.low == 0x100 * low24);
    if s.low + s.range == 0x1_0000_0000 {
        assert(dist == s.range);
    }
}

// === the decoder ==============================================================

/// The executable decoder.
pub struct RangeCoder<'a> {
    input: &'a [u8],
    s: RangeState,
    kind: Kind,
}

impl<'a> RangeCoder<'a> {
    pub closed spec fn input(&self) -> Seq<u8> {
        self.input@
    }

    pub closed spec fn state(&self) -> RangeState {
        self.s
    }

    pub closed spec fn kind(&self) -> Kind {
        self.kind
    }

    pub open spec fn wf(&self) -> bool {
        kind_ok(self.kind()) && settled(self.state(), self.kind())
    }

    /// Start decoding: the first four bytes are the code.
    pub fn new(input: &'a [u8], uselow: bool, bottom: u32) -> (r: Self)
        requires
            kind_ok(Kind { uselow, bottom }),
        ensures
            r.wf(),
            r.input() == input@,
            r.kind() == (Kind { uselow, bottom }),
            r.state() == range_start(input@),
    {
        let mut coder = RangeCoder {
            input,
            s: RangeState { pos: 0, low: 0, code: 0, range: 0xffff_ffff },
            kind: Kind { uselow, bottom },
        };
        coder.shift();
        coder.shift();
        coder.shift();
        coder.shift();
        coder.s.low = 0;
        coder.s.range = 0xffff_ffff;
        coder
    }

    /// How many bytes have been taken.
    pub fn position(&self) -> (r: u64)
        ensures
            r == self.state().pos,
    {
        self.s.pos
    }

    /// The number within the interval.
    pub fn code(&self) -> (r: u32)
        ensures
            r == self.state().code,
    {
        self.s.code
    }

    /// The width of the interval.
    pub fn width(&self) -> (r: u32)
        ensures
            r == self.state().range,
    {
        self.s.range
    }

    /// Shift one byte out and another in.
    fn shift(&mut self)
        ensures
            final(self).s == shifted(old(self).input@, old(self).s),
            final(self).input == old(self).input,
            final(self).kind == old(self).kind,
    {
        let b: u8 = if self.s.pos < self.input.len() as u64 {
            self.input[self.s.pos as usize]
        } else {
            0
        };
        if self.s.pos < u64::MAX {
            self.s.pos = self.s.pos + 1;
        }
        self.s.code = (self.s.code << 8) | (b as u32);
        self.s.low = self.s.low << 8;
        self.s.range = self.s.range << 8;
    }

    /// Shift and cut until the interval is wide enough.
    fn normalize(&mut self)
        requires
            kind_ok(old(self).kind),
            interval_ok(old(self).s),
            !old(self).kind.uselow ==> old(self).s.low == 0,
        ensures
            final(self).s == normalized(old(self).input@, old(self).s, old(self).kind, 8),
            final(self).input == old(self).input,
            final(self).kind == old(self).kind,
            settled(final(self).s, final(self).kind),
    {
        let ghost mut steps: nat = 8;
        loop
            invariant
                kind_ok(self.kind),
                interval_ok(self.s),
                !self.kind.uselow ==> self.s.low == 0,
                self.input == old(self).input,
                self.kind == old(self).kind,
                steps_left(self.s) < steps,
                normalized(self.input@, self.s, self.kind, steps) == normalized(
                    old(self).input@,
                    old(self).s,
                    old(self).kind,
                    8,
                ),
            decreases steps_left(self.s),
        {
            proof {
                top_byte_of_xor(self.s.low, self.s.low.wrapping_add(self.s.range));
            }
            if (self.s.low ^ self.s.low.wrapping_add(self.s.range)) >= 0x100_0000 {
                if self.s.range >= self.kind.bottom {
                    return;
                }
                proof {
                    cut_step(self.input@, self.s, self.kind.bottom);
                }
                let rem: u32 = self.s.low % self.kind.bottom;
                self.s.range = if rem == 0 {
                    0
                } else {
                    self.kind.bottom - rem
                };
            } else {
                proof {
                    shift_step(self.input@, self.s);
                }
            }
            self.shift();
            proof {
                steps = (steps - 1) as nat;
            }
        }
    }

    /// Narrow the interval to the share `lo..hi` of `scale`, of which one has `unit`.
    fn remove_subrange(&mut self, unit: u32, lo: u32, hi: u32, scale: u32)
        requires
            old(self).wf(),
            1 <= scale <= old(self).s.range,
            unit == old(self).s.range as int / scale as int,
            lo < hi <= scale,
        ensures
            final(self).wf(),
            final(self).input() == old(self).input(),
            final(self).kind() == old(self).kind(),
            final(self).state() == narrowed(
                old(self).input(),
                old(self).state(),
                old(self).kind(),
                lo as int,
                hi as int,
                scale as int,
            ),
    {
        proof {
            let range = self.s.range as int;
            lemma_fundamental_div_mod(range, scale as int);
            assert(unit >= 1) by (nonlinear_arith)
                requires unit == range / scale as int, 1 <= scale <= range;
            assert(unit * lo + unit * (hi - lo) == unit * hi) by (nonlinear_arith);
            assert(unit * hi <= unit * scale) by (nonlinear_arith)
                requires hi <= scale, unit >= 1;
            assert(unit * scale <= range) by (nonlinear_arith)
                requires unit == range / scale as int, 1 <= scale, range >= 0;
            assert(unit * lo >= 0) by (nonlinear_arith)
                requires unit >= 1, lo >= 0;
            assert(unit * (hi - lo) >= 1) by (nonlinear_arith)
                requires unit >= 1, hi > lo;
        }
        if self.kind.uselow {
            self.s.low = self.s.low + unit * lo;
        } else {
            self.s.code = self.s.code.wrapping_sub(unit * lo);
        }
        self.s.range = unit * (hi - lo);
        self.normalize();
    }

    /// Which of `scale` equal shares holds the code; `None` if the interval is
    /// narrower than that.
    pub fn current_count(&self, scale: u32) -> (r: Option<u32>)
        requires
            self.wf(),
        ensures
            match r {
                Some(n) => 1 <= scale <= self.state().range && n == count_of(self.state(), scale as int),
                None => scale == 0 || scale > self.state().range,
            },
    {
        if scale == 0 || scale > self.s.range {
            return None;
        }
        let unit: u32 = self.s.range / scale;
        proof {
            let range = self.s.range as int;
            assert(unit >= 1) by (nonlinear_arith)
                requires unit == range / scale as int, 1 <= scale <= range;
        }
        Some(self.s.code.wrapping_sub(self.s.low) / unit)
    }

    /// Narrow the interval to the share `lo..hi` of `scale`; `false` if there is no
    /// such share.
    pub fn narrow(&mut self, lo: u32, hi: u32, scale: u32) -> (r: bool)
        requires
            old(self).wf(),
        ensures
            final(self).wf(),
            final(self).input() == old(self).input(),
            final(self).kind() == old(self).kind(),
            r == (lo < hi <= scale <= old(self).state().range),
            final(self).state() == (if r {
                narrowed(
                    old(self).input(),
                    old(self).state(),
                    old(self).kind(),
                    lo as int,
                    hi as int,
                    scale as int,
                )
            } else {
                old(self).state()
            }),
    {
        if !(lo < hi && hi <= scale && scale <= self.s.range) {
            return false;
        }
        let unit: u32 = self.s.range / scale;
        self.remove_subrange(unit, lo, hi, scale);
        true
    }

    /// Decode one symbol under the given frequencies.
    pub fn next_symbol(&mut self, freqs: &[u32]) -> (r: Option<usize>)
        requires
            old(self).wf(),
        ensures
            final(self).input() == old(self).input(),
            final(self).kind() == old(self).kind(),
            match r {
                Some(n) => {
                    &&& final(self).wf()
                    &&& n < freqs@.len()
                    &&& symbol_next(old(self).input(), old(self).state(), old(self).kind(), freqs@) == Some(
                        (n as int, final(self).state()),
                    )
                },
                None => {
                    &&& final(self).state() == old(self).state()
                    &&& symbol_next(old(self).input(), old(self).state(), old(self).kind(), freqs@) is None
                },
            },
    {
        if freqs.len() == 0 {
            return None;
        }
        let mut total: u128 = 0;
        let mut i: usize = 0;
        while i < freqs.len()
            invariant
                i <= freqs@.len(),
                total == freq_sum(freqs@, i as int),
                total <= 0xffff_ffff * i,
            decreases freqs@.len() - i,
        {
            total = total + freqs[i] as u128;
            i = i + 1;
        }
        if total == 0 || total > self.s.range as u128 {
            return None;
        }
        let scale: u32 = total as u32;
        let unit: u32 = self.s.range / scale;
        proof {
            let range = self.s.range as int;
            assert(unit >= 1) by (nonlinear_arith)
                requires unit == range / scale as int, 1 <= scale <= range;
        }
        let count: u32 = self.s.code.wrapping_sub(self.s.low) / unit;
        let mut n: usize = 0;
        let mut low: u32 = 0;
        proof {
            freq_sum_mono(freqs@, 1, freqs@.len() as int);
        }
        while n < freqs.len() - 1 && low + freqs[n] <= count
            invariant
                n < freqs@.len(),
                low == freq_sum(freqs@, n as int),
                freq_sum(freqs@, n + 1) <= scale,
                scale == freq_sum(freqs@, freqs@.len() as int),
                symbol_of(freqs@, count as int, n as int) == symbol_of(freqs@, count as int, 0),
            decreases freqs@.len() - n,
        {
            low = low + freqs[n];
            n = n + 1;
            proof {
                freq_sum_mono(freqs@, n + 1, freqs@.len() as int);
            }
        }
        if freqs[n] == 0 {
            return None;
        }
        self.remove_subrange(unit, low, low + freqs[n], scale);
        Some(n)
    }

    /// Decode one bit, both values being equally likely.
    pub fn next_bit(&mut self) -> (r: Option<u32>)
        requires
            old(self).wf(),
        ensures
            final(self).input() == old(self).input(),
            final(self).kind() == old(self).kind(),
            match r {
                Some(b) => {
                    &&& final(self).wf()
                    &&& bit_next(old(self).input(), old(self).state(), old(self).kind()) == Some(
                        (b, final(self).state()),
                    )
                },
                None => {
                    &&& final(self).state() == old(self).state()
                    &&& bit_next(old(self).input(), old(self).state(), old(self).kind()) is None
                },
            },
    {
        if self.s.range < 2 {
            return None;
        }
        let unit: u32 = self.s.range / 2;
        let bit: u32 = self.s.code.wrapping_sub(self.s.low) / unit;
        if bit == 0 {
            self.remove_subrange(unit, 0, 1, 2);
        } else {
            self.remove_subrange(unit, 1, 2, 2);
        }
        Some(bit)
    }

    /// Decode one bit, 0 having the share `weight` of `size`.
    pub fn next_weighted_bit(&mut self, weight: u32, size: u32) -> (r: Option<u32>)
        requires
            old(self).wf(),
        ensures
            final(self).input() == old(self).input(),
            final(self).kind() == old(self).kind(),
            match r {
                Some(b) => {
                    &&& final(self).wf()
                    &&& b <= 1
                    &&& weighted_next(old(self).input(), old(self).state(), old(self).kind(), weight, size) == Some(
                        (b, final(self).state()),
                    )
                },
                None => {
                    &&& final(self).state() == old(self).state()
                    &&& weighted_next(old(self).input(), old(self).state(), old(self).kind(), weight, size) is None
                },
            },
    {
        if size == 0 || size > self.s.range {
            return None;
        }
        let unit: u32 = self.s.range / size;
        proof {
            let range = self.s.range as int;
            assert(unit >= 1) by (nonlinear_arith)
                requires unit == range / size as int, 1 <= size <= range;
        }
        let val: u32 = self.s.code.wrapping_sub(self.s.low) / unit;
        if val < weight {
            if weight > size {
                let wide: u32 = unit.wrapping_mul(weight);
                let end: u64 = self.s.low as u64 + wide as u64;
                if wide == 0 || end > 0x1_0000_0000 || (end == 0x1_0000_0000 && self.s.low < 0x100_0000) {
                    return None;
                }
                self.s.range = wide;
                self.normalize();
            } else {
                self.remove_subrange(unit, 0, weight, size);
            }
            Some(0)
        } else {
            if weight >= size {
                return None;
            }
            self.remove_subrange(unit, weight, size, size);
            Some(1)
        }
    }

    /// Decode one bit, 0 having the share `weight` of 2 to the `shift`. A share of less
    /// than all always leaves an interval (`share_leaves_room`).
    pub fn next_weighted_bit2(&mut self, weight: u32, shift: u32) -> (r: u32)
        requires
            old(self).wf(),
            shift < 32,
            interval_ok(weighted2_part(old(self).state(), weight, shift).1),
        ensures
            final(self).wf(),
            final(self).input() == old(self).input(),
            final(self).kind() == old(self).kind(),
            r <= 1,
            (r, final(self).state()) == weighted2_next(
                old(self).input(),
                old(self).state(),
                old(self).kind(),
                weight,
                shift,
            ),
    {
        let threshold: u32 = (self.s.range >> shift).wrapping_mul(weight);
        if self.s.code < threshold {
            self.s.range = threshold;
            self.normalize();
            0
        } else {
            self.s.range = self.s.range.wrapping_sub(threshold);
            self.s.code = self.s.code.wrapping_sub(threshold);
            self.normalize();
            1
        }
    }

    /// Decode one bit with a weight out of 0x1000, which adapts by a 32nd of its
    /// distance from the bound.
    pub fn next_bit_with_weight2(&mut self, weight: &mut u32) -> (r: u32)
        requires
            old(self).wf(),
            *old(weight) < 0x1000,
        ensures
            final(self).wf(),
            final(self).input() == old(self).input(),
            final(self).kind() == old(self).kind(),
            r <= 1,
            (r, final(self).state()) == weighted2_next(
                old(self).input(),
                old(self).state(),
                old(self).kind(),
                *old(weight),
                12,
            ),
            *final(weight) == adapted(*old(weight), r, 5),
            *final(weight) < 0x1000,
    {
        proof {
            adapting_stays_below(*weight, 5);
        }
        assert((1u32 << 12u32) == 0x1000u32) by (bit_vector);
        proof {
            share_leaves_room(self.s, *weight, 12);
        }
        let bit: u32 = self.next_weighted_bit2(*weight, 12);
        if bit == 0 {
            *weight = *weight + ((0x1000 - *weight) >> 5);
        } else {
            *weight = *weight - (*weight >> 5);
        }
        bit
    }

    /// Decode one bit with a weight out of 0x1000, which adapts by a part of its
    /// distance from the bound.
    pub fn next_bit_with_weight(&mut self, weight: &mut u32, shift: u32) -> (r: Option<u32>)
        requires
            old(self).wf(),
            *old(weight) <= 0x1000,
            shift < 32,
        ensures
            final(self).input() == old(self).input(),
            final(self).kind() == old(self).kind(),
            *final(weight) <= 0x1000,
            match r {
                Some(b) => {
                    &&& final(self).wf()
                    &&& b <= 1
                    &&& weighted_next(old(self).input(), old(self).state(), old(self).kind(), *old(weight), 0x1000) == Some(
                        (b, final(self).state()),
                    )
                    &&& *final(weight) == adapted(*old(weight), b, shift)
                },
                None => {
                    &&& final(self).state() == old(self).state()
                    &&& *final(weight) == *old(weight)
                    &&& weighted_next(old(self).input(), old(self).state(), old(self).kind(), *old(weight), 0x1000) is None
                },
            },
    {
        proof {
            adapting_stays_in_range(*weight, shift);
        }
        let bit: u32 = match self.next_weighted_bit(*weight, 0x1000) {
            Some(b) => b,
            None => {
                return None;
            },
        };
        if bit == 0 {
            *weight = *weight + ((0x1000 - *weight) >> shift);
        } else {
            *weight = *weight - (*weight >> shift);
        }
        Some(bit)
    }

    /// Decode one bit with the mean of two weights, each of which adapts.
    pub fn next_bit_with_double_weights(
        &mut self,
        weight1: &mut u32,
        shift1: u32,
        weight2: &mut u32,
        shift2: u32,
    ) -> (r: Option<u32>)
        requires
            old(self).wf(),
            *old(weight1) <= 0x1000,
            *old(weight2) <= 0x1000,
            shift1 < 32,
            shift2 < 32,
        ensures
            final(self).input() == old(self).input(),
            final(self).kind() == old(self).kind(),
            *final(weight1) <= 0x1000,
            *final(weight2) <= 0x1000,
            match r {
                Some(b) => {
                    &&& final(self).wf()
                    &&& b <= 1
                    &&& weighted_next(
                        old(self).input(),
                        old(self).state(),
                        old(self).kind(),
                        ((*old(weight1) + *old(weight2)) / 2) as u32,
                        0x1000,
                    ) == Some((b, final(self).state()))
                    &&& *final(weight1) == adapted(*old(weight1), b, shift1)
                    &&& *final(weight2) == adapted(*old(weight2), b, shift2)
                },
                None => {
                    &&& final(self).state() == old(self).state()
                    &&& *final(weight1) == *old(weight1)
                    &&& *final(weight2) == *old(weight2)
                    &&& weighted_next(
                        old(self).input(),
                        old(self).state(),
                        old(self).kind(),
                        ((*old(weight1) + *old(weight2)) / 2) as u32,
                        0x1000,
                    ) is None
                },
            },
    {
        proof {
            adapting_stays_in_range(*weight1, shift1);
            adapting_stays_in_range(*weight2, shift2);
        }
        let mean: u32 = (*weight1 + *weight2) / 2;
        let bit: u32 = match self.next_weighted_bit(mean, 0x1000) {
            Some(b) => b,
            None => {
                return None;
            },
        };
        if bit == 0 {
            *weight1 = *weight1 + ((0x1000 - *weight1) >> shift1);
            *weight2 = *weight2 + ((0x1000 - *weight2) >> shift2);
        } else {
            *weight1 = *weight1 - (*weight1 >> shift1);
            *weight2 = *weight2 - (*weight2 >> shift2);
        }
        Some(bit)
    }
}

proof fn freq_sum_mono(freqs: Seq<u32>, a: int, b: int)
    requires
        a <= b,
    ensures
        0 <= freq_sum(freqs, a) <= freq_sum(freqs, b),
    decreases b,
{
    if b > 0 {
        if a < b {
            freq_sum_mono(freqs, a, b - 1);
        } else {
            freq_sum_mono(freqs, a - 1, b - 1);
        }
    }
}

/// A share below 1 of the interval is narrower than the interval.
pub(crate) proof fn share_is_smaller(range: u32, weight: u32, shift: u32)
    requires
        range >= 1,
        shift < 32,
        weight < (1u32 << shift),
    ensures
        0 <= (range >> shift) * weight < range,
{
    let u = range >> shift;
    let w = 1u32 << shift;
    assert(u as u64 * w as u64 <= range as u64) by (bit_vector)
        requires u == range >> shift, w == 1u32 << shift, shift < 32;
    assert(u * w <= range);
    if u == 0 {
        assert(u * weight == 0) by (nonlinear_arith) requires u == 0;
    } else {
        assert(u * weight < u * w) by (nonlinear_arith)
            requires weight < w, u > 0;
        assert(u * weight >= 0) by (nonlinear_arith)
            requires weight >= 0, u > 0;
    }
}

/// A share of less than all leaves an interval for either bit.
pub proof fn share_leaves_room(s: RangeState, weight: u32, shift: u32)
    requires
        interval_ok(s),
        shift < 32,
        weight < (1u32 << shift),
    ensures
        interval_ok(weighted2_part(s, weight, shift).1),
        product(s.range >> shift, weight) == (s.range >> shift) * weight,
        product(s.range >> shift, weight) < s.range,
{
    share_is_smaller(s.range, weight, shift);
}

proof fn adapting_stays_below(w: u32, shift: u32)
    by (bit_vector)
    requires
        w < 0x1000u32,
        1u32 <= shift < 32u32,
    ensures
        w + ((0x1000u32 - w) as u32 >> shift) < 0x1000,
        (w >> shift) <= w,
{
}

proof fn adapting_stays_in_range(w: u32, shift: u32)
    by (bit_vector)
    requires
        w <= 0x1000u32,
        shift < 32u32,
    ensures
        w + ((0x1000u32 - w) as u32 >> shift) <= 0x1000,
        (w >> shift) <= w,
{
}

} // verus!
