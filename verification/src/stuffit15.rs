use vstd::prelude::*;
use vstd::arithmetic::power2::{pow2, lemma2_to64, lemma_pow2_unfold, lemma_pow2_strictly_increases};
use crate::bits::{msb_bit, BitReaderMsb};
use crate::error::{after, after_nothing, after_push, bytes_of, ErrorKind};
use crate::sitx::bwt::{as_ints, byte_values, calculate_inverse_bwt, links, links_invert_places, moved_to_front, MtfState};
use crate::sitx::rotations::{is_permutation, links_are_a_permutation};

verus! {

// === arithmetic decoder =======================================================

/// The precision of the arithmetic decoder.
pub const NUM_BITS: u32 = 26;

/// The width of the interval at the start.
pub const ONE: u32 = 0x200_0000;

/// The interval is widened while it is not above this.
pub const HALF: u32 = 0x100_0000;

/// The bit at `pos`, zero past the end of the data.
pub open spec fn padded_bit(data: Seq<u8>, pos: int) -> u32 {
    if pos < 8 * data.len() && msb_bit(data, pos) {
        1
    } else {
        0
    }
}

/// The position after the bit at `pos`; the end of the data is never passed.
pub open spec fn padded_next(data: Seq<u8>, pos: int) -> int {
    if pos < 8 * data.len() {
        pos + 1
    } else {
        pos
    }
}

/// The decoder between two symbols: the bit position, the width of the interval
/// and the offset of the code within it.
pub struct CoderState {
    pub pos: int,
    pub range: int,
    pub code: u32,
}

impl CoderState {
    pub open spec fn wf(self) -> bool {
        HALF < self.range <= ONE
    }
}

/// `v` followed by `n` bits.
pub open spec fn code_from(data: Seq<u8>, pos: int, n: nat, v: u32) -> (u32, int)
    decreases n,
{
    if n == 0 {
        (v, pos)
    } else {
        code_from(data, padded_next(data, pos), (n - 1) as nat, (v << 1u32) | padded_bit(data, pos))
    }
}

/// The decoder before the first symbol, its bits starting at `pos`.
pub open spec fn coder_from(data: Seq<u8>, pos: int) -> CoderState {
    let (code, end) = code_from(data, pos, NUM_BITS as nat, 0);
    CoderState { pos: end, range: ONE as int, code }
}

pub open spec fn coder_start(data: Seq<u8>) -> CoderState {
    coder_from(data, 0)
}

/// Widen the interval bit by bit until it is above half.
pub open spec fn widened(data: Seq<u8>, c: CoderState) -> CoderState
    decreases ONE - c.range,
{
    if c.range <= 0 || c.range > HALF {
        c
    } else {
        widened(
            data,
            CoderState {
                pos: padded_next(data, c.pos),
                range: 2 * c.range,
                code: (c.code << 1u32) | padded_bit(data, c.pos),
            },
        )
    }
}

/// Narrow the interval to the share `low..low + size` of `total`, the last share
/// taking what the division leaves over, and widen it again.
pub open spec fn narrowed(data: Seq<u8>, c: CoderState, low: int, size: int, total: int) -> CoderState {
    let unit = c.range / total;
    widened(
        data,
        CoderState {
            pos: c.pos,
            range: if low + size == total {
                c.range - unit * low
            } else {
                unit * size
            },
            code: c.code.wrapping_sub((unit * low) as u32),
        },
    )
}

// === adaptive models ==========================================================

pub open spec fn sum(freqs: Seq<u32>) -> int
    decreases freqs.len(),
{
    if freqs.len() == 0 {
        0
    } else {
        sum(freqs.drop_last()) + freqs.last()
    }
}

/// The frequencies of the symbols from `first` on, with the step by which one
/// grows and the limit that their sum may not pass.
pub struct ModelState {
    pub first: int,
    pub increment: int,
    pub limit: int,
    pub freqs: Seq<u32>,
}

impl ModelState {
    /// Every symbol is possible, and the sum stays within the narrowest interval.
    pub open spec fn wf(self) -> bool {
        &&& 1 <= self.freqs.len()
        &&& 1 <= self.increment
        &&& self.increment + self.freqs.len() <= HALF
        &&& self.limit <= HALF
        &&& forall|i: int| 0 <= i < self.freqs.len() ==> 1 <= #[trigger] self.freqs[i]
        &&& sum(self.freqs) <= HALF
        &&& i32::MIN <= self.first
        &&& self.first + self.freqs.len() <= i32::MAX + 1
    }
}

/// A model of the symbols `first..=last` in which all are equally likely.
pub open spec fn model_start(first: int, last: int, increment: int, limit: int) -> ModelState {
    ModelState { first, increment, limit, freqs: Seq::new((last - first + 1) as nat, |i: int| increment as u32) }
}

pub open spec fn halved(freqs: Seq<u32>) -> Seq<u32> {
    Seq::new(freqs.len(), |i: int| ((freqs[i] + 1) / 2) as u32)
}

/// The model after symbol number `n` has been seen.
pub open spec fn model_after(m: ModelState, n: int) -> ModelState {
    let grown = m.freqs.update(n, (m.freqs[n] + m.increment) as u32);
    ModelState {
        freqs: if sum(grown) > m.limit {
            halved(grown)
        } else {
            grown
        },
        ..m
    }
}

/// The number of the symbol whose share holds `target` and the start of the
/// share, the symbols before `n` having been passed; the last symbol takes what
/// lies beyond all shares.
pub open spec fn picked(freqs: Seq<u32>, target: u32, n: int, low: int) -> (int, int)
    decreases freqs.len() - n,
{
    if n >= freqs.len() - 1 || low + freqs[n] > target {
        (n, low)
    } else {
        picked(freqs, target, n + 1, low + freqs[n])
    }
}

/// The next symbol, the decoder and the model after it.
pub open spec fn symbol_next(data: Seq<u8>, c: CoderState, m: ModelState) -> (int, CoderState, ModelState) {
    let total = sum(m.freqs);
    let target = (c.code as int / (c.range / total)) as u32;
    let (n, low) = picked(m.freqs, target, 0, 0);
    (m.first + n, narrowed(data, c, low, m.freqs[n] as int, total), model_after(m, n))
}

/// `n` more binary symbols, the first of them worth 2 to the `i`, added to `acc`.
pub open spec fn number_next(data: Seq<u8>, c: CoderState, m: ModelState, i: nat, n: nat, acc: nat) -> (
    nat,
    CoderState,
    ModelState,
)
    decreases n,
{
    if n == 0 {
        (acc, c, m)
    } else {
        let (bit, c1, m1) = symbol_next(data, c, m);
        number_next(
            data,
            c1,
            m1,
            i + 1,
            (n - 1) as nat,
            acc + (if bit != 0 {
                pow2(i)
            } else {
                0
            }),
        )
    }
}

proof fn sum_bounds(freqs: Seq<u32>, i: int)
    requires
        0 <= i < freqs.len(),
    ensures
        freqs[i] <= sum(freqs),
        sum(freqs) >= 0,
    decreases freqs.len(),
{
    sum_nonneg(freqs.drop_last());
    if i < freqs.len() - 1 {
        sum_bounds(freqs.drop_last(), i);
    }
}

proof fn sum_nonneg(freqs: Seq<u32>)
    ensures
        sum(freqs) >= 0,
    decreases freqs.len(),
{
    if freqs.len() > 0 {
        sum_nonneg(freqs.drop_last());
    }
}

pub(crate) proof fn sum_prefix(freqs: Seq<u32>, k: int)
    requires
        0 <= k < freqs.len(),
    ensures
        sum(freqs.subrange(0, k + 1)) == sum(freqs.subrange(0, k)) + freqs[k],
{
    assert(freqs.subrange(0, k + 1).drop_last() =~= freqs.subrange(0, k));
}

pub(crate) proof fn sum_prefix_bound(freqs: Seq<u32>, k: int)
    requires
        0 <= k <= freqs.len(),
    ensures
        0 <= sum(freqs.subrange(0, k)) <= sum(freqs),
    decreases freqs.len() - k,
{
    sum_nonneg(freqs.subrange(0, k));
    if k < freqs.len() {
        sum_prefix(freqs, k);
        sum_prefix_bound(freqs, k + 1);
    } else {
        assert(freqs.subrange(0, k) =~= freqs);
    }
}

proof fn sum_update(freqs: Seq<u32>, i: int, v: u32)
    requires
        0 <= i < freqs.len(),
    ensures
        sum(freqs.update(i, v)) == sum(freqs) - freqs[i] + v,
    decreases freqs.len(),
{
    let g = freqs.update(i, v);
    if i == freqs.len() - 1 {
        assert(g.drop_last() =~= freqs.drop_last());
    } else {
        assert(g.drop_last() =~= freqs.drop_last().update(i, v));
        sum_update(freqs.drop_last(), i, v);
    }
}

pub(crate) proof fn sum_constant(n: nat, v: u32)
    ensures
        sum(Seq::new(n, |i: int| v)) == n * v,
    decreases n,
{
    let s = Seq::new(n, |i: int| v);
    if n > 0 {
        assert(s.drop_last() =~= Seq::new((n - 1) as nat, |i: int| v));
        sum_constant((n - 1) as nat, v);
        assert(n * v == (n - 1) * v + v) by (nonlinear_arith);
    } else {
        assert(n * v == 0) by (nonlinear_arith) requires n == 0;
    }
}

proof fn sum_halved(freqs: Seq<u32>)
    ensures
        2 * sum(halved(freqs)) <= sum(freqs) + freqs.len(),
    decreases freqs.len(),
{
    if freqs.len() > 0 {
        sum_halved(freqs.drop_last());
        assert(halved(freqs).drop_last() =~= halved(freqs.drop_last()));
    }
}

pub(crate) proof fn picked_facts(freqs: Seq<u32>, target: u32, n: int, low: int)
    requires
        0 <= n < freqs.len(),
        low == sum(freqs.subrange(0, n)),
    ensures
        ({
            let (k, l) = picked(freqs, target, n, low);
            &&& n <= k < freqs.len()
            &&& l == sum(freqs.subrange(0, k))
        }),
    decreases freqs.len() - n,
{
    if !(n >= freqs.len() - 1 || low + freqs[n] > target) {
        sum_prefix(freqs, n);
        picked_facts(freqs, target, n + 1, low + freqs[n]);
    }
}

/// A model stays within its limit and every symbol stays possible.
pub proof fn model_after_wf(m: ModelState, n: int)
    requires
        m.wf(),
        0 <= n < m.freqs.len(),
    ensures
        model_after(m, n).wf(),
        model_after(m, n).first == m.first,
        model_after(m, n).freqs.len() == m.freqs.len(),
{
    sum_bounds(m.freqs, n);
    let grown = m.freqs.update(n, (m.freqs[n] + m.increment) as u32);
    sum_update(m.freqs, n, (m.freqs[n] + m.increment) as u32);
    sum_halved(grown);
}

proof fn unit_facts(range: int, low: int, size: int, total: int)
    requires
        HALF < range <= ONE,
        0 <= low,
        1 <= size,
        low + size <= total <= HALF,
    ensures
        range / total >= 1,
        0 <= (range / total) * low <= range - 1,
        1 <= (range / total) * size <= range,
        low + size == total ==> 1 <= range - (range / total) * low <= range,
{
    let u = range / total;
    assert(u >= 1 && u * total <= range) by (nonlinear_arith)
        requires u == range / total, 0 < total <= range;
    assert(u * total >= u * (low + size)) by (nonlinear_arith)
        requires total >= low + size, u >= 1;
    assert(u * (low + size) == u * low + u * size) by (nonlinear_arith);
    assert(u * low >= 0) by (nonlinear_arith)
        requires u >= 1, low >= 0;
    assert(u * size >= 1) by (nonlinear_arith)
        requires u >= 1, size >= 1;
}

proof fn widened_wf(data: Seq<u8>, c: CoderState)
    requires
        0 < c.range <= ONE,
    ensures
        widened(data, c).wf(),
    decreases ONE - c.range,
{
    if c.range <= HALF {
        widened_wf(
            data,
            CoderState {
                pos: padded_next(data, c.pos),
                range: 2 * c.range,
                code: (c.code << 1u32) | padded_bit(data, c.pos),
            },
        );
    }
}

/// Decoding a symbol keeps the decoder and the model valid and yields a symbol
/// of the model.
pub proof fn symbol_next_wf(data: Seq<u8>, c: CoderState, m: ModelState)
    requires
        c.wf(),
        m.wf(),
    ensures
        ({
            let (v, c1, m1) = symbol_next(data, c, m);
            &&& m.first <= v < m.first + m.freqs.len()
            &&& c1.wf()
            &&& m1.wf()
            &&& m1.first == m.first
            &&& m1.freqs.len() == m.freqs.len()
        }),
{
    let total = sum(m.freqs);
    sum_bounds(m.freqs, 0);
    let target = (c.code as int / (c.range / total)) as u32;
    assert(m.freqs.subrange(0, 0) =~= seq![]);
    picked_facts(m.freqs, target, 0, 0);
    let (n, low) = picked(m.freqs, target, 0, 0);
    sum_prefix_bound(m.freqs, n);
    sum_prefix_bound(m.freqs, n + 1);
    sum_prefix(m.freqs, n);
    unit_facts(c.range, low, m.freqs[n] as int, total);
    let unit = c.range / total;
    widened_wf(
        data,
        CoderState {
            pos: c.pos,
            range: if low + m.freqs[n] == total {
                c.range - unit * low
            } else {
                unit * m.freqs[n]
            },
            code: c.code.wrapping_sub((unit * low) as u32),
        },
    );
    model_after_wf(m, n);
}

/// Bits that go on as zeros past the end of the data.
pub struct Bits<'a> {
    inner: BitReaderMsb<'a>,
}

impl<'a> Bits<'a> {
    pub closed spec fn data(&self) -> Seq<u8> {
        self.inner.data()
    }

    pub closed spec fn pos(&self) -> int {
        self.inner.pos()
    }

    pub closed spec fn wf(&self) -> bool {
        self.inner.wf()
    }

    pub fn new(data: &'a [u8]) -> (r: Self)
        ensures
            r.wf(),
            r.data() == data@,
            r.pos() == 0,
    {
        Bits { inner: BitReaderMsb::new(data) }
    }

    /// One bit; zero past the end.
    pub fn bit(&mut self) -> (r: u32)
        requires
            old(self).wf(),
        ensures
            final(self).wf(),
            final(self).data() == old(self).data(),
            r == padded_bit(old(self).data(), old(self).pos()),
            final(self).pos() == padded_next(old(self).data(), old(self).pos()),
    {
        match self.inner.read_bit() {
            Some(true) => 1,
            Some(false) => 0,
            None => 0,
        }
    }

    /// `n` bits, the last of them worth 1.
    pub fn long(&mut self, n: u32) -> (r: u32)
        requires
            old(self).wf(),
        ensures
            final(self).wf(),
            final(self).data() == old(self).data(),
            (r, final(self).pos()) == code_from(old(self).data(), old(self).pos(), n as nat, 0),
    {
        let mut v: u32 = 0;
        let mut left: u32 = n;
        while left > 0
            invariant
                self.wf(),
                self.data() == old(self).data(),
                code_from(self.data(), self.pos(), left as nat, v) == code_from(
                    old(self).data(),
                    old(self).pos(),
                    n as nat,
                    0,
                ),
            decreases left,
        {
            v = (v << 1) | self.bit();
            left = left - 1;
        }
        v
    }
}

/// An adaptive model.
pub struct Model {
    pub first: i32,
    pub increment: u32,
    pub frequency_limit: u32,
    pub total_frequency: u32,
    pub freqs: Vec<u32>,
}

impl Model {
    pub open spec fn view(&self) -> ModelState {
        ModelState {
            first: self.first as int,
            increment: self.increment as int,
            limit: self.frequency_limit as int,
            freqs: self.freqs@,
        }
    }

    pub open spec fn wf(&self) -> bool {
        &&& self.view().wf()
        &&& self.total_frequency == sum(self.freqs@)
    }

    /// A model of the symbols `first..=last` in which all are equally likely.
    pub fn new(first: i32, last: i32, increment: u32, frequency_limit: u32) -> (r: Self)
        requires
            first <= last,
            1 <= increment,
            increment * (last - first + 1) <= HALF,
            increment + (last - first + 1) <= HALF,
            frequency_limit <= HALF,
        ensures
            r.wf(),
            r.view() == model_start(first as int, last as int, increment as int, frequency_limit as int),
    {
        proof {
            let n = last - first + 1;
            assert(n <= increment * n) by (nonlinear_arith)
                requires increment >= 1, n >= 1;
        }
        let num: usize = (last - first + 1) as usize;
        let freqs: Vec<u32> = vec![increment; num];
        proof {
            assert(freqs@ =~= Seq::new(num as nat, |i: int| increment));
            sum_constant(num as nat, increment);
            assert(num * increment == increment * (last - first + 1)) by (nonlinear_arith)
                requires num == last - first + 1;
            assert(freqs@ =~= model_start(first as int, last as int, increment as int, frequency_limit as int).freqs);
        }
        Model { first, increment, frequency_limit, total_frequency: increment * num as u32, freqs }
    }

    /// Count one more use of symbol number `index`; when the sum passes the limit
    /// every frequency is halved.
    pub fn increase(&mut self, index: usize)
        requires
            old(self).wf(),
            index < old(self).freqs@.len(),
        ensures
            final(self).wf(),
            final(self).view() == model_after(old(self).view(), index as int),
    {
        proof {
            model_after_wf(self.view(), index as int);
            sum_bounds(self.freqs@, index as int);
            sum_update(self.freqs@, index as int, (self.freqs@[index as int] + self.increment) as u32);
        }
        let grown: u32 = self.freqs[index] + self.increment;
        self.freqs[index] = grown;
        self.total_frequency = self.total_frequency + self.increment;
        if self.total_frequency > self.frequency_limit {
            let ghost before = self.freqs@;
            let ghost half = halved(before);
            let mut total: u32 = 0;
            let mut i: usize = 0;
            assert(half.subrange(0, 0) =~= seq![]);
            proof {
                sum_halved(before);
            }
            while i < self.freqs.len()
                invariant
                    i <= self.freqs@.len(),
                    self.freqs@.len() == before.len(),
                    half == halved(before),
                    self.first == old(self).first,
                    self.increment == old(self).increment,
                    self.frequency_limit == old(self).frequency_limit,
                    sum(before) <= ONE,
                    sum(half) <= ONE,
                    total == sum(half.subrange(0, i as int)),
                    forall|j: int| 0 <= j < i ==> #[trigger] self.freqs@[j] == half[j],
                    forall|j: int| i <= j < before.len() ==> #[trigger] self.freqs@[j] == before[j],
                decreases before.len() - i,
            {
                proof {
                    sum_bounds(before, i as int);
                    sum_prefix(half, i as int);
                    sum_prefix_bound(half, i + 1);
                }
                let f: u32 = (self.freqs[i] + 1) / 2;
                self.freqs[i] = f;
                total = total + f;
                i = i + 1;
            }
            assert(self.freqs@ =~= half);
            assert(half.subrange(0, i as int) =~= half);
            self.total_frequency = total;
        }
    }
}

/// The arithmetic decoder.
pub struct Coder {
    range: u32,
    code: u32,
}

impl Coder {
    /// The decoder as it stands with its bits.
    pub closed spec fn state(&self, bits: &Bits) -> CoderState {
        CoderState { pos: bits.pos(), range: self.range as int, code: self.code }
    }

    /// Start decoding.
    pub fn init(bits: &mut Bits) -> (r: Self)
        requires
            old(bits).wf(),
        ensures
            final(bits).wf(),
            final(bits).data() == old(bits).data(),
            r.state(final(bits)) == coder_from(old(bits).data(), old(bits).pos()),
            r.state(final(bits)).wf(),
    {
        let code: u32 = bits.long(NUM_BITS);
        Coder { range: ONE, code }
    }

    /// Narrow the interval to a share and widen it again.
    fn read_next(&mut self, bits: &mut Bits, symlow: u32, symsize: u32, symtot: u32)
        requires
            old(bits).wf(),
            old(self).state(old(bits)).wf(),
            1 <= symsize,
            symlow + symsize <= symtot <= HALF,
        ensures
            final(bits).wf(),
            final(bits).data() == old(bits).data(),
            final(self).state(final(bits)) == narrowed(
                old(bits).data(),
                old(self).state(old(bits)),
                symlow as int,
                symsize as int,
                symtot as int,
            ),
            final(self).state(final(bits)).wf(),
    {
        proof {
            unit_facts(self.range as int, symlow as int, symsize as int, symtot as int);
        }
        let unit: u32 = self.range / symtot;
        let lowincr: u32 = unit * symlow;
        self.code = self.code.wrapping_sub(lowincr);
        if symlow + symsize == symtot {
            self.range = self.range - lowincr;
        } else {
            self.range = unit * symsize;
        }
        let ghost goal = narrowed(
            old(bits).data(),
            old(self).state(old(bits)),
            symlow as int,
            symsize as int,
            symtot as int,
        );
        assert(widened(bits.data(), self.state(bits)) == goal);
        while self.range <= HALF
            invariant
                bits.wf(),
                bits.data() == old(bits).data(),
                0 < self.range <= ONE,
                widened(bits.data(), self.state(bits)) == goal,
            decreases ONE - self.range,
        {
            let ghost c0 = self.state(bits);
            let ghost r0 = self.range;
            proof {
                double_is_shift(r0);
            }
            self.range = self.range << 1;
            self.code = (self.code << 1) | bits.bit();
        }
    }
}

proof fn double_is_shift(r: u32)
    by (bit_vector)
    requires
        r <= 0x100_0000u32,
    ensures
        (r << 1u32) == 2 * r,
{
}

/// Decode one symbol of `model`.
pub fn next_symbol(coder: &mut Coder, bits: &mut Bits, model: &mut Model) -> (r: i32)
    requires
        old(bits).wf(),
        old(coder).state(old(bits)).wf(),
        old(model).wf(),
    ensures
        final(bits).wf(),
        final(bits).data() == old(bits).data(),
        final(coder).state(final(bits)).wf(),
        final(model).wf(),
        (r as int, final(coder).state(final(bits)), final(model).view()) == symbol_next(
            old(bits).data(),
            old(coder).state(old(bits)),
            old(model).view(),
        ),
        old(model).first <= r < old(model).first + old(model).freqs@.len(),
        final(model).first == old(model).first,
        final(model).freqs@.len() == old(model).freqs@.len(),
{
    proof {
        symbol_next_wf(bits.data(), coder.state(bits), model.view());
        sum_bounds(model.freqs@, 0);
        unit_facts(coder.range as int, 0, model.total_frequency as int, model.total_frequency as int);
        let a = coder.code as int;
        let u = coder.range as int / sum(model.freqs@);
        assert(0 <= a / u <= a) by (nonlinear_arith)
            requires a >= 0, u >= 1;
    }
    let frequency: u32 = coder.code / (coder.range / model.total_frequency);
    let mut cumulative: u32 = 0;
    let mut n: usize = 0;
    assert(model.freqs@.subrange(0, 0) =~= seq![]);
    assert forall|i: int| 0 <= i < model.freqs@.len() implies #[trigger] model.freqs@[i] <= HALF by {
        sum_bounds(model.freqs@, i);
    }
    while n < model.freqs.len() - 1 && cumulative + model.freqs[n] <= frequency
        invariant
            model.wf(),
            n < model.freqs@.len(),
            cumulative == sum(model.freqs@.subrange(0, n as int)),
            cumulative <= HALF,
            picked(model.freqs@, frequency, n as int, cumulative as int) == picked(model.freqs@, frequency, 0, 0),
            forall|i: int| 0 <= i < model.freqs@.len() ==> #[trigger] model.freqs@[i] <= HALF,
        decreases model.freqs@.len() - n,
    {
        proof {
            sum_prefix(model.freqs@, n as int);
            sum_prefix_bound(model.freqs@, n + 1);
        }
        cumulative = cumulative + model.freqs[n];
        n = n + 1;
    }
    proof {
        sum_prefix(model.freqs@, n as int);
        sum_prefix_bound(model.freqs@, n + 1);
        sum_bounds(model.freqs@, n as int);
    }
    let size: u32 = model.freqs[n];
    coder.read_next(bits, cumulative, size, model.total_frequency);
    model.increase(n);
    model.first + n as i32
}

/// Decode a number of `nbits` binary symbols, the first of them worth 1.
pub fn next_bitstring(coder: &mut Coder, bits: &mut Bits, model: &mut Model, nbits: u32) -> (r: u32)
    requires
        old(bits).wf(),
        old(coder).state(old(bits)).wf(),
        old(model).wf(),
        nbits <= 32,
    ensures
        final(bits).wf(),
        final(bits).data() == old(bits).data(),
        final(coder).state(final(bits)).wf(),
        final(model).wf(),
        final(model).first == old(model).first,
        final(model).freqs@.len() == old(model).freqs@.len(),
        (r as nat, final(coder).state(final(bits)), final(model).view()) == number_next(
            old(bits).data(),
            old(coder).state(old(bits)),
            old(model).view(),
            0,
            nbits as nat,
            0,
        ),
        r < pow2(nbits as nat),
{
    let mut res: u64 = 0;
    let mut weight: u64 = 1;
    let mut i: u32 = 0;
    proof {
        lemma2_to64();
    }
    while i < nbits
        invariant
            nbits <= 32,
            i <= nbits,
            bits.wf(),
            bits.data() == old(bits).data(),
            coder.state(bits).wf(),
            model.wf(),
            model.first == old(model).first,
            model.freqs@.len() == old(model).freqs@.len(),
            weight == pow2(i as nat),
            res < weight <= 0x1_0000_0000,
            number_next(bits.data(), coder.state(bits), model.view(), i as nat, (nbits - i) as nat, res as nat)
                == number_next(
                old(bits).data(),
                old(coder).state(old(bits)),
                old(model).view(),
                0,
                nbits as nat,
                0,
            ),
        decreases nbits - i,
    {
        proof {
            lemma_pow2_unfold((i + 1) as nat);
            lemma2_to64();
            if i + 1 < 32 {
                lemma_pow2_strictly_increases((i + 1) as nat, 32);
            }
        }
        if next_symbol(coder, bits, model) != 0 {
            res = res + weight;
        }
        weight = weight * 2;
        i = i + 1;
    }
    res as u32
}

// === randomization ============================================================

/// The gaps between the bytes whose lowest bit is flipped in a randomized block.
pub const RANDOMIZATION_TABLE: [u16; 256] = [
    0x0ee, 0x056, 0x0f8, 0x0c3, 0x09d, 0x09f, 0x0ae, 0x02c,
    0x0ad, 0x0cd, 0x024, 0x09d, 0x0a6, 0x101, 0x018, 0x0b9,
    0x0a1, 0x082, 0x075, 0x0e9, 0x09f, 0x055, 0x066, 0x06a,
    0x086, 0x071, 0x0dc, 0x084, 0x056, 0x096, 0x056, 0x0a1,
    0x084, 0x078, 0x0b7, 0x032, 0x06a, 0x003, 0x0e3, 0x002,
    0x011, 0x101, 0x008, 0x044, 0x083, 0x100, 0x043, 0x0e3,
    0x01c, 0x0f0, 0x086, 0x06a, 0x06b, 0x00f, 0x003, 0x02d,
    0x086, 0x017, 0x07b, 0x010, 0x0f6, 0x080, 0x078, 0x07a,
    0x0a1, 0x0e1, 0x0ef, 0x08c, 0x0f6, 0x087, 0x04b, 0x0a7,
    0x0e2, 0x077, 0x0fa, 0x0b8, 0x081, 0x0ee, 0x077, 0x0c0,
    0x09d, 0x029, 0x020, 0x027, 0x071, 0x012, 0x0e0, 0x06b,
    0x0d1, 0x07c, 0x00a, 0x089, 0x07d, 0x087, 0x0c4, 0x101,
    0x0c1, 0x031, 0x0af, 0x038, 0x003, 0x068, 0x01b, 0x076,
    0x079, 0x03f, 0x0db, 0x0c7, 0x01b, 0x036, 0x07b, 0x0e2,
    0x063, 0x081, 0x0ee, 0x00c, 0x063, 0x08b, 0x078, 0x038,
    0x097, 0x09b, 0x0d7, 0x08f, 0x0dd, 0x0f2, 0x0a3, 0x077,
    0x08c, 0x0c3, 0x039, 0x020, 0x0b3, 0x012, 0x011, 0x00e,
    0x017, 0x042, 0x080, 0x02c, 0x0c4, 0x092, 0x059, 0x0c8,
    0x0db, 0x040, 0x076, 0x064, 0x0b4, 0x055, 0x01a, 0x09e,
    0x0fe, 0x05f, 0x006, 0x03c, 0x041, 0x0ef, 0x0d4, 0x0aa,
    0x098, 0x029, 0x0cd, 0x01f, 0x002, 0x0a8, 0x087, 0x0d2,
    0x0a0, 0x093, 0x098, 0x0ef, 0x00c, 0x043, 0x0ed, 0x09d,
    0x0c2, 0x0eb, 0x081, 0x0e9, 0x064, 0x023, 0x068, 0x01e,
    0x025, 0x057, 0x0de, 0x09a, 0x0cf, 0x07f, 0x0e5, 0x0ba,
    0x041, 0x0ea, 0x0ea, 0x036, 0x01a, 0x028, 0x079, 0x020,
    0x05e, 0x018, 0x04e, 0x07c, 0x08e, 0x058, 0x07a, 0x0ef,
    0x091, 0x002, 0x093, 0x0bb, 0x056, 0x0a1, 0x049, 0x01b,
    0x079, 0x092, 0x0f3, 0x058, 0x04f, 0x052, 0x09c, 0x002,
    0x077, 0x0af, 0x02a, 0x08f, 0x049, 0x0d0, 0x099, 0x04d,
    0x098, 0x101, 0x060, 0x093, 0x100, 0x075, 0x031, 0x0ce,
    0x049, 0x020, 0x056, 0x057, 0x0e2, 0x0f5, 0x026, 0x02b,
    0x08a, 0x0bf, 0x0de, 0x0d0, 0x083, 0x034, 0x0f4, 0x017,
];

/// Gap number `i`.
pub closed spec fn gap(i: int) -> int {
    RANDOMIZATION_TABLE@[i] as int
}

pub(crate) proof fn gaps_are_listed()
    ensures
        forall|i: int| #[trigger] gap(i) == RANDOMIZATION_TABLE@[i],
{
}

fn gap_at(i: usize) -> (r: u16)
    requires
        i < 256,
    ensures
        r == gap(i as int),
{
    RANDOMIZATION_TABLE[i]
}

// === blocks ===================================================================

/// The models of the seven symbol groups above 1.
pub open spec fn group_models() -> Seq<ModelState> {
    seq![
        model_start(2, 3, 8, 1024),
        model_start(4, 7, 4, 1024),
        model_start(8, 15, 4, 1024),
        model_start(16, 31, 4, 1024),
        model_start(32, 63, 2, 1024),
        model_start(64, 127, 2, 1024),
        model_start(128, 255, 1, 1024),
    ]
}

pub open spec fn selector_model() -> ModelState {
    model_start(0, 10, 8, 1024)
}

pub open spec fn initial_model() -> ModelState {
    model_start(0, 1, 1, 256)
}

/// The decoding of a block's bytes, under way.
pub struct BlockState {
    pub c: CoderState,
    pub selector: ModelState,
    pub groups: Seq<ModelState>,
    pub table: Seq<u8>,
    pub bytes: Seq<u8>,
}

/// The length of a run of front bytes, spelled in binary with the digits 1 and 2,
/// the lowest first; `sel` is the selector just read, `weight` its place value
/// and `n` the length so far, of which there is room for `room`. With the length
/// come the selector that ends it, the decoder and the selector model.
pub open spec fn run_next(
    data: Seq<u8>,
    c: CoderState,
    m: ModelState,
    sel: int,
    weight: int,
    n: int,
    room: int,
) -> Result<(int, int, CoderState, ModelState), ErrorKind>
    decreases room - n,
{
    if sel >= 2 {
        Ok((n, sel, c, m))
    } else if weight <= 0 || sel < 0 || n + (sel + 1) * weight > room {
        Err(ErrorKind::InvalidData)
    } else {
        let (sel1, c1, m1) = symbol_next(data, c, m);
        run_next(data, c1, m1, sel1, 2 * weight, n + (sel + 1) * weight, room)
    }
}

pub open spec fn copies(b: u8, n: int) -> Seq<u8> {
    Seq::new(n as nat, |i: int| b)
}

/// The bytes of a block of at most `size` bytes and the decoder after them.
pub open spec fn block_from(data: Seq<u8>, b: BlockState, size: nat) -> Result<(Seq<u8>, CoderState), ErrorKind>
    decreases size - b.bytes.len(),
{
    let (sel0, c0, m0) = symbol_next(data, b.c, b.selector);
    match run_next(data, c0, m0, sel0, 1, 0, size - b.bytes.len()) {
        Err(e) => Err(e),
        Ok((n, sel, c1, m1)) => {
            let bytes = b.bytes + copies(b.table[0], n);
            if sel == 10 {
                Ok((bytes, c1))
            } else {
                let (symbol, c2, groups) = if sel == 2 {
                    (1int, c1, b.groups)
                } else {
                    let (v, c, g) = symbol_next(data, c1, b.groups[sel - 3]);
                    (v, c, b.groups.update(sel - 3, g))
                };
                if bytes.len() >= size || n < 0 {
                    Err(ErrorKind::InvalidData)
                } else {
                    block_from(
                        data,
                        BlockState {
                            c: c2,
                            selector: m1,
                            groups,
                            table: moved_to_front(b.table, symbol),
                            bytes: bytes.push(b.table[symbol]),
                        },
                        size,
                    )
                }
            }
        },
    }
}

/// The bytes of a block of at most `size` bytes: each block starts with fresh
/// models and a fresh table.
pub open spec fn block_bytes_at(data: Seq<u8>, c: CoderState, size: nat) -> Result<(Seq<u8>, CoderState), ErrorKind> {
    block_from(
        data,
        BlockState { c, selector: selector_model(), groups: group_models(), table: byte_values(), bytes: seq![] },
        size,
    )
}

/// A decoded block: its bytes, the row to start from, whether it is randomized
/// and whether it is the last, with the decoder and the flag model after it.
pub struct Block {
    pub c: CoderState,
    pub initial: ModelState,
    pub bytes: Seq<u8>,
    pub index: int,
    pub randomized: bool,
    pub last: bool,
}

pub open spec fn block_at(data: Seq<u8>, c: CoderState, initial: ModelState, blockbits: nat) -> Result<Block, ErrorKind> {
    let (randomized, c1, m1) = symbol_next(data, c, initial);
    let (index, c2, m2) = number_next(data, c1, m1, 0, blockbits, 0);
    match block_bytes_at(data, c2, pow2(blockbits)) {
        Err(e) => Err(e),
        Ok((bytes, c3)) => if index >= bytes.len() {
            Err(ErrorKind::InvalidData)
        } else {
            let (end, c4, m4) = symbol_next(data, c3, m2);
            let (_crc, c5, m5) = if end != 0 {
                number_next(data, c4, m4, 0, 32, 0)
            } else {
                (0nat, c4, m4)
            };
            Ok(
                Block {
                    c: c5,
                    initial: m5,
                    bytes,
                    index: index as int,
                    randomized: randomized != 0,
                    last: end != 0,
                },
            )
        },
    }
}

// === byte production ==========================================================

/// The whole machine between two output bytes.
pub struct ArsenicState {
    pub c: CoderState,
    pub initial: ModelState,
    pub blockbits: nat,
    pub ended: bool,
    pub bytes: Seq<u8>,
    pub index: int,
    pub done: int,
    pub randomized: bool,
    pub flip_at: int,
    pub flip_number: int,
    pub repeat: int,
    pub count: int,
    pub last: u8,
}

/// Load the next block, whether or not one is announced.
pub open spec fn block_loaded(data: Seq<u8>, s: ArsenicState) -> Result<ArsenicState, ErrorKind> {
    match block_at(data, s.c, s.initial, s.blockbits) {
        Err(e) => Err(e),
        Ok(b) => Ok(
            ArsenicState {
                c: b.c,
                initial: b.initial,
                ended: s.ended || b.last,
                bytes: b.bytes,
                index: b.index,
                done: 0,
                randomized: b.randomized,
                flip_at: gap(0),
                flip_number: 0,
                count: 0,
                last: 0,
                ..s
            },
        ),
    }
}

/// Load the next block, if there is one.
pub open spec fn loaded(data: Seq<u8>, s: ArsenicState) -> Result<ArsenicState, ErrorKind> {
    if s.ended {
        Err(ErrorKind::UnexpectedEof)
    } else {
        block_loaded(data, s)
    }
}

/// The next byte of the current block, before run lengths are expanded.
pub open spec fn raw_next(s: ArsenicState) -> (u8, ArsenicState) {
    let index = links(s.bytes)[s.index];
    let flip = s.randomized && s.flip_at == s.done;
    let flip_number = (s.flip_number + 1) % 256;
    (
        if flip {
            s.bytes[index] ^ 1u8
        } else {
            s.bytes[index]
        },
        ArsenicState {
            index,
            done: s.done + 1,
            flip_number: if flip {
                flip_number
            } else {
                s.flip_number
            },
            flip_at: if flip {
                s.flip_at + gap(flip_number)
            } else {
                s.flip_at
            },
            ..s
        },
    )
}

/// The next output byte: after four equal bytes a byte says how many more follow.
pub open spec fn byte_next(data: Seq<u8>, s: ArsenicState) -> Result<(u8, ArsenicState), ErrorKind>
    decreases if s.count == 4 { 1int } else { 0int },
{
    if s.repeat > 0 {
        Ok((s.last, ArsenicState { repeat: s.repeat - 1, ..s }))
    } else {
        let ready = if s.done >= s.bytes.len() {
            loaded(data, s)
        } else {
            Ok(s)
        };
        match ready {
            Err(e) => Err(e),
            Ok(t) => {
                let (b, u) = raw_next(t);
                if t.count == 4 {
                    if b == 0 {
                        byte_next(data, ArsenicState { count: 0, ..u })
                    } else {
                        Ok((t.last, ArsenicState { count: 0, repeat: b - 1, ..u }))
                    }
                } else if b == t.last {
                    Ok((b, ArsenicState { count: t.count + 1, ..u }))
                } else {
                    Ok((b, ArsenicState { count: 1, last: b, ..u }))
                }
            },
        }
    }
}

pub open spec fn bytes_next(data: Seq<u8>, s: ArsenicState, n: nat) -> Result<Seq<u8>, ErrorKind>
    decreases n,
{
    if n == 0 {
        Ok(seq![])
    } else {
        match byte_next(data, s) {
            Err(e) => Err(e),
            Ok((b, t)) => after(seq![b], bytes_next(data, t, (n - 1) as nat)),
        }
    }
}

/// The machine after the header: the letters `As`, the block size, and a flag
/// that says whether there is no block at all.
pub open spec fn arsenic_start(data: Seq<u8>) -> Result<ArsenicState, ErrorKind> {
    let (a, c1, m1) = number_next(data, coder_start(data), initial_model(), 0, 8, 0);
    let (s, c2, m2) = number_next(data, c1, m1, 0, 8, 0);
    let (size, c3, m3) = number_next(data, c2, m2, 0, 4, 0);
    let (end, c4, m4) = symbol_next(data, c3, m3);
    if a != 0x41 || s != 0x73 {
        Err(ErrorKind::InvalidData)
    } else {
        Ok(
            ArsenicState {
                c: c4,
                initial: m4,
                blockbits: size + 9,
                ended: end != 0,
                bytes: seq![],
                index: 0,
                done: 0,
                randomized: false,
                flip_at: 0,
                flip_number: 0,
                repeat: 0,
                count: 0,
                last: 0,
            },
        )
    }
}

/// The first `outlen` bytes of a fork.
pub open spec fn decoded(data: Seq<u8>, outlen: nat) -> Result<Seq<u8>, ErrorKind> {
    if outlen == 0 {
        Ok(seq![])
    } else {
        match arsenic_start(data) {
            Err(e) => Err(e),
            Ok(s) => bytes_next(data, s, outlen),
        }
    }
}

/// The executable machine.
struct Arsenic<'a> {
    bits: Bits<'a>,
    coder: Coder,
    initialmodel: Model,
    blockbits: u32,
    block: Vec<u8>,
    transform: Vec<usize>,
    endofblocks: bool,
    bytecount: usize,
    transformindex: usize,
    randomized: bool,
    randcount: u64,
    randindex: usize,
    repeat: u8,
    count: u8,
    last: u8,
}

impl<'a> Arsenic<'a> {
    spec fn state(&self) -> ArsenicState {
        ArsenicState {
            c: self.coder.state(&self.bits),
            initial: self.initialmodel.view(),
            blockbits: self.blockbits as nat,
            ended: self.endofblocks,
            bytes: self.block@,
            index: self.transformindex as int,
            done: self.bytecount as int,
            randomized: self.randomized,
            flip_at: self.randcount as int,
            flip_number: self.randindex as int,
            repeat: self.repeat as int,
            count: self.count as int,
            last: self.last,
        }
    }

    spec fn wf(&self) -> bool {
        &&& self.bits.wf()
        &&& self.coder.state(&self.bits).wf()
        &&& self.initialmodel.wf()
        &&& self.initialmodel.first == 0
        &&& self.initialmodel.freqs@.len() == 2
        &&& 9 <= self.blockbits <= 24
        &&& as_ints(self.transform@) == links(self.block@)
        &&& self.transform@.len() == self.block@.len()
        &&& forall|i: int| 0 <= i < self.transform@.len() ==> (#[trigger] self.transform@[i]) < self.block@.len()
        &&& self.block@.len() > 0 ==> self.transformindex < self.block@.len()
        &&& self.bytecount <= self.block@.len() <= 0x100_0000
        &&& self.randcount <= self.bytecount + 0xffff
        &&& self.randindex < 256
        &&& self.count <= 4
    }

    /// Start decoding and read the header.
    fn new(src: &'a [u8]) -> (r: Result<Self, ErrorKind>)
        ensures
            match r {
                Ok(a) => {
                    &&& a.wf()
                    &&& a.bits.data() == src@
                    &&& arsenic_start(src@) == Ok::<ArsenicState, ErrorKind>(a.state())
                },
                Err(e) => arsenic_start(src@) == Err::<ArsenicState, ErrorKind>(e),
            },
    {
        let mut bits = Bits::new(src);
        let mut coder = Coder::init(&mut bits);
        let mut initialmodel = Model::new(0, 1, 1, 256);
        proof {
            lemma2_to64();
        }
        let a: u32 = next_bitstring(&mut coder, &mut bits, &mut initialmodel, 8);
        if a != 0x41 {
            return Err(ErrorKind::InvalidData);
        }
        let s: u32 = next_bitstring(&mut coder, &mut bits, &mut initialmodel, 8);
        if s != 0x73 {
            return Err(ErrorKind::InvalidData);
        }
        let blockbits: u32 = next_bitstring(&mut coder, &mut bits, &mut initialmodel, 4) + 9;
        let endofblocks: bool = next_symbol(&mut coder, &mut bits, &mut initialmodel) != 0;
        let transform: Vec<usize> = Vec::new();
        let block: Vec<u8> = Vec::new();
        assert(as_ints(transform@) =~= links(block@));
        Ok(
            Arsenic {
                bits,
                coder,
                initialmodel,
                blockbits,
                block,
                transform,
                endofblocks,
                bytecount: 0,
                transformindex: 0,
                randomized: false,
                randcount: 0,
                randindex: 0,
                repeat: 0,
                count: 0,
                last: 0,
            },
        )
    }

    /// Decode the bytes of a block of at most `size` bytes.
    fn read_block_bytes(&mut self, size: usize) -> (r: Result<Vec<u8>, ErrorKind>)
        requires
            old(self).bits.wf(),
            old(self).coder.state(&old(self).bits).wf(),
            size <= 0x100_0000,
        ensures
            final(self).bits.wf(),
            final(self).bits.data() == old(self).bits.data(),
            final(self).coder.state(&final(self).bits).wf(),
            *final(self) == (Arsenic { bits: final(self).bits, coder: final(self).coder, ..*old(self) }),
            match r {
                Ok(v) => {
                    &&& block_bytes_at(old(self).bits.data(), old(self).coder.state(&old(self).bits), size as nat) == Ok::<(Seq<u8>, CoderState), ErrorKind>((v@, final(self).coder.state(&final(self).bits)))
                    &&& v@.len() <= size
                },
                Err(e) => block_bytes_at(old(self).bits.data(), old(self).coder.state(&old(self).bits), size as nat) == Err::<(Seq<u8>, CoderState), ErrorKind>(e),
            },
    {
        let mut selectormodel = Model::new(0, 10, 8, 1024);
        let mut mtfmodel: Vec<Model> = Vec::new();
        mtfmodel.push(Model::new(2, 3, 8, 1024));
        mtfmodel.push(Model::new(4, 7, 4, 1024));
        mtfmodel.push(Model::new(8, 15, 4, 1024));
        mtfmodel.push(Model::new(16, 31, 4, 1024));
        mtfmodel.push(Model::new(32, 63, 2, 1024));
        mtfmodel.push(Model::new(64, 127, 2, 1024));
        mtfmodel.push(Model::new(128, 255, 1, 1024));
        let mut mtf = MtfState::new();
        let mut block: Vec<u8> = Vec::new();
        let ghost goal = block_bytes_at(old(self).bits.data(), old(self).coder.state(&old(self).bits), size as nat);
        assert(models_view(mtfmodel@) =~= group_models());
        loop
            invariant
                self.bits.wf(),
                self.bits.data() == old(self).bits.data(),
                self.coder.state(&self.bits).wf(),
                *self == (Arsenic { bits: self.bits, coder: self.coder, ..*old(self) }),
                size <= 0x100_0000,
                selectormodel.wf(),
                selectormodel.first == 0,
                selectormodel.freqs@.len() == 11,
                mtfmodel@.len() == 7,
                forall|k: int| 0 <= k < 7 ==> (#[trigger] mtfmodel@[k]).wf(),
                forall|k: int|
                    0 <= k < 7 ==> 0 <= (#[trigger] mtfmodel@[k]).first && mtfmodel@[k].first + mtfmodel@[k].freqs@.len()
                        <= 256,
                mtf.view().len() == 256,
                block@.len() <= size,
                block_from(
                    self.bits.data(),
                    BlockState {
                        c: self.coder.state(&self.bits),
                        selector: selectormodel.view(),
                        groups: models_view(mtfmodel@),
                        table: mtf.view(),
                        bytes: block@,
                    },
                    size as nat,
                ) == goal,
                goal == block_bytes_at(old(self).bits.data(), old(self).coder.state(&old(self).bits), size as nat),
            decreases size - block@.len(),
        {
            let ghost block0 = block@;
            let ghost groups0 = models_view(mtfmodel@);
            let mut sel: i32 = next_symbol(&mut self.coder, &mut self.bits, &mut selectormodel);
            let ghost c0 = self.coder.state(&self.bits);
            let ghost m0 = selectormodel.view();
            let ghost sel0 = sel as int;
            let room: usize = size - block.len();
            let mut weight: usize = 1;
            let mut zerocount: usize = 0;
            let ghost run = run_next(self.bits.data(), c0, m0, sel0, 1, 0, room as int);
            while sel < 2
                invariant
                    self.bits.wf(),
                    self.bits.data() == old(self).bits.data(),
                    self.coder.state(&self.bits).wf(),
                    *self == (Arsenic { bits: self.bits, coder: self.coder, ..*old(self) }),
                    0 <= sel <= 10,
                    selectormodel.wf(),
                    selectormodel.first == 0,
                    selectormodel.freqs@.len() == 11,
                    1 <= weight <= 2 * zerocount + 1,
                    zerocount <= room <= 0x100_0000,
                    run_next(
                        self.bits.data(),
                        self.coder.state(&self.bits),
                        selectormodel.view(),
                        sel as int,
                        weight as int,
                        zerocount as int,
                        room as int,
                    ) == run,
                    goal == block_bytes_at(old(self).bits.data(), old(self).coder.state(&old(self).bits), size as nat),
                    run matches Err(e) ==> goal == Err::<(Seq<u8>, CoderState), ErrorKind>(e),
                decreases room - zerocount,
            {
                let digit: usize = if sel == 0 {
                    weight
                } else {
                    2 * weight
                };
                assert(digit == (sel + 1) * weight) by (nonlinear_arith)
                    requires (sel == 0 && digit == weight) || (sel == 1 && digit == 2 * weight);
                if zerocount + digit > room {
                    return Err(ErrorKind::InvalidData);
                }
                zerocount = zerocount + digit;
                weight = 2 * weight;
                sel = next_symbol(&mut self.coder, &mut self.bits, &mut selectormodel);
            }
            let ghost c1 = self.coder.state(&self.bits);
            assert(run == Ok::<(int, int, CoderState, ModelState), ErrorKind>(
                (zerocount as int, sel as int, c1, selectormodel.view()),
            ));
            let fill: u8 = mtf.front();
            let mut k: usize = 0;
            while k < zerocount
                invariant
                    k <= zerocount,
                    block@ == block0 + copies(fill, k as int),
                decreases zerocount - k,
            {
                block.push(fill);
                k = k + 1;
                assert(block@ =~= block0 + copies(fill, k as int));
            }
            assert(block@ =~= block0 + copies(fill, zerocount as int));
            if sel == 10 {
                return Ok(block);
            }
            let symbol: i32 = if sel == 2 {
                1
            } else {
                let index: usize = (sel - 3) as usize;
                let v: i32 = next_symbol(&mut self.coder, &mut self.bits, &mut mtfmodel[index]);
                assert(models_view(mtfmodel@) =~= groups0.update(index as int, mtfmodel@[index as int].view()));
                v
            };
            if block.len() >= size {
                return Err(ErrorKind::InvalidData);
            }
            let b: u8 = mtf.decode(symbol as u8);
            block.push(b);
        }
    }

    /// Load the next block. Its string starts at one of its bytes, and the links lead
    /// through each of them once.
    fn read_block(&mut self) -> (r: Result<(), ErrorKind>)
        requires
            old(self).wf(),
        ensures
            final(self).bits.data() == old(self).bits.data(),
            match r {
                Ok(_) => {
                    &&& final(self).wf()
                    &&& block_loaded(old(self).bits.data(), old(self).state()) == Ok::<ArsenicState, ErrorKind>(
                        final(self).state(),
                    )
                    &&& final(self).transformindex < final(self).block@.len() <= pow2(final(self).blockbits as nat)
                    &&& final(self).blockbits == old(self).blockbits
                    &&& is_permutation(as_ints(final(self).transform@))
                    &&& final(self).transform@.len() == final(self).block@.len()
                    &&& final(self).count == 0
                    &&& final(self).bytecount == 0
                },
                Err(e) => block_loaded(old(self).bits.data(), old(self).state()) == Err::<ArsenicState, ErrorKind>(e),
            },
    {
        let randomized: bool = next_symbol(&mut self.coder, &mut self.bits, &mut self.initialmodel) != 0;
        let index: u32 = next_bitstring(&mut self.coder, &mut self.bits, &mut self.initialmodel, self.blockbits);
        proof {
            lemma2_to64();
            if self.blockbits < 24 {
                lemma_pow2_strictly_increases(self.blockbits as nat, 24);
            }
            vstd::bits::lemma_usize_shl_is_mul(1, self.blockbits as usize);
        }
        let size: usize = 1usize << (self.blockbits as usize);
        let block = match self.read_block_bytes(size) {
            Ok(b) => b,
            Err(e) => {
                return Err(e);
            },
        };
        if index as usize >= block.len() {
            return Err(ErrorKind::InvalidData);
        }
        if next_symbol(&mut self.coder, &mut self.bits, &mut self.initialmodel) != 0 {
            // The checksum that follows the last block is passed over.
            let _crc: u32 = next_bitstring(&mut self.coder, &mut self.bits, &mut self.initialmodel, 32);
            self.endofblocks = true;
        }
        self.transform = calculate_inverse_bwt(block.as_slice());
        self.block = block;
        self.transformindex = index as usize;
        self.randomized = randomized;
        self.bytecount = 0;
        self.count = 0;
        self.last = 0;
        self.randindex = 0;
        self.randcount = gap_at(0) as u64;
        proof {
            links_are_a_permutation(self.block@);
        }
        Ok(())
    }

    /// The next byte of the current block.
    fn next_raw(&mut self) -> (r: u8)
        requires
            old(self).wf(),
            old(self).bytecount < old(self).block@.len(),
        ensures
            final(self).wf(),
            final(self).bits.data() == old(self).bits.data(),
            (r, final(self).state()) == raw_next(old(self).state()),
    {
        proof {
            links_invert_places(self.block@);
            assert(links(self.block@)[self.transformindex as int] == self.transform@[self.transformindex as int]);
        }
        self.transformindex = self.transform[self.transformindex];
        let mut byte: u8 = self.block[self.transformindex];
        if self.randomized && self.randcount == self.bytecount as u64 {
            byte = byte ^ 1;
            self.randindex = (self.randindex + 1) % 256;
            self.randcount = self.randcount + gap_at(self.randindex) as u64;
        }
        self.bytecount = self.bytecount + 1;
        byte
    }

    /// The next output byte.
    fn produce_byte(&mut self) -> (r: Result<u8, ErrorKind>)
        requires
            old(self).wf(),
        ensures
            final(self).bits.data() == old(self).bits.data(),
            match r {
                Ok(b) => {
                    &&& final(self).wf()
                    &&& byte_next(old(self).bits.data(), old(self).state()) == Ok::<(u8, ArsenicState), ErrorKind>(
                        (b, final(self).state()),
                    )
                },
                Err(e) => byte_next(old(self).bits.data(), old(self).state()) == Err::<(u8, ArsenicState), ErrorKind>(e),
            },
    {
        if self.repeat > 0 {
            self.repeat = self.repeat - 1;
            return Ok(self.last);
        }
        loop
            invariant
                self.wf(),
                self.repeat == 0,
                self.bits.data() == old(self).bits.data(),
                byte_next(self.bits.data(), self.state()) == byte_next(old(self).bits.data(), old(self).state()),
            decreases (if self.count == 4 { 1int } else { 0int }),
        {
            if self.bytecount >= self.block.len() {
                if self.endofblocks {
                    return Err(ErrorKind::UnexpectedEof);
                }
                match self.read_block() {
                    Ok(_) => {},
                    Err(e) => {
                        return Err(e);
                    },
                }
            }
            let byte: u8 = self.next_raw();
            if self.count == 4 {
                self.count = 0;
                if byte == 0 {
                    continue;
                }
                self.repeat = byte - 1;
                return Ok(self.last);
            }
            if byte == self.last {
                self.count = self.count + 1;
            } else {
                self.count = 1;
                self.last = byte;
            }
            return Ok(byte);
        }
    }
}

/// Decode the first `outlen` bytes of a method 15 fork.
pub fn decode(src: &[u8], outlen: usize) -> (r: Result<Vec<u8>, ErrorKind>)
    ensures
        bytes_of(r) == decoded(src@, outlen as nat),
{
    if outlen == 0 {
        return Ok(Vec::new());
    }
    let mut arsenic = match Arsenic::new(src) {
        Ok(a) => a,
        Err(e) => {
            return Err(e);
        },
    };
    let mut out: Vec<u8> = Vec::new();
    let ghost goal = decoded(src@, outlen as nat);
    proof {
        after_nothing(goal);
    }
    while out.len() < outlen
        invariant
            out@.len() <= outlen,
            arsenic.wf(),
            arsenic.bits.data() == src@,
            goal == decoded(src@, outlen as nat),
            goal == after(out@, bytes_next(src@, arsenic.state(), (outlen - out@.len()) as nat)),
        decreases outlen - out@.len(),
    {
        let b: u8 = match arsenic.produce_byte() {
            Ok(b) => b,
            Err(e) => {
                return Err(e);
            },
        };
        proof {
            after_push(out@, b, bytes_next(src@, arsenic.state(), (outlen - out@.len() - 1) as nat));
        }
        out.push(b);
    }
    assert(out@ + seq![] =~= out@);
    Ok(out)
}

/// For each row of the sorted rotations, the row whose byte comes next.
pub fn inverse_bwt(block: &[u8]) -> (r: Vec<usize>)
    ensures
        as_ints(r@) == links(block@),
        r@.len() == block@.len(),
{
    calculate_inverse_bwt(block)
}

spec fn models_view(models: Seq<Model>) -> Seq<ModelState> {
    Seq::new(models.len(), |i: int| models[i].view())
}

} // verus!
