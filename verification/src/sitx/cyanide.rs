use vstd::prelude::*;
use vstd::arithmetic::power2::{pow2, lemma2_to64, lemma_pow2_unfold, lemma_pow2_strictly_increases};
use vstd::slice::slice_subrange;
use crate::catalog::{append, be32, read_be32};
use crate::error::ErrorKind;
use crate::sitx::bwt::{decode_m1ffn_block, m1ffn_decoded, unsort_bwt, unsorted_bwt};
use crate::sitx::rangecoder::{range_start, symbol_next, Kind, RangeCoder, RangeState};

verus! {

/// The frequency group of each context of three symbols.
pub const MARKOV_GROUPS: [usize; 27] = [
    0, 1, 2, 3, 4, 5, 6, 7, 8, 3, 9, 10, 3, 4, 5, 11, 11, 8, 6, 2, 5, 6, 7, 8, 12, 12, 13,
];

/// The form of the range decoder that is used.
pub open spec fn coder_kind() -> Kind {
    Kind { uselow: true, bottom: 0x1_0000 }
}

// === adaptive models ==========================================================

pub open spec fn sum(freqs: Seq<u32>) -> int
    decreases freqs.len(),
{
    if freqs.len() == 0 {
        0
    } else {
        sum(freqs.drop_last()) + freqs.last()
    }
}

/// Frequencies in rising order, and the symbol that each of them belongs to.
pub struct ModelState {
    pub freqs: Seq<u32>,
    pub mapping: Seq<u32>,
}

/// A model of `num` symbols, all of frequency 1, the last symbol first.
pub open spec fn model_start(num: nat) -> ModelState {
    ModelState {
        freqs: Seq::new(num, |i: int| 1u32),
        mapping: Seq::new(num, |i: int| (num - 1 - i) as u32),
    }
}

pub open spec fn halved(freqs: Seq<u32>) -> Seq<u32> {
    Seq::new(freqs.len(), |i: int| ((freqs[i] + 1) / 2) as u32)
}

/// The last of the places from `i` on that share the frequency at `i`.
pub open spec fn last_tied(freqs: Seq<u32>, i: int) -> int
    decreases freqs.len() - i,
{
    if i >= freqs.len() - 1 || freqs[i + 1] != freqs[i] {
        i
    } else {
        last_tied(freqs, i + 1)
    }
}

/// The model after one more use of the symbol at `index`, and the symbol's new
/// place. When the frequencies add up to `maxtotal` they are halved first.
pub open spec fn bumped(m: ModelState, index: int, maxtotal: u32) -> (ModelState, int) {
    let freqs = if sum(m.freqs) >= maxtotal {
        halved(m.freqs)
    } else {
        m.freqs
    };
    let last = last_tied(freqs, index);
    (
        ModelState {
            freqs: freqs.update(last, (freqs[last] + 1) as u32),
            mapping: m.mapping.update(index, m.mapping[last]).update(last, m.mapping[index]),
        },
        last,
    )
}

// === the ternary code =========================================================

/// The three symbols by rising frequency.
pub open spec fn ranked(a: u32, b: u32, c: u32) -> (int, int, int) {
    if a < b {
        if a < c {
            if b < c {
                (0, 1, 2)
            } else {
                (0, 2, 1)
            }
        } else {
            (2, 0, 1)
        }
    } else if b < c {
        if c < a {
            (1, 2, 0)
        } else {
            (1, 0, 2)
        }
    } else {
        (2, 1, 0)
    }
}

/// Three frequencies.
#[derive(Clone, Copy)]
pub struct Triple {
    pub a: u32,
    pub b: u32,
    pub c: u32,
}

impl Triple {
    pub open spec fn at(self, i: int) -> u32 {
        if i == 0 {
            self.a
        } else if i == 1 {
            self.b
        } else {
            self.c
        }
    }

    pub open spec fn plus(self, i: int, n: u32) -> Triple {
        Triple {
            a: if i == 0 {
                (self.a + n) as u32
            } else {
                self.a
            },
            b: if i == 1 {
                (self.b + n) as u32
            } else {
                self.b
            },
            c: if i == 2 {
                (self.c + n) as u32
            } else {
                self.c
            },
        }
    }

    pub open spec fn half(self) -> Triple {
        Triple { a: (self.a / 2) as u32, b: (self.b / 2) as u32, c: (self.c / 2) as u32 }
    }

    pub open spec fn sum(self) -> int {
        self.a + self.b + self.c
    }
}

/// The frequencies by which the three symbols are coded, in rising order: each
/// is one above its count.
pub open spec fn ranked_freqs(t: Triple) -> Seq<u32> {
    let (x, y, z) = ranked(t.a, t.b, t.c);
    seq![(t.at(x) + 1) as u32, (t.at(y) + 1) as u32, (t.at(z) + 1) as u32]
}

pub open spec fn ranked_symbol(t: Triple, n: int) -> int {
    let (x, y, z) = ranked(t.a, t.b, t.c);
    if n == 0 {
        x
    } else if n == 1 {
        y
    } else {
        z
    }
}

/// The sizes of the models for the low parts of the symbols from 3 on, of which
/// there are `n`; the next model would by itself have 2 to the `shift`.
pub open spec fn low_sizes(n: nat, shift: nat) -> Seq<nat>
    decreases n,
{
    if n == 0 {
        seq![]
    } else if n < 3 * pow2(shift) || pow2(shift) == 0 {
        seq![n]
    } else {
        seq![pow2(shift)] + low_sizes((n - pow2(shift)) as nat, shift + 1)
    }
}

/// The decoding of a block's symbols, under way.
pub struct TernaryState {
    pub s: RangeState,
    pub groups: Seq<Triple>,
    pub high: ModelState,
    pub low: Seq<ModelState>,
    pub prev: int,
    pub prev2: int,
    pub prev3: int,
    pub quiet: bool,
}

pub open spec fn ternary_start(input: Seq<u8>, numsymbols: nat) -> TernaryState {
    let sizes = low_sizes(numsymbols, 1);
    TernaryState {
        s: range_start(input),
        groups: Seq::new(14, |i: int| Triple { a: 0, b: 0, c: 0 }),
        high: model_start(sizes.len() + 1),
        low: Seq::new(sizes.len(), |i: int| model_start(sizes[i])),
        prev: 0,
        prev2: 0,
        prev3: 0,
        quiet: true,
    }
}

/// The counts of a group after symbol `t`: while nothing but zeros comes they may
/// grow large, and the first zero after a while in the group of zeros weighs more.
pub open spec fn counted(g: Triple, t: int, group: int, quiet: bool) -> (Triple, bool) {
    if t == 0 && !quiet && group == 0 {
        (g.half().plus(0, 3), true)
    } else {
        let quiet1 = quiet && t == 0;
        let limit = if quiet1 {
            4096int
        } else {
            128int
        };
        (
            (if g.sum() + 3 > limit {
                g.half()
            } else {
                g
            }).plus(t, 2),
            quiet1,
        )
    }
}

/// The value of a symbol from 2 on: which power of two it is near, and its place
/// behind it.
pub open spec fn escape_next(input: Seq<u8>, st: TernaryState) -> Option<(u8, TernaryState)> {
    match symbol_next(input, st.s, coder_kind(), st.high.freqs) {
        None => None,
        Some((i, s1)) => {
            let highbit = st.high.mapping[i] as int;
            let (high1, place) = bumped(st.high, i, 0x100);
            let (high2, place2) = bumped(high1, place, 0x1_0000);
            if highbit == 0 {
                Some((2u8, TernaryState { s: s1, high: high2, ..st }))
            } else if highbit > st.low.len() {
                None
            } else {
                let m = st.low[highbit - 1];
                match symbol_next(input, s1, coder_kind(), m.freqs) {
                    None => None,
                    Some((j, s2)) => {
                        let max = if m.freqs.len() * 128 < 0x4000 {
                            (m.freqs.len() * 128) as u32
                        } else {
                            0x4000u32
                        };
                        let (m1, p1) = bumped(m, j, max);
                        Some(
                            (
                                ((pow2(highbit as nat) + m.mapping[j] + 1) % 0x100) as u8,
                                TernaryState { s: s2, high: high2, low: st.low.update(highbit - 1, m1), ..st },
                            ),
                        )
                    },
                }
            }
        },
    }
}

/// The next symbol of a block.
pub open spec fn ternary_next(input: Seq<u8>, st: TernaryState) -> Option<(u8, TernaryState)> {
    let group = MARKOV_GROUPS@[st.prev3 * 9 + st.prev2 * 3 + st.prev] as int;
    let g = st.groups[group];
    match symbol_next(input, st.s, coder_kind(), ranked_freqs(g)) {
        None => None,
        Some((n, s1)) => {
            let t = ranked_symbol(g, n);
            let (g1, quiet1) = counted(g, t, group, st.quiet);
            let st1 = TernaryState {
                s: s1,
                groups: st.groups.update(group, g1),
                quiet: quiet1,
                prev: t,
                prev2: st.prev,
                prev3: st.prev2,
                ..st
            };
            if t <= 1 {
                Some((t as u8, st1))
            } else {
                escape_next(input, st1)
            }
        },
    }
}

/// The symbols of a block of `size`, given those decoded before `st`, and the
/// decoder after them.
pub open spec fn ternary_from(input: Seq<u8>, st: TernaryState, found: Seq<u8>, size: nat) -> Option<
    (Seq<u8>, RangeState),
>
    decreases size - found.len(),
{
    if found.len() >= size {
        Some((found, st.s))
    } else {
        match ternary_next(input, st) {
            None => None,
            Some((v, st1)) => ternary_from(input, st1, found.push(v), size),
        }
    }
}

// === the stream ===============================================================

/// The blocks from `at` on behind the bytes found before, and where the stream ends.
pub open spec fn blocks_from(data: Seq<u8>, at: int, found: Seq<u8>) -> Result<(Seq<u8>, int), ErrorKind>
    decreases
        (if at < data.len() {
            data.len() - at
        } else {
            0
        }),
{
    if at < 0 || at >= data.len() {
        Err(ErrorKind::UnexpectedEof)
    } else if data[at] == 0xff {
        Ok((found, at + 1))
    } else if data[at] != 0x77 {
        Err(ErrorKind::InvalidData)
    } else if at + 10 > data.len() {
        Err(ErrorKind::UnexpectedEof)
    } else {
        let size = be32(data, at + 1);
        let first = be32(data, at + 5);
        let input = data.skip(at + 10);
        match ternary_from(input, ternary_start(input, data[at + 9] as nat), seq![], size as nat) {
            None => Err(ErrorKind::InvalidData),
            Some((symbols, s)) => if size > 0 && first >= size {
                Err(ErrorKind::InvalidData)
            } else {
                blocks_from(data, at + 10 + s.pos, found + unsorted_bwt(m1ffn_decoded(symbols, 2), first as int))
            },
        }
    }
}

/// The content of a stream, whose first byte means nothing, and where it ends.
pub open spec fn framed(data: Seq<u8>) -> Result<(Seq<u8>, nat), ErrorKind> {
    match blocks_from(data, 1, seq![]) {
        Err(e) => Err(e),
        Ok((v, n)) => Ok((v, n as nat)),
    }
}

/// The content of a stream.
pub open spec fn decoded(data: Seq<u8>) -> Result<Seq<u8>, ErrorKind> {
    match framed(data) {
        Err(e) => Err(e),
        Ok((v, n)) => Ok(v),
    }
}

// === sums =====================================================================

pub(crate) proof fn sum_nonneg(freqs: Seq<u32>)
    ensures
        sum(freqs) >= 0,
    decreases freqs.len(),
{
    if freqs.len() > 0 {
        sum_nonneg(freqs.drop_last());
    }
}

pub(crate) proof fn sum_bounds(freqs: Seq<u32>, i: int)
    requires
        0 <= i < freqs.len(),
    ensures
        freqs[i] <= sum(freqs),
    decreases freqs.len(),
{
    sum_nonneg(freqs.drop_last());
    if i < freqs.len() - 1 {
        sum_bounds(freqs.drop_last(), i);
    }
}

pub(crate) proof fn sum_update(freqs: Seq<u32>, i: int, v: u32)
    requires
        0 <= i < freqs.len(),
    ensures
        sum(freqs.update(i, v)) == sum(freqs) - freqs[i] + v,
    decreases freqs.len(),
{
    let g = freqs.update(i, v);
    if i == freqs.len() - 1 {
        assert(g.drop_last() =~= freqs.drop_last());
    } else {
        assert(g.drop_last() =~= freqs.drop_last().update(i, v));
        sum_update(freqs.drop_last(), i, v);
    }
}

pub(crate) proof fn sum_halved(freqs: Seq<u32>)
    ensures
        2 * sum(halved(freqs)) <= sum(freqs) + freqs.len(),
    decreases freqs.len(),
{
    if freqs.len() > 0 {
        sum_halved(freqs.drop_last());
        assert(halved(freqs).drop_last() =~= halved(freqs.drop_last()));
    }
}

pub(crate) proof fn sum_ones(n: nat)
    ensures
        sum(Seq::new(n, |i: int| 1u32)) == n,
    decreases n,
{
    let s = Seq::new(n, |i: int| 1u32);
    if n > 0 {
        assert(s.drop_last() =~= Seq::new((n - 1) as nat, |i: int| 1u32));
        sum_ones((n - 1) as nat);
    }
}

pub(crate) proof fn last_tied_range(freqs: Seq<u32>, i: int)
    requires
        0 <= i < freqs.len(),
    ensures
        i <= last_tied(freqs, i) < freqs.len(),
        freqs[last_tied(freqs, i)] == freqs[i],
    decreases freqs.len() - i,
{
    if !(i >= freqs.len() - 1 || freqs[i + 1] != freqs[i]) {
        last_tied_range(freqs, i + 1);
    }
}

/// The frequencies rise.
pub open spec fn rising(freqs: Seq<u32>) -> bool {
    forall|i: int, j: int| 0 <= i <= j < freqs.len() ==> freqs[i] <= freqs[j]
}

proof fn last_tied_ends(freqs: Seq<u32>, i: int)
    requires
        0 <= i < freqs.len(),
    ensures
        last_tied(freqs, i) == freqs.len() - 1 || freqs[last_tied(freqs, i) + 1] != freqs[i],
    decreases freqs.len() - i,
{
    if !(i >= freqs.len() - 1 || freqs[i + 1] != freqs[i]) {
        last_tied_ends(freqs, i + 1);
    }
}

/// Counting a symbol moves it behind those that were as frequent: the frequencies still
/// rise, the symbol is found at its new place, the one that was there takes the old
/// place, and all others stay. Below `maxtotal` only its own frequency changes, by 1.
pub proof fn bumping_keeps_order(m: ModelState, index: int, maxtotal: u32)
    requires
        m.freqs.len() == m.mapping.len(),
        0 <= index < m.freqs.len(),
        rising(m.freqs),
        sum(m.freqs) <= u32::MAX,
    ensures
        ({
            let (m1, place) = bumped(m, index, maxtotal);
            &&& index <= place < m.freqs.len()
            &&& m1.freqs.len() == m.freqs.len()
            &&& m1.mapping.len() == m.mapping.len()
            &&& rising(m1.freqs)
            &&& m1.mapping[place] == m.mapping[index]
            &&& m1.mapping[index] == m.mapping[place]
            &&& forall|i: int|
                0 <= i < m.mapping.len() && i != index && i != place ==> #[trigger] m1.mapping[i] == m.mapping[i]
            &&& sum(m.freqs) < maxtotal ==> m1.freqs[place] == m.freqs[index] + 1 && forall|i: int|
                0 <= i < m.freqs.len() && i != place ==> #[trigger] m1.freqs[i] == m.freqs[i]
        }),
{
    let freqs = if sum(m.freqs) >= maxtotal {
        halved(m.freqs)
    } else {
        m.freqs
    };
    assert(rising(freqs));
    let last = last_tied(freqs, index);
    last_tied_range(freqs, index);
    last_tied_ends(freqs, index);
    sum_bounds(m.freqs, last);
    assert(freqs[last] < u32::MAX);
    let (m1, place) = bumped(m, index, maxtotal);
    assert forall|i: int, j: int| 0 <= i <= j < m1.freqs.len() implies m1.freqs[i] <= m1.freqs[j] by {
        assert(freqs[i] <= freqs[j]);
        if i == last && j > last {
            assert(freqs[last] <= freqs[last + 1] && freqs[last + 1] <= freqs[j]);
        }
    }
}

// === the executable models ====================================================

/// An adaptive frequency model.
pub struct RangeCoderModel {
    pub frequencies: Vec<u32>,
    pub mapping: Vec<u32>,
}

impl RangeCoderModel {
    pub open spec fn view(&self) -> ModelState {
        ModelState { freqs: self.frequencies@, mapping: self.mapping@ }
    }

    pub open spec fn wf(&self) -> bool {
        &&& self.frequencies@.len() == self.mapping@.len()
        &&& self.frequencies@.len() <= 256
        &&& sum(self.frequencies@) <= u32::MAX
    }

    /// A model of `num` symbols, all of frequency 1.
    pub fn new(num: usize) -> (r: Self)
        requires
            num <= 256,
        ensures
            r.wf(),
            r.view() == model_start(num as nat),
    {
        let mut frequencies: Vec<u32> = Vec::new();
        let mut mapping: Vec<u32> = Vec::new();
        let ghost m = model_start(num as nat);
        let mut i: usize = 0;
        while i < num
            invariant
                num <= 256,
                i <= num,
                m == model_start(num as nat),
                frequencies@ == m.freqs.subrange(0, i as int),
                mapping@ == m.mapping.subrange(0, i as int),
            decreases num - i,
        {
            frequencies.push(1);
            mapping.push((num - 1 - i) as u32);
            i = i + 1;
            assert(frequencies@ =~= m.freqs.subrange(0, i as int));
            assert(mapping@ =~= m.mapping.subrange(0, i as int));
        }
        assert(frequencies@ =~= m.freqs);
        assert(mapping@ =~= m.mapping);
        proof {
            sum_ones(num as nat);
        }
        RangeCoderModel { frequencies, mapping }
    }

    /// The symbol at a place.
    pub fn symbol(&self, index: usize) -> (r: u32)
        requires
            index < self.mapping@.len(),
        ensures
            r == self.view().mapping[index as int],
    {
        self.mapping[index]
    }

    /// Count one more use of the symbol at `index` and return its new place.
    pub fn bump(&mut self, index: usize, maxtotal: u32) -> (r: usize)
        requires
            old(self).wf(),
            index < old(self).frequencies@.len(),
        ensures
            (final(self).view(), r as int) == bumped(old(self).view(), index as int, maxtotal),
            r < old(self).frequencies@.len(),
            final(self).frequencies@.len() == old(self).frequencies@.len(),
            final(self).wf(),
    {
        let ghost freqs0 = self.frequencies@;
        let mut total: u64 = 0;
        let mut i: usize = 0;
        assert(freqs0.subrange(0, 0) =~= seq![]);
        while i < self.frequencies.len()
            invariant
                *self == *old(self),
                self.wf(),
                freqs0 == self.frequencies@,
                i <= freqs0.len(),
                total == sum(freqs0.subrange(0, i as int)),
                total <= 0xffff_ffff * i,
            decreases freqs0.len() - i,
        {
            assert(freqs0.subrange(0, i + 1).drop_last() =~= freqs0.subrange(0, i as int));
            total = total + self.frequencies[i] as u64;
            i = i + 1;
        }
        assert(freqs0.subrange(0, i as int) =~= freqs0);
        let ghost freqs1 = if sum(freqs0) >= maxtotal {
            halved(freqs0)
        } else {
            freqs0
        };
        if total >= maxtotal as u64 {
            let mut k: usize = 0;
            while k < self.frequencies.len()
                invariant
                    k <= freqs0.len(),
                    self.frequencies@.len() == freqs0.len(),
                    self.mapping@ == old(self).mapping@,
                    forall|j: int| 0 <= j < k ==> #[trigger] self.frequencies@[j] == halved(freqs0)[j],
                    forall|j: int| k <= j < freqs0.len() ==> #[trigger] self.frequencies@[j] == freqs0[j],
                decreases freqs0.len() - k,
            {
                let f: u32 = self.frequencies[k] / 2 + self.frequencies[k] % 2;
                self.frequencies[k] = f;
                k = k + 1;
            }
            assert(self.frequencies@ =~= halved(freqs0));
        }
        assert(self.frequencies@ == freqs1);
        proof {
            sum_halved(freqs0);
            last_tied_range(freqs1, index as int);
        }
        let freq: u32 = self.frequencies[index];
        let mut last: usize = index;
        while last < self.frequencies.len() - 1 && self.frequencies[last + 1] == freq
            invariant
                self.frequencies@ == freqs1,
                self.mapping@ == old(self).mapping@,
                last < freqs1.len(),
                freqs1[last as int] == freq,
                last_tied(freqs1, last as int) == last_tied(freqs1, index as int),
            decreases freqs1.len() - last,
        {
            last = last + 1;
        }
        let a: u32 = self.mapping[index];
        let b: u32 = self.mapping[last];
        self.mapping[index] = b;
        self.mapping[last] = a;
        proof {
            sum_bounds(freqs1, last as int);
            sum_update(freqs1, last as int, (freqs1[last as int] + 1) as u32);
        }
        let f: u32 = self.frequencies[last] + 1;
        self.frequencies[last] = f;
        last
    }
}

/// The frequencies by which three symbols are coded, in rising order, and the
/// symbol behind each.
pub fn calculate_ternary_frequencies(infreqs: &[u32; 3]) -> (r: ([u32; 3], [usize; 3]))
    requires
        infreqs@[0] < u32::MAX,
        infreqs@[1] < u32::MAX,
        infreqs@[2] < u32::MAX,
    ensures
        r.0@ == ranked_freqs(Triple { a: infreqs@[0], b: infreqs@[1], c: infreqs@[2] }),
        forall|n: int| 0 <= n < 3 ==> #[trigger] r.1@[n] == ranked_symbol(
            Triple { a: infreqs@[0], b: infreqs@[1], c: infreqs@[2] },
            n,
        ),
        r.0@[0] <= r.0@[1] <= r.0@[2],
{
    let a: u32 = infreqs[0];
    let b: u32 = infreqs[1];
    let c: u32 = infreqs[2];
    let meanings: [usize; 3] = if a < b {
        if a < c {
            if b < c {
                [0, 1, 2]
            } else {
                [0, 2, 1]
            }
        } else {
            [2, 0, 1]
        }
    } else if b < c {
        if c < a {
            [1, 2, 0]
        } else {
            [1, 0, 2]
        }
    } else {
        [2, 1, 0]
    };
    let outfreqs: [u32; 3] = [infreqs[meanings[0]] + 1, infreqs[meanings[1]] + 1, infreqs[meanings[2]] + 1];
    assert(outfreqs@ =~= ranked_freqs(Triple { a, b, c }));
    (outfreqs, meanings)
}

// === decoding =================================================================

spec fn models_view(models: Seq<RangeCoderModel>) -> Seq<ModelState> {
    Seq::new(models.len(), |i: int| models[i].view())
}

/// What a high part stands for fits the number of models.
spec fn mapping_below(m: ModelState, n: int) -> bool {
    forall|i: int| 0 <= i < m.mapping.len() ==> (#[trigger] m.mapping[i]) < n
}

/// The executable decoding of a block.
struct Ternary<'a> {
    coder: RangeCoder<'a>,
    groups: Vec<Triple>,
    high: RangeCoderModel,
    low: Vec<RangeCoderModel>,
    prev: usize,
    prev2: usize,
    prev3: usize,
    quiet: bool,
}

impl<'a> Ternary<'a> {
    spec fn state(&self) -> TernaryState {
        TernaryState {
            s: self.coder.state(),
            groups: self.groups@,
            high: self.high.view(),
            low: models_view(self.low@),
            prev: self.prev as int,
            prev2: self.prev2 as int,
            prev3: self.prev3 as int,
            quiet: self.quiet,
        }
    }

    spec fn wf(&self) -> bool {
        &&& self.coder.wf()
        &&& self.coder.kind() == coder_kind()
        &&& self.groups@.len() == 14
        &&& forall|i: int| 0 <= i < 14 ==> (#[trigger] self.groups@[i]).sum() <= 0x2000
        &&& self.high.wf()
        &&& mapping_below(self.high.view(), self.low@.len() as int + 1)
        &&& self.low@.len() <= 8
        &&& forall|i: int| 0 <= i < self.low@.len() ==> (#[trigger] self.low@[i]).wf()
        &&& forall|i: int| 0 <= i < self.low@.len() ==> mapping_below((#[trigger] self.low@[i]).view(), 256)
        &&& self.prev <= 2
        &&& self.prev2 <= 2
        &&& self.prev3 <= 2
    }

    /// Start a block with `numsymbols` symbols from 3 on.
    fn new(input: &'a [u8], numsymbols: u8) -> (r: Self)
        ensures
            r.wf(),
            r.coder.input() == input@,
            r.state() == ternary_start(input@, numsymbols as nat),
    {
        let coder = RangeCoder::new(input, true, 0x1_0000);
        let groups: Vec<Triple> = vec![Triple { a: 0, b: 0, c: 0 }; 14];
        let mut low: Vec<RangeCoderModel> = Vec::new();
        let mut n: usize = numsymbols as usize;
        let mut shift: u32 = 1;
        let mut width: usize = 2;
        let ghost sizes = low_sizes(numsymbols as nat, 1);
        proof {
            lemma2_to64();
            assert(sizes.subrange(0, 0) + low_sizes(n as nat, 1) =~= sizes);
        }
        while n != 0
            invariant
                n <= 255,
                1 <= shift <= 9,
                low@.len() == shift - 1,
                width == pow2(shift as nat),
                width <= 512,
                shift == 9 ==> n == 0,
                sizes == low_sizes(numsymbols as nat, 1),
                low@.len() <= sizes.len(),
                sizes.subrange(0, low@.len() as int) + low_sizes(n as nat, shift as nat) == sizes,
                forall|i: int| 0 <= i < low@.len() ==> (#[trigger] low@[i]).wf(),
                forall|i: int| 0 <= i < low@.len() ==> mapping_below((#[trigger] low@[i]).view(), 256),
                forall|i: int| 0 <= i < low@.len() ==> (#[trigger] low@[i]).view() == model_start(sizes[i]),
            decreases n,
        {
            let take: usize = if n < 3 * width {
                n
            } else {
                width
            };
            proof {
                lemma2_to64();
                lemma_pow2_unfold((shift + 1) as nat);
                lemma_pow2_strictly_increases(0, shift as nat);
                if shift == 8 {
                    assert(n < 3 * width);
                }
                if shift + 1 < 9 {
                    lemma_pow2_strictly_increases((shift + 1) as nat, 9);
                }
                let rest = low_sizes(n as nat, shift as nat);
                assert(rest.len() > 0);
                assert(rest[0] == take);
                let k = low@.len() as int;
                assert(sizes[k] == take);
                if n < 3 * width {
                    assert(rest =~= seq![take as nat]);
                    assert(low_sizes(0, (shift + 1) as nat) =~= seq![]);
                }
                assert(sizes.subrange(0, k + 1) + low_sizes((n - take) as nat, (shift + 1) as nat) =~= sizes.subrange(0, k)
                    + rest);
                assert(sizes.subrange(0, k + 1) + low_sizes((n - take) as nat, (shift + 1) as nat) =~= sizes);
            }
            low.push(RangeCoderModel::new(take));
            n = n - take;
            shift = shift + 1;
            width = 2 * width;
        }
        let high = RangeCoderModel::new(shift as usize);
        let r = Ternary { coder, groups, high, low, prev: 0, prev2: 0, prev3: 0, quiet: true };
        proof {
            assert(low_sizes(0, shift as nat) =~= seq![]);
            assert(sizes.subrange(0, low@.len() as int) =~= sizes);
            assert(r.groups@ =~= ternary_start(input@, numsymbols as nat).groups);
            assert(models_view(r.low@) =~= ternary_start(input@, numsymbols as nat).low);
        }
        r
    }

    /// Decode a symbol from 2 on.
    fn next_escape(&mut self) -> (r: Option<u8>)
        requires
            old(self).wf(),
        ensures
            final(self).coder.input() == old(self).coder.input(),
            match r {
                Some(v) => {
                    &&& final(self).wf()
                    &&& escape_next(old(self).coder.input(), old(self).state()) == Some((v, final(self).state()))
                },
                None => escape_next(old(self).coder.input(), old(self).state()) is None,
            },
    {
        let i: usize = match self.coder.next_symbol(self.high.frequencies.as_slice()) {
            Some(i) => i,
            None => {
                return None;
            },
        };
        let highbit: u32 = self.high.symbol(i);
        let ghost high0 = self.high.view();
        let place: usize = self.high.bump(i, 0x100);
        let _place: usize = self.high.bump(place, 0x1_0000);
        proof {
            assert(high0.mapping[i as int] < self.low@.len() + 1);
        }
        if highbit == 0 {
            return Some(2);
        }
        let k: usize = highbit as usize - 1;
        let ghost low0 = models_view(self.low@);
        let ghost m = self.low@[k as int].view();
        assert(self.low@[k as int].wf());
        let j: usize = match self.coder.next_symbol(self.low[k].frequencies.as_slice()) {
            Some(j) => j,
            None => {
                return None;
            },
        };
        let lowbits: u32 = self.low[k].symbol(j);
        assert(m.mapping[j as int] < 256);
        let size: usize = self.low[k].frequencies.len();
        let max: u32 = if size * 128 < 0x4000 {
            (size * 128) as u32
        } else {
            0x4000
        };
        let _new: usize = self.low[k].bump(j, max);
        proof {
            assert(models_view(self.low@) =~= low0.update(k as int, self.low@[k as int].view()));
            lemma2_to64();
            if highbit < 8 {
                lemma_pow2_strictly_increases(highbit as nat, 8);
            }
            vstd::bits::lemma_u32_shl_is_mul(1, highbit);
        }
        Some((((1u32 << highbit) + lowbits + 1) % 0x100) as u8)
    }

    /// Decode one symbol.
    fn next(&mut self) -> (r: Option<u8>)
        requires
            old(self).wf(),
        ensures
            final(self).coder.input() == old(self).coder.input(),
            match r {
                Some(v) => {
                    &&& final(self).wf()
                    &&& ternary_next(old(self).coder.input(), old(self).state()) == Some((v, final(self).state()))
                },
                None => ternary_next(old(self).coder.input(), old(self).state()) is None,
            },
    {
        let group: usize = MARKOV_GROUPS[self.prev3 * 9 + self.prev2 * 3 + self.prev];
        assert(group < 14);
        let g: Triple = self.groups[group];
        assert(self.groups@[group as int].sum() <= 0x2000);
        let counts: [u32; 3] = [g.a, g.b, g.c];
        assert(Triple { a: counts@[0], b: counts@[1], c: counts@[2] } == g);
        let (freqs, meanings) = calculate_ternary_frequencies(&counts);
        let n: usize = match self.coder.next_symbol(freqs.as_slice()) {
            Some(n) => n,
            None => {
                return None;
            },
        };
        let t: usize = meanings[n];
        let ghost st0 = self.state();
        let mut g1: Triple = g;
        if t == 0 && !self.quiet && group == 0 {
            self.quiet = true;
            g1 = Triple { a: g.a / 2 + 3, b: g.b / 2, c: g.c / 2 };
        } else {
            if t != 0 {
                self.quiet = false;
            }
            let total: u32 = g.a + g.b + g.c + 3;
            let limit: u32 = if self.quiet {
                4096
            } else {
                128
            };
            if total > limit {
                g1 = Triple { a: g.a / 2, b: g.b / 2, c: g.c / 2 };
            }
            if t == 0 {
                g1.a = g1.a + 2;
            } else if t == 1 {
                g1.b = g1.b + 2;
            } else {
                g1.c = g1.c + 2;
            }
        }
        assert((g1, self.quiet) == counted(g, t as int, group as int, st0.quiet));
        self.groups[group] = g1;
        self.prev3 = self.prev2;
        self.prev2 = self.prev;
        self.prev = t;
        if t <= 1 {
            Some(t as u8)
        } else {
            self.next_escape()
        }
    }
}

/// Decode the symbols of a block.
fn read_ternary_coded_block(input: &[u8], blocksize: u32, numsymbols: u8) -> (r: Option<(Vec<u8>, u64)>)
    ensures
        match r {
            Some((v, n)) => {
                &&& ternary_from(input@, ternary_start(input@, numsymbols as nat), seq![], blocksize as nat) matches Some((w, s))
                    && w == v@ && s.pos == n
                &&& v@.len() == blocksize
            },
            None => ternary_from(input@, ternary_start(input@, numsymbols as nat), seq![], blocksize as nat) is None,
        },
{
    let mut t = Ternary::new(input, numsymbols);
    let mut sorted: Vec<u8> = Vec::new();
    let ghost goal = ternary_from(input@, ternary_start(input@, numsymbols as nat), seq![], blocksize as nat);
    while sorted.len() < blocksize as usize
        invariant
            sorted@.len() <= blocksize,
            t.wf(),
            t.coder.input() == input@,
            goal == ternary_from(input@, ternary_start(input@, numsymbols as nat), seq![], blocksize as nat),
            ternary_from(input@, t.state(), sorted@, blocksize as nat) == goal,
        decreases blocksize - sorted@.len(),
    {
        match t.next() {
            Some(v) => {
                sorted.push(v);
            },
            None => {
                return None;
            },
        }
    }
    Some((sorted, t.coder.position()))
}

/// Decode a stream and tell where it ends.
pub fn decode_framed(blocks: &[u8], _size: usize) -> (r: Result<(Vec<u8>, u64), ErrorKind>)
    ensures
        match r {
            Ok((v, n)) => framed(blocks@) == Ok::<(Seq<u8>, nat), ErrorKind>((v@, n as nat)),
            Err(e) => framed(blocks@) == Err::<(Seq<u8>, nat), ErrorKind>(e),
        },
{
    let mut out: Vec<u8> = Vec::new();
    let mut cursor: u128 = 1;
    loop
        invariant
            1 <= cursor <= 0x1_0000_0000_0000_0000_0000,
            blocks_from(blocks@, cursor as int, out@) == blocks_from(blocks@, 1, seq![]),
        decreases
            (if cursor < blocks@.len() {
                blocks@.len() - cursor
            } else {
                0
            }),
    {
        if cursor >= blocks.len() as u128 {
            return Err(ErrorKind::UnexpectedEof);
        }
        let at: usize = cursor as usize;
        let marker: u8 = blocks[at];
        if marker == 0xff {
            return Ok((out, at as u64 + 1));
        }
        if marker != 0x77 {
            return Err(ErrorKind::InvalidData);
        }
        if blocks.len() - at < 10 {
            return Err(ErrorKind::UnexpectedEof);
        }
        let blocksize: u32 = read_be32(blocks, at + 1);
        let firstindex: u32 = read_be32(blocks, at + 5);
        let numsymbols: u8 = blocks[at + 9];
        let input = slice_subrange(blocks, at + 10, blocks.len());
        assert(input@ =~= blocks@.skip(at + 10));
        let (mut sorted, taken) = match read_ternary_coded_block(input, blocksize, numsymbols) {
            Some(b) => b,
            None => {
                return Err(ErrorKind::InvalidData);
            },
        };
        if blocksize > 0 && firstindex >= blocksize {
            return Err(ErrorKind::InvalidData);
        }
        decode_m1ffn_block(&mut sorted, 2);
        let block = unsort_bwt(sorted.as_slice(), firstindex as usize);
        append(&mut out, block.as_slice());
        cursor = at as u128 + 10 + taken as u128;
    }
}

/// Decode a stream.
pub fn decode(blocks: &[u8], size: usize) -> (r: Result<Vec<u8>, ErrorKind>)
    ensures
        crate::error::bytes_of(r) == decoded(blocks@),
{
    match decode_framed(blocks, size) {
        Ok((v, _n)) => Ok(v),
        Err(e) => Err(e),
    }
}

} // verus!
