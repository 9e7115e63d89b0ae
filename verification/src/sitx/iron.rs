use vstd::prelude::*;
use vstd::arithmetic::power2::{pow2, lemma2_to64, lemma_pow2_unfold, lemma_pow2_strictly_increases};
use vstd::slice::{slice_subrange, slice_to_vec};
use crate::bits::lsb_bit;
use crate::catalog::append;
use crate::error::{bytes_of, ErrorKind};
use crate::sitx::bwt::{
    byte_values, moved_to_front, unsort_bwt, unsort_st4, unsorted_bwt, unsorted_st4, MtfState,
};
use crate::sitx::p2::{byte_pos, p2_advances, p2_at, raw_at, run_out, Reader};
use crate::sitx::rangecoder::{
    adapted, range_start, symbol_next, weighted_next, Kind, RangeCoder, RangeState,
};

verus! {

/// The form of the range decoder that is used.
pub open spec fn coder_kind() -> Kind {
    Kind { uselow: false, bottom: 0 }
}

// === the header ===============================================================

/// What holds for a whole stream: which transform and which move-to-front rule is
/// used, how large the frequencies may grow, and how fast the weights adapt.
#[derive(Clone, Copy)]
pub struct Header {
    pub st4transform: bool,
    pub fancymtf: bool,
    pub maxfreq1: u32,
    pub maxfreq2: u32,
    pub maxfreq3: u32,
    pub byteshift1: u32,
    pub byteshift2: u32,
    pub byteshift3: u32,
    pub countshift1: u32,
    pub countshift2: u32,
    pub countshift3: u32,
}

pub open spec fn header_ok(h: Header) -> bool {
    &&& 1 <= h.maxfreq1 <= 0x8000_0000
    &&& 1 <= h.maxfreq2 <= 0x8000_0000
    &&& 1 <= h.maxfreq3 <= 0x8000_0000
    &&& h.byteshift1 < 32
    &&& h.byteshift2 < 32
    &&& h.byteshift3 < 32
    &&& h.countshift1 < 32
    &&& h.countshift2 < 32
    &&& h.countshift3 < 32
}

/// A number below 32 at `q`.
pub open spec fn small_at(data: Seq<u8>, q: int) -> Result<(u32, int), ErrorKind> {
    match p2_at(data, q) {
        Err(e) => Err(e),
        Ok((v, p)) => if v >= 32 {
            Err(ErrorKind::InvalidData)
        } else {
            Ok((v as u32, p))
        },
    }
}

/// `n` numbers below 32 behind those in `found`.
pub open spec fn smalls_from(data: Seq<u8>, q: int, n: nat, found: Seq<u32>) -> Result<(Seq<u32>, int), ErrorKind>
    decreases n,
{
    if n == 0 {
        Ok((found, q))
    } else {
        match small_at(data, q) {
            Err(e) => Err(e),
            Ok((v, p)) => smalls_from(data, p, (n - 1) as nat, found.push(v)),
        }
    }
}

/// The header at `q` and the position after it: two bits and nine numbers, the first
/// three of which are exponents.
pub open spec fn header_at(data: Seq<u8>, q: int) -> Result<(Header, int), ErrorKind> {
    if q + 2 > 8 * data.len() {
        Err(ErrorKind::UnexpectedEof)
    } else {
        match smalls_from(data, q + 2, 9, seq![]) {
            Err(e) => Err(e),
            Ok((v, p)) => Ok(
                (
                    Header {
                        st4transform: lsb_bit(data, q),
                        fancymtf: lsb_bit(data, q + 1),
                        maxfreq1: pow2(v[0] as nat) as u32,
                        maxfreq2: pow2(v[1] as nat) as u32,
                        maxfreq3: pow2(v[2] as nat) as u32,
                        byteshift1: v[3],
                        byteshift2: v[4],
                        byteshift3: v[5],
                        countshift1: v[6],
                        countshift2: v[7],
                        countshift3: v[8],
                    },
                    p,
                ),
            ),
        }
    }
}

/// Where a reader is left by `n` numbers at `q`, be they all there and small or not, and
/// which bits it then holds back.
pub open spec fn smalls_stop(data: Seq<u8>, q: int, n: nat) -> (int, int)
    decreases n,
{
    if n == 0 {
        (q, q)
    } else {
        match p2_at(data, q) {
            Err(e) => run_out(data, q, q),
            Ok((v, p)) => if v >= 32 {
                (p, p)
            } else {
                smalls_stop(data, p, (n - 1) as nat)
            },
        }
    }
}

/// Where a reader that holds back the bits at `held` is left by a header at `q`, and
/// which bits it then holds back.
pub open spec fn header_stop(data: Seq<u8>, q: int, held: int) -> (int, int) {
    if q + 2 > 8 * data.len() {
        run_out(data, q, held)
    } else {
        smalls_stop(data, q + 2, 9)
    }
}

/// The header at the start of a stream.
pub open spec fn header_of(data: Seq<u8>) -> Result<(Header, int), ErrorKind> {
    header_at(data, 0)
}

// === ranked move to front =====================================================

/// The values by rank, how much each of them weighs, and the bytes decoded so far.
/// The value 256 stands for no byte.
pub struct FancyState {
    pub ranks: Seq<u32>,
    pub weights: Seq<u32>,
    pub history: Seq<u8>,
}

pub open spec fn fancy_start() -> FancyState {
    FancyState {
        ranks: Seq::new(257, |i: int| i as u32),
        weights: Seq::new(
            257,
            |i: int|
                if i == 256 {
                    u32::MAX
                } else {
                    0u32
                },
        ),
        history: seq![],
    }
}

pub open spec fn traded(ranks: Seq<u32>, i: int) -> Seq<u32> {
    ranks.update(i, ranks[i + 1]).update(i + 1, ranks[i])
}

/// The value at rank `k` moved to the front.
pub open spec fn lifted(ranks: Seq<u32>, k: int) -> Seq<u32>
    decreases k,
{
    if k <= 0 {
        ranks
    } else {
        lifted(traded(ranks, k - 1), k - 1)
    }
}

/// The value at rank `k` moved behind those that weigh more.
pub open spec fn sunk(ranks: Seq<u32>, k: int, weights: Seq<u32>) -> Seq<u32>
    decreases 257 - k,
{
    if k + 1 >= 257 || weights[ranks[k + 1] as int] <= weights[ranks[k] as int] {
        ranks
    } else {
        sunk(traded(ranks, k), k + 1, weights)
    }
}

/// How much weight a byte loses when it lies 2 to the `j` bytes back.
pub open spec fn fading(j: int) -> u32 {
    if j == 0 {
        0x3801
    } else {
        0x800u32 >> (j as u32)
    }
}

/// The bytes that lie 2 to the `j` and more back, up to 2 to the 11, lose weight
/// and sink, but for `byte` itself.
pub open spec fn faded(f: FancyState, byte: u8, j: int) -> FancyState
    decreases 12 - j,
{
    if j >= 12 {
        f
    } else {
        let n = pow2(j as nat) as int;
        if n > f.history.len() {
            faded(f, byte, j + 1)
        } else {
            let b = f.history[f.history.len() - n];
            let weights = f.weights.update(b as int, f.weights[b as int].wrapping_sub(fading(j)));
            let ranks = if b != byte {
                sunk(f.ranks, f.ranks.index_of(b as u32), weights)
            } else {
                f.ranks
            };
            faded(FancyState { ranks, weights, ..f }, byte, j + 1)
        }
    }
}

/// The byte behind `value` and the state after it.
pub open spec fn fancy_next(f: FancyState, value: int) -> (u8, FancyState) {
    let byte = (f.ranks[(value + 1) % 256] as int % 256) as u8;
    let f1 = faded(
        FancyState {
            ranks: lifted(f.ranks, f.ranks.index_of(byte as u32)),
            weights: f.weights.update(byte as int, f.weights[byte as int].wrapping_add(0x4000)),
            history: f.history,
        },
        byte,
        0,
    );
    (byte, FancyState { history: f.history.push(byte), ..f1 })
}

/// Each value has a rank.
pub open spec fn ranks_all(ranks: Seq<u32>) -> bool {
    &&& ranks.len() == 257
    &&& forall|i: int| 0 <= i < 257 ==> (#[trigger] ranks[i]) < 257
    &&& forall|v: u32| v < 257 ==> #[trigger] ranks.contains(v)
}

proof fn trading_ranks_all(ranks: Seq<u32>, i: int)
    requires
        ranks_all(ranks),
        0 <= i < 256,
    ensures
        ranks_all(traded(ranks, i)),
{
    let t = traded(ranks, i);
    assert forall|v: u32| v < 257 implies #[trigger] t.contains(v) by {
        assert(ranks.contains(v));
        let k = ranks.index_of(v);
        if k == i {
            assert(t[i + 1] == v);
        } else if k == i + 1 {
            assert(t[i] == v);
        } else {
            assert(t[k] == v);
        }
    }
}

proof fn lifting_ranks_all(ranks: Seq<u32>, k: int)
    requires
        ranks_all(ranks),
        0 <= k < 257,
    ensures
        ranks_all(lifted(ranks, k)),
        lifted(ranks, k)[0] == ranks[k],
    decreases k,
{
    if k > 0 {
        trading_ranks_all(ranks, k - 1);
        lifting_ranks_all(traded(ranks, k - 1), k - 1);
    }
}

proof fn sinking_ranks_all(ranks: Seq<u32>, k: int, weights: Seq<u32>)
    requires
        ranks_all(ranks),
        0 < k < 257,
    ensures
        ranks_all(sunk(ranks, k, weights)),
        sunk(ranks, k, weights)[0] == ranks[0],
    decreases 257 - k,
{
    if k + 1 < 257 && weights[ranks[k + 1] as int] > weights[ranks[k] as int] {
        trading_ranks_all(ranks, k);
        sinking_ranks_all(traded(ranks, k), k + 1, weights);
    }
}

proof fn fading_ranks_all(f: FancyState, byte: u8, j: int)
    requires
        ranks_all(f.ranks),
        f.ranks[0] == byte,
    ensures
        ranks_all(faded(f, byte, j).ranks),
        faded(f, byte, j).ranks[0] == byte,
    decreases 12 - j,
{
    if j < 12 {
        let n = pow2(j as nat) as int;
        if n > f.history.len() {
            fading_ranks_all(f, byte, j + 1);
        } else {
            let b = f.history[f.history.len() - n];
            let weights = f.weights.update(b as int, f.weights[b as int].wrapping_sub(fading(j)));
            if b != byte {
                assert(f.ranks.contains(b as u32));
                sinking_ranks_all(f.ranks, f.ranks.index_of(b as u32), weights);
                let ranks = sunk(f.ranks, f.ranks.index_of(b as u32), weights);
                fading_ranks_all(FancyState { ranks, weights, ..f }, byte, j + 1);
            } else {
                fading_ranks_all(FancyState { weights, ..f }, byte, j + 1);
            }
        }
    }
}

/// The byte behind a value is the one at the rank that the value names, and it comes to
/// the front; each value keeps a rank.
pub proof fn byte_comes_to_front(f: FancyState, value: int)
    requires
        ranks_all(f.ranks),
    ensures
        ({
            let (byte, f1) = fancy_next(f, value);
            &&& byte == f.ranks[(value + 1) % 256] as int % 256
            &&& ranks_all(f1.ranks)
            &&& f1.ranks[0] == byte
            &&& f1.history == f.history.push(byte)
        }),
{
    let byte = (f.ranks[(value + 1) % 256] as int % 256) as u8;
    assert(f.ranks.contains(byte as u32));
    let k = f.ranks.index_of(byte as u32);
    lifting_ranks_all(f.ranks, k);
    let f0 = FancyState {
        ranks: lifted(f.ranks, k),
        weights: f.weights.update(byte as int, f.weights[byte as int].wrapping_add(0x4000)),
        history: f.history,
    };
    fading_ranks_all(f0, byte, 0);
    fading_keeps_history(f0, byte, 0);
}

proof fn fading_keeps_history(f: FancyState, byte: u8, j: int)
    ensures
        faded(f, byte, j).history == f.history,
    decreases 12 - j,
{
    if j < 12 {
        let n = pow2(j as nat) as int;
        if n > f.history.len() {
            fading_keeps_history(f, byte, j + 1);
        } else {
            let b = f.history[f.history.len() - n];
            let weights = f.weights.update(b as int, f.weights[b as int].wrapping_sub(fading(j)));
            let ranks = if b != byte {
                sunk(f.ranks, f.ranks.index_of(b as u32), weights)
            } else {
                f.ranks
            };
            fading_keeps_history(FancyState { ranks, weights, ..f }, byte, j + 1);
        }
    }
}

/// Either rule.
pub enum MtfView {
    Fancy(FancyState),
    Plain(Seq<u8>),
}

pub open spec fn mtf_start(fancy: bool) -> MtfView {
    if fancy {
        MtfView::Fancy(fancy_start())
    } else {
        MtfView::Plain(byte_values())
    }
}

#[verifier::opaque]
pub open spec fn mtf_next(m: MtfView, value: int) -> (u8, MtfView) {
    match m {
        MtfView::Fancy(f) => {
            let (b, f1) = fancy_next(f, value);
            (b, MtfView::Fancy(f1))
        },
        MtfView::Plain(t) => (t[(value + 1) % 256], MtfView::Plain(moved_to_front(t, (value + 1) % 256))),
    }
}

// === the model ================================================================

// The weights stand in one table. The sets in it start at:

/// How many bits a large value has.
pub const BYTELEN: usize = 0;

/// The same, by the bits of the large value before.
pub const BYTELEN2: usize = 8;

/// The bits of a large value.
pub const BYTEBIT: usize = 72;

/// How many bits a count has, by the value and the counts before.
pub const COUNTLEN: usize = 1096;

/// The same, by the byte.
pub const COUNTLEN2: usize = 2632;

/// The bits of a count.
pub const COUNTBIT: usize = 8776;

/// The size of the table.
pub const NUM_WEIGHTS: usize = 9352;

// The frequencies of the four small symbols stand in another. The sets start at:

/// By nothing.
pub const MAIN: usize = 0;

/// By the byte before.
pub const LAST: usize = 4;

/// By the counts and values before.
pub const PAST: usize = 1028;

/// The size of the table.
pub const NUM_FREQS: usize = 5124;

/// The range decoder and the weights.
pub struct Dec {
    pub s: RangeState,
    pub w: Seq<u32>,
}

/// One bit under weight `i`, which adapts.
pub open spec fn weigh(input: Seq<u8>, d: Dec, i: int, shift: u32) -> Option<(u32, Dec)> {
    match weighted_next(input, d.s, coder_kind(), d.w[i], 0x1000) {
        None => None,
        Some((bit, s)) => Some((bit, Dec { s, w: d.w.update(i, adapted(d.w[i], bit, shift)) })),
    }
}

/// One bit under the mean of weights `i` and `j`, which both adapt.
pub open spec fn weigh2(input: Seq<u8>, d: Dec, i: int, shift1: u32, j: int, shift2: u32) -> Option<(u32, Dec)> {
    match weighted_next(input, d.s, coder_kind(), ((d.w[i] + d.w[j]) / 2) as u32, 0x1000) {
        None => None,
        Some((bit, s)) => Some(
            (
                bit,
                Dec {
                    s,
                    w: d.w.update(i, adapted(d.w[i], bit, shift1)).update(j, adapted(d.w[j], bit, shift2)),
                },
            ),
        ),
    }
}

pub open spec fn four(f: Seq<u32>, base: int) -> int {
    f[base] + f[base + 1] + f[base + 2] + f[base + 3]
}

/// A set of four frequencies after symbol `n`: when they add up to more than `max`
/// they are halved, rounding up or down.
pub open spec fn counted(f: Seq<u32>, base: int, n: int, max: u32, up: bool) -> Seq<u32> {
    let g = f.update(base + n, (f[base + n] + 2) as u32);
    if four(g, base) > max {
        let r = if up {
            1int
        } else {
            0int
        };
        g.update(base, ((g[base] + r) / 2) as u32).update(base + 1, ((g[base + 1] + r) / 2) as u32).update(
            base + 2,
            ((g[base + 2] + r) / 2) as u32,
        ).update(base + 3, ((g[base + 3] + r) / 2) as u32)
    } else {
        g
    }
}

/// The decoding of a block, under way: the values and counts before, the bits of
/// the last large value, and the last byte.
pub struct IronState {
    pub d: Dec,
    pub f: Seq<u32>,
    pub mtf: MtfView,
    pub values: int,
    pub counts: int,
    pub lastbits: int,
    pub lastbyte: u8,
}

pub open spec fn iron_start(input: Seq<u8>, fancy: bool) -> IronState {
    IronState {
        d: Dec { s: range_start(input), w: Seq::new(NUM_WEIGHTS as nat, |i: int| 0x800u32) },
        f: Seq::new(
            NUM_FREQS as nat,
            |i: int|
                if i < 4 {
                    1u32
                } else {
                    0u32
                },
        ),
        mtf: mtf_start(fancy),
        values: 0,
        counts: 0,
        lastbits: 0,
        lastbyte: 0,
    }
}

/// Where the frequencies by the past stand.
pub open spec fn past_at(st: IronState) -> int {
    PAST + 4 * ((st.counts % 4) * 256 + st.values)
}

/// The sum of the three frequencies of small symbol `n`.
pub open spec fn joint(st: IronState, n: int) -> int {
    st.f[MAIN + n] + st.f[LAST + 4 * st.lastbyte + n] + st.f[past_at(st) + n]
}

/// The next small symbol; there is none if the interval is too narrow for the sum
/// of the frequencies.
#[verifier::opaque]
pub open spec fn small_next(input: Seq<u8>, st: IronState) -> Option<(int, RangeState)> {
    if joint(st, 0) + joint(st, 1) + joint(st, 2) + joint(st, 3) > st.d.s.range {
        None
    } else {
        symbol_next(
            input,
            st.d.s,
            coder_kind(),
            seq![joint(st, 0) as u32, joint(st, 1) as u32, joint(st, 2) as u32, joint(st, 3) as u32],
        )
    }
}

/// The frequencies after small symbol `n`.
#[verifier::opaque]
pub open spec fn freqs_after(st: IronState, h: Header, n: int) -> Seq<u32> {
    counted(
        counted(counted(st.f, MAIN as int, n, h.maxfreq1, true), LAST + 4 * st.lastbyte, n, h.maxfreq2, false),
        past_at(st),
        n,
        h.maxfreq3,
        false,
    )
}

/// How many bits a large value has, `bits` of them being known, 6 at most.
pub open spec fn value_bits(input: Seq<u8>, d: Dec, h: Header, lastbits: int, bits: int) -> Option<(int, Dec)>
    decreases 6 - bits,
{
    if bits >= 6 {
        Some((bits, d))
    } else {
        match weigh2(input, d, BYTELEN + bits, h.byteshift1, BYTELEN2 + 8 * lastbits + bits, h.byteshift2) {
            None => None,
            Some((bit, d1)) => if bit == 0 {
                Some((bits, d1))
            } else {
                value_bits(input, d1, h, lastbits, bits + 1)
            },
        }
    }
}

/// `n` more bits behind `value`, which has `bits` bits.
pub open spec fn value_rest(input: Seq<u8>, d: Dec, h: Header, bits: int, n: nat, value: int) -> Option<(int, Dec)>
    decreases n,
{
    if n == 0 {
        Some((value, d))
    } else {
        match weigh(input, d, BYTEBIT + 128 * bits + value, h.byteshift3) {
            None => None,
            Some((bit, d1)) => value_rest(input, d1, h, bits, (n - 1) as nat, 2 * value + bit),
        }
    }
}

/// The value that symbol `n` stands for, with the state after it; symbol 3 stands
/// for the larger ones.
#[verifier::opaque]
pub open spec fn value_next(input: Seq<u8>, st: IronState, h: Header, n: int) -> Option<(int, IronState)> {
    if n != 3 {
        Some((n, st))
    } else {
        match value_bits(input, st.d, h, st.lastbits, 0) {
            None => None,
            Some((bits, d1)) => match value_rest(input, d1, h, bits, (bits + 1) as nat, 1) {
                None => None,
                Some((v, d2)) => Some((v + 1, IronState { d: d2, lastbits: bits, ..st })),
            },
        }
    }
}

pub open spec fn short(value: int) -> int {
    if value < 3 {
        value
    } else {
        3
    }
}

/// How many bits a count has behind its leading 1; there are fewer than 24.
pub open spec fn count_bits(input: Seq<u8>, d: Dec, h: Header, value: int, counts: int, byte: u8, bits: int) -> Option<
    (int, Dec),
>
    decreases 24 - bits,
{
    if bits >= 24 {
        None
    } else {
        match weigh2(
            input,
            d,
            COUNTLEN + 384 * value + 24 * counts + bits,
            h.countshift1,
            COUNTLEN2 + 24 * byte + bits,
            h.countshift2,
        ) {
            None => None,
            Some((bit, d1)) => if bit == 0 {
                Some((bits, d1))
            } else {
                count_bits(input, d1, h, value, counts, byte, bits + 1)
            },
        }
    }
}

/// The bits of a count from number `j` on behind `count`.
pub open spec fn count_rest(input: Seq<u8>, d: Dec, h: Header, bits: int, j: int, count: int) -> Option<(int, Dec)>
    decreases bits - j,
{
    if j >= bits {
        Some((count, d))
    } else {
        match weigh(input, d, COUNTBIT + 24 * bits + j, h.countshift3) {
            None => None,
            Some((bit, d1)) => count_rest(input, d1, h, bits, j + 1, 2 * count + bit),
        }
    }
}

/// The next run: a byte, how often it comes, and the state after it.
pub open spec fn run_next(input: Seq<u8>, st: IronState, h: Header) -> Option<(u8, int, IronState)> {
    match small_next(input, st) {
        None => None,
        Some((n, s1)) => {
            let st1 = IronState { d: Dec { s: s1, w: st.d.w }, f: freqs_after(st, h, n), ..st };
            match value_next(input, st1, h, n) {
                None => None,
                Some((value, st2)) => {
                    let (byte, mtf) = mtf_next(st2.mtf, value);
                    match count_bits(input, st2.d, h, short(value), st2.counts, byte, 0) {
                        None => None,
                        Some((bits, d3)) => match count_rest(input, d3, h, bits, 0, 1) {
                            None => None,
                            Some((count, d4)) => Some(
                                (
                                    byte,
                                    count,
                                    IronState {
                                        d: d4,
                                        mtf,
                                        values: (st2.values * 4 + short(value)) % 256,
                                        counts: (st2.counts * 2) % 16 + (if bits > 1 {
                                            1int
                                        } else {
                                            0int
                                        }),
                                        lastbyte: byte,
                                        ..st2
                                    },
                                ),
                            ),
                        },
                    }
                },
            }
        },
    }
}

pub open spec fn copies(b: u8, n: int) -> Seq<u8> {
    Seq::new(n as nat, |i: int| b)
}

/// The bytes of a block of `size`, given those decoded before `st`, and the number
/// of input bytes taken. A run may not pass the end of the block.
pub open spec fn body_from(input: Seq<u8>, st: IronState, h: Header, found: Seq<u8>, size: nat) -> Option<(Seq<u8>, u64)>
    decreases size - found.len(),
    via body_advances
{
    if found.len() >= size {
        Some((found, st.d.s.pos))
    } else {
        match run_next(input, st, h) {
            None => None,
            Some((byte, count, st1)) => if found.len() + count > size {
                None
            } else {
                body_from(input, st1, h, found + copies(byte, count), size)
            },
        }
    }
}

proof fn count_is_positive(input: Seq<u8>, d: Dec, h: Header, bits: int, j: int, count: int)
    requires
        count >= 1,
    ensures
        count_rest(input, d, h, bits, j, count) matches Some((c, d1)) ==> c >= 1,
    decreases bits - j,
{
    if j < bits {
        match weigh(input, d, COUNTBIT + 24 * bits + j, h.countshift3) {
            None => {},
            Some((bit, d1)) => {
                count_is_positive(input, d1, h, bits, j + 1, 2 * count + bit);
            },
        }
    }
}

/// A run is not empty.
pub proof fn run_is_not_empty(input: Seq<u8>, st: IronState, h: Header)
    ensures
        run_next(input, st, h) matches Some((byte, count, st1)) ==> count >= 1,
{
    match small_next(input, st) {
        None => {},
        Some((n, s1)) => {
            let st1 = IronState { d: Dec { s: s1, w: st.d.w }, f: freqs_after(st, h, n), ..st };
            match value_next(input, st1, h, n) {
                None => {},
                Some((value, st2)) => {
                    let (byte, mtf) = mtf_next(st2.mtf, value);
                    match count_bits(input, st2.d, h, short(value), st2.counts, byte, 0) {
                        None => {},
                        Some((bits, d3)) => {
                            count_is_positive(input, d3, h, bits, 0, 1);
                        },
                    }
                },
            }
        },
    }
}

#[via_fn]
proof fn body_advances(input: Seq<u8>, st: IronState, h: Header, found: Seq<u8>, size: nat) {
    run_is_not_empty(input, st, h);
}

// === the stream ===============================================================

/// The string behind the sorted bytes of a block.
pub open spec fn unsorted(h: Header, sorted: Seq<u8>, first: u64) -> Option<Seq<u8>> {
    if sorted.len() > u32::MAX || (sorted.len() > 0 && first >= sorted.len()) {
        None
    } else if h.st4transform {
        unsorted_st4(sorted, first as int)
    } else {
        Some(unsorted_bwt(sorted, first as int))
    }
}

/// A compressed block of `size` bytes at `q` and the position after it.
pub open spec fn compressed_at(data: Seq<u8>, q: int, h: Header, size: u64) -> Result<(Seq<u8>, int), ErrorKind> {
    match p2_at(data, q) {
        Err(e) => Err(e),
        Ok((first, p)) => {
            let start = byte_pos(p) + 1;
            if start > data.len() {
                Err(ErrorKind::UnexpectedEof)
            } else {
                let input = data.skip(start);
                match body_from(input, iron_start(input, h.fancymtf), h, seq![], size as nat) {
                    None => Err(ErrorKind::InvalidData),
                    Some((sorted, taken)) => match unsorted(h, sorted, first) {
                        None => Err(ErrorKind::InvalidData),
                        Some(v) => Ok(
                            (
                                v,
                                8 * (if start + taken < data.len() {
                                    start + taken
                                } else {
                                    data.len() as int
                                }),
                            ),
                        ),
                    },
                }
            }
        },
    }
}

/// The block that starts at the byte boundary after `q` and the position after it;
/// `None` for a 1 bit, which ends the blocks. A block starts with a 0 bit, its size,
/// and a bit that says whether its bytes are plain.
pub open spec fn block_at(data: Seq<u8>, q: int, h: Header) -> Result<Option<(Seq<u8>, int)>, ErrorKind> {
    let a = 8 * byte_pos(q);
    if a >= 8 * data.len() {
        Err(ErrorKind::UnexpectedEof)
    } else if lsb_bit(data, a) {
        Ok(None)
    } else {
        match p2_at(data, a + 1) {
            Err(e) => Err(e),
            Ok((n, p)) => if p >= 8 * data.len() {
                Err(ErrorKind::UnexpectedEof)
            } else {
                let block = if lsb_bit(data, p) {
                    raw_at(data, 8 * byte_pos(p + 1), n as int)
                } else {
                    compressed_at(data, p + 1, h, n)
                };
                match block {
                    Err(e) => Err(e),
                    Ok(b) => Ok(Some(b)),
                }
            },
        }
    }
}

/// A block ends within the data, behind the place where it starts.
pub proof fn block_advances(data: Seq<u8>, q: int, h: Header)
    ensures
        block_at(data, q, h) matches Ok(Some((v, r))) ==> q < r <= 8 * data.len(),
{
    let a = 8 * byte_pos(q);
    p2_advances(data, a + 1);
    match p2_at(data, a + 1) {
        Err(e) => {},
        Ok((n, p)) => {
            p2_advances(data, p + 1);
        },
    }
}

/// The blocks from `q` on behind `found`, until there are `size` bytes or the blocks
/// end.
pub open spec fn blocks_from(data: Seq<u8>, q: int, h: Header, found: Seq<u8>, size: nat) -> Result<Seq<u8>, ErrorKind>
    decreases 8 * data.len() - q,
    via blocks_advance
{
    if found.len() >= size {
        Ok(found)
    } else {
        match block_at(data, q, h) {
            Err(e) => Err(e),
            Ok(None) => Ok(found),
            Ok(Some((v, r))) => blocks_from(data, r, h, found + v, size),
        }
    }
}

#[via_fn]
proof fn blocks_advance(data: Seq<u8>, q: int, h: Header, found: Seq<u8>, size: nat) {
    block_advances(data, q, h);
}

/// At most `size` bytes of the content of a stream.
pub open spec fn decoded(data: Seq<u8>, size: nat) -> Result<Seq<u8>, ErrorKind> {
    match header_of(data) {
        Err(e) => Err(e),
        Ok((h, q)) => match blocks_from(data, q, h, seq![], size) {
            Err(e) => Err(e),
            Ok(v) => Ok(
                if v.len() > size {
                    v.subrange(0, size as int)
                } else {
                    v
                },
            ),
        },
    }
}

// === reading the header =======================================================

/// Read a number below 32.
fn read_p2_below_32(r: &mut Reader) -> (res: Result<u32, ErrorKind>)
    requires
        old(r).wf(),
    ensures
        final(r).wf(),
        final(r).data() == old(r).data(),
        match res {
            Ok(v) => small_at(old(r).data(), old(r).at()) == Ok::<(u32, int), ErrorKind>((v, final(r).at())) && v < 32,
            Err(e) => small_at(old(r).data(), old(r).at()) == Err::<(u32, int), ErrorKind>(e),
        },
        match p2_at(old(r).data(), old(r).at()) {
            Ok((_v, p)) => final(r).at() == p && final(r).held() == p,
            Err(_) => (final(r).at(), final(r).held()) == run_out(old(r).data(), old(r).at(), old(r).held()),
        },
{
    match r.read_p2() {
        Err(e) => Err(e),
        Ok(v) => {
            if v >= 32 {
                Err(ErrorKind::InvalidData)
            } else {
                Ok(v as u32)
            }
        },
    }
}

fn power_of_two(e: u32) -> (r: u32)
    requires
        e < 32,
    ensures
        r == pow2(e as nat),
        1 <= r <= 0x8000_0000,
{
    proof {
        lemma2_to64();
        lemma_pow2_unfold(32);
        if e < 31 {
            lemma_pow2_strictly_increases(e as nat, 31);
        }
        if e > 0 {
            lemma_pow2_strictly_increases(0, e as nat);
        }
        vstd::bits::lemma_u32_shl_is_mul(1, e);
    }
    1u32 << e
}

/// Read the header of a stream.
pub fn reset_block_stream(r: &mut Reader) -> (res: Result<Header, ErrorKind>)
    requires
        old(r).wf(),
    ensures
        final(r).wf(),
        final(r).data() == old(r).data(),
        (final(r).at(), final(r).held()) == header_stop(old(r).data(), old(r).at(), old(r).held()),
        match res {
            Ok(h) => {
                &&& header_at(old(r).data(), old(r).at()) == Ok::<(Header, int), ErrorKind>((h, final(r).at()))
                &&& header_ok(h)
                &&& final(r).at() > old(r).at()
            },
            Err(e) => header_at(old(r).data(), old(r).at()) == Err::<(Header, int), ErrorKind>(e),
        },
{
    let ghost data = r.data();
    let ghost q = r.at();
    let st4transform: bool = match r.bit() {
        Ok(b) => b == 1,
        Err(e) => {
            return Err(e);
        },
    };
    let fancymtf: bool = match r.bit() {
        Ok(b) => b == 1,
        Err(e) => {
            return Err(e);
        },
    };
    let mut v: Vec<u32> = Vec::new();
    while v.len() < 9
        invariant
            v@.len() <= 9,
            r.wf(),
            r.data() == data,
            r.at() >= q + 2,
            r.held() == r.at(),
            smalls_stop(data, r.at(), (9 - v@.len()) as nat) == smalls_stop(data, q + 2, 9),
            smalls_from(data, r.at(), (9 - v@.len()) as nat, v@) == smalls_from(data, q + 2, 9, seq![]),
            forall|i: int| 0 <= i < v@.len() ==> (#[trigger] v@[i]) < 32,
            data == old(r).data(),
            q == old(r).at(),
            q + 2 <= 8 * data.len(),
        decreases 9 - v@.len(),
    {
        proof {
            p2_advances(data, r.at());
        }
        match read_p2_below_32(r) {
            Ok(n) => {
                v.push(n);
            },
            Err(e) => {
                return Err(e);
            },
        }
    }
    Ok(
        Header {
            st4transform,
            fancymtf,
            maxfreq1: power_of_two(v[0]),
            maxfreq2: power_of_two(v[1]),
            maxfreq3: power_of_two(v[2]),
            byteshift1: v[3],
            byteshift2: v[4],
            byteshift3: v[5],
            countshift1: v[6],
            countshift2: v[7],
            countshift3: v[8],
        },
    )
}

// === the executable ranked move to front ======================================

/// The values by rank and the ranks by value agree.
pub open spec fn inverse(ranks: Seq<u32>, rank_of: Seq<u32>) -> bool {
    &&& ranks.len() == 257
    &&& rank_of.len() == 257
    &&& forall|r: int| 0 <= r < 257 ==> (#[trigger] ranks[r]) < 257 && rank_of[ranks[r] as int] == r
    &&& forall|v: int| 0 <= v < 257 ==> (#[trigger] rank_of[v]) < 257 && ranks[rank_of[v] as int] == v
}

proof fn inverse_finds(ranks: Seq<u32>, rank_of: Seq<u32>, v: int)
    requires
        inverse(ranks, rank_of),
        0 <= v < 257,
    ensures
        ranks.index_of(v as u32) == rank_of[v],
{
    let k = rank_of[v] as int;
    assert(ranks[k] == v);
    assert(ranks.contains(v as u32));
    let i = ranks.index_of(v as u32);
    assert(0 <= i < ranks.len() && ranks[i] == v as u32);
    assert(rank_of[ranks[i] as int] == i);
}

/// Ranked move to front.
pub struct FancyMtf {
    intarray1: Vec<u32>,
    /// The rank of each value.
    pub intarray2: Vec<u32>,
    intarray3: Vec<u32>,
    history: Vec<u8>,
}

impl FancyMtf {
    pub closed spec fn view(&self) -> FancyState {
        FancyState { ranks: self.intarray1@, weights: self.intarray3@, history: self.history@ }
    }

    /// The ranks by value.
    pub closed spec fn rank_of(&self) -> Seq<u32> {
        self.intarray2@
    }

    pub open spec fn wf(&self) -> bool {
        &&& inverse(self.view().ranks, self.rank_of())
        &&& self.view().weights.len() == 257
    }

    pub fn new() -> (r: Self)
        ensures
            r.wf(),
            r.view() == fancy_start(),
    {
        let mut intarray1: Vec<u32> = Vec::new();
        let mut intarray2: Vec<u32> = Vec::new();
        let mut intarray3: Vec<u32> = Vec::new();
        let mut i: u32 = 0;
        while i < 257
            invariant
                i <= 257,
                intarray1@.len() == i,
                intarray2@.len() == i,
                intarray3@.len() == i,
                forall|k: int| 0 <= k < i ==> #[trigger] intarray1@[k] == k,
                forall|k: int| 0 <= k < i ==> #[trigger] intarray2@[k] == k,
                forall|k: int| 0 <= k < i ==> #[trigger] intarray3@[k] == fancy_start().weights[k],
            decreases 257 - i,
        {
            intarray1.push(i);
            intarray2.push(i);
            intarray3.push(
                if i == 256 {
                    u32::MAX
                } else {
                    0
                },
            );
            i = i + 1;
        }
        let r = FancyMtf { intarray1, intarray2, intarray3, history: Vec::new() };
        assert(r.intarray1@ =~= fancy_start().ranks);
        assert(r.intarray3@ =~= fancy_start().weights);
        assert(r.history@ =~= fancy_start().history);
        r
    }

    /// The rank of a byte.
    pub fn find_rank(&self, byte: u8) -> (r: u32)
        requires
            self.wf(),
        ensures
            r == self.rank_of()[byte as int],
            r == self.view().ranks.index_of(byte as u32),
    {
        proof {
            inverse_finds(self.intarray1@, self.intarray2@, byte as int);
        }
        self.intarray2[byte as usize]
    }

    /// The values at ranks `i` and `i + 1` trade places.
    fn trade(&mut self, i: usize)
        requires
            old(self).wf(),
            i < 256,
        ensures
            final(self).wf(),
            final(self).view() == (FancyState { ranks: traded(old(self).view().ranks, i as int), ..old(self).view() }),
    {
        let a: u32 = self.intarray1[i];
        let b: u32 = self.intarray1[i + 1];
        proof {
            assert(self.intarray1@[i as int] < 257);
            assert(self.intarray1@[i + 1] < 257);
            assert(a != b) by {
                assert(self.intarray2@[a as int] == i);
                assert(self.intarray2@[b as int] == i + 1);
            }
        }
        let ghost r0 = self.intarray1@;
        let ghost o0 = self.intarray2@;
        self.intarray1[i] = b;
        self.intarray1[i + 1] = a;
        self.intarray2[b as usize] = i as u32;
        self.intarray2[a as usize] = (i + 1) as u32;
        proof {
            assert forall|r: int| 0 <= r < 257 implies (#[trigger] self.intarray1@[r]) < 257
                && self.intarray2@[self.intarray1@[r] as int] == r by {
                assert(r0[r] < 257 && o0[r0[r] as int] == r);
            }
            assert forall|v: int| 0 <= v < 257 implies (#[trigger] self.intarray2@[v]) < 257
                && self.intarray1@[self.intarray2@[v] as int] == v by {
                assert(o0[v] < 257 && r0[o0[v] as int] == v);
            }
        }
    }

    /// The value at rank `k` moves to the front.
    fn lift(&mut self, k: usize)
        requires
            old(self).wf(),
            k < 257,
        ensures
            final(self).wf(),
            final(self).view() == (FancyState { ranks: lifted(old(self).view().ranks, k as int), ..old(self).view() }),
    {
        let mut i: usize = k;
        while i > 0
            invariant
                i <= k < 257,
                self.wf(),
                self.view() == (FancyState { ranks: self.view().ranks, ..old(self).view() }),
                lifted(self.view().ranks, i as int) == lifted(old(self).view().ranks, k as int),
            decreases i,
        {
            self.trade(i - 1);
            i = i - 1;
        }
    }

    /// The value at rank `k` moves behind those that weigh more.
    fn sink(&mut self, k: usize)
        requires
            old(self).wf(),
            k < 257,
        ensures
            final(self).wf(),
            final(self).view() == (FancyState {
                ranks: sunk(old(self).view().ranks, k as int, old(self).view().weights),
                ..old(self).view()
            }),
    {
        let mut i: usize = k;
        while i + 1 < 257
            invariant
                k <= i < 257,
                self.wf(),
                self.view() == (FancyState { ranks: self.view().ranks, ..old(self).view() }),
                sunk(self.view().ranks, i as int, self.view().weights) == sunk(
                    old(self).view().ranks,
                    k as int,
                    old(self).view().weights,
                ),
            decreases 257 - i,
        {
            proof {
                assert(self.intarray1@[i as int] < 257);
                assert(self.intarray1@[i + 1] < 257);
            }
            let here: u32 = self.intarray3[self.intarray1[i] as usize];
            let next: u32 = self.intarray3[self.intarray1[i + 1] as usize];
            if next <= here {
                return;
            }
            self.trade(i);
            i = i + 1;
        }
    }

    /// The byte behind `value`.
    pub fn decode(&mut self, value: u32) -> (r: u8)
        requires
            old(self).wf(),
            value < u32::MAX,
        ensures
            final(self).wf(),
            (r, final(self).view()) == fancy_next(old(self).view(), value as int),
            final(self).view().ranks[0] == r,
            final(self).rank_of()[r as int] == 0,
    {
        proof {
            assert(ranks_all(self.view().ranks)) by {
                assert forall|v: u32| v < 257 implies #[trigger] self.view().ranks.contains(v) by {
                    assert(self.intarray1@[self.intarray2@[v as int] as int] == v);
                }
            }
            byte_comes_to_front(self.view(), value as int);
        }
        let index: usize = ((value + 1) % 256) as usize;
        assert(self.intarray1@[index as int] < 257);
        let byte: u8 = (self.intarray1[index] % 256) as u8;
        let w: u32 = self.intarray3[byte as usize].wrapping_add(0x4000);
        self.intarray3[byte as usize] = w;
        let k: u32 = self.find_rank(byte);
        proof {
            assert(self.intarray2@[byte as int] < 257);
        }
        self.lift(k as usize);
        let ghost goal = faded(self.view(), byte, 0);
        let mut j: u32 = 0;
        let mut n: usize = 1;
        proof {
            lemma2_to64();
        }
        while j < 12
            invariant
                j <= 12,
                n == pow2(j as nat),
                n <= 4096,
                self.wf(),
                self.history@ == old(self).history@,
                faded(self.view(), byte, j as int) == goal,
            decreases 12 - j,
        {
            proof {
                lemma2_to64();
                lemma_pow2_unfold((j + 1) as nat);
                if j + 1 < 12 {
                    lemma_pow2_strictly_increases((j + 1) as nat, 12);
                }
            }
            if n <= self.history.len() {
                let b: u8 = self.history[self.history.len() - n];
                let less: u32 = if j == 0 {
                    0x3801
                } else {
                    0x800u32 >> j
                };
                let w: u32 = self.intarray3[b as usize].wrapping_sub(less);
                self.intarray3[b as usize] = w;
                if b != byte {
                    let k: u32 = self.find_rank(b);
                    proof {
                        assert(self.intarray2@[b as int] < 257);
                    }
                    self.sink(k as usize);
                }
            }
            j = j + 1;
            n = 2 * n;
        }
        self.history.push(byte);
        assert(self.rank_of()[self.view().ranks[0] as int] == 0);
        byte
    }
}

/// Either rule.
pub enum Mtf {
    Fancy(FancyMtf),
    Plain(MtfState),
}

impl Mtf {
    pub open spec fn view(&self) -> MtfView {
        match self {
            Mtf::Fancy(f) => MtfView::Fancy(f.view()),
            Mtf::Plain(m) => MtfView::Plain(m.view()),
        }
    }

    pub open spec fn wf(&self) -> bool {
        match self {
            Mtf::Fancy(f) => f.wf(),
            Mtf::Plain(m) => m.view().len() == 256,
        }
    }

    pub fn new(fancy: bool) -> (r: Self)
        ensures
            r.wf(),
            r.view() == mtf_start(fancy),
    {
        if fancy {
            Mtf::Fancy(FancyMtf::new())
        } else {
            Mtf::Plain(MtfState::new())
        }
    }

    /// The byte behind `value`.
    pub fn decode(&mut self, value: u32) -> (r: u8)
        requires
            old(self).wf(),
            value < u32::MAX,
        ensures
            final(self).wf(),
            (r, final(self).view()) == mtf_next(old(self).view(), value as int),
    {
        reveal(mtf_next);
        match self {
            Mtf::Fancy(f) => f.decode(value),
            Mtf::Plain(m) => m.decode(((value + 1) % 256) as u8),
        }
    }
}

// === decoding a block =========================================================

spec fn weights_ok(w: Seq<u32>) -> bool {
    &&& w.len() == NUM_WEIGHTS
    &&& forall|i: int| 0 <= i < w.len() ==> (#[trigger] w[i]) <= 0x1000
}

spec fn freqs_ok(f: Seq<u32>) -> bool {
    &&& f.len() == NUM_FREQS
    &&& forall|i: int| 0 <= i < f.len() ==> (#[trigger] f[i]) <= 0x8000_0000
}

/// The executable decoding of a block.
struct Iron<'a> {
    coder: RangeCoder<'a>,
    w: Vec<u32>,
    f: Vec<u32>,
    mtf: Mtf,
    values: usize,
    counts: usize,
    lastbits: usize,
    lastbyte: u8,
}

impl<'a> Iron<'a> {
    spec fn dec(&self) -> Dec {
        Dec { s: self.coder.state(), w: self.w@ }
    }

    spec fn state(&self) -> IronState {
        IronState {
            d: self.dec(),
            f: self.f@,
            mtf: self.mtf.view(),
            values: self.values as int,
            counts: self.counts as int,
            lastbits: self.lastbits as int,
            lastbyte: self.lastbyte,
        }
    }

    spec fn input(&self) -> Seq<u8> {
        self.coder.input()
    }

    spec fn wf(&self) -> bool {
        &&& self.coder.wf()
        &&& self.coder.kind() == coder_kind()
        &&& weights_ok(self.w@)
        &&& freqs_ok(self.f@)
        &&& self.mtf.wf()
        &&& self.values < 256
        &&& self.counts < 16
        &&& self.lastbits <= 6
    }

    /// Only the bits have moved on.
    spec fn rest_same(&self, other: &Self) -> bool {
        &&& self.input() == other.input()
        &&& self.f == other.f
        &&& self.mtf == other.mtf
        &&& self.values == other.values
        &&& self.counts == other.counts
        &&& self.lastbits == other.lastbits
        &&& self.lastbyte == other.lastbyte
    }

    fn new(input: &'a [u8], fancy: bool) -> (r: Self)
        ensures
            r.wf(),
            r.input() == input@,
            r.state() == iron_start(input@, fancy),
    {
        let coder = RangeCoder::new(input, false, 0);
        let w: Vec<u32> = vec![0x800u32; NUM_WEIGHTS];
        let mut f: Vec<u32> = vec![0u32; NUM_FREQS];
        f[0] = 1;
        f[1] = 1;
        f[2] = 1;
        f[3] = 1;
        let r = Iron { coder, w, f, mtf: Mtf::new(fancy), values: 0, counts: 0, lastbits: 0, lastbyte: 0 };
        assert(r.w@ =~= iron_start(input@, fancy).d.w);
        assert(r.f@ =~= iron_start(input@, fancy).f);
        r
    }

    /// Decode one bit under weight `i`.
    fn weigh(&mut self, i: usize, shift: u32) -> (r: Option<u32>)
        requires
            old(self).wf(),
            i < NUM_WEIGHTS,
            shift < 32,
        ensures
            final(self).rest_same(old(self)),
            match r {
                Some(b) => {
                    &&& final(self).wf()
                    &&& b <= 1
                    &&& weigh(old(self).input(), old(self).dec(), i as int, shift) == Some((b, final(self).dec()))
                },
                None => weigh(old(self).input(), old(self).dec(), i as int, shift) is None,
            },
    {
        self.coder.next_bit_with_weight(&mut self.w[i], shift)
    }

    /// Decode one bit under the mean of weights `i` and `j`.
    fn weigh2(&mut self, i: usize, shift1: u32, j: usize, shift2: u32) -> (r: Option<u32>)
        requires
            old(self).wf(),
            i < NUM_WEIGHTS,
            j < NUM_WEIGHTS,
            i != j,
            shift1 < 32,
            shift2 < 32,
        ensures
            final(self).rest_same(old(self)),
            match r {
                Some(b) => {
                    &&& final(self).wf()
                    &&& b <= 1
                    &&& weigh2(old(self).input(), old(self).dec(), i as int, shift1, j as int, shift2) == Some(
                        (b, final(self).dec()),
                    )
                },
                None => weigh2(old(self).input(), old(self).dec(), i as int, shift1, j as int, shift2) is None,
            },
    {
        assert(self.w@[i as int] <= 0x1000);
        assert(self.w@[j as int] <= 0x1000);
        let mut a: u32 = self.w[i];
        let mut b: u32 = self.w[j];
        let bit = self.coder.next_bit_with_double_weights(&mut a, shift1, &mut b, shift2);
        self.w[i] = a;
        self.w[j] = b;
        bit
    }

    /// Decode a small symbol and count it.
    fn next_small(&mut self, h: &Header) -> (r: Option<usize>)
        requires
            old(self).wf(),
            header_ok(*h),
        ensures
            final(self).input() == old(self).input(),
            match r {
                Some(n) => {
                    &&& final(self).wf()
                    &&& n < 4
                    &&& small_next(old(self).input(), old(self).state()) == Some((n as int, final(self).coder.state()))
                    &&& final(self).state() == (IronState {
                        d: Dec { s: final(self).coder.state(), w: old(self).w@ },
                        f: freqs_after(old(self).state(), *h, n as int),
                        ..old(self).state()
                    })
                },
                None => small_next(old(self).input(), old(self).state()) is None,
            },
    {
        reveal(small_next);
        reveal(freqs_after);
        let last: usize = LAST + 4 * self.lastbyte as usize;
        let past: usize = PAST + 4 * ((self.counts % 4) * 256 + self.values);
        let ghost st = self.state();
        let f0: u64 = self.f[MAIN] as u64 + self.f[last] as u64 + self.f[past] as u64;
        let f1: u64 = self.f[MAIN + 1] as u64 + self.f[last + 1] as u64 + self.f[past + 1] as u64;
        let f2: u64 = self.f[MAIN + 2] as u64 + self.f[last + 2] as u64 + self.f[past + 2] as u64;
        let f3: u64 = self.f[MAIN + 3] as u64 + self.f[last + 3] as u64 + self.f[past + 3] as u64;
        if f0 + f1 + f2 + f3 > self.coder.width() as u64 {
            return None;
        }
        let freqs: [u32; 4] = [f0 as u32, f1 as u32, f2 as u32, f3 as u32];
        assert(freqs@ =~= seq![joint(st, 0) as u32, joint(st, 1) as u32, joint(st, 2) as u32, joint(st, 3) as u32]);
        let n: usize = match self.coder.next_symbol(freqs.as_slice()) {
            Some(n) => n,
            None => {
                return None;
            },
        };
        count(&mut self.f, MAIN, n, h.maxfreq1, true);
        count(&mut self.f, last, n, h.maxfreq2, false);
        count(&mut self.f, past, n, h.maxfreq3, false);
        Some(n)
    }

    /// Decode the value that small symbol `n` stands for.
    fn next_value(&mut self, h: &Header, n: usize) -> (r: Option<u32>)
        requires
            old(self).wf(),
            header_ok(*h),
            n < 4,
        ensures
            final(self).input() == old(self).input(),
            match r {
                Some(v) => {
                    &&& final(self).wf()
                    &&& v <= 256
                    &&& value_next(old(self).input(), old(self).state(), *h, n as int) == Some(
                        (v as int, final(self).state()),
                    )
                },
                None => value_next(old(self).input(), old(self).state(), *h, n as int) is None,
            },
    {
        reveal(value_next);
        if n != 3 {
            return Some(n as u32);
        }
        let mut bits: usize = 0;
        let mut more: bool = true;
        let ghost goal = value_bits(old(self).input(), old(self).dec(), *h, old(self).lastbits as int, 0);
        while bits < 6 && more
            invariant
                bits <= 6,
                self.wf(),
                self.rest_same(old(self)),
                header_ok(*h),
                n == 3,
                goal == value_bits(old(self).input(), old(self).dec(), *h, old(self).lastbits as int, 0),
                more ==> value_bits(self.input(), self.dec(), *h, self.lastbits as int, bits as int) == goal,
                !more ==> goal == Some((bits as int, self.dec())),
            decreases 6 - bits, more as int,
        {
            match self.weigh2(BYTELEN + bits, h.byteshift1, BYTELEN2 + 8 * self.lastbits + bits, h.byteshift2) {
                None => {
                    reveal(value_next);
                    return None;
                },
                Some(b) => {
                    if b == 0 {
                        more = false;
                    } else {
                        bits = bits + 1;
                    }
                },
            }
        }
        assert(goal == Some((bits as int, self.dec())));
        let mut value: u32 = 1;
        let mut left: usize = bits + 1;
        let ghost d1 = self.dec();
        let ghost goal2 = value_rest(self.input(), d1, *h, bits as int, (bits + 1) as nat, 1);
        let ghost mut done: nat = 0;
        proof {
            lemma2_to64();
        }
        while left > 0
            invariant
                bits <= 6,
                left + done == bits + 1,
                self.wf(),
                self.rest_same(old(self)),
                header_ok(*h),
                n == 3,
                goal == Some((bits as int, d1)),
                goal == value_bits(old(self).input(), old(self).dec(), *h, old(self).lastbits as int, 0),
                goal2 == value_rest(self.input(), d1, *h, bits as int, (bits + 1) as nat, 1),
                pow2(done) <= value < 2 * pow2(done),
                value_rest(self.input(), self.dec(), *h, bits as int, left as nat, value as int) == goal2,
            decreases left,
        {
            proof {
                lemma2_to64();
                lemma_pow2_unfold(done + 1);
                if done < 6 {
                    lemma_pow2_strictly_increases(done, 6);
                }
            }
            match self.weigh(BYTEBIT + 128 * bits + value as usize, h.byteshift3) {
                None => {
                    reveal(value_next);
                    return None;
                },
                Some(b) => {
                    value = 2 * value + b;
                },
            }
            left = left - 1;
            proof {
                done = done + 1;
            }
        }
        proof {
            lemma2_to64();
            if done < 7 {
                lemma_pow2_strictly_increases(done, 7);
            }
        }
        self.lastbits = bits;
        Some(value + 1)
    }

    /// Decode how often `byte` comes, given the capped value that stood for it; with
    /// the count comes the number of its bits.
    fn next_count(&mut self, h: &Header, value: usize, byte: u8) -> (r: Option<(u32, u32)>)
        requires
            old(self).wf(),
            header_ok(*h),
            value <= 3,
        ensures
            final(self).rest_same(old(self)),
            ({
                let goal = match count_bits(
                    old(self).input(),
                    old(self).dec(),
                    *h,
                    value as int,
                    old(self).counts as int,
                    byte,
                    0,
                ) {
                    None => None,
                    Some((bits, d3)) => match count_rest(old(self).input(), d3, *h, bits, 0, 1) {
                        None => None,
                        Some((count, d4)) => Some((bits, count, d4)),
                    },
                };
                match r {
                    Some((bits, count)) => {
                        &&& final(self).wf()
                        &&& goal == Some((bits as int, count as int, final(self).dec()))
                        &&& count >= 1
                    },
                    None => goal is None,
                }
            }),
    {
        let mut bits: usize = 0;
        let ghost goal = count_bits(
            old(self).input(),
            old(self).dec(),
            *h,
            value as int,
            old(self).counts as int,
            byte,
            0,
        );
        loop
            invariant_except_break
                bits < 24,
                count_bits(self.input(), self.dec(), *h, value as int, self.counts as int, byte, bits as int) == goal,
            invariant
                self.wf(),
                self.rest_same(old(self)),
                header_ok(*h),
                value <= 3,
                goal == count_bits(
                    old(self).input(),
                    old(self).dec(),
                    *h,
                    value as int,
                    old(self).counts as int,
                    byte,
                    0,
                ),
            ensures
                bits < 24,
                goal == Some((bits as int, self.dec())),
            decreases 24 - bits,
        {
            let i: usize = COUNTLEN + 384 * value + 24 * self.counts + bits;
            let j: usize = COUNTLEN2 + 24 * byte as usize + bits;
            match self.weigh2(i, h.countshift1, j, h.countshift2) {
                None => {
                    return None;
                },
                Some(b) => {
                    if b == 0 {
                        break;
                    }
                },
            }
            bits = bits + 1;
            if bits >= 24 {
                return None;
            }
        }
        let ghost d3 = self.dec();
        let mut count: u32 = 1;
        let mut j: usize = 0;
        proof {
            lemma2_to64();
        }
        while j < bits
            invariant
                j <= bits < 24,
                self.wf(),
                self.rest_same(old(self)),
                header_ok(*h),
                goal == Some((bits as int, d3)),
                goal == count_bits(
                    old(self).input(),
                    old(self).dec(),
                    *h,
                    value as int,
                    old(self).counts as int,
                    byte,
                    0,
                ),
                1 <= count < 2 * pow2(j as nat),
                count_rest(self.input(), self.dec(), *h, bits as int, j as int, count as int) == count_rest(
                    self.input(),
                    d3,
                    *h,
                    bits as int,
                    0,
                    1,
                ),
            decreases bits - j,
        {
            proof {
                lemma2_to64();
                lemma_pow2_unfold((j + 1) as nat);
                if j < 24 {
                    lemma_pow2_strictly_increases(j as nat, 24);
                }
            }
            match self.weigh(COUNTBIT + 24 * bits + j, h.countshift3) {
                None => {
                    return None;
                },
                Some(b) => {
                    count = 2 * count + b;
                },
            }
            j = j + 1;
        }
        Some((bits as u32, count))
    }

    /// Decode one run.
    fn next_run(&mut self, h: &Header) -> (r: Option<(u8, u32)>)
        requires
            old(self).wf(),
            header_ok(*h),
        ensures
            final(self).input() == old(self).input(),
            match r {
                Some((byte, count)) => {
                    &&& final(self).wf()
                    &&& run_next(old(self).input(), old(self).state(), *h) == Some(
                        (byte, count as int, final(self).state()),
                    )
                    &&& count >= 1
                },
                None => run_next(old(self).input(), old(self).state(), *h) is None,
            },
    {
        let n: usize = match self.next_small(h) {
            Some(n) => n,
            None => {
                return None;
            },
        };
        let value: u32 = match self.next_value(h, n) {
            Some(v) => v,
            None => {
                return None;
            },
        };
        let byte: u8 = self.mtf.decode(value);
        let capped: usize = if value < 3 {
            value as usize
        } else {
            3
        };
        let (bits, count) = match self.next_count(h, capped, byte) {
            Some(c) => c,
            None => {
                return None;
            },
        };
        self.values = (self.values * 4 + capped) % 256;
        self.counts = (self.counts * 2) % 16 + (if bits > 1 {
            1
        } else {
            0
        });
        self.lastbyte = byte;
        Some((byte, count))
    }
}

/// Count small symbol `n` in the set of frequencies at `base`.
fn count(f: &mut Vec<u32>, base: usize, n: usize, max: u32, up: bool)
    requires
        freqs_ok(old(f)@),
        base + 4 <= NUM_FREQS,
        n < 4,
        max <= 0x8000_0000,
    ensures
        freqs_ok(final(f)@),
        final(f)@ == counted(old(f)@, base as int, n as int, max, up),
{
    let ghost f0 = f@;
    assert(f0[base + n] <= 0x8000_0000);
    assert(f0[base + 0] <= 0x8000_0000);
    assert(f0[base + 1] <= 0x8000_0000);
    assert(f0[base + 2] <= 0x8000_0000);
    assert(f0[base + 3] <= 0x8000_0000);
    let g: u32 = f[base + n] + 2;
    f[base + n] = g;
    let total: u64 = f[base] as u64 + f[base + 1] as u64 + f[base + 2] as u64 + f[base + 3] as u64;
    if total > max as u64 {
        let r: u32 = if up {
            1
        } else {
            0
        };
        let a: u32 = (f[base] + r) / 2;
        let b: u32 = (f[base + 1] + r) / 2;
        let c: u32 = (f[base + 2] + r) / 2;
        let d: u32 = (f[base + 3] + r) / 2;
        f[base] = a;
        f[base + 1] = b;
        f[base + 2] = c;
        f[base + 3] = d;
    }
}

/// Decode the bytes of a compressed block of `blocksize` bytes, and tell how many
/// input bytes it takes.
fn decode_block_body(input: &[u8], blocksize: u64, h: &Header) -> (r: Option<(Vec<u8>, u64)>)
    requires
        header_ok(*h),
    ensures
        match r {
            Some((v, n)) => {
                &&& body_from(input@, iron_start(input@, h.fancymtf), *h, seq![], blocksize as nat) == Some((v@, n))
                &&& v@.len() == blocksize
            },
            None => body_from(input@, iron_start(input@, h.fancymtf), *h, seq![], blocksize as nat) is None,
        },
{
    let mut iron = Iron::new(input, h.fancymtf);
    let mut sorted: Vec<u8> = Vec::new();
    let ghost goal = body_from(input@, iron_start(input@, h.fancymtf), *h, seq![], blocksize as nat);
    while (sorted.len() as u64) < blocksize
        invariant
            sorted@.len() <= blocksize,
            iron.wf(),
            iron.input() == input@,
            header_ok(*h),
            goal == body_from(input@, iron_start(input@, h.fancymtf), *h, seq![], blocksize as nat),
            body_from(input@, iron.state(), *h, sorted@, blocksize as nat) == goal,
        decreases blocksize - sorted@.len(),
    {
        let (byte, count) = match iron.next_run(h) {
            Some(r) => r,
            None => {
                return None;
            },
        };
        if count as u64 > blocksize - sorted.len() as u64 {
            return None;
        }
        let ghost before = sorted@;
        let mut k: u32 = 0;
        assert(sorted@ =~= before + copies(byte, 0));
        while k < count
            invariant
                k <= count,
                sorted@ == before + copies(byte, k as int),
            decreases count - k,
        {
            sorted.push(byte);
            k = k + 1;
            assert(sorted@ =~= before + copies(byte, k as int));
        }
    }
    Some((sorted, iron.coder.position()))
}

/// Undo the transform of a block.
fn unsort(h: &Header, sorted: &[u8], first: u64) -> (r: Option<Vec<u8>>)
    ensures
        match r {
            Some(v) => unsorted(*h, sorted@, first) == Some(v@),
            None => unsorted(*h, sorted@, first) is None,
        },
{
    if sorted.len() as u64 > u32::MAX as u64 {
        return None;
    }
    if sorted.len() > 0 && first >= sorted.len() as u64 {
        return None;
    }
    let index: usize = if sorted.len() == 0 {
        0
    } else {
        first as usize
    };
    proof {
        if sorted@.len() == 0 {
            assert(unsorted_bwt(sorted@, first as int) =~= unsorted_bwt(sorted@, 0));
        }
    }
    if h.st4transform {
        unsort_st4(sorted, index)
    } else {
        Some(unsort_bwt(sorted, index))
    }
}

/// Decode the compressed block of `blocksize` bytes at the reader's place.
fn read_compressed(r: &mut Reader, blocks: &[u8], h: &Header, blocksize: u64) -> (res: Result<Vec<u8>, ErrorKind>)
    requires
        old(r).wf(),
        old(r).data() == blocks@,
        header_ok(*h),
    ensures
        final(r).wf(),
        final(r).data() == old(r).data(),
        match res {
            Ok(v) => compressed_at(blocks@, old(r).at(), *h, blocksize) == Ok::<(Seq<u8>, int), ErrorKind>(
                (v@, final(r).at()),
            ) && old(r).at() < final(r).at(),
            Err(e) => compressed_at(blocks@, old(r).at(), *h, blocksize) == Err::<(Seq<u8>, int), ErrorKind>(e),
        },
{
    let first: u64 = match r.read_p2() {
        Ok(v) => v,
        Err(e) => {
            return Err(e);
        },
    };
    r.flush();
    match r.skip(1) {
        Ok(_) => {},
        Err(e) => {
            return Err(e);
        },
    }
    let start: usize = r.offset();
    let input = slice_subrange(blocks, start, blocks.len());
    assert(input@ =~= blocks@.skip(start as int));
    let (sorted, taken) = match decode_block_body(input, blocksize, h) {
        Some(b) => b,
        None => {
            return Err(ErrorKind::InvalidData);
        },
    };
    let block = match unsort(h, sorted.as_slice(), first) {
        Some(b) => b,
        None => {
            return Err(ErrorKind::InvalidData);
        },
    };
    if taken < (blocks.len() - start) as u64 {
        r.seek(start + taken as usize);
    } else {
        r.seek(blocks.len());
    }
    Ok(block)
}

/// Decode the block that starts at the byte boundary after the reader's place;
/// `None` at the end of the blocks.
fn read_block(r: &mut Reader, blocks: &[u8], h: &Header) -> (res: Result<Option<Vec<u8>>, ErrorKind>)
    requires
        old(r).wf(),
        old(r).at() >= 0,
        old(r).data() == blocks@,
        header_ok(*h),
    ensures
        final(r).wf(),
        final(r).data() == old(r).data(),
        match res {
            Ok(Some(v)) => {
                &&& block_at(blocks@, old(r).at(), *h) == Ok::<Option<(Seq<u8>, int)>, ErrorKind>(
                    Some((v@, final(r).at())),
                )
                &&& old(r).at() < final(r).at()
                &&& old(r).at() < 8 * blocks@.len()
            },
            Ok(None) => block_at(blocks@, old(r).at(), *h) == Ok::<Option<(Seq<u8>, int)>, ErrorKind>(None),
            Err(e) => block_at(blocks@, old(r).at(), *h) == Err::<Option<(Seq<u8>, int)>, ErrorKind>(e),
        },
{
    let ghost q = r.at();
    r.flush();
    let end: u32 = match r.bit() {
        Ok(b) => b,
        Err(e) => {
            return Err(e);
        },
    };
    if end == 1 {
        return Ok(None);
    }
    let blocksize: u64 = match r.read_p2() {
        Ok(v) => v,
        Err(e) => {
            return Err(e);
        },
    };
    let plain: u32 = match r.bit() {
        Ok(b) => b,
        Err(e) => {
            return Err(e);
        },
    };
    let ghost p = r.at();
    if plain == 1 {
        r.flush();
        match r.raw(blocksize) {
            Ok(s) => Ok(Some(slice_to_vec(s))),
            Err(e) => Err(e),
        }
    } else {
        match read_compressed(r, blocks, h, blocksize) {
            Ok(v) => Ok(Some(v)),
            Err(e) => Err(e),
        }
    }
}

/// Decode at most `size` bytes of a stream.
pub fn decode(blocks: &[u8], size: usize) -> (res: Result<Vec<u8>, ErrorKind>)
    ensures
        bytes_of(res) == decoded(blocks@, size as nat),
{
    let mut r = Reader::new(blocks);
    let h: Header = match reset_block_stream(&mut r) {
        Ok(h) => h,
        Err(e) => {
            return Err(e);
        },
    };
    let mut out: Vec<u8> = Vec::new();
    let ghost q0 = r.at();
    let ghost goal = blocks_from(blocks@, q0, h, seq![], size as nat);
    while out.len() < size
        invariant_except_break
            blocks_from(blocks@, r.at(), h, out@, size as nat) == goal,
            r.at() >= 0,
        invariant
            r.wf(),
            r.data() == blocks@,
            header_ok(h),
            header_of(blocks@) == Ok::<(Header, int), ErrorKind>((h, q0)),
            goal == blocks_from(blocks@, q0, h, seq![], size as nat),
        ensures
            goal == Ok::<Seq<u8>, ErrorKind>(out@),
        decreases
            (if r.at() < 8 * blocks@.len() {
                8 * blocks@.len() - r.at()
            } else {
                0
            }),
    {
        match read_block(&mut r, blocks, &h) {
            Err(e) => {
                return Err(e);
            },
            Ok(None) => {
                break;
            },
            Ok(Some(v)) => {
                append(&mut out, v.as_slice());
            },
        }
    }
    assert(out@.len() == size ==> out@.subrange(0, size as int) =~= out@);
    out.truncate(size);
    Ok(out)
}

} // verus!
