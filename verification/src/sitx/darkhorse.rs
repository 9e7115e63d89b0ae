use vstd::prelude::*;
use vstd::arithmetic::power2::{pow2, lemma2_to64, lemma_pow2_unfold, lemma_pow2_strictly_increases};
use vstd::slice::slice_subrange;
use crate::error::ErrorKind;
use crate::lzss::{zero_ring, LzssWindow, Ring};
use crate::sitx::rangecoder::{
    adapted, bit_next, range_start, settled, weighted2_next, Kind, RangeCoder, RangeState,
};

verus! {

/// What every weight starts from: even odds.
pub const INITIAL_WEIGHT: u32 = 0x800;

// The weights stand in one table. The sets in it start at:

/// Whether a literal or a match comes, by the position's remainder mod 4.
pub const FLAG: usize = 0;

/// Whether a match is new or repeats a distance.
pub const FLAG2: usize = 4;

/// The first, second and third step of picking a distance to repeat.
pub const RECENCY1: usize = 5;

pub const RECENCY2: usize = 6;

pub const RECENCY3: usize = 7;

/// Whether more than one byte repeats the last distance.
pub const RECENCY: usize = 8;

/// Whether a length is long.
pub const LEN: usize = 12;

/// The low four bits of a long distance.
pub const DISTLOW: usize = 16;

/// Short lengths.
pub const SHORT: usize = 32;

/// Long lengths.
pub const LONG: usize = 96;

/// The class of a distance, by length.
pub const DISTLEN: usize = 352;

/// The lower bits of a middle distance, by class.
pub const DIST: usize = 608;

/// Literals, by the upper half of the byte before.
pub const LIT: usize = 928;

/// Literals as long as they agree with the guess.
pub const LIT2: usize = 5024;

/// The size of the table.
pub const NUM_WEIGHTS: usize = 13216;

/// The form of the range decoder that is used.
pub open spec fn coder_kind() -> Kind {
    Kind { uselow: false, bottom: 0 }
}

// === bits and numbers =========================================================

/// The range decoder and the weights.
pub struct Dec {
    pub s: RangeState,
    pub w: Seq<u32>,
}

/// One bit under weight `i`, which adapts.
pub open spec fn weigh(input: Seq<u8>, d: Dec, i: int) -> (u32, Dec) {
    let (bit, s) = weighted2_next(input, d.s, coder_kind(), d.w[i], 12);
    (bit, Dec { s, w: d.w.update(i, adapted(d.w[i], bit, 5)) })
}

/// `num` more bits behind `val`, each under the weight that the bits before it pick
/// from the set at `base`.
pub open spec fn bits_behind(input: Seq<u8>, d: Dec, base: int, num: nat, val: int) -> (int, Dec)
    decreases num,
{
    if num == 0 {
        (val, d)
    } else {
        let (bit, d1) = weigh(input, d, base + val);
        bits_behind(input, d1, base, (num - 1) as nat, 2 * val + bit)
    }
}

/// A number of `num` bits from the set at `base`.
pub open spec fn number_next(input: Seq<u8>, d: Dec, base: int, num: nat) -> (int, Dec) {
    let (v, d1) = bits_behind(input, d, base, num, 1);
    (v - pow2(num), d1)
}

/// The rest of a literal whose bits so far, behind a 1, are `val`.
pub open spec fn literal_rest(input: Seq<u8>, d: Dec, row: int, val: int) -> (int, Dec)
    decreases
        (if val < 0x100 {
            0x100 - val
        } else {
            0
        }),
{
    if val >= 0x100 || val < 1 {
        (val, d)
    } else {
        let (bit, d1) = weigh(input, d, LIT + row * 0x100 + val);
        literal_rest(input, d1, row, 2 * val + bit)
    }
}

/// The same while the bits agree with those of the guess, `g` being what is left
/// of it.
pub open spec fn literal_guided(input: Seq<u8>, d: Dec, row: int, val: int, g: int) -> (int, Dec)
    decreases
        (if val < 0x100 {
            0x100 - val
        } else {
            0
        }),
{
    if val >= 0x100 || val < 1 {
        (val, d)
    } else {
        let gbit = (g / 0x80) % 2;
        let (bit, d1) = weigh(input, d, LIT2 + (row * 0x100 + val) * 2 + gbit);
        if bit != gbit {
            literal_rest(input, d1, row, 2 * val + bit)
        } else {
            literal_guided(input, d1, row, 2 * val + bit, 2 * g)
        }
    }
}

/// A literal after the byte `prev`.
pub open spec fn literal_next(input: Seq<u8>, d: Dec, prev: u8, guess: Option<u8>) -> (u8, Dec) {
    let row = prev as int / 16;
    let (v, d1) = match guess {
        None => literal_rest(input, d, row, 1),
        Some(g) => literal_guided(input, d, row, 1, g as int),
    };
    ((v % 0x100) as u8, d1)
}

/// A length, less 2.
pub open spec fn length_next(input: Seq<u8>, d: Dec, idx: int) -> (int, Dec) {
    let (bit, d1) = weigh(input, d, LEN as int);
    if bit == 0 {
        number_next(input, d1, SHORT + 16 * idx, 4)
    } else {
        let (v, d2) = number_next(input, d1, LONG as int, 8);
        (v + 16, d2)
    }
}

/// The least distance of a class from 4 on.
pub open spec fn class_base(class: int) -> int {
    if class < 60 {
        (2 + class % 2) * pow2((class / 2 - 1) as nat)
    } else {
        0
    }
}

/// How many bits tell the distances of a class apart.
pub open spec fn class_bits(class: int) -> nat {
    if class < 60 {
        (class / 2 - 1) as nat
    } else {
        0
    }
}

/// Plain bits put at the places from `i - 1` down to 4 of `val`.
pub open spec fn plain_bits(input: Seq<u8>, s: RangeState, i: nat, val: u64) -> (u64, RangeState)
    decreases i,
{
    if i <= 4 {
        (val, s)
    } else {
        let (bit, s1) = bit_next(input, s, coder_kind())->0;
        plain_bits(input, s1, (i - 1) as nat, val | ((bit as u64) << ((i - 1) as u64)))
    }
}

/// A distance, less 1, of a match of `len` bytes.
pub open spec fn distance_next(input: Seq<u8>, d: Dec, len: int) -> (int, Dec) {
    let k = if len - 2 > 3 {
        3
    } else {
        len - 2
    };
    let (class, d1) = number_next(input, d, DISTLEN + 64 * k, 6);
    if class < 4 {
        (class, d1)
    } else if class < 14 {
        let (v, d2) = number_next(input, d1, DIST + 32 * (class - 4), class_bits(class));
        (class_base(class) + v, d2)
    } else {
        let (high, s2) = plain_bits(input, d1.s, class_bits(class), 0);
        let (v, d3) = number_next(input, Dec { s: s2, w: d1.w }, DISTLOW as int, 4);
        (high + class_base(class) + v, d3)
    }
}

/// Which distance is repeated; -1 for the last one and a single byte.
pub open spec fn recency_next(input: Seq<u8>, d: Dec, idx: int) -> (int, Dec) {
    let (b1, d1) = weigh(input, d, RECENCY1 as int);
    if b1 == 0 {
        let (b, d2) = weigh(input, d1, RECENCY + idx);
        if b == 0 {
            (-1, d2)
        } else {
            (0, d2)
        }
    } else {
        let (b2, d2) = weigh(input, d1, RECENCY2 as int);
        if b2 == 0 {
            (1, d2)
        } else {
            let (b3, d3) = weigh(input, d2, RECENCY3 as int);
            if b3 == 0 {
                (2, d3)
            } else {
                (3, d3)
            }
        }
    }
}

// === tokens ===================================================================

/// What the stream says next.
pub enum Token {
    Literal(u8),
    Match(int, int),
    End,
}

/// The decoder between two tokens: the bits, the guess for the next literal, the
/// last four distances, each less 1, and the window.
pub struct DarkState {
    pub d: Dec,
    pub guess: Option<u8>,
    pub table: Seq<u64>,
    pub ring: Ring,
}

/// The distances once `distance` has been used, which stood at `k` or, with `k`
/// being 3, is new.
pub open spec fn remembered(table: Seq<u64>, k: int, distance: u64) -> Seq<u64> {
    seq![distance] + table.subrange(0, k) + table.subrange(k + 1, 4)
}

/// How far back the byte lies that a match of `len` at `offs` makes likely to come
/// after it.
pub open spec fn guess_distance(offs: int, len: int) -> int {
    offs + 1 - len % (offs + 1)
}

/// A match: the distance and length, with the decoder and the distances after it;
/// `None` for the end of the stream.
pub open spec fn match_next(input: Seq<u8>, d: Dec, table: Seq<u64>, idx: int) -> (Option<(int, int)>, Dec, Seq<u64>) {
    let (kind, d1) = weigh(input, d, FLAG2 as int);
    if kind == 0 {
        let (l, d2) = length_next(input, d1, idx);
        if l + 2 == 0x111 {
            (None, d2, table)
        } else {
            let (offs, d3) = distance_next(input, d2, l + 2);
            (Some((offs, l + 2)), d3, remembered(table, 3, offs as u64))
        }
    } else {
        let (k, d2) = recency_next(input, d1, idx);
        if k == -1 {
            (Some((table[0] as int, 1int)), d2, table)
        } else {
            let (l, d3) = length_next(input, d2, idx);
            (Some((table[k] as int, l + 2)), d3, remembered(table, k, table[k]))
        }
    }
}

#[verifier::opaque]
pub open spec fn token_next(input: Seq<u8>, st: DarkState, pos: int) -> (Token, DarkState) {
    let idx = pos % 4;
    let (kind, d1) = weigh(input, st.d, FLAG + idx);
    if kind == 0 {
        let (b, d2) = literal_next(input, d1, st.ring.back(1), st.guess);
        (Token::Literal(b), DarkState { d: d2, guess: None, ..st })
    } else {
        let (m, d2, table) = match_next(input, d1, st.table, idx);
        match m {
            None => (Token::End, DarkState { d: d2, table, ..st }),
            Some((offs, len)) => (
                Token::Match(offs + 1, len),
                DarkState { d: d2, table, guess: Some(st.ring.back(guess_distance(offs, len))), ..st },
            ),
        }
    }
}

/// The bytes behind `found`, of which there are `pos`, until there are `size` or the
/// stream ends; a match may run past `size`. With them comes the number of bytes
/// that the range decoder has taken.
pub open spec fn tokens_from(input: Seq<u8>, st: DarkState, pos: int, found: Seq<u8>, size: int) -> (Seq<u8>, u64)
    decreases
        (if pos < size {
            size - pos
        } else {
            0
        }),
    via tokens_advance
{
    if pos >= size {
        (found, st.d.s.pos)
    } else {
        let (t, st1) = token_next(input, st, pos);
        match t {
            Token::Literal(b) => tokens_from(
                input,
                DarkState { ring: st.ring.feed(b), ..st1 },
                pos + 1,
                found.push(b),
                size,
            ),
            Token::Match(distance, length) => tokens_from(
                input,
                DarkState { ring: st.ring.after_copy(distance, length as nat), ..st1 },
                pos + length,
                found + st.ring.copied(distance, length as nat),
                size,
            ),
            Token::End => (found, st1.d.s.pos),
        }
    }
}

proof fn bits_grow(input: Seq<u8>, d: Dec, base: int, num: nat, val: int)
    requires
        val >= 1,
    ensures
        bits_behind(input, d, base, num, val).0 >= val * pow2(num),
    decreases num,
{
    lemma2_to64();
    if num == 0 {
        assert(val * 1 == val) by (nonlinear_arith);
    } else {
        let (bit, d1) = weigh(input, d, base + val);
        bits_grow(input, d1, base, (num - 1) as nat, 2 * val + bit);
        lemma_pow2_unfold(num);
        let p = pow2((num - 1) as nat) as int;
        let x = bit as int;
        assert((2 * val + x) * p >= val * (2 * p)) by (nonlinear_arith)
            requires x >= 0, p >= 0;
    }
}

/// A match is not empty.
pub proof fn match_is_not_empty(input: Seq<u8>, st: DarkState, pos: int)
    ensures
        token_next(input, st, pos).0 matches Token::Match(distance, length) ==> length >= 1,
{
    reveal(token_next);
    let idx = pos % 4;
    let d1 = weigh(input, st.d, FLAG + idx).1;
    let (kind, d2) = weigh(input, d1, FLAG2 as int);
    let d3 = if kind == 0 {
        d2
    } else {
        recency_next(input, d2, idx).1
    };
    let d4 = weigh(input, d3, LEN as int).1;
    bits_grow(input, d4, SHORT + 16 * idx, 4, 1);
    bits_grow(input, d4, LONG as int, 8, 1);
}

#[via_fn]
proof fn tokens_advance(input: Seq<u8>, st: DarkState, pos: int, found: Seq<u8>, size: int) {
    match_is_not_empty(input, st, pos);
}

pub open spec fn dark_start(input: Seq<u8>, window: nat) -> DarkState {
    DarkState {
        d: Dec { s: range_start(input), w: Seq::new(NUM_WEIGHTS as nat, |i: int| INITIAL_WEIGHT) },
        guess: None,
        table: Seq::new(4, |i: int| 0u64),
        ring: zero_ring(window),
    }
}

/// The size of the window that a header byte asks for, 1 MiB at least.
pub open spec fn window_size(b: u8) -> nat {
    if b <= 20 {
        0x10_0000
    } else {
        pow2(b as nat)
    }
}

/// The content of a stream and how many bytes it takes. The first byte gives the
/// window, the second means nothing.
pub open spec fn framed(data: Seq<u8>, size: nat) -> Result<(Seq<u8>, nat), ErrorKind> {
    if data.len() < 2 {
        Err(ErrorKind::UnexpectedEof)
    } else if data[0] >= 31 {
        Err(ErrorKind::InvalidData)
    } else {
        let input = data.skip(2);
        let (v, n) = tokens_from(input, dark_start(input, window_size(data[0])), 0, seq![], size as int);
        Ok((v, (2 + n) as nat))
    }
}

/// The content of a stream.
pub open spec fn decoded(data: Seq<u8>, size: nat) -> Result<Seq<u8>, ErrorKind> {
    match framed(data, size) {
        Err(e) => Err(e),
        Ok((v, n)) => Ok(v),
    }
}

// === decoding =================================================================

/// The window size that a header byte asks for.
pub fn windowsize_for(window_byte: u8) -> (r: usize)
    requires
        window_byte < 31,
    ensures
        r == window_size(window_byte),
        r > 0,
{
    if window_byte <= 20 {
        0x10_0000
    } else {
        proof {
            lemma2_to64();
            if window_byte < 31 {
                lemma_pow2_strictly_increases(window_byte as nat, 31);
            }
            vstd::bits::lemma_u32_shl_is_mul(1, window_byte as u32);
            vstd::arithmetic::power2::lemma_pow2_pos(window_byte as nat);
        }
        (1u32 << (window_byte as u32)) as usize
    }
}

/// The executable decoder.
struct Darkhorse<'a> {
    coder: RangeCoder<'a>,
    window: LzssWindow,
    guess: Option<u8>,
    w: Vec<u32>,
    table: Vec<u64>,
}

/// Every weight is a share of 0x1000.
pub open spec fn weights_small(w: Seq<u32>) -> bool {
    forall|i: int| 0 <= i < w.len() ==> (#[trigger] w[i]) < 0x1000
}

/// Decode a number of `num` bits from the set of weights at `base`.
pub fn read_symbol(coder: &mut RangeCoder<'_>, weights: &mut Vec<u32>, base: usize, num: u32) -> (r: u32)
    requires
        old(coder).wf(),
        old(coder).kind() == coder_kind(),
        weights_small(old(weights)@),
        num <= 8,
        base + pow2(num as nat) <= old(weights)@.len(),
    ensures
        final(coder).wf(),
        final(coder).input() == old(coder).input(),
        final(coder).kind() == coder_kind(),
        weights_small(final(weights)@),
        final(weights)@.len() == old(weights)@.len(),
        r < pow2(num as nat),
        (r as int, Dec { s: final(coder).state(), w: final(weights)@ }) == number_next(
            old(coder).input(),
            Dec { s: old(coder).state(), w: old(weights)@ },
            base as int,
            num as nat,
        ),
{
    let mut val: u32 = 1;
    let mut i: u32 = 0;
    proof {
        lemma2_to64();
    }
    while i < num
        invariant
            coder.wf(),
            coder.input() == old(coder).input(),
            coder.kind() == coder_kind(),
            weights_small(weights@),
            weights@.len() == old(weights)@.len(),
            num <= 8,
            i <= num,
            base + pow2(num as nat) <= weights@.len(),
            pow2(i as nat) <= val < 2 * pow2(i as nat),
            bits_behind(
                coder.input(),
                Dec { s: coder.state(), w: weights@ },
                base as int,
                (num - i) as nat,
                val as int,
            ) == bits_behind(
                old(coder).input(),
                Dec { s: old(coder).state(), w: old(weights)@ },
                base as int,
                num as nat,
                1,
            ),
        decreases num - i,
    {
        proof {
            lemma2_to64();
            lemma_pow2_unfold((i + 1) as nat);
            if i + 1 < num {
                lemma_pow2_strictly_increases((i + 1) as nat, num as nat);
            }
            if num < 8 {
                lemma_pow2_strictly_increases(num as nat, 8);
            }
        }
        let len: usize = weights.len();
        let at: usize = base + val as usize;
        let bit: u32 = coder.next_bit_with_weight2(&mut weights[at]);
        val = 2 * val + bit;
        i = i + 1;
    }
    proof {
        lemma2_to64();
        if num < 8 {
            lemma_pow2_strictly_increases(num as nat, 8);
        }
        vstd::bits::lemma_u32_shl_is_mul(1, num);
    }
    val - (1u32 << num)
}

impl<'a> Darkhorse<'a> {
    spec fn dec(&self) -> Dec {
        Dec { s: self.coder.state(), w: self.w@ }
    }

    spec fn state(&self) -> DarkState {
        DarkState { d: self.dec(), guess: self.guess, table: self.table@, ring: self.window.view() }
    }

    spec fn input(&self) -> Seq<u8> {
        self.coder.input()
    }

    spec fn wf(&self) -> bool {
        &&& self.coder.wf()
        &&& self.coder.kind() == coder_kind()
        &&& self.w@.len() == NUM_WEIGHTS
        &&& weights_small(self.w@)
        &&& self.table@.len() == 4
        &&& forall|i: int| 0 <= i < 4 ==> (#[trigger] self.table@[i]) < 0x2000_0000_0000_0000
        &&& self.window.view().wf()
    }

    /// Only the bits have moved on.
    spec fn rest_same(&self, other: &Self) -> bool {
        &&& self.input() == other.input()
        &&& self.window == other.window
        &&& self.guess == other.guess
        &&& self.table@ == other.table@
    }

    fn new(input: &'a [u8], window: usize) -> (r: Self)
        requires
            window > 0,
        ensures
            r.wf(),
            r.input() == input@,
            r.state() == dark_start(input@, window as nat),
    {
        let coder = RangeCoder::new(input, false, 0);
        let w: Vec<u32> = vec![INITIAL_WEIGHT; NUM_WEIGHTS];
        let table: Vec<u64> = vec![0u64; 4];
        let r = Darkhorse { coder, window: LzssWindow::new(window), guess: None, w, table };
        assert(r.w@ =~= dark_start(input@, window as nat).d.w);
        assert(r.table@ =~= dark_start(input@, window as nat).table);
        r
    }

    /// Decode one bit under weight `i`.
    fn weigh(&mut self, i: usize) -> (r: u32)
        requires
            old(self).wf(),
            i < NUM_WEIGHTS,
        ensures
            final(self).wf(),
            final(self).rest_same(old(self)),
            r <= 1,
            (r, final(self).dec()) == weigh(old(self).input(), old(self).dec(), i as int),
    {
        self.coder.next_bit_with_weight2(&mut self.w[i])
    }

    /// Decode a number of `num` bits from the set at `base`.
    fn read_symbol(&mut self, base: usize, num: u32) -> (r: u32)
        requires
            old(self).wf(),
            num <= 8,
            base + pow2(num as nat) <= NUM_WEIGHTS,
        ensures
            final(self).wf(),
            final(self).rest_same(old(self)),
            r < pow2(num as nat),
            (r as int, final(self).dec()) == number_next(old(self).input(), old(self).dec(), base as int, num as nat),
    {
        read_symbol(&mut self.coder, &mut self.w, base, num)
    }

    /// Decode a literal after the byte `prev`.
    fn read_literal(&mut self, prev: u8, guess: Option<u8>) -> (r: u8)
        requires
            old(self).wf(),
        ensures
            final(self).wf(),
            final(self).rest_same(old(self)),
            (r, final(self).dec()) == literal_next(old(self).input(), old(self).dec(), prev, guess),
    {
        let row: usize = (prev / 16) as usize;
        let mut val: usize = 1;
        let ghost goal = match guess {
            None => literal_rest(old(self).input(), old(self).dec(), row as int, 1),
            Some(g) => literal_guided(old(self).input(), old(self).dec(), row as int, 1, g as int),
        };
        if let Some(guess) = guess {
            let mut g: usize = guess as usize;
            let mut agree: bool = true;
            while val < 0x100 && agree
                invariant
                    self.wf(),
                    self.rest_same(old(self)),
                    row < 16,
                    1 <= val < 0x200,
                    g < 0x100 * val,
                    agree ==> literal_guided(self.input(), self.dec(), row as int, val as int, g as int) == goal,
                    !agree ==> literal_rest(self.input(), self.dec(), row as int, val as int) == goal,
                decreases 0x200 - val,
            {
                let gbit: usize = (g / 0x80) % 2;
                let bit: u32 = self.weigh(LIT2 + (row * 0x100 + val) * 2 + gbit);
                val = 2 * val + bit as usize;
                if bit as usize != gbit {
                    agree = false;
                } else {
                    g = 2 * g;
                }
            }
            proof {
                if agree {
                    assert(literal_rest(self.input(), self.dec(), row as int, val as int) == (val as int, self.dec()));
                }
            }
        }
        while val < 0x100
            invariant
                self.wf(),
                self.rest_same(old(self)),
                row < 16,
                1 <= val < 0x200,
                literal_rest(self.input(), self.dec(), row as int, val as int) == goal,
            decreases 0x200 - val,
        {
            let bit: u32 = self.weigh(LIT + row * 0x100 + val);
            val = 2 * val + bit as usize;
        }
        (val % 0x100) as u8
    }

    /// Decode a length, less 2.
    fn read_length(&mut self, idx: usize) -> (r: u32)
        requires
            old(self).wf(),
            idx < 4,
        ensures
            final(self).wf(),
            final(self).rest_same(old(self)),
            r < 272,
            (r as int, final(self).dec()) == length_next(old(self).input(), old(self).dec(), idx as int),
    {
        proof {
            lemma2_to64();
        }
        if self.weigh(LEN) == 0 {
            self.read_symbol(SHORT + 16 * idx, 4)
        } else {
            self.read_symbol(LONG, 8) + 16
        }
    }

    /// Decode a distance, less 1, of a match of `len` bytes.
    fn read_distance(&mut self, len: u32) -> (r: u64)
        requires
            old(self).wf(),
            2 <= len < 0x1000,
        ensures
            final(self).wf(),
            final(self).rest_same(old(self)),
            r < 0x2000_0000_0000_0000,
            (r as int, final(self).dec()) == distance_next(old(self).input(), old(self).dec(), len as int),
    {
        proof {
            lemma2_to64();
        }
        let k: usize = if len - 2 > 3 {
            3
        } else {
            len as usize - 2
        };
        let class: u32 = self.read_symbol(DISTLEN + 64 * k, 6);
        if class < 4 {
            return class as u64;
        }
        let numbits: u32 = if class < 60 {
            class / 2 - 1
        } else {
            0
        };
        proof {
            if class < 60 {
                if numbits < 28 {
                    lemma_pow2_strictly_increases(numbits as nat, 28);
                }
                vstd::bits::lemma_u32_shl_is_mul(1, numbits);
            }
        }
        let base: u32 = if class < 60 {
            let unit: u32 = 1u32 << numbits;
            assert((2 + class as int % 2) * pow2(numbits as nat) <= 3 * pow2(28)) by (nonlinear_arith)
                requires 0 <= class as int % 2 <= 1, 0 <= pow2(numbits as nat) <= pow2(28);
            (2 + class % 2) * unit
        } else {
            0
        };
        assert(base == class_base(class as int));
        if class < 14 {
            proof {
                assert(numbits <= 5);
                if numbits < 5 {
                    lemma_pow2_strictly_increases(numbits as nat, 5);
                }
            }
            let v: u32 = self.read_symbol(DIST + 32 * (class as usize - 4), numbits);
            return base as u64 + v as u64;
        }
        let mut val: u64 = 0;
        let mut i: u32 = numbits;
        let ghost s1 = self.coder.state();
        let ghost w1 = self.w@;
        while i > 4
            invariant
                self.wf(),
                self.rest_same(old(self)),
                i <= numbits <= 28,
                val < 0x1000_0000_0000_0000,
                self.w@ == w1,
                plain_bits(self.input(), self.coder.state(), i as nat, val) == plain_bits(
                    self.input(),
                    s1,
                    numbits as nat,
                    0,
                ),
            decreases i,
        {
            proof {
                zero_low_is_wide(self.coder.state());
            }
            i = i - 1;
            match self.coder.next_bit() {
                Some(bit) => {
                    proof {
                        or_stays_small(val, bit, i as u64);
                    }
                    val = val | ((bit as u64) << (i as u64));
                },
                None => {
                    return 0;
                },
            }
        }
        let v: u32 = self.read_symbol(DISTLOW, 4);
        val + base as u64 + v as u64
    }

    /// Decode which distance is repeated; `None` for the last one and a single byte.
    fn read_recency(&mut self, idx: usize) -> (r: Option<usize>)
        requires
            old(self).wf(),
            idx < 4,
        ensures
            final(self).wf(),
            final(self).rest_same(old(self)),
            match r {
                Some(k) => k < 4 && (k as int, final(self).dec()) == recency_next(
                    old(self).input(),
                    old(self).dec(),
                    idx as int,
                ),
                None => (-1int, final(self).dec()) == recency_next(old(self).input(), old(self).dec(), idx as int),
            },
    {
        if self.weigh(RECENCY1) == 0 {
            if self.weigh(RECENCY + idx) == 0 {
                None
            } else {
                Some(0)
            }
        } else if self.weigh(RECENCY2) == 0 {
            Some(1)
        } else if self.weigh(RECENCY3) == 0 {
            Some(2)
        } else {
            Some(3)
        }
    }

    /// Put a distance in front of the last four.
    fn remember(&mut self, k: usize, distance: u64)
        requires
            old(self).wf(),
            k < 4,
            distance < 0x2000_0000_0000_0000,
        ensures
            final(self).wf(),
            final(self).table@ == remembered(old(self).table@, k as int, distance),
            final(self).coder == old(self).coder,
            final(self).w == old(self).w,
            final(self).window == old(self).window,
            final(self).guess == old(self).guess,
    {
        mtf_shift_distance(&mut self.table, k, distance);
    }

    /// Decode a match: its distance, less 1, and its length; `None` at the end.
    fn read_match(&mut self, idx: usize) -> (r: Option<(u64, u32)>)
        requires
            old(self).wf(),
            idx < 4,
        ensures
            final(self).wf(),
            final(self).input() == old(self).input(),
            final(self).window == old(self).window,
            final(self).guess == old(self).guess,
            match r {
                Some((offs, len)) => {
                    &&& match_next(old(self).input(), old(self).dec(), old(self).table@, idx as int) == (
                        Some((offs as int, len as int)),
                        final(self).dec(),
                        final(self).table@,
                    )
                    &&& offs < 0x2000_0000_0000_0000
                    &&& 1 <= len < 0x200
                },
                None => match_next(old(self).input(), old(self).dec(), old(self).table@, idx as int) == (
                    None::<(int, int)>,
                    final(self).dec(),
                    final(self).table@,
                ),
            },
    {
        if self.weigh(FLAG2) == 0 {
            let len: u32 = self.read_length(idx) + 2;
            if len == 0x111 {
                return None;
            }
            let offs: u64 = self.read_distance(len);
            self.remember(3, offs);
            Some((offs, len))
        } else {
            match self.read_recency(idx) {
                None => Some((self.table[0], 1)),
                Some(k) => {
                    let offs: u64 = self.table[k];
                    assert(self.table@[k as int] < 0x2000_0000_0000_0000);
                    self.remember(k, offs);
                    let len: u32 = self.read_length(idx) + 2;
                    Some((offs, len))
                },
            }
        }
    }
}

/// Put `distance` in front of the last four, in place of the one at `old_index`.
pub fn mtf_shift_distance(table: &mut Vec<u64>, old_index: usize, distance: u64)
    requires
        old(table)@.len() == 4,
        old_index < 4,
    ensures
        final(table)@ == remembered(old(table)@, old_index as int, distance),
        final(table)@.len() == 4,
{
    let mut i: usize = old_index;
    while i > 0
        invariant
            i <= old_index < 4,
            table@.len() == 4,
            old(table)@.len() == 4,
            forall|j: int| 0 <= j < i ==> #[trigger] table@[j] == old(table)@[j],
            forall|j: int| i < j <= old_index ==> #[trigger] table@[j] == old(table)@[j - 1],
            forall|j: int| old_index < j < 4 ==> #[trigger] table@[j] == old(table)@[j],
        decreases i,
    {
        let above: u64 = table[i - 1];
        table[i] = above;
        i = i - 1;
    }
    table[0] = distance;
    assert(table@ =~= remembered(old(table)@, old_index as int, distance));
}

/// How far back the byte lies that is likely to come after a match.
pub fn next_guess_distance(offs: u64, len: u32) -> (r: u64)
    requires
        offs < u64::MAX,
    ensures
        r == guess_distance(offs as int, len as int),
{
    offs + 1 - len as u64 % (offs + 1)
}

/// Decode a stream and tell how many bytes it takes.
pub fn decode_framed(blocks: &[u8], size: usize) -> (r: Result<(Vec<u8>, u128), ErrorKind>)
    ensures
        match r {
            Ok((v, n)) => framed(blocks@, size as nat) == Ok::<(Seq<u8>, nat), ErrorKind>((v@, n as nat)),
            Err(e) => framed(blocks@, size as nat) == Err::<(Seq<u8>, nat), ErrorKind>(e),
        },
{
    if blocks.len() < 2 {
        return Err(ErrorKind::UnexpectedEof);
    }
    let window_byte: u8 = blocks[0];
    if window_byte >= 31 {
        return Err(ErrorKind::InvalidData);
    }
    let input = slice_subrange(blocks, 2, blocks.len());
    assert(input@ =~= blocks@.skip(2));
    let mut dh = Darkhorse::new(input, windowsize_for(window_byte));
    let mut out: Vec<u8> = Vec::new();
    let ghost goal = tokens_from(input@, dark_start(input@, window_size(window_byte)), 0, seq![], size as int);
    while out.len() < size
        invariant
            dh.wf(),
            dh.input() == input@,
            goal == tokens_from(input@, dark_start(input@, window_size(window_byte)), 0, seq![], size as int),
            blocks@.len() >= 2,
            window_byte == blocks@[0],
            window_byte < 31,
            input@ == blocks@.skip(2),
            tokens_from(input@, dh.state(), out@.len() as int, out@, size as int) == goal,
        decreases
            (if out@.len() < size {
                size - out@.len()
            } else {
                0
            }),
    {
        let idx: usize = out.len() % 4;
        proof {
            reveal(token_next);
        }
        if dh.weigh(FLAG + idx) == 0 {
            let prev: u8 = dh.window.back(1);
            let guess: Option<u8> = dh.guess;
            let b: u8 = dh.read_literal(prev, guess);
            dh.guess = None;
            dh.window.emit_literal(b, &mut out);
        } else {
            let (offs, len) = match dh.read_match(idx) {
                Some(m) => m,
                None => {
                    let n: u128 = 2 + dh.coder.position() as u128;
                    return Ok((out, n));
                },
            };
            let g: u8 = dh.window.back(next_guess_distance(offs, len));
            dh.guess = Some(g);
            dh.window.emit_match(offs + 1, len as usize, &mut out);
        }
    }
    let n: u128 = 2 + dh.coder.position() as u128;
    Ok((out, n))
}

/// Decode a stream.
pub fn decode(blocks: &[u8], size: usize) -> (r: Result<Vec<u8>, ErrorKind>)
    ensures
        crate::error::bytes_of(r) == decoded(blocks@, size as nat),
{
    match decode_framed(blocks, size) {
        Ok((v, _n)) => Ok(v),
        Err(e) => Err(e),
    }
}

proof fn or_stays_small(val: u64, bit: u32, i: u64)
    by (bit_vector)
    requires
        val < 0x1000_0000_0000_0000u64,
        i < 28u64,
    ensures
        (val | ((bit as u64) << i)) < 0x1000_0000_0000_0000u64,
{
}

/// An interval that starts at zero is wide.
proof fn zero_low_is_wide(s: RangeState)
    requires
        settled(s, coder_kind()),
    ensures
        s.range >= 0x100_0000,
{
}

} // verus!
