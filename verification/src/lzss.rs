use vstd::prelude::*;
use vstd::arithmetic::div_mod::{lemma_mod_add_multiples_vanish, lemma_small_mod, lemma_fundamental_div_mod};

verus! {

/// The bytes a back-reference can reach: a ring and the slot that is written next.
pub struct Ring {
    pub bytes: Seq<u8>,
    pub cursor: int,
}

impl Ring {
    pub open spec fn wf(self) -> bool {
        0 <= self.cursor < self.bytes.len()
    }

    /// The byte written `distance` bytes ago, the ring being read round and round.
    pub open spec fn back(self, distance: int) -> u8 {
        self.bytes[(self.cursor - distance) % (self.bytes.len() as int)]
    }

    pub open spec fn feed(self, b: u8) -> Ring {
        Ring {
            bytes: self.bytes.update(self.cursor, b),
            cursor: (self.cursor + 1) % (self.bytes.len() as int),
        }
    }

    /// The bytes that a match of `length` bytes at `distance` yields.
    pub open spec fn copied(self, distance: int, length: nat) -> Seq<u8>
        decreases length,
    {
        if length == 0 {
            seq![]
        } else {
            seq![self.back(distance)] + self.feed(self.back(distance)).copied(distance, (length - 1) as nat)
        }
    }

    /// The ring after such a match.
    pub open spec fn after_copy(self, distance: int, length: nat) -> Ring
        decreases length,
    {
        if length == 0 {
            self
        } else {
            self.feed(self.back(distance)).after_copy(distance, (length - 1) as nat)
        }
    }

    /// The ring after each byte of `s` in turn.
    pub open spec fn feed_all(self, s: Seq<u8>) -> Ring
        decreases s.len(),
    {
        if s.len() == 0 {
            self
        } else {
            self.feed_all(s.drop_last()).feed(s.last())
        }
    }
}

/// A ring of `n` zero bytes.
pub open spec fn zero_ring(n: nat) -> Ring {
    Ring { bytes: Seq::new(n, |i: int| 0u8), cursor: 0 }
}

/// Feeding bytes keeps the size of the ring and moves its slot on by their number.
pub proof fn feed_all_keeps_shape(r: Ring, s: Seq<u8>)
    requires
        r.wf(),
    ensures
        r.feed_all(s).wf(),
        r.feed_all(s).bytes.len() == r.bytes.len(),
        r.feed_all(s).cursor == (r.cursor + s.len()) % (r.bytes.len() as int),
    decreases s.len(),
{
    let n = r.bytes.len() as int;
    if s.len() == 0 {
        lemma_small_mod(r.cursor as nat, n as nat);
    } else {
        feed_all_keeps_shape(r, s.drop_last());
        let c = r.cursor + s.len() - 1;
        lemma_fundamental_div_mod(c, n);
        assert(c % n + 1 == (c + 1) + n * (-(c / n))) by (nonlinear_arith)
            requires c == n * (c / n) + c % n;
        lemma_mod_add_multiples_vanish_any(c + 1, n, -(c / n));
    }
}

/// Adding a multiple of the modulus changes no remainder.
pub proof fn lemma_mod_add_multiples_vanish_any(b: int, m: int, k: int)
    requires
        m > 0,
    ensures
        (b + m * k) % m == b % m,
    decreases if k >= 0 { k } else { -k },
{
    if k > 0 {
        lemma_mod_add_multiples_vanish_any(b, m, k - 1);
        lemma_mod_add_multiples_vanish(b + m * (k - 1), m);
        assert(m + (b + m * (k - 1)) == b + m * k) by (nonlinear_arith);
    } else if k < 0 {
        lemma_mod_add_multiples_vanish_any(b, m, k + 1);
        lemma_mod_add_multiples_vanish(b + m * k, m);
        assert(m + (b + m * k) == b + m * (k + 1)) by (nonlinear_arith);
    } else {
        assert(m * k == 0) by (nonlinear_arith) requires k == 0;
    }
}

/// A back-reference that stays within both the bytes fed so far and the ring's
/// size finds exactly the byte that was fed that long ago.
pub proof fn recent_bytes_are_found(r: Ring, s: Seq<u8>, distance: int)
    requires
        r.wf(),
        1 <= distance <= s.len(),
        distance <= r.bytes.len(),
    ensures
        r.feed_all(s).back(distance) == s[s.len() - distance],
    decreases s.len(),
{
    let n = r.bytes.len() as int;
    let t = s.drop_last();
    let before = r.feed_all(t);
    feed_all_keeps_shape(r, t);
    feed_all_keeps_shape(r, s);
    let c = before.cursor;
    let c1 = (c + 1) % n;
    if c + 1 == n {
        assert(c1 == 0) by {
            lemma_mod_add_multiples_vanish_any(0, n, 1);
        }
    } else {
        lemma_small_mod((c + 1) as nat, n as nat);
    }
    let k = if c + 1 == n { 1int } else { 0int };
    assert(c1 - distance == (c + 1 - distance) + n * (-k)) by (nonlinear_arith)
        requires c1 == c + 1 - n * k;
    lemma_mod_add_multiples_vanish_any(c + 1 - distance, n, -k);
    if distance == 1 {
        lemma_small_mod(c as nat, n as nat);
    } else {
        recent_bytes_are_found(r, t, distance - 1);
        // The slot is not the one that was just overwritten.
        let slot = (c + 1 - distance) % n;
        assert(slot != c) by {
            if c + 1 - distance >= 0 {
                lemma_small_mod((c + 1 - distance) as nat, n as nat);
            } else {
                lemma_mod_add_multiples_vanish_any(c + 1 - distance, n, 1);
                lemma_small_mod((c + 1 - distance + n) as nat, n as nat);
            }
        }
    }
}

// === matches as repetitions ===================================================

/// A literal byte, or a match that repeats what came `distance` bytes before.
pub enum Token {
    Literal(u8),
    Match { distance: int, length: nat },
}

/// The `n` bytes that follow `s` if each is the one `distance` before it.
pub open spec fn repetition(s: Seq<u8>, distance: int, n: nat) -> Seq<u8>
    decreases n,
{
    if n == 0 {
        seq![]
    } else {
        let b = s[s.len() - distance];
        seq![b] + repetition(s.push(b), distance, (n - 1) as nat)
    }
}

/// What a token adds to the text `s`.
pub open spec fn token_text(s: Seq<u8>, t: Token) -> Seq<u8> {
    match t {
        Token::Literal(b) => seq![b],
        Token::Match { distance, length } => repetition(s, distance, length),
    }
}

/// What the tokens add to the text `s`.
pub open spec fn tokens_text(s: Seq<u8>, tokens: Seq<Token>) -> Seq<u8>
    decreases tokens.len(),
{
    if tokens.len() == 0 {
        seq![]
    } else {
        let t = token_text(s, tokens[0]);
        t + tokens_text(s + t, tokens.drop_first())
    }
}

/// The token reaches back no further than the text and a window of `size` bytes.
pub open spec fn token_reaches(s: Seq<u8>, t: Token, size: nat) -> bool {
    match t {
        Token::Literal(b) => true,
        Token::Match { distance, length } => 1 <= distance <= s.len() && distance <= size && length > 0,
    }
}

/// A repetition has the length that is asked for.
pub proof fn repetition_len(s: Seq<u8>, distance: int, n: nat)
    ensures
        repetition(s, distance, n).len() == n,
    decreases n,
{
    if n > 0 {
        repetition_len(s.push(s[s.len() - distance]), distance, (n - 1) as nat);
    }
}

/// A match copied through the ring is the repetition of the text that was fed to it.
pub proof fn copy_is_repetition(r: Ring, s: Seq<u8>, distance: int, n: nat)
    requires
        r.wf(),
        1 <= distance <= s.len(),
        distance <= r.bytes.len(),
    ensures
        r.feed_all(s).copied(distance, n) == repetition(s, distance, n),
        r.feed_all(s).after_copy(distance, n) == r.feed_all(s + repetition(s, distance, n)),
    decreases n,
{
    if n == 0 {
        assert(s + repetition(s, distance, n) =~= s);
    } else {
        let b = s[s.len() - distance];
        recent_bytes_are_found(r, s, distance);
        assert(s.push(b).drop_last() =~= s);
        copy_is_repetition(r, s.push(b), distance, (n - 1) as nat);
        assert(s + repetition(s, distance, n) =~= s.push(b) + repetition(s.push(b), distance, (n - 1) as nat));
    }
}

proof fn filling_keeps(w: Seq<u8>, i: int)
    requires
        0 <= i <= w.len(),
    ensures
        ({
            let r = zero_ring(w.len()).feed_all(w.subrange(0, i));
            &&& i < w.len() ==> r.cursor == i
            &&& i == w.len() && i > 0 ==> r.cursor == 0
            &&& r.bytes.len() == w.len()
            &&& forall|k: int| 0 <= k < i ==> r.bytes[k] == w[k]
        }),
    decreases i,
{
    if i > 0 {
        filling_keeps(w, i - 1);
        let s = w.subrange(0, i);
        assert(s.drop_last() =~= w.subrange(0, i - 1));
        if i < w.len() {
            lemma_small_mod(i as nat, w.len());
        } else {
            lemma_mod_add_multiples_vanish_any(0, w.len() as int, 1);
        }
    } else {
        assert(w.subrange(0, 0) =~= Seq::<u8>::empty());
    }
}

/// A ring that starts out holding `w` is one to which `w` was fed.
pub proof fn prefilled_ring_was_fed(w: Seq<u8>)
    requires
        w.len() > 0,
    ensures
        zero_ring(w.len()).feed_all(w) == (Ring { bytes: w, cursor: 0 }),
{
    filling_keeps(w, w.len() as int);
    assert(w.subrange(0, w.len() as int) =~= w);
    assert(zero_ring(w.len()).feed_all(w).bytes =~= w);
}

/// The executable ring.
pub struct LzssWindow {
    ring: Vec<u8>,
    cursor: usize,
}

impl LzssWindow {
    pub closed spec fn view(&self) -> Ring {
        Ring { bytes: self.ring@, cursor: self.cursor as int }
    }

    /// A window of `size` zero bytes.
    pub fn new(size: usize) -> (r: Self)
        requires
            size > 0,
        ensures
            r.view() == zero_ring(size as nat),
            r.view().wf(),
    {
        let ring: Vec<u8> = vec![0u8; size];
        assert(ring@ =~= Seq::new(size as nat, |i: int| 0u8));
        LzssWindow { ring, cursor: 0 }
    }

    /// A window that starts out holding `bytes`.
    pub fn prefilled(bytes: Vec<u8>) -> (r: Self)
        requires
            bytes@.len() > 0,
        ensures
            r.view() == (Ring { bytes: bytes@, cursor: 0 }),
            r.view().wf(),
    {
        LzssWindow { ring: bytes, cursor: 0 }
    }

    /// The byte written `distance` bytes ago.
    pub fn back(&self, distance: u64) -> (r: u8)
        requires
            self.view().wf(),
        ensures
            r == self.view().back(distance as int),
    {
        let n: usize = self.ring.len();
        let d: usize = (distance % (n as u64)) as usize;
        proof {
            lemma_fundamental_div_mod(distance as int, n as int);
            let q = distance as int / n as int;
            assert(self.cursor - distance == (self.cursor - d) + n * (-q)) by (nonlinear_arith)
                requires distance == n * q + d;
            lemma_mod_add_multiples_vanish_any(self.cursor - d, n as int, -q);
        }
        if self.cursor >= d {
            proof {
                lemma_small_mod((self.cursor - d) as nat, n as nat);
            }
            self.ring[self.cursor - d]
        } else {
            proof {
                lemma_mod_add_multiples_vanish_any(self.cursor - d, n as int, 1);
                lemma_small_mod((self.cursor - d + n) as nat, n as nat);
            }
            self.ring[n - (d - self.cursor)]
        }
    }

    /// Record one byte and append it to `out`.
    pub fn emit_literal(&mut self, b: u8, out: &mut Vec<u8>)
        requires
            old(self).view().wf(),
        ensures
            final(self).view() == old(self).view().feed(b),
            final(self).view().wf(),
            final(out)@ == old(out)@.push(b),
    {
        proof {
            if self.cursor + 1 == self.ring@.len() {
                lemma_mod_add_multiples_vanish_any(0, self.ring@.len() as int, 1);
            } else {
                lemma_small_mod((self.cursor + 1) as nat, self.ring@.len());
            }
        }
        let n: usize = self.ring.len();
        self.ring[self.cursor] = b;
        if self.cursor + 1 == n {
            self.cursor = 0;
        } else {
            self.cursor = self.cursor + 1;
        }
        out.push(b);
    }

    /// Copy `length` bytes from `distance` bytes back, recording and appending
    /// each of them.
    pub fn emit_match(&mut self, distance: u64, length: usize, out: &mut Vec<u8>)
        requires
            old(self).view().wf(),
        ensures
            final(self).view() == old(self).view().after_copy(distance as int, length as nat),
            final(self).view().wf(),
            final(out)@ == old(out)@ + old(self).view().copied(distance as int, length as nat),
            final(out)@.len() == old(out)@.len() + length,
    {
        let mut left: usize = length;
        assert(out@ + self.view().copied(distance as int, left as nat) =~= old(out)@ + old(self).view().copied(
            distance as int,
            length as nat,
        ));
        while left > 0
            invariant
                left <= length,
                self.view().wf(),
                out@.len() == old(out)@.len() + (length - left),
                self.view().after_copy(distance as int, left as nat) == old(self).view().after_copy(
                    distance as int,
                    length as nat,
                ),
                out@ + self.view().copied(distance as int, left as nat) == old(out)@ + old(self).view().copied(
                    distance as int,
                    length as nat,
                ),
            decreases left,
        {
            let b: u8 = self.back(distance);
            let ghost before = self.view();
            let ghost out0 = out@;
            self.emit_literal(b, out);
            left = left - 1;
            proof {
                assert(before.copied(distance as int, (left + 1) as nat) == seq![b] + self.view().copied(distance as int, left as nat));
                assert(out@ + self.view().copied(distance as int, left as nat) =~= out0 + before.copied(
                    distance as int,
                    (left + 1) as nat,
                ));
            }
        }
        assert(out@ =~= out@ + self.view().copied(distance as int, 0));
    }
}

} // verus!
