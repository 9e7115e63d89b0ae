use vstd::prelude::*;
use vstd::arithmetic::power2::{pow2, lemma2_to64, lemma_pow2_unfold, lemma_pow2_strictly_increases};
use vstd::slice::{slice_subrange, slice_to_vec};
use crate::bits::{bit_value, lsb_bit, lsb_value, lsb_value_bound};
use crate::catalog::{append, be32, read_be32};
use crate::error::ErrorKind;

verus! {

// A stream is read bit by bit, low bits of each byte first, and byte by byte in
// turn. A position counts bits; whole bytes are read from the next byte boundary.

/// The byte boundary at or after bit `q`.
pub open spec fn byte_pos(q: int) -> int {
    (q + 7) / 8
}

/// The number of `n` bits at `q` and the position after it.
pub open spec fn bits_at(data: Seq<u8>, q: int, n: nat) -> Result<(nat, int), ErrorKind> {
    if n > 0 && q + n > 8 * data.len() {
        Err(ErrorKind::UnexpectedEof)
    } else {
        Ok((lsb_value(data, q, n), q + n))
    }
}

/// The next `n` whole bytes after `q` and the position after them.
pub open spec fn raw_at(data: Seq<u8>, q: int, n: int) -> Result<(Seq<u8>, int), ErrorKind> {
    let p = byte_pos(q);
    if p + n > data.len() {
        Err(ErrorKind::UnexpectedEof)
    } else {
        Ok(
            (
                data.subrange(p, p + n),
                if n > 0 {
                    8 * (p + n)
                } else {
                    q
                },
            ),
        )
    }
}

// === variable-length numbers ==================================================

/// How many ones the digits hold, given the `n` found before `q`: one more than
/// the ones before the first zero. With it comes the position after the zero.
pub open spec fn p2_ones(data: Seq<u8>, q: int, n: nat) -> Result<(nat, int), ErrorKind>
    decreases 8 * data.len() - q,
{
    if q >= 8 * data.len() {
        Err(ErrorKind::UnexpectedEof)
    } else if lsb_bit(data, q) {
        p2_ones(data, q + 1, n + 1)
    } else {
        Ok((n, q + 1))
    }
}

/// The number whose digits start at `q`, the lowest first, of which `n` ones are
/// still due; `i` digits worth `acc` have been read. Digits from the 64th on
/// count for nothing.
pub open spec fn p2_digits(data: Seq<u8>, q: int, n: nat, i: nat, acc: nat) -> Result<(nat, int), ErrorKind>
    decreases 8 * data.len() - q,
{
    if n == 0 {
        Ok((acc, q))
    } else if q >= 8 * data.len() {
        Err(ErrorKind::UnexpectedEof)
    } else if lsb_bit(data, q) {
        p2_digits(
            data,
            q + 1,
            (n - 1) as nat,
            i + 1,
            acc + (if i < 64 {
                pow2(i)
            } else {
                0
            }),
        )
    } else {
        p2_digits(data, q + 1, n, i + 1, acc)
    }
}

/// The number spelled at `q`, which is one less than what its digits say, and
/// the position after it.
pub open spec fn p2_at(data: Seq<u8>, q: int) -> Result<(u64, int), ErrorKind> {
    match p2_ones(data, q, 1) {
        Err(e) => Err(e),
        Ok((n, p)) => match p2_digits(data, p, n, 0, 0) {
            Err(e) => Err(e),
            Ok((v, r)) => Ok(
                (
                    if v == 0 {
                        u64::MAX
                    } else {
                        (v - 1) as u64
                    },
                    r,
                ),
            ),
        },
    }
}

/// The ones among the digits of `v`.
pub open spec fn ones(v: nat) -> nat
    decreases v,
{
    if v == 0 {
        0
    } else {
        v % 2 + ones(v / 2)
    }
}

/// The digits of `v`, the lowest first.
pub open spec fn digits(v: nat) -> Seq<bool>
    decreases v,
{
    if v == 0 {
        seq![]
    } else {
        seq![v % 2 == 1] + digits(v / 2)
    }
}

/// How a number is written: as many ones as the digits of its successor hold,
/// less one, then a zero, then the digits.
pub open spec fn p2_written(v: u64) -> Seq<bool> {
    Seq::new((ones((v + 1) as nat) - 1) as nat, |i: int| true) + seq![false] + digits((v + 1) as nat)
}

/// The bits from `q` on are `bits`.
pub open spec fn spelled(data: Seq<u8>, q: int, bits: Seq<bool>) -> bool {
    &&& 0 <= q
    &&& q + bits.len() <= 8 * data.len()
    &&& forall|i: int| 0 <= i < bits.len() ==> #[trigger] lsb_bit(data, q + i) == bits[i]
}

proof fn ones_positive(v: nat)
    requires
        v > 0,
    ensures
        ones(v) > 0,
    decreases v,
{
    if v % 2 == 0 {
        ones_positive(v / 2);
    }
}

proof fn unary_is_read(data: Seq<u8>, q: int, k: nat, n: nat)
    requires
        0 <= q,
        q + k < 8 * data.len(),
        forall|i: int| 0 <= i < k ==> #[trigger] lsb_bit(data, q + i),
        !lsb_bit(data, q + k),
    ensures
        p2_ones(data, q, n) == Ok::<(nat, int), ErrorKind>((n + k, q + k + 1)),
    decreases k,
{
    if k > 0 {
        assert(lsb_bit(data, q + 0));
        assert forall|i: int| 0 <= i < k - 1 implies #[trigger] lsb_bit(data, q + 1 + i) by {
            assert(lsb_bit(data, q + (i + 1)));
        }
        unary_is_read(data, q + 1, (k - 1) as nat, n + 1);
    }
}

proof fn digits_are_read(data: Seq<u8>, q: int, v: nat, i: nat, acc: nat)
    requires
        0 <= q,
        v > 0,
        v * pow2(i) < 0x1_0000_0000_0000_0000,
        spelled(data, q, digits(v)),
    ensures
        p2_digits(data, q, ones(v), i, acc) == Ok::<(nat, int), ErrorKind>((acc + v * pow2(i), q + digits(v).len())),
    decreases v,
{
    ones_positive(v);
    assert(i < 64) by {
        if i >= 64 {
            lemma2_to64();
            if i > 64 {
                lemma_pow2_strictly_increases(64, i);
            }
            assert(v * pow2(i) >= pow2(i)) by (nonlinear_arith)
                requires v >= 1;
        }
    }
    let d = digits(v);
    assert(lsb_bit(data, q + 0) == d[0]);
    lemma_pow2_unfold(i + 1);
    let h = v / 2;
    assert(v == 2 * h + v % 2);
    assert(v * pow2(i) == h * pow2(i + 1) + (v % 2) * pow2(i)) by (nonlinear_arith)
        requires v == 2 * h + v % 2, pow2(i + 1) == 2 * pow2(i);
    if v % 2 == 1 {
        assert((v % 2) * pow2(i) == pow2(i)) by (nonlinear_arith)
            requires v % 2 == 1;
    } else {
        assert((v % 2) * pow2(i) == 0) by (nonlinear_arith)
            requires v % 2 == 0;
    }
    assert((v % 2) * pow2(i) >= 0);
    let acc1 = acc + (v % 2) * pow2(i);
    if h > 0 {
        assert forall|k: int| 0 <= k < digits(h).len() implies #[trigger] lsb_bit(data, q + 1 + k) == digits(h)[k] by {
            assert(lsb_bit(data, q + (k + 1)) == d[k + 1]);
        }
        digits_are_read(data, q + 1, h, i + 1, acc1);
    } else {
        assert(v == 1);
        assert(h * pow2(i + 1) == 0) by (nonlinear_arith)
            requires h == 0;
        assert(ones(h) == 0);
        assert(digits(h) =~= seq![]);
        assert(ones(v) == 1) by {
            assert(ones(v) == v % 2 + ones(h));
        }
        assert(p2_digits(data, q + 1, 0, i + 1, acc1) == Ok::<(nat, int), ErrorKind>((acc1, q + 1)));
    }
}

/// A number that was written is read back, wherever it stands. The one number
/// left out has a successor that 64 digits cannot hold.
pub proof fn written_number_is_read_back(data: Seq<u8>, q: int, v: u64)
    requires
        v < u64::MAX,
        spelled(data, q, p2_written(v)),
    ensures
        p2_at(data, q) == Ok::<(u64, int), ErrorKind>((v, q + p2_written(v).len())),
{
    let w = (v + 1) as nat;
    ones_positive(w);
    let k = (ones(w) - 1) as nat;
    let bits = p2_written(v);
    assert(bits.len() == k + 1 + digits(w).len());
    assert forall|i: int| 0 <= i < k implies #[trigger] lsb_bit(data, q + i) by {
        assert(lsb_bit(data, q + i) == bits[i]);
    }
    assert(lsb_bit(data, q + k) == bits[k as int]);
    unary_is_read(data, q, k, 1);
    assert forall|i: int| 0 <= i < digits(w).len() implies #[trigger] lsb_bit(data, q + k + 1 + i) == digits(w)[i] by {
        assert(lsb_bit(data, q + (k + 1 + i)) == bits[k + 1 + i]);
    }
    lemma2_to64();
    assert(w * pow2(0) == w) by (nonlinear_arith)
        requires pow2(0) == 1;
    digits_are_read(data, q + k + 1, w, 0, 0);
}

// === larger fields ============================================================

/// `n` bytes at `q`, whatever their alignment, and the position after them.
pub open spec fn bytes_at(data: Seq<u8>, q: int, n: nat) -> Result<(Seq<u8>, int), ErrorKind> {
    if n > 0 && q + 8 * n > 8 * data.len() {
        Err(ErrorKind::UnexpectedEof)
    } else {
        Ok((Seq::new(n, |i: int| lsb_value(data, q + 8 * i, 8) as u8), q + 8 * n))
    }
}

/// The big-endian number of `n` bytes at `q`, whatever their alignment.
pub open spec fn big_endian(data: Seq<u8>, q: int, n: nat) -> nat
    decreases n,
{
    if n == 0 {
        0
    } else {
        256 * big_endian(data, q, (n - 1) as nat) + lsb_value(data, q + 8 * (n - 1), 8)
    }
}

pub open spec fn number_at(data: Seq<u8>, q: int, n: nat) -> Result<(nat, int), ErrorKind> {
    if q + 8 * n > 8 * data.len() {
        Err(ErrorKind::UnexpectedEof)
    } else {
        Ok((big_endian(data, q, n), q + 8 * n))
    }
}

/// A length and that many whole bytes.
pub open spec fn string_at(data: Seq<u8>, q: int) -> Result<(Seq<u8>, int), ErrorKind> {
    match p2_at(data, q) {
        Err(e) => Err(e),
        Ok((n, p)) => match raw_at(data, p, n as int) {
            Err(e) => Err(e),
            Ok((s, r)) => Ok((s, 8 * byte_pos(r))),
        },
    }
}

/// The blocks from `q` on joined behind `found`: each is a length and that many
/// whole bytes, and a length of 0 ends them.
pub open spec fn blocks_from(data: Seq<u8>, q: int, found: Seq<u8>) -> Result<(Seq<u8>, int), ErrorKind>
    decreases 8 * data.len() - q,
    via blocks_advance
{
    match p2_at(data, q) {
        Err(e) => Err(e),
        Ok((n, p)) => if n == 0 {
            Ok((found, p))
        } else {
            match raw_at(data, p, n as int) {
                Err(e) => Err(e),
                Ok((s, r)) => blocks_from(data, r, found + s),
            }
        },
    }
}

#[via_fn]
proof fn blocks_advance(data: Seq<u8>, q: int, found: Seq<u8>) {
    p2_advances(data, q);
}

/// The joined blocks at byte `offset`.
pub open spec fn block_stream(data: Seq<u8>, offset: int) -> Result<Seq<u8>, ErrorKind> {
    match blocks_from(data, 8 * offset, seq![]) {
        Err(e) => Err(e),
        Ok((s, q)) => Ok(s),
    }
}

proof fn ones_advance(data: Seq<u8>, q: int, n: nat)
    ensures
        p2_ones(data, q, n) matches Ok((m, p)) ==> q < p <= 8 * data.len() && m >= n,
    decreases 8 * data.len() - q,
{
    if q < 8 * data.len() && lsb_bit(data, q) {
        ones_advance(data, q + 1, n + 1);
    }
}

proof fn digits_advance(data: Seq<u8>, q: int, n: nat, i: nat, acc: nat)
    ensures
        p2_digits(data, q, n, i, acc) matches Ok((v, p)) ==> q + n <= p && (n > 0 ==> p <= 8 * data.len()),
    decreases 8 * data.len() - q,
{
    if n > 0 && q < 8 * data.len() {
        if lsb_bit(data, q) {
            digits_advance(
                data,
                q + 1,
                (n - 1) as nat,
                i + 1,
                acc + (if i < 64 {
                    pow2(i)
                } else {
                    0
                }),
            );
        } else {
            digits_advance(data, q + 1, n, i + 1, acc);
        }
    }
}

/// A number takes at least two bits, all of them within the data.
pub proof fn p2_advances(data: Seq<u8>, q: int)
    ensures
        p2_at(data, q) matches Ok((v, p)) ==> q + 2 <= p <= 8 * data.len(),
{
    ones_advance(data, q, 1);
    match p2_ones(data, q, 1) {
        Ok((n, p)) => {
            digits_advance(data, p, n, 0, 0);
        },
        Err(e) => {},
    }
}

// === the reader ===============================================================

/// The position in bits once a reader that holds back the bits at `held` goes to byte
/// `off`: where the held bits end, they come first.
pub open spec fn resumed(held: int, off: int) -> int {
    if off == byte_pos(held) {
        held
    } else {
        8 * off
    }
}

/// Where a reader at `at` that holds back the bits at `held` is left, and which bits it
/// then holds back, once more bits were asked of it than there are: all of them are
/// taken.
pub open spec fn run_out(data: Seq<u8>, at: int, held: int) -> (int, int) {
    if at < 8 * data.len() {
        (8 * data.len() as int, 8 * data.len() as int)
    } else {
        (at, 8 * byte_pos(held))
    }
}

/// Where a reader is left, and which bits it then holds back, by a string that is cut
/// short: behind its length, if that is there.
pub open spec fn string_stop(data: Seq<u8>, at: int, held: int) -> (int, int) {
    match p2_at(data, at) {
        Err(e) => run_out(data, at, held),
        Ok((n, p)) => (p, p),
    }
}

/// Where a reader is left by the blocks that it reads, be they cut short or not, and
/// which bits it then holds back.
pub open spec fn blocks_stop(data: Seq<u8>, at: int, held: int) -> (int, int)
    decreases 8 * data.len() - at,
    via blocks_stop_advances
{
    match p2_at(data, at) {
        Err(e) => run_out(data, at, held),
        Ok((n, p)) => if n == 0 {
            (p, p)
        } else {
            match raw_at(data, p, n as int) {
                Err(e) => (p, p),
                Ok((s, r)) => blocks_stop(data, r, p),
            }
        },
    }
}

#[via_fn]
proof fn blocks_stop_advances(data: Seq<u8>, at: int, held: int) {
    p2_advances(data, at);
}

/// A cursor over a stream. The bits of a byte that have not been taken are held back:
/// they come next whenever the cursor is at the byte behind them.
pub struct Reader<'a> {
    data: &'a [u8],
    /// The next whole byte.
    pos: usize,
    /// The byte behind the one whose bits are held.
    behind: usize,
    /// How many of its bits have not been taken.
    left: u8,
}

impl<'a> Reader<'a> {
    pub closed spec fn data(&self) -> Seq<u8> {
        self.data@
    }

    /// The position in bits.
    pub closed spec fn at(&self) -> int {
        if self.pos == self.behind {
            8 * self.pos - self.left
        } else {
            8 * self.pos
        }
    }

    /// The position of the bits that are held back.
    pub closed spec fn held(&self) -> int {
        8 * self.behind - self.left
    }

    pub closed spec fn sound(&self) -> bool {
        &&& self.left < 8
        &&& self.left > 0 ==> 1 <= self.behind <= self.data@.len()
    }

    /// No held bits lie ahead.
    pub open spec fn wf(&self) -> bool {
        self.sound() && (self.held() == 8 * byte_pos(self.held()) || byte_pos(self.held()) <= byte_pos(self.at()))
    }

    /// What the two positions have to do with each other.
    pub proof fn positions(&self)
        requires
            self.sound(),
        ensures
            self.at() == resumed(self.held(), byte_pos(self.at())),
            self.at() >= 0,
            self.held() >= 0,
    {
    }

    pub fn new(data: &'a [u8]) -> (r: Self)
        ensures
            r.wf(),
            r.data() == data@,
            r.at() == 0,
            r.held() == 0,
    {
        Reader { data, pos: 0, behind: 0, left: 0 }
    }

    /// Take one bit.
    pub fn bit(&mut self) -> (r: Result<u32, ErrorKind>)
        requires
            old(self).sound(),
        ensures
            final(self).wf(),
            final(self).data() == old(self).data(),
            old(self).at() >= 0,
            match r {
                Ok(b) => {
                    &&& old(self).at() < 8 * old(self).data().len()
                    &&& b == bit_value(lsb_bit(old(self).data(), old(self).at()))
                    &&& final(self).at() == old(self).at() + 1
                    &&& final(self).held() == final(self).at()
                },
                Err(e) => {
                    &&& e == ErrorKind::UnexpectedEof
                    &&& old(self).at() >= 8 * old(self).data().len()
                    &&& final(self).at() == old(self).at()
                    &&& final(self).held() == 8 * byte_pos(old(self).held())
                },
            },
    {
        let ghost q = self.at();
        if self.pos != self.behind {
            self.left = 0;
        }
        if self.left == 0 {
            if self.pos >= self.data.len() {
                return Err(ErrorKind::UnexpectedEof);
            }
            let b: u8 = (self.data[self.pos] >> 0) & 1;
            self.pos = self.pos + 1;
            self.behind = self.pos;
            self.left = 7;
            assert(q / 8 == self.pos - 1 && q % 8 == 0);
            if b == 1 {
                Ok(1)
            } else {
                Ok(0)
            }
        } else {
            let b: u8 = (self.data[self.pos - 1] >> (8 - self.left)) & 1;
            assert(q / 8 == self.pos - 1 && q % 8 == 8 - self.left);
            self.left = self.left - 1;
            if b == 1 {
                Ok(1)
            } else {
                Ok(0)
            }
        }
    }

    /// Take `n` bits, the first of them worth 1.
    pub fn bits_le(&mut self, n: u32) -> (r: Result<u32, ErrorKind>)
        requires
            old(self).sound(),
            n <= 32,
        ensures
            final(self).sound(),
            old(self).wf() ==> final(self).wf(),
            final(self).data() == old(self).data(),
            match r {
                Ok(v) => bits_at(old(self).data(), old(self).at(), n as nat) == Ok::<(nat, int), ErrorKind>(
                    (v as nat, final(self).at()),
                ),
                Err(e) => {
                    &&& bits_at(old(self).data(), old(self).at(), n as nat) == Err::<(nat, int), ErrorKind>(e)
                    &&& (final(self).at(), final(self).held()) == run_out(
                        old(self).data(),
                        old(self).at(),
                        old(self).held(),
                    )
                },
            },
            r is Ok ==> final(self).held() == (if n > 0 {
                final(self).at()
            } else if byte_pos(old(self).held()) == byte_pos(old(self).at()) {
                old(self).held()
            } else {
                8 * byte_pos(old(self).held())
            }),
    {
        if self.pos != self.behind {
            self.left = 0;
        }
        let mut value: u64 = 0;
        let mut weight: u64 = 1;
        let mut i: u32 = 0;
        proof {
            lemma2_to64();
        }
        while i < n
            invariant
                n <= 32,
                i <= n,
                self.sound(),
                old(self).wf() ==> self.wf(),
                self.data() == old(self).data(),
                self.at() == old(self).at() + i,
                i > 0 ==> self.held() == self.at(),
                i == 0 ==> self.held() == (if byte_pos(old(self).held()) == byte_pos(old(self).at()) {
                    old(self).held()
                } else {
                    8 * byte_pos(old(self).held())
                }),
                weight == pow2(i as nat),
                value == lsb_value(old(self).data(), old(self).at(), i as nat),
                value < weight,
                weight <= 0x1_0000_0000,
                i > 0 ==> old(self).at() + i <= 8 * old(self).data().len(),
            decreases n - i,
        {
            let b: u32 = match self.bit() {
                Ok(b) => b,
                Err(e) => {
                    return Err(e);
                },
            };
            proof {
                lsb_value_bound(old(self).data(), old(self).at(), (i + 1) as nat);
                reveal_with_fuel(lsb_value, 2);
                assert(lsb_value(old(self).data(), old(self).at(), (i + 1) as nat) == value + bit_value(
                    lsb_bit(old(self).data(), old(self).at() + i),
                ) * weight);
                lemma_pow2_unfold((i + 1) as nat);
                lemma2_to64();
                if i + 1 < 32 {
                    lemma_pow2_strictly_increases((i + 1) as nat, 32);
                }
            }
            if b == 1 {
                value = value + weight;
            }
            weight = weight * 2;
            i = i + 1;
        }
        Ok(value as u32)
    }

    /// Take eight bits.
    pub fn byte(&mut self) -> (r: Result<u8, ErrorKind>)
        requires
            old(self).sound(),
        ensures
            final(self).sound(),
            old(self).wf() ==> final(self).wf(),
            final(self).data() == old(self).data(),
            match r {
                Ok(v) => bits_at(old(self).data(), old(self).at(), 8) == Ok::<(nat, int), ErrorKind>(
                    (v as nat, final(self).at()),
                ) && final(self).held() == final(self).at(),
                Err(e) => {
                    &&& bits_at(old(self).data(), old(self).at(), 8) == Err::<(nat, int), ErrorKind>(e)
                    &&& (final(self).at(), final(self).held()) == run_out(
                        old(self).data(),
                        old(self).at(),
                        old(self).held(),
                    )
                },
            },
    {
        proof {
            lsb_value_bound(self.data(), self.at(), 8);
            lemma2_to64();
        }
        match self.bits_le(8) {
            Ok(v) => Ok(v as u8),
            Err(e) => Err(e),
        }
    }

    /// Take a variable-length number.
    pub fn read_p2(&mut self) -> (r: Result<u64, ErrorKind>)
        requires
            old(self).sound(),
        ensures
            final(self).sound(),
            old(self).wf() ==> final(self).wf(),
            final(self).data() == old(self).data(),
            match r {
                Ok(v) => {
                    &&& p2_at(old(self).data(), old(self).at()) == Ok::<(u64, int), ErrorKind>((v, final(self).at()))
                    &&& old(self).at() < final(self).at() <= 8 * old(self).data().len()
                    &&& final(self).held() == final(self).at()
                },
                Err(e) => {
                    &&& p2_at(old(self).data(), old(self).at()) == Err::<(u64, int), ErrorKind>(e)
                    &&& (final(self).at(), final(self).held()) == run_out(
                        old(self).data(),
                        old(self).at(),
                        old(self).held(),
                    )
                },
            },
    {
        let ghost data = self.data();
        let ghost q = self.at();
        let mut n: u128 = 1;
        proof {
            p2_advances(data, q);
        }
        proof {
            self.at_in_range();
        }
        loop
            invariant_except_break
                self.sound(),
                old(self).wf() ==> self.wf(),
                self.data() == data,
                q <= self.at(),
                n == 1 + self.at() - q,
                n == 1 ==> self.held() == old(self).held(),
                n > 1 ==> self.held() == self.at() && self.at() <= 8 * data.len(),
                p2_ones(data, self.at(), n as nat) == p2_ones(data, q, 1),
            invariant
                data == old(self).data(),
                q == old(self).at(),
                q >= 0,
            ensures
                self.sound(),
                old(self).wf() ==> self.wf(),
                self.data() == data,
                p2_ones(data, q, 1) == Ok::<(nat, int), ErrorKind>((n as nat, self.at())),
                self.held() == self.at(),
                q < self.at(),
                self.at() <= 8 * data.len(),
            decreases 8 * data.len() - self.at(),
        {
            match self.bit() {
                Err(e) => {
                    return Err(e);
                },
                Ok(b) => {
                    if b == 0 {
                        break;
                    }
                    proof {
                        self.at_in_range();
                    }
                    n = n + 1;
                },
            }
        }
        let ghost p = self.at();
        let ghost n0 = n as nat;
        let mut value: u64 = 0;
        let mut weight: u64 = 1;
        let ghost mut i: nat = 0;
        proof {
            lemma2_to64();
        }
        while n != 0
            invariant
                self.sound(),
                old(self).wf() ==> self.wf(),
                self.data() == data,
                self.held() == self.at(),
                q < self.at() <= 8 * data.len(),
                p2_digits(data, self.at(), n as nat, i, value as nat) == p2_digits(data, p, n0, 0, 0),
                p2_ones(data, q, 1) == Ok::<(nat, int), ErrorKind>((n0, p)),
                data == old(self).data(),
                q == old(self).at(),
                i < 64 ==> weight == pow2(i) && value < pow2(i),
                i >= 64 ==> weight == 0,
            decreases 8 * data.len() - self.at(),
        {
            proof {
                lemma2_to64();
                lemma_pow2_unfold(i + 1);
                if i < 63 {
                    lemma_pow2_strictly_increases(i + 1, 64);
                }
                if i < 64 {
                    lemma_pow2_at_most(i);
                }
            }
            let b: u32 = match self.bit() {
                Ok(b) => b,
                Err(e) => {
                    return Err(e);
                },
            };
            if b == 1 {
                n = n - 1;
                value = value + weight;
            }
            if weight >= 0x8000_0000_0000_0000 {
                weight = 0;
            } else {
                weight = weight * 2;
            }
            proof {
                i = i + 1;
            }
        }
        Ok(value.wrapping_sub(1))
    }

    proof fn at_in_range(&self)
        requires
            self.sound(),
        ensures
            self.at() >= 0,
            self.at() <= 8 * 0x1_0000_0000_0000_0000,
    {
    }

    /// Take a big-endian number of four bytes, whatever their alignment.
    pub fn read_u32_be(&mut self) -> (r: Result<u32, ErrorKind>)
        requires
            old(self).sound(),
        ensures
            final(self).sound(),
            old(self).wf() ==> final(self).wf(),
            final(self).data() == old(self).data(),
            match r {
                Ok(v) => number_at(old(self).data(), old(self).at(), 4) == Ok::<(nat, int), ErrorKind>(
                    (v as nat, final(self).at()),
                ) && final(self).held() == final(self).at(),
                Err(e) => {
                    &&& number_at(old(self).data(), old(self).at(), 4) == Err::<(nat, int), ErrorKind>(e)
                    &&& (final(self).at(), final(self).held()) == run_out(
                        old(self).data(),
                        old(self).at(),
                        old(self).held(),
                    )
                },
            },
    {
        let ghost data = self.data();
        let ghost q = self.at();
        let mut val: u32 = 0;
        let mut k: u32 = 0;
        while k < 4
            invariant
                k <= 4,
                self.sound(),
                old(self).wf() ==> self.wf(),
                self.data() == data,
                data == old(self).data(),
                q == old(self).at(),
                self.at() == q + 8 * k,
                k == 0 ==> self.held() == old(self).held(),
                k > 0 ==> self.held() == self.at(),
                k > 0 ==> q + 8 * k <= 8 * data.len(),
                val == big_endian(data, q, k as nat),
                k == 0 ==> val == 0,
                k == 1 ==> val < 0x100,
                k == 2 ==> val < 0x1_0000,
                k == 3 ==> val < 0x100_0000,
            decreases 4 - k,
        {
            proof {
                lsb_value_bound(data, q + 8 * k, 8);
                lemma2_to64();
            }
            let b: u8 = match self.byte() {
                Ok(b) => b,
                Err(e) => {
                    return Err(e);
                },
            };
            val = 256 * val + b as u32;
            k = k + 1;
        }
        Ok(val)
    }

    /// Take a big-endian number of eight bytes, whatever their alignment.
    pub fn read_u64_be(&mut self) -> (r: Result<u64, ErrorKind>)
        requires
            old(self).sound(),
        ensures
            final(self).sound(),
            old(self).wf() ==> final(self).wf(),
            final(self).data() == old(self).data(),
            match r {
                Ok(v) => number_at(old(self).data(), old(self).at(), 8) == Ok::<(nat, int), ErrorKind>(
                    (v as nat, final(self).at()),
                ) && final(self).held() == final(self).at(),
                Err(e) => {
                    &&& number_at(old(self).data(), old(self).at(), 8) == Err::<(nat, int), ErrorKind>(e)
                    &&& (final(self).at(), final(self).held()) == run_out(
                        old(self).data(),
                        old(self).at(),
                        old(self).held(),
                    )
                },
            },
    {
        let ghost data = self.data();
        let ghost q = self.at();
        let mut val: u64 = 0;
        let mut k: u32 = 0;
        let ghost mut bound: int = 1;
        proof {
            lemma2_to64();
        }
        while k < 8
            invariant
                k <= 8,
                self.sound(),
                old(self).wf() ==> self.wf(),
                self.data() == data,
                data == old(self).data(),
                q == old(self).at(),
                self.at() == q + 8 * k,
                k == 0 ==> self.held() == old(self).held(),
                k > 0 ==> self.held() == self.at(),
                k > 0 ==> q + 8 * k <= 8 * data.len(),
                val == big_endian(data, q, k as nat),
                val < bound,
                bound == pow2(8 * k as nat),
            decreases 8 - k,
        {
            proof {
                lsb_value_bound(data, q + 8 * k, 8);
                lemma2_to64();
                vstd::arithmetic::power2::lemma_pow2_adds(8 * k as nat, 8);
                if k < 7 {
                    lemma_pow2_strictly_increases((8 * k + 8) as nat, 64);
                }
                bound = pow2((8 * k + 8) as nat) as int;
                assert(bound == 256 * pow2(8 * k as nat));
            }
            let b: u8 = match self.byte() {
                Ok(b) => b,
                Err(e) => {
                    return Err(e);
                },
            };
            val = 256 * val + b as u64;
            k = k + 1;
        }
        Ok(val)
    }

    /// Take `n` bytes, whatever their alignment.
    pub fn read_data(&mut self, n: usize) -> (r: Result<Vec<u8>, ErrorKind>)
        requires
            old(self).sound(),
        ensures
            final(self).sound(),
            old(self).wf() ==> final(self).wf(),
            final(self).data() == old(self).data(),
            match r {
                Ok(v) => bytes_at(old(self).data(), old(self).at(), n as nat) == Ok::<(Seq<u8>, int), ErrorKind>(
                    (v@, final(self).at()),
                ) && v@.len() == n && final(self).held() == (if n > 0 {
                    final(self).at()
                } else {
                    old(self).held()
                }),
                Err(e) => {
                    &&& bytes_at(old(self).data(), old(self).at(), n as nat) == Err::<(Seq<u8>, int), ErrorKind>(e)
                    &&& (final(self).at(), final(self).held()) == run_out(
                        old(self).data(),
                        old(self).at(),
                        old(self).held(),
                    )
                },
            },
    {
        let ghost data = self.data();
        let ghost q = self.at();
        let ghost all = Seq::new(n as nat, |i: int| lsb_value(data, q + 8 * i, 8) as u8);
        let mut out: Vec<u8> = Vec::new();
        while out.len() < n
            invariant
                out@.len() <= n,
                self.sound(),
                old(self).wf() ==> self.wf(),
                self.data() == data,
                data == old(self).data(),
                q == old(self).at(),
                all == Seq::new(n as nat, |i: int| lsb_value(data, q + 8 * i, 8) as u8),
                self.at() == q + 8 * out@.len(),
                out@.len() > 0 ==> self.held() == self.at(),
                out@.len() == 0 ==> self.held() == old(self).held(),
                out@.len() > 0 ==> q + 8 * out@.len() <= 8 * data.len(),
                out@ == all.subrange(0, out@.len() as int),
            decreases n - out@.len(),
        {
            let b: u8 = match self.byte() {
                Ok(b) => b,
                Err(e) => {
                    return Err(e);
                },
            };
            out.push(b);
            assert(out@ =~= all.subrange(0, out@.len() as int));
        }
        assert(out@ =~= all);
        Ok(out)
    }

    /// Take `n` whole bytes. Held bits that lie behind them come next.
    pub fn raw(&mut self, n: u64) -> (r: Result<&'a [u8], ErrorKind>)
        requires
            old(self).sound(),
        ensures
            final(self).sound(),
            old(self).wf() ==> final(self).wf(),
            final(self).data() == old(self).data(),
            final(self).held() == old(self).held(),
            match r {
                Ok(s) => {
                    let p = byte_pos(old(self).at());
                    &&& p + n <= old(self).data().len()
                    &&& s@ == old(self).data().subrange(p, p + n)
                    &&& s@.len() == n
                    &&& final(self).at() == resumed(old(self).held(), p + n)
                    &&& old(self).wf() ==> raw_at(old(self).data(), old(self).at(), n as int) == Ok::<
                        (Seq<u8>, int),
                        ErrorKind,
                    >((s@, final(self).at()))
                },
                Err(e) => {
                    &&& raw_at(old(self).data(), old(self).at(), n as int) == Err::<(Seq<u8>, int), ErrorKind>(e)
                    &&& final(self).at() == old(self).at()
                },
            },
    {
        proof {
            assert(byte_pos(self.at()) == self.pos);
            assert(byte_pos(self.held()) == self.behind);
        }
        if self.pos > self.data.len() || n > (self.data.len() - self.pos) as u64 {
            return Err(ErrorKind::UnexpectedEof);
        }
        let end: usize = self.pos + n as usize;
        let s = slice_subrange(self.data, self.pos, end);
        self.pos = end;
        Ok(s)
    }

    /// Take a big-endian number of four whole bytes.
    pub fn read_raw_u32_be(&mut self) -> (r: Result<u32, ErrorKind>)
        requires
            old(self).sound(),
        ensures
            final(self).sound(),
            old(self).wf() ==> final(self).wf(),
            final(self).data() == old(self).data(),
            match r {
                Ok(v) => {
                    let p = byte_pos(old(self).at());
                    let s = old(self).data().subrange(p, p + 4);
                    &&& p + 4 <= old(self).data().len()
                    &&& v == be32(s, 0)
                    &&& final(self).at() == resumed(old(self).held(), p + 4)
                    &&& final(self).held() == old(self).held()
                    &&& old(self).wf() ==> raw_at(old(self).data(), old(self).at(), 4) == Ok::<(Seq<u8>, int), ErrorKind>(
                        (s, final(self).at()),
                    )
                },
                Err(e) => {
                    &&& raw_at(old(self).data(), old(self).at(), 4) == Err::<(Seq<u8>, int), ErrorKind>(e)
                    &&& final(self).at() == old(self).at()
                    &&& final(self).held() == old(self).held()
                },
            },
    {
        match self.raw(4) {
            Ok(s) => Ok(read_be32(s, 0)),
            Err(e) => Err(e),
        }
    }

    /// Take a length and that many whole bytes.
    pub fn read_string(&mut self) -> (r: Result<Vec<u8>, ErrorKind>)
        requires
            old(self).sound(),
        ensures
            final(self).sound(),
            old(self).wf() ==> final(self).wf(),
            final(self).data() == old(self).data(),
            match r {
                Ok(v) => {
                    &&& string_at(old(self).data(), old(self).at()) == Ok::<(Seq<u8>, int), ErrorKind>(
                        (v@, final(self).at()),
                    )
                    &&& old(self).at() < final(self).at() <= 8 * old(self).data().len()
                    &&& p2_at(old(self).data(), old(self).at()) matches Ok((n, p)) && final(self).held() == 8
                        * byte_pos(p)
                },
                Err(e) => {
                    &&& string_at(old(self).data(), old(self).at()) == Err::<(Seq<u8>, int), ErrorKind>(e)
                    &&& (final(self).at(), final(self).held()) == string_stop(
                        old(self).data(),
                        old(self).at(),
                        old(self).held(),
                    )
                },
            },
    {
        let len: u64 = match self.read_p2() {
            Ok(v) => v,
            Err(e) => {
                return Err(e);
            },
        };
        let data = match self.raw(len) {
            Ok(s) => slice_to_vec(s),
            Err(e) => {
                return Err(e);
            },
        };
        self.flush();
        Ok(data)
    }

    /// Pass `n` whole bytes.
    pub fn skip(&mut self, n: u64) -> (r: Result<(), ErrorKind>)
        requires
            old(self).sound(),
        ensures
            final(self).sound(),
            old(self).wf() ==> final(self).wf(),
            final(self).data() == old(self).data(),
            match r {
                Ok(_) => {
                    let p = byte_pos(old(self).at());
                    &&& p + n <= old(self).data().len()
                    &&& final(self).at() == resumed(old(self).held(), p + n)
                    &&& final(self).held() == old(self).held()
                    &&& old(self).wf() ==> raw_at(old(self).data(), old(self).at(), n as int) == Ok::<
                        (Seq<u8>, int),
                        ErrorKind,
                    >((old(self).data().subrange(p, p + n), final(self).at()))
                },
                Err(e) => {
                    &&& raw_at(old(self).data(), old(self).at(), n as int) == Err::<(Seq<u8>, int), ErrorKind>(e)
                    &&& final(self).at() == old(self).at()
                    &&& final(self).held() == old(self).held()
                },
            },
    {
        match self.raw(n) {
            Ok(_) => Ok(()),
            Err(e) => Err(e),
        }
    }

    /// Drop the bits that are held back, and with them those of the byte under way.
    pub fn flush(&mut self)
        requires
            old(self).sound(),
        ensures
            final(self).wf(),
            final(self).data() == old(self).data(),
            final(self).at() == 8 * byte_pos(old(self).at()),
            final(self).held() == 8 * byte_pos(old(self).held()),
    {
        assert(byte_pos(self.at()) == self.pos);
        assert(byte_pos(self.held()) == self.behind);
        self.left = 0;
    }

    /// The next whole byte's position.
    pub fn offset(&self) -> (r: usize)
        requires
            self.sound(),
        ensures
            r == byte_pos(self.at()),
    {
        assert(byte_pos(self.at()) == self.pos);
        self.pos
    }

    /// Go to a byte position. Held bits that lie before it come next.
    pub fn seek(&mut self, off: usize)
        requires
            old(self).sound(),
        ensures
            final(self).sound(),
            final(self).data() == old(self).data(),
            final(self).held() == old(self).held(),
            final(self).at() == resumed(old(self).held(), off as int),
            old(self).wf() && off >= byte_pos(old(self).at()) ==> final(self).wf(),
            old(self).held() == 8 * byte_pos(old(self).held()) ==> final(self).wf(),
    {
        assert(byte_pos(self.held()) == self.behind);
        assert(byte_pos(self.at()) == self.pos);
        self.pos = off;
    }
}

proof fn lemma_pow2_at_most(i: nat)
    requires
        i < 64,
    ensures
        pow2(i) <= 0x8000_0000_0000_0000,
        i < 63 ==> pow2(i) < 0x8000_0000_0000_0000,
        i == 63 ==> pow2(i) == 0x8000_0000_0000_0000,
{
    lemma2_to64();
    lemma_pow2_unfold(64);
    if i < 63 {
        lemma_pow2_strictly_increases(i, 63);
    }
}

/// Join the blocks that start at byte `dataoffset`. The reader is left behind the empty
/// block that ends them.
pub fn read_block_stream(r: &mut Reader, dataoffset: usize) -> (res: Result<Vec<u8>, ErrorKind>)
    requires
        old(r).sound(),
    ensures
        final(r).wf(),
        final(r).data() == old(r).data(),
        (final(r).at(), final(r).held()) == blocks_stop(
            old(r).data(),
            8 * dataoffset,
            8 * byte_pos(old(r).held()),
        ),
        match res {
            Ok(v) => {
                &&& blocks_from(old(r).data(), 8 * dataoffset, seq![]) == Ok::<(Seq<u8>, int), ErrorKind>(
                    (v@, final(r).at()),
                )
                &&& block_stream(old(r).data(), dataoffset as int) == Ok::<Seq<u8>, ErrorKind>(v@)
                &&& final(r).held() == final(r).at()
            },
            Err(e) => block_stream(old(r).data(), dataoffset as int) == Err::<Seq<u8>, ErrorKind>(e),
        },
{
    let ghost data = r.data();
    r.seek(dataoffset);
    r.flush();
    assert(r.at() == 8 * dataoffset);
    let mut out: Vec<u8> = Vec::new();
    let ghost goal = blocks_from(data, 8 * dataoffset, seq![]);
    loop
        invariant
            r.wf(),
            r.data() == data,
            data == old(r).data(),
            goal == blocks_from(data, 8 * dataoffset, seq![]),
            blocks_from(data, r.at(), out@) == goal,
            blocks_stop(data, r.at(), r.held()) == blocks_stop(data, 8 * dataoffset, 8 * byte_pos(old(r).held())),
        decreases 8 * data.len() - r.at(),
    {
        let size: u64 = match r.read_p2() {
            Ok(v) => v,
            Err(e) => {
                return Err(e);
            },
        };
        if size == 0 {
            return Ok(out);
        }
        match r.raw(size) {
            Ok(s) => {
                append(&mut out, s);
            },
            Err(e) => {
                return Err(e);
            },
        }
    }
}

} // verus!
