use vstd::prelude::*;
use vstd::arithmetic::power2::{pow2, lemma_pow2_unfold, lemma2_to64, lemma_pow2_strictly_increases};

verus! {

/// Bit `i` of `data`, counted from the least significant bit of the first byte.
pub open spec fn lsb_bit(data: Seq<u8>, i: int) -> bool {
    (data[i / 8] >> ((i % 8) as u8)) & 1u8 == 1u8
}

/// Bit `i` of `data`, counted from the most significant bit of the first byte.
pub open spec fn msb_bit(data: Seq<u8>, i: int) -> bool {
    (data[i / 8] >> ((7 - i % 8) as u8)) & 1u8 == 1u8
}

pub open spec fn bit_value(b: bool) -> nat {
    if b {
        1
    } else {
        0
    }
}

/// The number spelled by the `n` bits from `pos`, the first of them worth 1.
pub open spec fn lsb_value(data: Seq<u8>, pos: int, n: nat) -> nat
    decreases n,
{
    if n == 0 {
        0
    } else {
        lsb_value(data, pos, (n - 1) as nat) + bit_value(lsb_bit(data, pos + n - 1)) * pow2((n - 1) as nat)
    }
}

/// The number spelled by the `n` bits from `pos`, the last of them worth 1.
pub open spec fn msb_value(data: Seq<u8>, pos: int, n: nat) -> nat
    decreases n,
{
    if n == 0 {
        0
    } else {
        2 * msb_value(data, pos, (n - 1) as nat) + bit_value(msb_bit(data, pos + n - 1))
    }
}

/// A field of `n` bits is below 2 to the `n`.
pub proof fn lsb_value_bound(data: Seq<u8>, pos: int, n: nat)
    ensures
        lsb_value(data, pos, n) < pow2(n),
    decreases n,
{
    lemma2_to64();
    if n > 0 {
        lsb_value_bound(data, pos, (n - 1) as nat);
        lemma_pow2_unfold(n);
        assert(bit_value(lsb_bit(data, pos + n - 1)) * pow2((n - 1) as nat) <= pow2((n - 1) as nat)) by (nonlinear_arith)
            requires bit_value(lsb_bit(data, pos + n - 1)) <= 1, pow2((n - 1) as nat) >= 0;
    }
}

/// A field of `n` bits is below 2 to the `n`.
pub proof fn msb_value_bound(data: Seq<u8>, pos: int, n: nat)
    ensures
        msb_value(data, pos, n) < pow2(n),
    decreases n,
{
    lemma2_to64();
    if n > 0 {
        msb_value_bound(data, pos, (n - 1) as nat);
        lemma_pow2_unfold(n);
    }
}

/// A cursor over bytes that hands out bits, least significant bit of each byte first.
pub struct BitReaderLsb<'a> {
    data: &'a [u8],
    byte: usize,
    bit: u8,
}

impl<'a> BitReaderLsb<'a> {
    pub closed spec fn data(&self) -> Seq<u8> {
        self.data@
    }

    /// How many bits have been taken.
    pub closed spec fn pos(&self) -> int {
        self.byte * 8 + self.bit
    }

    pub closed spec fn wf(&self) -> bool {
        &&& self.bit < 8
        &&& self.byte <= self.data@.len()
        &&& self.bit > 0 ==> self.byte < self.data@.len()
    }

    pub fn new(data: &'a [u8]) -> (r: Self)
        ensures
            r.wf(),
            r.data() == data@,
            r.pos() == 0,
    {
        BitReaderLsb { data, byte: 0, bit: 0 }
    }

    /// Take one bit; `None` at the end of the bytes.
    pub fn read_bit(&mut self) -> (r: Option<bool>)
        requires
            old(self).wf(),
        ensures
            final(self).wf(),
            final(self).data() == old(self).data(),
            old(self).pos() < 8 * old(self).data().len() ==> {
                &&& r == Some(lsb_bit(old(self).data(), old(self).pos()))
                &&& final(self).pos() == old(self).pos() + 1
            },
            old(self).pos() >= 8 * old(self).data().len() ==> r is None && *final(self) == *old(self),
            0 <= old(self).pos() <= 8 * old(self).data().len(),
    {
        if self.byte >= self.data.len() {
            return None;
        }
        let b: u8 = (self.data[self.byte] >> self.bit) & 1;
        proof {
            assert((self.byte * 8 + self.bit) / 8 == self.byte);
            assert((self.byte * 8 + self.bit) % 8 == self.bit);
        }
        if self.bit == 7 {
            self.bit = 0;
            self.byte = self.byte + 1;
        } else {
            self.bit = self.bit + 1;
        }
        Some(b == 1)
    }

    /// Take `n` bits, the first of them worth 1; `None` when fewer are left.
    pub fn read_bits(&mut self, n: u32) -> (r: Option<u32>)
        requires
            old(self).wf(),
            n <= 32,
        ensures
            final(self).wf(),
            final(self).data() == old(self).data(),
            old(self).pos() + n <= 8 * old(self).data().len() ==> {
                &&& r == Some(lsb_value(old(self).data(), old(self).pos(), n as nat) as u32)
                &&& final(self).pos() == old(self).pos() + n
                &&& lsb_value(old(self).data(), old(self).pos(), n as nat) < 0x1_0000_0000
            },
            old(self).pos() + n > 8 * old(self).data().len() ==> {
                &&& r is None
                &&& final(self).pos() == 8 * old(self).data().len()
            },
    {
        let mut value: u64 = 0;
        let mut weight: u64 = 1;
        let mut i: u32 = 0;
        proof {
            lemma2_to64();
        }
        while i < n
            invariant
                n <= 32,
                i <= n,
                self.wf(),
                self.data() == old(self).data(),
                self.pos() == old(self).pos() + i,
                weight == pow2(i as nat),
                value == lsb_value(old(self).data(), old(self).pos(), i as nat),
                value < weight,
                weight <= 0x1_0000_0000,
                old(self).pos() + i <= 8 * old(self).data().len(),
            decreases n - i,
        {
            let b: bool = match self.read_bit() {
                Some(b) => b,
                None => {
                    return None;
                },
            };
            proof {
                lsb_value_bound(old(self).data(), old(self).pos(), (i + 1) as nat);
                lemma_pow2_unfold((i + 1) as nat);
                lemma2_to64();
                if i + 1 < 32 {
                    lemma_pow2_strictly_increases((i + 1) as nat, 32);
                }
            }
            if b {
                value = value + weight;
            }
            weight = weight * 2;
            i = i + 1;
        }
        Some(value as u32)
    }
}

/// A cursor over bytes that hands out bits, most significant bit of each byte first.
pub struct BitReaderMsb<'a> {
    data: &'a [u8],
    byte: usize,
    bit: u8,
}

impl<'a> BitReaderMsb<'a> {
    pub closed spec fn data(&self) -> Seq<u8> {
        self.data@
    }

    /// How many bits have been taken.
    pub closed spec fn pos(&self) -> int {
        self.byte * 8 + self.bit
    }

    pub closed spec fn wf(&self) -> bool {
        &&& self.bit < 8
        &&& self.byte <= self.data@.len()
        &&& self.bit > 0 ==> self.byte < self.data@.len()
    }

    pub fn new(data: &'a [u8]) -> (r: Self)
        ensures
            r.wf(),
            r.data() == data@,
            r.pos() == 0,
    {
        BitReaderMsb { data, byte: 0, bit: 0 }
    }

    /// Take one bit; `None` at the end of the bytes.
    pub fn read_bit(&mut self) -> (r: Option<bool>)
        requires
            old(self).wf(),
        ensures
            final(self).wf(),
            final(self).data() == old(self).data(),
            old(self).pos() < 8 * old(self).data().len() ==> {
                &&& r == Some(msb_bit(old(self).data(), old(self).pos()))
                &&& final(self).pos() == old(self).pos() + 1
            },
            old(self).pos() >= 8 * old(self).data().len() ==> r is None && *final(self) == *old(self),
            0 <= old(self).pos() <= 8 * old(self).data().len(),
    {
        if self.byte >= self.data.len() {
            return None;
        }
        let b: u8 = (self.data[self.byte] >> (7 - self.bit)) & 1;
        proof {
            assert((self.byte * 8 + self.bit) / 8 == self.byte);
            assert((self.byte * 8 + self.bit) % 8 == self.bit);
        }
        if self.bit == 7 {
            self.bit = 0;
            self.byte = self.byte + 1;
        } else {
            self.bit = self.bit + 1;
        }
        Some(b == 1)
    }

    /// Take `n` bits, the last of them worth 1; `None` when fewer are left.
    pub fn read(&mut self, n: u32) -> (r: Option<u32>)
        requires
            old(self).wf(),
            n <= 32,
        ensures
            final(self).wf(),
            final(self).data() == old(self).data(),
            old(self).pos() + n <= 8 * old(self).data().len() ==> {
                &&& r == Some(msb_value(old(self).data(), old(self).pos(), n as nat) as u32)
                &&& final(self).pos() == old(self).pos() + n
                &&& msb_value(old(self).data(), old(self).pos(), n as nat) < 0x1_0000_0000
            },
            old(self).pos() + n > 8 * old(self).data().len() ==> {
                &&& r is None
                &&& final(self).pos() == 8 * old(self).data().len()
            },
    {
        let mut value: u64 = 0;
        let mut i: u32 = 0;
        while i < n
            invariant
                n <= 32,
                i <= n,
                self.wf(),
                self.data() == old(self).data(),
                self.pos() == old(self).pos() + i,
                value == msb_value(old(self).data(), old(self).pos(), i as nat),
                value < 0x1_0000_0000,
                old(self).pos() + i <= 8 * old(self).data().len(),
            decreases n - i,
        {
            let b: bool = match self.read_bit() {
                Some(b) => b,
                None => {
                    return None;
                },
            };
            proof {
                msb_value_bound(old(self).data(), old(self).pos(), (i + 1) as nat);
                lemma2_to64();
                if i + 1 < 32 {
                    lemma_pow2_strictly_increases((i + 1) as nat, 32);
                }
            }
            value = 2 * value + (if b {
                1
            } else {
                0
            });
            i = i + 1;
        }
        Some(value as u32)
    }
}

/// Setting a clear bit changes that bit and no other.
proof fn set_bit(cur: u8, n: u8, j: u8)
    by (bit_vector)
    requires
        n < 8,
        j < 8,
    ensures
        j != n ==> ((cur | (1u8 << n)) >> j) & 1u8 == (cur >> j) & 1u8,
        j == n ==> ((cur | (1u8 << n)) >> j) & 1u8 == 1u8,
{
}

proof fn no_bit_in_zero(j: u8)
    by (bit_vector)
    requires
        j < 8,
    ensures
        (0u8 >> j) & 1u8 == 0u8,
{
}

/// Collects bits into bytes, filling each byte from its least significant bit.
pub struct BitWriter {
    bytes: Vec<u8>,
    cur: u8,
    nbits: u8,
}

impl BitWriter {
    /// The bits written so far, in order.
    pub closed spec fn written(&self) -> Seq<bool> {
        Seq::new(
            8 * self.bytes@.len() + self.nbits as nat,
            |i: int|
                if i < 8 * self.bytes@.len() {
                    lsb_bit(self.bytes@, i)
                } else {
                    (self.cur >> ((i - 8 * self.bytes@.len()) as u8)) & 1u8 == 1u8
                },
        )
    }

    pub closed spec fn wf(&self) -> bool {
        &&& self.nbits < 8
        &&& forall|j: int| self.nbits <= j < 8 ==> (#[trigger] (self.cur >> (j as u8))) & 1u8 == 0u8
    }

    pub fn new() -> (r: Self)
        ensures
            r.wf(),
            r.written() == Seq::<bool>::empty(),
    {
        let r = BitWriter { bytes: Vec::new(), cur: 0, nbits: 0 };
        proof {
            assert forall|j: int| 0 <= j < 8 implies (#[trigger] (0u8 >> (j as u8))) & 1u8 == 0u8 by {
                no_bit_in_zero(j as u8);
            }
            assert(r.written() =~= Seq::<bool>::empty());
        }
        r
    }

    /// Append a single bit.
    pub fn bit(&mut self, b: bool)
        requires
            old(self).wf(),
        ensures
            final(self).wf(),
            final(self).written() == old(self).written().push(b),
    {
        let ghost cur0 = self.cur;
        let ghost n0 = self.nbits;
        if b {
            self.cur = self.cur | (1u8 << self.nbits);
        }
        proof {
            assert forall|j: int| 0 <= j < 8 && j != n0 implies (#[trigger] (self.cur >> (j as u8))) & 1u8 == (cur0 >> (j as u8)) & 1u8 by {
                set_bit(cur0, n0, j as u8);
            }
            set_bit(cur0, n0, n0);
            let jn = n0 as int;
            assert((cur0 >> (jn as u8)) & 1u8 == 0u8);
            assert(jn as u8 == n0);
            assert((self.cur >> n0) & 1u8 == 1u8 <==> b);
        }
        let ghost cur1 = self.cur;
        self.nbits = self.nbits + 1;
        if self.nbits == 8 {
            self.bytes.push(self.cur);
            self.cur = 0;
            self.nbits = 0;
            proof {
                assert forall|j: int| 0 <= j < 8 implies (#[trigger] (0u8 >> (j as u8))) & 1u8 == 0u8 by {
                    no_bit_in_zero(j as u8);
                }
                let m = 8 * old(self).bytes@.len();
                assert forall|i: int| 0 <= i < m + 8 implies self.written()[i] == old(self).written().push(b)[i] by {
                    if i < m {
                        assert(self.bytes@[i / 8] == old(self).bytes@[i / 8]);
                    } else {
                        assert(i / 8 == old(self).bytes@.len());
                        assert(i % 8 == i - m);
                        assert(self.bytes@[i / 8] == cur1);
                        assert((cur1 >> ((i - m) as u8)) & 1u8 == 1u8 <==> old(self).written().push(b)[i]);
                    }
                }
            }
            assert(self.written() =~= old(self).written().push(b));
        } else {
            assert(self.written() =~= old(self).written().push(b));
        }
    }

    /// Append the low `n` bits of `val`, least significant bit first.
    pub fn bits(&mut self, val: u32, n: u32)
        requires
            old(self).wf(),
            n <= 32,
        ensures
            final(self).wf(),
            final(self).written() == old(self).written() + Seq::new(n as nat, |i: int| (val >> (i as u32)) & 1u32 != 0u32),
    {
        let ghost tail = Seq::new(n as nat, |i: int| (val >> (i as u32)) & 1u32 != 0u32);
        let mut i: u32 = 0;
        assert(self.written() =~= old(self).written() + tail.subrange(0, 0));
        while i < n
            invariant
                self.wf(),
                n <= 32,
                i <= n,
                tail == Seq::new(n as nat, |i: int| (val >> (i as u32)) & 1u32 != 0u32),
                self.written() == old(self).written() + tail.subrange(0, i as int),
            decreases n - i,
        {
            self.bit((val >> i) & 1 != 0);
            assert(tail.subrange(0, i as int).push(tail[i as int]) =~= tail.subrange(0, i + 1));
            assert(self.written() =~= old(self).written() + tail.subrange(0, i + 1));
            i = i + 1;
        }
        assert(tail.subrange(0, n as int) =~= tail);
    }

    /// The written bits as bytes, the last byte filled up with zero bits.
    pub fn finish(self) -> (r: Vec<u8>)
        requires
            self.wf(),
        ensures
            r@.len() == (self.written().len() + 7) / 8,
            forall|i: int| 0 <= i < self.written().len() ==> #[trigger] lsb_bit(r@, i) == self.written()[i],
            forall|i: int| self.written().len() <= i < 8 * r@.len() ==> !#[trigger] lsb_bit(r@, i),
    {
        let mut bytes = self.bytes;
        let ghost m = 8 * bytes@.len();
        if self.nbits > 0 {
            bytes.push(self.cur);
        }
        proof {
            assert forall|i: int| 0 <= i < 8 * bytes@.len() implies #[trigger] lsb_bit(bytes@, i) == (i < self.written().len() && self.written()[i]) by {
                if i < m {
                    assert(bytes@[i / 8] == self.bytes@[i / 8]);
                } else {
                    assert(i / 8 == self.bytes@.len());
                    assert(i % 8 == i - m);
                    assert((self.cur >> ((i - m) as u8)) & 1u8 == 1u8 ==> i - m < self.nbits);
                }
            }
        }
        bytes
    }
}

impl Default for BitWriter {
    fn default() -> (r: Self)
        ensures
            r.wf(),
            r.written() == Seq::<bool>::empty(),
    {
        BitWriter::new()
    }
}

} // verus!
