use vstd::prelude::*;
use crate::bits::lsb_bit;
use crate::checksum::{crc16, crc16_shift, crc16_shifts, crc32, crc32_register, crc32_shift, crc32_shifts};

verus! {

// A checksum is what is left of the bits, taken as a polynomial, when it is divided by a
// fixed one. The bits of each byte come lowest first.

/// What is left of the first `n` bits, moved up by as many places as `start` has, when they
/// are divided by the polynomial of the powers `taps` and one more, `start` being added to
/// the first bits. Coefficient `k` belongs to power `k`.
pub open spec fn remainder(data: Seq<u8>, n: nat, start: Seq<bool>, taps: Set<int>) -> Seq<bool>
    decreases n,
{
    if n == 0 {
        start
    } else {
        let r = remainder(data, (n - 1) as nat, start, taps);
        let out = r.last() != lsb_bit(data, n - 1);
        Seq::new(
            start.len(),
            |k: int|
                if k == 0 {
                    out && taps.contains(0)
                } else {
                    r[k - 1] != (out && taps.contains(k))
                },
        )
    }
}

/// The powers of x^16 + x^15 + x^2 + 1 below the highest.
pub open spec fn taps16() -> Set<int> {
    set![0int, 2, 15]
}

/// The powers of x^32 + x^26 + x^23 + x^22 + x^16 + x^12 + x^11 + x^10 + x^8 + x^7 + x^5 +
/// x^4 + x^2 + x + 1 below the highest.
pub open spec fn taps32() -> Set<int> {
    set![0int, 1, 2, 4, 5, 7, 8, 10, 11, 12, 16, 22, 23, 26]
}

pub open spec fn all_of(n: nat, b: bool) -> Seq<bool> {
    Seq::new(n, |k: int| b)
}

/// Bit `15 - k` of the number is coefficient `k`.
pub open spec fn spells16(v: u16, r: Seq<bool>) -> bool {
    r.len() == 16 && forall|k: int| 0 <= k < 16 ==> #[trigger] r[k] == ((v >> ((15 - k) as u16)) & 1u16 == 1u16)
}

/// Bit `31 - k` of the number is coefficient `k`.
pub open spec fn spells32(v: u32, r: Seq<bool>) -> bool {
    r.len() == 32 && forall|k: int| 0 <= k < 32 ==> #[trigger] r[k] == ((v >> ((31 - k) as u32)) & 1u32 == 1u32)
}

// === bits =====================================================================

/// The bits of a byte may be added one by one.
proof fn shift_in_parts(c: u16, v: u16, d: u32, w: u32)
    by (bit_vector)
    requires
        v < 256u16,
        w < 256u32,
    ensures
        ({
            let a = c ^ v;
            let b = c ^ (v & 1u16);
            (if a & 1u16 != 0u16 { (a >> 1u16) ^ 0xA001u16 } else { a >> 1u16 }) == (if b & 1u16 != 0u16 {
                (b >> 1u16) ^ 0xA001u16
            } else {
                b >> 1u16
            }) ^ (v >> 1u16)
        }),
        ({
            let a = d ^ w;
            let b = d ^ (w & 1u32);
            (if a & 1u32 != 0u32 { (a >> 1u32) ^ 0xEDB8_8320u32 } else { a >> 1u32 }) == (if b & 1u32 != 0u32 {
                (b >> 1u32) ^ 0xEDB8_8320u32
            } else {
                b >> 1u32
            }) ^ (w >> 1u32)
        }),
{
}

/// One bit more: all coefficients move up, and those of the taps turn over if the highest
/// and the bit differ.
proof fn one_more_bit(c: u16, b: u16, j: u16, d: u32, e: u32, l: u32)
    by (bit_vector)
    requires
        b <= 1u16,
        j < 16u16,
        e <= 1u32,
        l < 32u32,
    ensures
        ({
            let a = c ^ b;
            let s = if a & 1u16 != 0u16 { (a >> 1u16) ^ 0xA001u16 } else { a >> 1u16 };
            let out = ((c & 1u16) == 1u16) != (b == 1u16);
            let tap = j == 15u16 || j == 13u16 || j == 0u16;
            let before = j < 15u16 && ((c >> ((j + 1) as u16)) & 1u16 == 1u16);
            ((s >> j) & 1u16 == 1u16) == (before != (out && tap))
        }),
        ({
            let a = d ^ e;
            let s = if a & 1u32 != 0u32 { (a >> 1u32) ^ 0xEDB8_8320u32 } else { a >> 1u32 };
            let out = ((d & 1u32) == 1u32) != (e == 1u32);
            let tap = l == 31u32 || l == 30u32 || l == 29u32 || l == 27u32 || l == 26u32 || l == 24u32 || l == 23u32
                || l == 21u32 || l == 20u32 || l == 19u32 || l == 15u32 || l == 9u32 || l == 8u32 || l == 5u32;
            let before = l < 31u32 && ((d >> ((l + 1) as u32)) & 1u32 == 1u32);
            ((s >> l) & 1u32 == 1u32) == (before != (out && tap))
        }),
{
}

/// What the bits of a byte are to a number.
proof fn bits_of_byte(b: u8, t: u8, c: u16, d: u32, j: u16, l: u32)
    by (bit_vector)
    requires
        t < 8u8,
        j < 16u16,
        l < 32u32,
    ensures
        ((((b as u16) >> (t as u16)) & 1u16) == 1u16) == ((b >> t) & 1u8 == 1u8),
        ((b as u16) >> (t as u16)) & 1u16 <= 1u16,
        (b as u16) >> (t as u16) < 256u16,
        ((b as u16) >> (t as u16)) >> 1u16 == (b as u16) >> ((t + 1) as u16),
        c ^ ((b as u16) >> 8u16) == c,
        (b as u16) >> 0u16 == b as u16,
        (c >> 0u16) & 1u16 == c & 1u16,
        (0u16 >> j) & 1u16 == 0u16,
        ((((b as u32) >> (t as u32)) & 1u32) == 1u32) == ((b >> t) & 1u8 == 1u8),
        ((b as u32) >> (t as u32)) & 1u32 <= 1u32,
        (b as u32) >> (t as u32) < 256u32,
        ((b as u32) >> (t as u32)) >> 1u32 == (b as u32) >> ((t + 1) as u32),
        d ^ ((b as u32) >> 8u32) == d,
        (b as u32) >> 0u32 == b as u32,
        (d >> 0u32) & 1u32 == d & 1u32,
        (0xFFFF_FFFFu32 >> l) & 1u32 == 1u32,
        (((d ^ 0xFFFF_FFFFu32) >> l) & 1u32 == 1u32) == ((d >> l) & 1u32 != 1u32),
{
}

// === sixteen bits =============================================================

proof fn shifts16_by_bits(data: Seq<u8>, i: int, c: u16, v: u16, n: nat)
    requires
        0 <= i < data.len(),
        n <= 8,
        v == ((data[i] as u16) >> ((8 - n) as u16)),
        spells16(c, remainder(data, (8 * i + 8 - n) as nat, all_of(16, false), taps16())),
    ensures
        spells16(crc16_shifts(c ^ v, n), remainder(data, (8 * i + 8) as nat, all_of(16, false), taps16())),
    decreases n,
{
    if n == 0 {
        bits_of_byte(data[i], 0, c, 0, 0, 0);
    } else {
        let b = v & 1u16;
        bits_of_byte(data[i], (8 - n) as u8, c, 0, 0, 0);
        shift_in_parts(c, v, 0, 0);
        let q = 8 * i + 8 - n;
        let start = all_of(16, false);
        let before = remainder(data, q as nat, start, taps16());
        let after = remainder(data, (q + 1) as nat, start, taps16());
        let c1 = crc16_shift(c ^ b);
        assert(q / 8 == i && q % 8 == 8 - n);
        assert(lsb_bit(data, q) == (b == 1u16));
        assert forall|k: int| 0 <= k < 16 implies #[trigger] after[k] == ((c1 >> ((15 - k) as u16)) & 1u16
            == 1u16) by {
            one_more_bit(c, b, (15 - k) as u16, 0, 0, 0);
            assert(before[15] == ((c >> 0u16) & 1u16 == 1u16));
            if k > 0 {
                assert(before[k - 1] == ((c >> ((15 - (k - 1)) as u16)) & 1u16 == 1u16));
            }
        }
        assert(spells16(c1, after));
        shifts16_by_bits(data, i, c1, v >> 1u16, (n - 1) as nat);
        assert(crc16_shift(c ^ v) == c1 ^ (v >> 1u16));
    }
}

proof fn register16_is_remainder(data: Seq<u8>, n: nat)
    requires
        n <= data.len(),
    ensures
        spells16(crc16(data.take(n as int)), remainder(data, 8 * n, all_of(16, false), taps16())),
    decreases n,
{
    if n == 0 {
        assert(data.take(0) =~= Seq::<u8>::empty());
        assert forall|k: int| 0 <= k < 16 implies #[trigger] all_of(16, false)[k] == ((0u16 >> ((15 - k) as u16))
            & 1u16 == 1u16) by {
            bits_of_byte(0, 0, 0, 0, (15 - k) as u16, 0);
        }
    } else {
        register16_is_remainder(data, (n - 1) as nat);
        let s = data.take(n as int);
        assert(s.drop_last() =~= data.take(n - 1));
        let i = n - 1;
        bits_of_byte(data[i], 0, 0, 0, 0, 0);
        shifts16_by_bits(data, i, crc16(s.drop_last()), data[i] as u16, 8);
    }
}

/// The checksum of 16 bits is what is left of the bits, lowest first in each byte and
/// moved up by 16 places, when they are divided by x^16 + x^15 + x^2 + 1.
pub proof fn checksum16_is_a_remainder(data: Seq<u8>)
    ensures
        spells16(crc16(data), remainder(data, 8 * data.len(), all_of(16, false), taps16())),
{
    register16_is_remainder(data, data.len());
    assert(data.take(data.len() as int) =~= data);
}

// === thirty-two bits =============================================================

proof fn shifts32_by_bits(data: Seq<u8>, i: int, c: u32, v: u32, n: nat)
    requires
        0 <= i < data.len(),
        n <= 8,
        v == ((data[i] as u32) >> ((8 - n) as u32)),
        spells32(c, remainder(data, (8 * i + 8 - n) as nat, all_of(32, true), taps32())),
    ensures
        spells32(crc32_shifts(c ^ v, n), remainder(data, (8 * i + 8) as nat, all_of(32, true), taps32())),
    decreases n,
{
    if n == 0 {
        bits_of_byte(data[i], 0, 0, c, 0, 0);
    } else {
        let b = v & 1u32;
        bits_of_byte(data[i], (8 - n) as u8, 0, c, 0, 0);
        shift_in_parts(0, 0, c, v);
        let q = 8 * i + 8 - n;
        let start = all_of(32, true);
        let before = remainder(data, q as nat, start, taps32());
        let after = remainder(data, (q + 1) as nat, start, taps32());
        let c1 = crc32_shift(c ^ b);
        assert(q / 8 == i && q % 8 == 8 - n);
        assert(lsb_bit(data, q) == (b == 1u32));
        assert forall|k: int| 0 <= k < 32 implies #[trigger] after[k] == ((c1 >> ((31 - k) as u32)) & 1u32
            == 1u32) by {
            one_more_bit(0, 0, 0, c, b, (31 - k) as u32);
            assert(before[31] == ((c >> 0u32) & 1u32 == 1u32));
            if k > 0 {
                assert(before[k - 1] == ((c >> ((31 - (k - 1)) as u32)) & 1u32 == 1u32));
            }
        }
        assert(spells32(c1, after));
        shifts32_by_bits(data, i, c1, v >> 1u32, (n - 1) as nat);
        assert(crc32_shift(c ^ v) == c1 ^ (v >> 1u32));
    }
}

proof fn register32_is_remainder(data: Seq<u8>, n: nat)
    requires
        n <= data.len(),
    ensures
        spells32(crc32_register(data.take(n as int)), remainder(data, 8 * n, all_of(32, true), taps32())),
    decreases n,
{
    if n == 0 {
        assert(data.take(0) =~= Seq::<u8>::empty());
        assert forall|k: int| 0 <= k < 32 implies #[trigger] all_of(32, true)[k] == ((0xFFFF_FFFFu32 >> ((31 - k) as u32))
            & 1u32 == 1u32) by {
            bits_of_byte(0, 0, 0, 0, 0, (31 - k) as u32);
        }
    } else {
        register32_is_remainder(data, (n - 1) as nat);
        let s = data.take(n as int);
        assert(s.drop_last() =~= data.take(n - 1));
        let i = n - 1;
        bits_of_byte(data[i], 0, 0, 0, 0, 0);
        shifts32_by_bits(data, i, crc32_register(s.drop_last()), data[i] as u32, 8);
    }
}

/// The checksum of 32 bits is what is left of the bits, lowest first in each byte and
/// moved up by 32 places, when ones are added to the first 32 of them and they are divided
/// by the polynomial of `taps32`; in the end every bit is turned over.
pub proof fn checksum32_is_a_remainder(data: Seq<u8>)
    ensures
        ({
            let r = remainder(data, 8 * data.len(), all_of(32, true), taps32());
            spells32(crc32(data), Seq::new(32, |k: int| !r[k]))
        }),
{
    register32_is_remainder(data, data.len());
    assert(data.take(data.len() as int) =~= data);
    let r = remainder(data, 8 * data.len(), all_of(32, true), taps32());
    let t = Seq::new(32, |k: int| !r[k]);
    let c = crc32_register(data);
    assert forall|k: int| 0 <= k < 32 implies #[trigger] t[k] == ((crc32(data) >> ((31 - k) as u32)) & 1u32 == 1u32) by {
        bits_of_byte(0, 0, 0, c, 0, (31 - k) as u32);
        assert(r[k] == ((c >> ((31 - k) as u32)) & 1u32 == 1u32));
    }
}

} // verus!
