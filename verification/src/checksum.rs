use vstd::prelude::*;

verus! {

/// One bit of the reflected CRC-16/ARC register.
pub open spec fn crc16_shift(crc: u16) -> u16 {
    if crc & 1u16 != 0u16 {
        (crc >> 1u16) ^ 0xA001u16
    } else {
        crc >> 1u16
    }
}

pub open spec fn crc16_shifts(crc: u16, n: nat) -> u16
    decreases n,
{
    if n == 0 {
        crc
    } else {
        crc16_shifts(crc16_shift(crc), (n - 1) as nat)
    }
}

/// CRC-16/ARC of `data`: polynomial 0x8005 reflected, register starting at 0.
pub open spec fn crc16(data: Seq<u8>) -> u16
    decreases data.len(),
{
    if data.len() == 0 {
        0
    } else {
        crc16_shifts(crc16(data.drop_last()) ^ (data.last() as u16), 8)
    }
}

/// CRC-16/ARC of `data`.
pub fn crc16_arc(data: &[u8]) -> (r: u16)
    ensures
        r == crc16(data@),
{
    let mut crc: u16 = 0;
    let mut i: usize = 0;
    assert(data@.subrange(0, 0) =~= Seq::<u8>::empty());
    while i < data.len()
        invariant
            i <= data@.len(),
            crc == crc16(data@.subrange(0, i as int)),
        decreases data@.len() - i,
    {
        proof {
            assert(data@.subrange(0, i + 1).drop_last() =~= data@.subrange(0, i as int));
        }
        crc = crc ^ (data[i] as u16);
        let ghost start = crc;
        let mut k: u32 = 0;
        while k < 8
            invariant
                k <= 8,
                crc16_shifts(start, 8) == crc16_shifts(crc, (8 - k) as nat),
            decreases 8 - k,
        {
            if crc & 1 != 0 {
                crc = (crc >> 1) ^ 0xA001;
            } else {
                crc = crc >> 1;
            }
            k = k + 1;
        }
        i = i + 1;
    }
    assert(data@.subrange(0, data@.len() as int) =~= data@);
    crc
}

/// One bit of the reflected CRC-32 register.
pub open spec fn crc32_shift(crc: u32) -> u32 {
    if crc & 1u32 != 0u32 {
        (crc >> 1u32) ^ 0xEDB8_8320u32
    } else {
        crc >> 1u32
    }
}

pub open spec fn crc32_shifts(crc: u32, n: nat) -> u32
    decreases n,
{
    if n == 0 {
        crc
    } else {
        crc32_shifts(crc32_shift(crc), (n - 1) as nat)
    }
}

/// The CRC-32 register after `data`, started from all ones.
pub open spec fn crc32_register(data: Seq<u8>) -> u32
    decreases data.len(),
{
    if data.len() == 0 {
        0xFFFF_FFFF
    } else {
        crc32_shifts(crc32_register(data.drop_last()) ^ (data.last() as u32), 8)
    }
}

/// The IEEE CRC-32 of `data`.
pub open spec fn crc32(data: Seq<u8>) -> u32 {
    crc32_register(data) ^ 0xFFFF_FFFFu32
}

/// The IEEE CRC-32 of `data`.
pub fn crc32_ieee(data: &[u8]) -> (r: u32)
    ensures
        r == crc32(data@),
{
    let mut crc: u32 = 0xFFFF_FFFF;
    let mut i: usize = 0;
    assert(data@.subrange(0, 0) =~= Seq::<u8>::empty());
    while i < data.len()
        invariant
            i <= data@.len(),
            crc == crc32_register(data@.subrange(0, i as int)),
        decreases data@.len() - i,
    {
        proof {
            assert(data@.subrange(0, i + 1).drop_last() =~= data@.subrange(0, i as int));
        }
        crc = crc ^ (data[i] as u32);
        let ghost start = crc;
        let mut k: u32 = 0;
        while k < 8
            invariant
                k <= 8,
                crc32_shifts(start, 8) == crc32_shifts(crc, (8 - k) as nat),
            decreases 8 - k,
        {
            if crc & 1 != 0 {
                crc = (crc >> 1) ^ 0xEDB8_8320;
            } else {
                crc = crc >> 1;
            }
            k = k + 1;
        }
        i = i + 1;
    }
    assert(data@.subrange(0, data@.len() as int) =~= data@);
    crc ^ 0xFFFF_FFFF
}

} // verus!
