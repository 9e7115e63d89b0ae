use vstd::prelude::*;
use vstd::slice::slice_subrange;
use crate::catalog::{append, be32, read_be32};
use crate::error::{bytes_of, ErrorKind};
use crate::sitx::{brimstone, cyanide, darkhorse};

verus! {

// A blended stream is a row of parts. A part starts with a marker of six bytes: 0x77,
// the number of the method, and the size of the content.

/// Bytes `i` and `i + 1` may begin a marker.
pub open spec fn may_begin(b: Seq<u8>, i: int) -> bool {
    b[i] == 0x77 && b[i + 1] <= 3
}

/// The six bytes at `p` are a marker. Where another might begin within them, the
/// size must be a multiple of 0x2000.
pub open spec fn marker_at(b: Seq<u8>, p: int) -> bool {
    &&& may_begin(b, p)
    &&& (may_begin(b, p + 2) || may_begin(b, p + 3) || may_begin(b, p + 4)) ==> be32(b, p + 2) % 0x2000 == 0
}

/// The first marker at or after `p`.
pub open spec fn next_marker(b: Seq<u8>, p: int) -> Option<int>
    decreases b.len() - p,
{
    if p + 6 > b.len() {
        None
    } else if marker_at(b, p) {
        Some(p)
    } else {
        next_marker(b, p + 1)
    }
}

/// What is found is a marker, and there is none before it.
pub proof fn next_marker_is_first(b: Seq<u8>, p: int)
    ensures
        match next_marker(b, p) {
            Some(m) => {
                &&& p <= m <= b.len() - 6
                &&& marker_at(b, m)
                &&& forall|i: int| p <= i < m ==> !#[trigger] marker_at(b, i)
            },
            None => forall|i: int| p <= i <= b.len() - 6 ==> !#[trigger] marker_at(b, i),
        },
    decreases b.len() - p,
{
    if p + 6 <= b.len() && !marker_at(b, p) {
        next_marker_is_first(b, p + 1);
    }
}

/// The content of the part whose marker is at `m`, and the position after it.
#[verifier::opaque]
pub open spec fn part_at(b: Seq<u8>, m: int) -> Result<(Seq<u8>, nat), ErrorKind> {
    let typ = b[m + 1];
    let n = be32(b, m + 2) as nat;
    let q = (m + 6) as nat;
    if typ == 0 {
        if q + n > b.len() {
            Err(ErrorKind::UnexpectedEof)
        } else {
            Ok((b.subrange(q as int, (q + n) as int), q + n))
        }
    } else if typ == 1 {
        match darkhorse::framed(b.subrange(q as int, b.len() as int), n) {
            Ok((v, taken)) => Ok((v, q + taken)),
            Err(e) => Err(e),
        }
    } else if typ == 2 {
        match cyanide::framed(b.subrange(q as int, b.len() as int)) {
            Ok((v, taken)) => Ok((v, q + taken)),
            Err(e) => Err(e),
        }
    } else if q + 2 > b.len() {
        Err(ErrorKind::UnexpectedEof)
    } else if b[q as int] >= usize::BITS {
        Err(ErrorKind::InvalidData)
    } else {
        match brimstone::framed(
            b.subrange((q + 2) as int, b.len() as int),
            n,
            b[(q + 1) as int] as u32,
            1usize << (b[q as int] as usize),
        ) {
            Ok((v, taken)) => Ok((v, q + 2 + taken)),
            Err(e) => Err(e),
        }
    }
}

/// The content of the parts from `p` on, behind what was `found`, until `size` bytes
/// are there or no marker is left.
pub open spec fn parts_from(b: Seq<u8>, p: nat, size: nat, found: Seq<u8>) -> Result<Seq<u8>, ErrorKind>
    decreases
        (if p < b.len() {
            b.len() - p
        } else {
            0
        }),
    via parts_advance
{
    if found.len() >= size {
        Ok(found)
    } else {
        match next_marker(b, p as int) {
            None => Ok(found),
            Some(m) => match part_at(b, m) {
                Err(e) => Err(e),
                Ok((v, to)) => parts_from(b, to, size, found + v),
            },
        }
    }
}

#[via_fn]
proof fn parts_advance(b: Seq<u8>, p: nat, size: nat, found: Seq<u8>) {
    next_marker_is_first(b, p as int);
    match next_marker(b, p as int) {
        None => {},
        Some(m) => {
            part_advances(b, m);
        },
    }
}

/// A part ends past its marker.
proof fn part_advances(b: Seq<u8>, m: int)
    requires
        0 <= m,
        m + 6 <= b.len(),
    ensures
        match part_at(b, m) {
            Ok((v, to)) => to >= m + 6,
            Err(e) => true,
        },
{
    reveal(part_at);
}

/// The first `size` bytes, or all if there are fewer.
pub open spec fn cut_to(v: Seq<u8>, size: nat) -> Seq<u8> {
    if v.len() > size {
        v.subrange(0, size as int)
    } else {
        v
    }
}

/// The content of a blended stream of at most `size` bytes.
pub open spec fn decoded(b: Seq<u8>, size: nat) -> Result<Seq<u8>, ErrorKind> {
    match parts_from(b, 0, size, seq![]) {
        Ok(v) => Ok(cut_to(v, size)),
        Err(e) => Err(e),
    }
}

/// Whether the six bytes in `buf` are a marker.
pub fn is_valid_marker(buf: &[u8]) -> (r: bool)
    requires
        buf@.len() == 6,
    ensures
        r == marker_at(buf@, 0),
{
    if !(buf[0] == 0x77 && buf[1] <= 3) {
        return false;
    }
    if (buf[2] == 0x77 && buf[3] <= 3) || (buf[3] == 0x77 && buf[4] <= 3) || (buf[4] == 0x77 && buf[5] <= 3) {
        read_be32(buf, 2) % 0x2000 == 0
    } else {
        true
    }
}

/// Find the first marker at or after `start`.
pub fn scan_marker(blocks: &[u8], start: usize) -> (r: Option<usize>)
    ensures
        match r {
            Some(p) => next_marker(blocks@, start as int) == Some(p as int) && start <= p && p + 6 <= blocks@.len(),
            None => next_marker(blocks@, start as int) is None,
        },
{
    let mut pos: usize = start;
    while pos < blocks.len() && blocks.len() - pos >= 6
        invariant
            start <= pos,
            next_marker(blocks@, pos as int) == next_marker(blocks@, start as int),
        decreases blocks@.len() - pos,
    {
        let buf = slice_subrange(blocks, pos, pos + 6);
        proof {
            marker_in_window(blocks@, pos as int);
        }
        if is_valid_marker(buf) {
            return Some(pos);
        }
        pos = pos + 1;
    }
    None
}

/// A marker is told by its own six bytes.
proof fn marker_in_window(b: Seq<u8>, p: int)
    requires
        0 <= p,
        p + 6 <= b.len(),
    ensures
        marker_at(b.subrange(p, p + 6), 0) == marker_at(b, p),
{
    let w = b.subrange(p, p + 6);
    reveal(be32);
    assert(forall|i: int| 0 <= i < 6 ==> #[trigger] w[i] == b[p + i]);
    assert(w[0] == b[p] && w[1] == b[p + 1] && w[2] == b[p + 2] && w[3] == b[p + 3] && w[4] == b[p + 4] && w[5] == b[p
        + 5]);
    assert(be32(w, 2) == be32(b, p + 2));
}

/// Decode one part; its content and the position after it.
fn decode_part(blocks: &[u8], m: usize) -> (r: Result<(Vec<u8>, u128), ErrorKind>)
    requires
        m + 6 <= blocks@.len(),
        blocks@[m + 1] <= 3,
    ensures
        match r {
            Ok((v, to)) => part_at(blocks@, m as int) == Ok::<(Seq<u8>, nat), ErrorKind>((v@, to as nat)),
            Err(e) => part_at(blocks@, m as int) == Err::<(Seq<u8>, nat), ErrorKind>(e),
        },
{
    reveal(part_at);
    let len: usize = blocks.len();
    let typ: u8 = blocks[m + 1];
    let n: u32 = read_be32(blocks, m + 2);
    let q: usize = m + 6;
    if typ == 0 {
        if n as u128 > (len - q) as u128 {
            return Err(ErrorKind::UnexpectedEof);
        }
        let mut v: Vec<u8> = Vec::new();
        append(&mut v, slice_subrange(blocks, q, q + n as usize));
        assert(v@ =~= blocks@.subrange(q as int, q + n));
        return Ok((v, q as u128 + n as u128));
    }
    if typ == 1 {
        return match darkhorse::decode_framed(slice_subrange(blocks, q, len), n as usize) {
            Ok((v, taken)) => Ok((v, q as u128 + taken)),
            Err(e) => Err(e),
        };
    }
    if typ == 2 {
        return match cyanide::decode_framed(slice_subrange(blocks, q, len), n as usize) {
            Ok((v, taken)) => Ok((v, q as u128 + taken as u128)),
            Err(e) => Err(e),
        };
    }
    if len - q < 2 {
        return Err(ErrorKind::UnexpectedEof);
    }
    if blocks[q] as u32 >= usize::BITS {
        return Err(ErrorKind::InvalidData);
    }
    let alloc_size: usize = 1usize << (blocks[q] as usize);
    match brimstone::decode_framed(
        slice_subrange(blocks, q + 2, len),
        n as usize,
        blocks[q + 1] as u32,
        alloc_size,
    ) {
        Ok((v, taken)) => Ok((v, q as u128 + 2 + taken as u128)),
        Err(e) => Err(e),
    }
}

/// Decode a blended stream of at most `size` bytes.
pub fn decode(blocks: &[u8], size: usize) -> (r: Result<Vec<u8>, ErrorKind>)
    ensures
        bytes_of(r) == decoded(blocks@, size as nat),
{
    let mut out: Vec<u8> = Vec::new();
    let mut pos: u128 = 0;
    assert(out@ =~= seq![]);
    while out.len() < size && pos < blocks.len() as u128
        invariant_except_break
            parts_from(blocks@, pos as nat, size as nat, out@) == parts_from(blocks@, 0, size as nat, seq![]),
        ensures
            parts_from(blocks@, 0, size as nat, seq![]) == Ok::<Seq<u8>, ErrorKind>(out@),
        decreases
            (if pos < blocks@.len() {
                blocks@.len() - pos
            } else {
                0
            }),
    {
        let m: usize = match scan_marker(blocks, pos as usize) {
            Some(m) => m,
            None => {
                break;
            },
        };
        proof {
            next_marker_is_first(blocks@, pos as int);
            part_advances(blocks@, m as int);
        }
        match decode_part(blocks, m) {
            Err(e) => {
                return Err(e);
            },
            Ok((v, to)) => {
                append(&mut out, v.as_slice());
                pos = to;
            },
        }
    }
    if out.len() > size {
        out.truncate(size);
    }
    Ok(out)
}

} // verus!
