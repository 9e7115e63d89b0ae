use vstd::prelude::*;
use vstd::slice::slice_subrange;
use crate::error::{bytes_of, ErrorKind};
use crate::methods::{content_accepted, decode_fork, fork_decoded, verify_content_crc};

verus! {

/// The big-endian number of two bytes.
#[verifier::opaque]
pub open spec fn be16(s: Seq<u8>, at: int) -> u16 {
    (s[at] * 0x100 + s[at + 1]) as u16
}

/// The big-endian number of four bytes.
#[verifier::opaque]
pub open spec fn be32(s: Seq<u8>, at: int) -> u32 {
    (s[at] * 0x100_0000 + s[at + 1] * 0x1_0000 + s[at + 2] * 0x100 + s[at + 3]) as u32
}

pub fn read_be16(s: &[u8], at: usize) -> (r: u16)
    requires
        at + 2 <= s@.len(),
    ensures
        r == be16(s@, at as int),
{
    reveal(be16);
    s[at] as u16 * 0x100 + s[at + 1] as u16
}

pub fn read_be32(s: &[u8], at: usize) -> (r: u32)
    requires
        at + 4 <= s@.len(),
    ensures
        r == be32(s@, at as int),
{
    reveal(be32);
    s[at] as u32 * 0x100_0000 + s[at + 1] as u32 * 0x1_0000 + s[at + 2] as u32 * 0x100 + s[at + 3] as u32
}

pub fn read_four(s: &[u8], at: usize) -> (r: [u8; 4])
    requires
        at + 4 <= s@.len(),
    ensures
        r@ == s@.subrange(at as int, at + 4),
{
    let r: [u8; 4] = [s[at], s[at + 1], s[at + 2], s[at + 3]];
    assert(r@ =~= s@.subrange(at as int, at + 4));
    r
}

/// Where a fork's stored bytes lie and what they are.
pub struct ForkView {
    pub offset: int,
    pub stored: int,
    pub method: u8,
    pub crc: u16,
}

/// What a catalog says of one directory or one fork.
pub struct EntryView {
    pub name: Seq<u8>,
    pub is_directory: bool,
    pub is_resource_fork: bool,
    pub is_encrypted: bool,
    pub size: u32,
    pub file_type: Seq<u8>,
    pub creator: Seq<u8>,
    pub finder_flags: u16,
    pub creation_date: u32,
    pub modification_date: u32,
    pub fork: Option<ForkView>,
}

/// What holds of every entry that is listed: directories, and nothing else, have no fork,
/// and a directory has the size 0.
pub open spec fn entry_sound(e: EntryView) -> bool {
    &&& e.is_directory <==> e.fork is None
    &&& e.is_directory ==> e.size == 0 && !e.is_resource_fork
}

/// The content of an entry of the archive `data`: nothing for a directory, and
/// for a fork its decoded bytes, if they can be had and pass their checksum.
pub open spec fn content_of(data: Seq<u8>, e: EntryView) -> Result<Seq<u8>, ErrorKind> {
    match e.fork {
        None => Ok(seq![]),
        Some(f) => if e.is_encrypted {
            Err(ErrorKind::Unsupported)
        } else if f.offset + f.stored > data.len() {
            Err(ErrorKind::InvalidData)
        } else {
            match fork_decoded(f.method, data.subrange(f.offset, f.offset + f.stored), e.size as nat) {
                Err(x) => Err(x),
                Ok(v) => if content_accepted(f.method, v, f.crc) {
                    Ok(v)
                } else {
                    Err(ErrorKind::InvalidData)
                },
            }
        },
    }
}

/// What reading entry `idx` of a catalog gives.
pub open spec fn entry_content(data: Seq<u8>, catalog: Seq<EntryView>, idx: int) -> Result<Seq<u8>, ErrorKind> {
    if idx >= catalog.len() {
        Err(ErrorKind::InvalidData)
    } else {
        content_of(data, catalog[idx])
    }
}

/// Decode and check the bytes of a fork stored at `offset`.
pub fn read_fork(data: &[u8], offset: u128, stored: u32, method: u8, crc: u16, size: u32) -> (r: Result<
    Vec<u8>,
    ErrorKind,
>)
    requires
        offset <= 0x1_0000_0001_0000_0000,
    ensures
        bytes_of(r) == (if offset + stored > data@.len() {
            Err::<Seq<u8>, ErrorKind>(ErrorKind::InvalidData)
        } else {
            match fork_decoded(method, data@.subrange(offset as int, offset + stored), size as nat) {
                Err(x) => Err(x),
                Ok(v) => if content_accepted(method, v, crc) {
                    Ok(v)
                } else {
                    Err(ErrorKind::InvalidData)
                },
            }
        }),
{
    if offset + stored as u128 > data.len() as u128 {
        return Err(ErrorKind::InvalidData);
    }
    let raw = slice_subrange(data, offset as usize, (offset + stored as u128) as usize);
    match decode_fork(method, raw, size as usize) {
        Err(e) => Err(e),
        Ok(decoded) => match verify_content_crc(method, decoded.as_slice(), crc) {
            Err(e) => Err(e),
            Ok(_) => Ok(decoded),
        },
    }
}

/// Append the bytes of `more` to `out`.
pub fn append(out: &mut Vec<u8>, more: &[u8])
    ensures
        final(out)@ == old(out)@ + more@,
{
    let mut i: usize = 0;
    assert(out@ =~= old(out)@ + more@.subrange(0, 0));
    while i < more.len()
        invariant
            i <= more@.len(),
            out@ == old(out)@ + more@.subrange(0, i as int),
        decreases more@.len() - i,
    {
        out.push(more[i]);
        i = i + 1;
        assert(out@ =~= old(out)@ + more@.subrange(0, i as int));
    }
    assert(more@.subrange(0, i as int) =~= more@);
}

} // verus!
