use vstd::prelude::*;
use vstd::slice::{slice_subrange, slice_to_vec};
use crate::checksum::{crc16, crc16_arc};
use crate::compress::{decompress, lzw_decoded};
use crate::error::{bytes_of, ErrorKind};
use crate::huffman::{huffman_decoded, StuffItHuffman};
use crate::rle90::{rle90_start, rle90_take, Rle90Reader};
use crate::stuffit13;
use crate::stuffit15;
use crate::stuffit5;

verus! {

/// The `size` bytes that a fork's stored bytes `raw` stand for. The low half of
/// the method byte picks the codec.
pub open spec fn fork_decoded(method: u8, raw: Seq<u8>, size: nat) -> Result<Seq<u8>, ErrorKind> {
    let codec = method & 0x0fu8;
    if codec == 0 {
        if size <= raw.len() {
            Ok(raw.subrange(0, size as int))
        } else {
            Err(ErrorKind::UnexpectedEof)
        }
    } else if codec == 1 {
        rle90_take(rle90_start(raw), size)
    } else if codec == 2 {
        lzw_decoded(raw, size)
    } else if codec == 3 {
        huffman_decoded(raw, size)
    } else if codec == 5 {
        stuffit5::decoded(raw, size)
    } else if codec == 13 {
        stuffit13::decoded(raw, size)
    } else if codec == 15 {
        stuffit15::decoded(raw, size)
    } else {
        Err(ErrorKind::Unsupported)
    }
}

/// Whether decoded bytes pass the stored checksum. Method 15 has a checksum of
/// its own, so the stored one is not looked at.
pub open spec fn content_accepted(method: u8, decoded: Seq<u8>, crc: u16) -> bool {
    method & 0x0fu8 == 15 || crc16(decoded) == crc
}

/// Methods that are not known are refused, whatever the stored bytes.
pub proof fn unknown_method_is_unsupported(method: u8, raw: Seq<u8>, size: nat)
    requires
        ({
            let codec = method & 0x0fu8;
            codec == 4 || 6 <= codec <= 12 || codec == 14
        }),
    ensures
        fork_decoded(method, raw, size) == Err::<Seq<u8>, ErrorKind>(ErrorKind::Unsupported),
{
}

/// Decode the `size` bytes of a fork.
pub fn decode_fork(method: u8, raw: &[u8], size: usize) -> (r: Result<Vec<u8>, ErrorKind>)
    ensures
        bytes_of(r) == fork_decoded(method, raw@, size as nat),
{
    let codec: u8 = method & 0x0f;
    if codec == 0 {
        if size <= raw.len() {
            Ok(slice_to_vec(slice_subrange(raw, 0, size)))
        } else {
            Err(ErrorKind::UnexpectedEof)
        }
    } else if codec == 1 {
        let mut reader = Rle90Reader::new(raw);
        reader.read_exact(size)
    } else if codec == 2 {
        decompress(raw, size)
    } else if codec == 3 {
        match StuffItHuffman::new(raw) {
            Ok(mut h) => h.read_exact(size),
            Err(e) => Err(e),
        }
    } else if codec == 5 {
        stuffit5::decode(raw, size)
    } else if codec == 13 {
        stuffit13::decode(raw, size)
    } else if codec == 15 {
        stuffit15::decode(raw, size)
    } else {
        Err(ErrorKind::Unsupported)
    }
}

/// Compare decoded bytes with the stored checksum.
pub fn verify_content_crc(method: u8, decoded: &[u8], crc: u16) -> (r: Result<(), ErrorKind>)
    ensures
        match r {
            Ok(_) => content_accepted(method, decoded@, crc),
            Err(e) => e == ErrorKind::InvalidData && !content_accepted(method, decoded@, crc),
        },
{
    if method & 0x0f == 15 {
        return Ok(());
    }
    if crc16_arc(decoded) != crc {
        return Err(ErrorKind::InvalidData);
    }
    Ok(())
}

} // verus!
