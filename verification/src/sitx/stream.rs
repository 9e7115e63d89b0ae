use vstd::prelude::*;
use vstd::slice::{slice_subrange, slice_to_vec};
use crate::checksum::{crc32, crc32_ieee};
use crate::error::{bytes_of, ErrorKind};
use crate::rc4::{rc4, rc4_undoes_itself, Rc4};
use crate::sitx::elements::Element;
use crate::sitx::p2::{block_stream, read_block_stream, Reader};
use crate::sitx::{blend, brimstone, cyanide, darkhorse, english, iron, x86};

verus! {

/// Where a stream is and how it was packed; a method of -1 is none.
#[derive(Clone, Copy, PartialEq, Eq, Structural)]
pub struct StreamDescriptor {
    pub dataoffset: usize,
    pub compression: i64,
    pub checksum: i64,
    pub preprocess: i64,
    pub crypto: i64,
    pub actualsize: u64,
    pub datacrc: u32,
}

/// What a stream holds: its bytes, or, where it is deflated and has not been
/// inflated yet, the deflated bytes and how many are to come of them.
pub enum Content {
    Bytes(Seq<u8>),
    Deflated(Seq<u8>, nat),
}

/// A size of 64 bits as one of the machine.
pub open spec fn machine_size(n: u64) -> nat {
    (n as int % (usize::MAX + 1)) as nat
}

/// The blocks of a stream uncompressed to `size` bytes. For a deflated stream
/// `inflated` tells what inflating has given, if it has been done.
#[verifier::opaque]
pub open spec fn uncompressed(b: Seq<u8>, compression: i64, size: nat, inflated: Option<Result<Seq<u8>, ErrorKind>>) -> Result<
    Content,
    ErrorKind,
> {
    if compression == -1 {
        Ok(Content::Bytes(b))
    } else if compression == 0 {
        if b.len() < 2 || b[0] >= usize::BITS {
            Err(ErrorKind::InvalidData)
        } else {
            as_content(
                brimstone::decoded(b.subrange(2, b.len() as int), size, b[1] as u32, 1usize << (b[0] as usize)),
            )
        }
    } else if compression == 1 {
        as_content(cyanide::decoded(b))
    } else if compression == 2 {
        as_content(darkhorse::decoded(b, size))
    } else if compression == 3 {
        if b.len() == 0 {
            Err(ErrorKind::InvalidData)
        } else if b[0] != 15 {
            Err(ErrorKind::Unsupported)
        } else {
            match inflated {
                Some(r) => as_content(r),
                None => Ok(Content::Deflated(b.subrange(1, b.len() as int), size)),
            }
        }
    } else if compression == 4 {
        as_content(blend::decoded(b, size))
    } else if compression == 5 {
        if b.len() < 3 {
            Err(ErrorKind::InvalidData)
        } else {
            Ok(Content::Bytes(rc4(b.subrange(2, 3), b.subrange(3, b.len() as int))))
        }
    } else if compression == 6 {
        as_content(iron::decoded(b, size))
    } else {
        Err(ErrorKind::Unsupported)
    }
}

pub open spec fn as_content(r: Result<Seq<u8>, ErrorKind>) -> Result<Content, ErrorKind> {
    match r {
        Ok(v) => Ok(Content::Bytes(v)),
        Err(e) => Err(e),
    }
}

/// What a preprocessor did to the bytes undone. That for English text needs its
/// dictionary.
#[verifier::opaque]
pub open spec fn postprocessed(v: Seq<u8>, preprocess: i64, size: nat, dictionary: Option<Seq<u8>>) -> Result<
    Seq<u8>,
    ErrorKind,
> {
    if preprocess == -1 {
        Ok(v)
    } else if preprocess == 0 {
        match dictionary {
            Some(d) => english::decoded(v, size, d),
            None => Err(ErrorKind::Unsupported),
        }
    } else if preprocess == 2 {
        Ok(x86::decoded(v, size))
    } else {
        Err(ErrorKind::Unsupported)
    }
}

/// The content of a stream in the archive `data`.
#[verifier::opaque]
pub open spec fn stream_content(
    data: Seq<u8>,
    desc: StreamDescriptor,
    want_checksum: bool,
    dictionary: Option<Seq<u8>>,
    inflated: Option<Result<Seq<u8>, ErrorKind>>,
) -> Result<Content, ErrorKind> {
    let size = machine_size(desc.actualsize);
    if desc.crypto >= 0 {
        Err(ErrorKind::Unsupported)
    } else {
        match block_stream(data, desc.dataoffset as int) {
            Err(e) => Err(e),
            Ok(b) => match uncompressed(b, desc.compression, size, inflated) {
                Err(e) => Err(e),
                Ok(Content::Deflated(body, n)) => Ok(Content::Deflated(body, n)),
                Ok(Content::Bytes(v)) => match postprocessed(v, desc.preprocess, size, dictionary) {
                    Err(e) => Err(e),
                    Ok(w) => if want_checksum && desc.checksum == 0 && crc32(w) != desc.datacrc {
                        Err(ErrorKind::InvalidData)
                    } else {
                        Ok(Content::Bytes(w))
                    },
                },
            },
        }
    }
}

// === what holds of every stream ===============================================

/// An encrypted stream is refused, whatever else is asked of it.
pub proof fn encrypted_stream_is_unsupported(
    data: Seq<u8>,
    desc: StreamDescriptor,
    want_checksum: bool,
    dictionary: Option<Seq<u8>>,
    inflated: Option<Result<Seq<u8>, ErrorKind>>,
)
    requires
        desc.crypto >= 0,
    ensures
        stream_content(data, desc, want_checksum, dictionary, inflated) == Err::<Content, ErrorKind>(
            ErrorKind::Unsupported,
        ),
{
    reveal(stream_content);
}

/// A stream holds what its blocks are unpacked to.
pub proof fn packed_stream_holds_its_content(
    data: Seq<u8>,
    desc: StreamDescriptor,
    blocks: Seq<u8>,
    unpacked: Seq<u8>,
    content: Seq<u8>,
    dictionary: Option<Seq<u8>>,
    inflated: Option<Result<Seq<u8>, ErrorKind>>,
)
    requires
        desc.crypto < 0,
        block_stream(data, desc.dataoffset as int) == Ok::<Seq<u8>, ErrorKind>(blocks),
        uncompressed(blocks, desc.compression, machine_size(desc.actualsize), inflated) == Ok::<Content, ErrorKind>(
            Content::Bytes(unpacked),
        ),
        postprocessed(unpacked, desc.preprocess, machine_size(desc.actualsize), dictionary) == Ok::<Seq<u8>, ErrorKind>(
            content,
        ),
        desc.checksum == 0 ==> crc32(content) == desc.datacrc,
    ensures
        stream_content(data, desc, true, dictionary, inflated) == Ok::<Content, ErrorKind>(Content::Bytes(content)),
{
    reveal(stream_content);
}

/// What is not packed at all is its own content.
pub proof fn stored_bytes_stay(b: Seq<u8>, size: nat, dictionary: Option<Seq<u8>>, inflated: Option<Result<Seq<u8>, ErrorKind>>)
    ensures
        uncompressed(b, -1i64, size, inflated) == Ok::<Content, ErrorKind>(Content::Bytes(b)),
        postprocessed(b, -1i64, size, dictionary) == Ok::<Seq<u8>, ErrorKind>(b),
{
    reveal(uncompressed);
    reveal(postprocessed);
}

/// What was scrambled under a key of one byte, which stands in front behind two bytes
/// without meaning, is unscrambled.
pub proof fn scrambled_bytes_are_restored(x: u8, y: u8, key: u8, v: Seq<u8>, size: nat, inflated: Option<Result<Seq<u8>, ErrorKind>>)
    ensures
        uncompressed(seq![x, y, key] + rc4(seq![key], v), 5, size, inflated) == Ok::<Content, ErrorKind>(
            Content::Bytes(v),
        ),
{
    reveal(uncompressed);
    let b = seq![x, y, key] + rc4(seq![key], v);
    assert(b.subrange(2, 3) =~= seq![key]);
    assert(b.subrange(3, b.len() as int) =~= rc4(seq![key], v));
    rc4_undoes_itself(seq![key], v);
}

/// Bytes that are handed out under a checksum match it.
pub proof fn checked_stream_matches_its_checksum(
    data: Seq<u8>,
    desc: StreamDescriptor,
    dictionary: Option<Seq<u8>>,
    inflated: Option<Result<Seq<u8>, ErrorKind>>,
)
    requires
        desc.checksum == 0,
    ensures
        match stream_content(data, desc, true, dictionary, inflated) {
            Ok(Content::Bytes(v)) => crc32(v) == desc.datacrc,
            _ => true,
        },
{
    reveal(stream_content);
}

/// Methods that are not known are refused, once the blocks are there.
pub proof fn unknown_method_is_unsupported(
    data: Seq<u8>,
    desc: StreamDescriptor,
    want_checksum: bool,
    dictionary: Option<Seq<u8>>,
    inflated: Option<Result<Seq<u8>, ErrorKind>>,
)
    requires
        desc.compression < -1 || desc.compression > 6,
        block_stream(data, desc.dataoffset as int) is Ok,
    ensures
        stream_content(data, desc, want_checksum, dictionary, inflated) == Err::<Content, ErrorKind>(
            ErrorKind::Unsupported,
        ),
{
    reveal(stream_content);
    reveal(uncompressed);
}

/// Only a deflated stream is left to be inflated, and it holds no bytes until it has
/// been.
pub proof fn only_deflated_streams_wait(
    data: Seq<u8>,
    desc: StreamDescriptor,
    want_checksum: bool,
    dictionary: Option<Seq<u8>>,
    inflated: Option<Result<Seq<u8>, ErrorKind>>,
)
    ensures
        match stream_content(data, desc, want_checksum, dictionary, inflated) {
            Ok(Content::Deflated(body, n)) => desc.compression == 3 && inflated is None,
            Ok(Content::Bytes(v)) => desc.compression != 3 || inflated is Some,
            Err(e) => true,
        },
{
    reveal(stream_content);
    reveal(uncompressed);
}

// === decoding =================================================================

/// What a stream holds, or what is to be inflated first.
pub enum Step {
    Bytes(Vec<u8>),
    /// A deflated stream, and how many bytes are to come of it.
    Deflated(Vec<u8>, usize),
}

pub open spec fn step_of(r: Result<Step, ErrorKind>) -> Result<Content, ErrorKind> {
    match r {
        Err(e) => Err(e),
        Ok(Step::Bytes(v)) => Ok(Content::Bytes(v@)),
        Ok(Step::Deflated(v, n)) => Ok(Content::Deflated(v@, n as nat)),
    }
}

pub open spec fn inflated_in(v: Option<&Result<Vec<u8>, ErrorKind>>) -> Option<Result<Seq<u8>, ErrorKind>> {
    match v {
        Some(r) => Some(bytes_of(*r)),
        None => None,
    }
}

pub open spec fn bytes_in(v: Option<&Vec<u8>>) -> Option<Seq<u8>> {
    match v {
        Some(v) => Some(v@),
        None => None,
    }
}

impl StreamDescriptor {
    pub open spec fn of(el: Element) -> StreamDescriptor {
        StreamDescriptor {
            dataoffset: el.dataoffset,
            compression: el.alglist@[0],
            checksum: el.alglist@[1],
            preprocess: el.alglist@[2],
            crypto: el.alglist@[3],
            actualsize: el.actualsize,
            datacrc: el.datacrc,
        }
    }

    pub fn from_element(el: &Element) -> (r: Self)
        requires
            el.alglist@.len() == 6,
        ensures
            r == StreamDescriptor::of(*el),
    {
        StreamDescriptor {
            dataoffset: el.dataoffset,
            compression: el.alglist[0],
            checksum: el.alglist[1],
            preprocess: el.alglist[2],
            crypto: el.alglist[3],
            actualsize: el.actualsize,
            datacrc: el.datacrc,
        }
    }
}

fn to_machine_size(n: u64) -> (r: usize)
    ensures
        r == machine_size(n),
{
    (n as u128 % (usize::MAX as u128 + 1)) as usize
}

fn step_from(r: Result<Vec<u8>, ErrorKind>) -> (s: Result<Step, ErrorKind>)
    ensures
        step_of(s) == as_content(bytes_of(r)),
{
    match r {
        Ok(v) => Ok(Step::Bytes(v)),
        Err(e) => Err(e),
    }
}

fn uncompress(blocks: Vec<u8>, compression: i64, size: usize, inflated: Option<&Result<Vec<u8>, ErrorKind>>) -> (r: Result<
    Step,
    ErrorKind,
>)
    ensures
        step_of(r) == uncompressed(blocks@, compression, size as nat, inflated_in(inflated)),
{
    reveal(uncompressed);
    let b = blocks.as_slice();
    if compression == -1 {
        Ok(Step::Bytes(blocks))
    } else if compression == 0 {
        if b.len() < 2 || b[0] as u32 >= usize::BITS {
            return Err(ErrorKind::InvalidData);
        }
        let alloc_size: usize = 1usize << (b[0] as usize);
        step_from(brimstone::decode(slice_subrange(b, 2, b.len()), size, b[1] as u32, alloc_size))
    } else if compression == 1 {
        step_from(cyanide::decode(b, size))
    } else if compression == 2 {
        step_from(darkhorse::decode(b, size))
    } else if compression == 3 {
        if b.len() == 0 {
            return Err(ErrorKind::InvalidData);
        }
        if b[0] != 15 {
            return Err(ErrorKind::Unsupported);
        }
        match inflated {
            Some(Ok(v)) => Ok(Step::Bytes(slice_to_vec(v.as_slice()))),
            Some(Err(e)) => Err(*e),
            None => Ok(Step::Deflated(slice_to_vec(slice_subrange(b, 1, b.len())), size)),
        }
    } else if compression == 4 {
        step_from(blend::decode(b, size))
    } else if compression == 5 {
        if b.len() < 3 {
            return Err(ErrorKind::InvalidData);
        }
        let mut out: Vec<u8> = slice_to_vec(slice_subrange(b, 3, b.len()));
        let mut cipher = Rc4::new(slice_subrange(b, 2, 3));
        cipher.apply(&mut out);
        Ok(Step::Bytes(out))
    } else if compression == 6 {
        step_from(iron::decode(b, size))
    } else {
        Err(ErrorKind::Unsupported)
    }
}

fn postprocess(v: Vec<u8>, preprocess: i64, size: usize, dictionary: Option<&Vec<u8>>) -> (r: Result<
    Vec<u8>,
    ErrorKind,
>)
    ensures
        bytes_of(r) == postprocessed(v@, preprocess, size as nat, bytes_in(dictionary)),
{
    reveal(postprocessed);
    if preprocess == -1 {
        Ok(v)
    } else if preprocess == 0 {
        match dictionary {
            Some(d) => english::decode(v.as_slice(), size, d.as_slice()),
            None => Err(ErrorKind::Unsupported),
        }
    } else if preprocess == 2 {
        Ok(x86::decode(v.as_slice(), size))
    } else {
        Err(ErrorKind::Unsupported)
    }
}

/// Decode a stream of the archive `data`. One that is deflated is handed out until
/// `inflated` tells what inflating it has given.
pub fn decode_stream(
    data: &[u8],
    desc: &StreamDescriptor,
    want_checksum: bool,
    dictionary: Option<&Vec<u8>>,
    inflated: Option<&Result<Vec<u8>, ErrorKind>>,
) -> (r: Result<Step, ErrorKind>)
    ensures
        step_of(r) == stream_content(data@, *desc, want_checksum, bytes_in(dictionary), inflated_in(inflated)),
{
    reveal(stream_content);
    if desc.crypto >= 0 {
        return Err(ErrorKind::Unsupported);
    }
    let mut r = Reader::new(data);
    let blocks: Vec<u8> = match read_block_stream(&mut r, desc.dataoffset) {
        Ok(v) => v,
        Err(e) => {
            return Err(e);
        },
    };
    let size: usize = to_machine_size(desc.actualsize);
    let v: Vec<u8> = match uncompress(blocks, desc.compression, size, inflated) {
        Ok(Step::Bytes(v)) => v,
        Ok(Step::Deflated(body, n)) => {
            return Ok(Step::Deflated(body, n));
        },
        Err(e) => {
            return Err(e);
        },
    };
    let w: Vec<u8> = match postprocess(v, desc.preprocess, size, dictionary) {
        Ok(w) => w,
        Err(e) => {
            return Err(e);
        },
    };
    if want_checksum && desc.checksum == 0 && crc32_ieee(w.as_slice()) != desc.datacrc {
        return Err(ErrorKind::InvalidData);
    }
    Ok(Step::Bytes(w))
}

} // verus!
