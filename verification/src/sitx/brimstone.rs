use vstd::prelude::*;
use crate::error::ErrorKind;
use crate::sitx::ppmd::variant_g::{byte_next, coder_kind, model_start, next_byte, start, ModelState};
use crate::sitx::rangecoder::{range_start, RangeState};

verus! {

/// The bytes that the model yields behind those in `found`, at most `n` in all, and
/// how many bytes of input the coder has taken. A model that its heap cannot hold
/// yields an error.
pub open spec fn bytes_from(input: Seq<u8>, s: RangeState, m: ModelState, n: nat, found: Seq<u8>) -> Result<
    (Seq<u8>, nat),
    ErrorKind,
>
    decreases n - found.len(),
{
    if m.core.h.lost {
        Err(ErrorKind::InvalidData)
    } else if found.len() >= n {
        Ok((found, s.pos as nat))
    } else {
        match byte_next(input, s, coder_kind(true), m) {
            (None, s1, m1) => if m1.core.h.lost {
                Err(ErrorKind::InvalidData)
            } else {
                Ok((found, s1.pos as nat))
            },
            (Some(b), s1, m1) => bytes_from(input, s1, m1, n, found.push(b)),
        }
    }
}

/// The content of a stream of at most `n` bytes, and how many bytes of input it
/// takes.
pub open spec fn framed(data: Seq<u8>, n: nat, order: u32, alloc_size: usize) -> Result<(Seq<u8>, nat), ErrorKind> {
    let size = (alloc_size as int % 0x1_0000_0000) as u32;
    if order == 0 || order > 0x7fff_ffff || size >= 0xffff_ff00 {
        Err(ErrorKind::InvalidData)
    } else {
        bytes_from(data, range_start(data), model_start(size, order as i32, true), n, seq![])
    }
}

/// The content of a stream of at most `n` bytes.
pub open spec fn decoded(data: Seq<u8>, n: nat, order: u32, alloc_size: usize) -> Result<Seq<u8>, ErrorKind> {
    match framed(data, n, order, alloc_size) {
        Err(e) => Err(e),
        Ok((v, taken)) => Ok(v),
    }
}

/// A stream holds no more bytes than were asked for.
pub proof fn output_is_bounded(input: Seq<u8>, s: RangeState, m: ModelState, n: nat, found: Seq<u8>)
    requires
        found.len() <= n,
    ensures
        match bytes_from(input, s, m, n, found) {
            Ok((v, taken)) => found.len() <= v.len() <= n && v.subrange(0, found.len() as int) == found,
            Err(e) => e == ErrorKind::InvalidData,
        },
    decreases n - found.len(),
{
    assert(found.subrange(0, found.len() as int) =~= found);
    if !m.core.h.lost && found.len() < n {
        match byte_next(input, s, coder_kind(true), m) {
            (None, s1, m1) => {},
            (Some(b), s1, m1) => {
                output_is_bounded(input, s1, m1, n, found.push(b));
                match bytes_from(input, s1, m1, n, found.push(b)) {
                    Ok((v, taken)) => {
                        assert(v.subrange(0, found.len() as int) =~= v.subrange(0, (found.len() + 1) as int).subrange(
                            0,
                            found.len() as int,
                        ));
                        assert(found.push(b).subrange(0, found.len() as int) =~= found);
                    },
                    Err(e) => {},
                }
            },
        }
    }
}

/// Decode a stream of at most `outlen` bytes; tells also how many bytes of `src`
/// were taken.
pub fn decode_framed(src: &[u8], outlen: usize, order: u32, alloc_size: usize) -> (r: Result<(Vec<u8>, u64), ErrorKind>)
    ensures
        match r {
            Ok((v, n)) => framed(src@, outlen as nat, order, alloc_size) == Ok::<(Seq<u8>, nat), ErrorKind>(
                (v@, n as nat),
            ),
            Err(e) => framed(src@, outlen as nat, order, alloc_size) == Err::<(Seq<u8>, nat), ErrorKind>(e),
        },
{
    let size: u32 = (alloc_size as u64 % 0x1_0000_0000) as u32;
    if order == 0 || order > 0x7fff_ffff || size >= 0xffff_ff00 {
        return Err(ErrorKind::InvalidData);
    }
    let (mut coder, mut model) = start(src, size, order as i32, true);
    let mut out: Vec<u8> = Vec::new();
    let ghost goal = framed(src@, outlen as nat, order, alloc_size);
    assert(out@ =~= seq![]);
    while out.len() < outlen && !model.core.heap.lost
        invariant
            coder.wf(),
            coder.input() == src@,
            coder.kind() == coder_kind(true),
            model.wf(),
            bytes_from(src@, coder.state(), model.view(), outlen as nat, out@) == goal,
            goal == framed(src@, outlen as nat, order, alloc_size),
        decreases outlen - out@.len(),
    {
        let b: i32 = next_byte(&mut coder, &mut model);
        if b < 0 {
            if model.core.heap.lost {
                return Err(ErrorKind::InvalidData);
            }
            return Ok((out, coder.position()));
        }
        out.push(b as u8);
    }
    if model.core.heap.lost {
        return Err(ErrorKind::InvalidData);
    }
    Ok((out, coder.position()))
}

/// Decode a stream of at most `outlen` bytes.
pub fn decode(src: &[u8], outlen: usize, order: u32, alloc_size: usize) -> (r: Result<Vec<u8>, ErrorKind>)
    ensures
        crate::error::bytes_of(r) == decoded(src@, outlen as nat, order, alloc_size),
{
    match decode_framed(src, outlen, order, alloc_size) {
        Ok((v, _n)) => Ok(v),
        Err(e) => Err(e),
    }
}

} // verus!
