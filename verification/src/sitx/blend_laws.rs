use vstd::prelude::*;
use crate::catalog::be32;
use crate::error::ErrorKind;
use crate::sitx::blend::{cut_to, decoded, marker_at, next_marker, part_at, parts_from};
use crate::sitx::cyanide_laws;
use crate::sitx::darkhorse::window_size;
use crate::sitx::darkhorse_laws;
use crate::sitx::ppmd::coding_laws;
use crate::sitx::ppmd::variant_g::{coder_kind, model_start, ModelState};
use crate::sitx::range_encoding::{items_written, sender_start, written};

verus! {

// What a writer puts into the parts of a blended stream, by whatever method, is read
// back.

/// What a part holds, by its method: bytes as they are, messages for the dictionary
/// method, blocks of sorted bytes, or bytes under a model, given by the decisions that
/// the writer takes. A part of messages may announce more bytes than there are.
pub enum Part {
    Stored(Seq<u8>),
    Messages { window_byte: u8, second: u8, messages: Seq<darkhorse_laws::Message>, size: u32 },
    Blocks { size: u32, blocks: Seq<cyanide_laws::Block> },
    Modelled { log_size: u8, order: u8, decisions: Seq<Seq<int>> },
}

/// The model at the start of a part.
pub open spec fn part_model(log_size: u8, order: u8) -> ModelState {
    model_start((1usize << (log_size as usize)) as u32, order as i32, true)
}

pub open spec fn part_ok(p: Part) -> bool {
    match p {
        Part::Stored(v) => v.len() <= u32::MAX,
        Part::Messages { window_byte, second, messages, size } => {
            &&& window_byte < 31
            &&& forall|i: int| 0 <= i < messages.len() ==> darkhorse_laws::message_ok(#[trigger] messages[i])
            &&& part_text(p).len() <= size
        },
        Part::Blocks { size, blocks } => true,
        Part::Modelled { log_size, order, decisions } => {
            &&& log_size < usize::BITS && (1usize << (log_size as usize)) < 0xffff_ff00
            &&& order > 0
            &&& coding_laws::bytes_given(part_model(log_size, order), decisions) matches Some((bytes, parts))
                && bytes.len() <= u32::MAX && coding_laws::parts_fit(sender_start(), coder_kind(true), parts)
        },
    }
}

pub open spec fn part_text(p: Part) -> Seq<u8> {
    match p {
        Part::Stored(v) => v,
        Part::Messages { window_byte, second, messages, size } => darkhorse_laws::all_text(
            darkhorse_laws::writer_start(window_size(window_byte)),
            0,
            messages,
        ),
        Part::Blocks { size, blocks } => cyanide_laws::blocks_text(blocks),
        Part::Modelled { log_size, order, decisions } => coding_laws::bytes_given(
            part_model(log_size, order),
            decisions,
        )->Some_0.0,
    }
}

/// The number of the method.
pub open spec fn part_method(p: Part) -> u8 {
    match p {
        Part::Stored(v) => 0,
        Part::Messages { window_byte, second, messages, size } => 1,
        Part::Blocks { size, blocks } => 2,
        Part::Modelled { log_size, order, decisions } => 3,
    }
}

/// The size that the marker announces.
pub open spec fn part_size(p: Part) -> int {
    match p {
        Part::Stored(v) => v.len() as int,
        Part::Messages { window_byte, second, messages, size } => size as int,
        Part::Blocks { size, blocks } => size as int,
        Part::Modelled { log_size, order, decisions } => part_text(p).len() as int,
    }
}

/// The bytes behind the marker, but for blocks, which are told by what they hold.
pub open spec fn part_bytes(p: Part) -> Seq<u8> {
    match p {
        Part::Stored(v) => v,
        Part::Messages { window_byte, second, messages, size } => seq![window_byte, second] + items_written(
            darkhorse_laws::all_items(
                darkhorse_laws::writer_start(window_size(window_byte)),
                0,
                messages,
                size > part_text(p).len(),
            ),
        ),
        Part::Blocks { size, blocks } => seq![],
        Part::Modelled { log_size, order, decisions } => seq![log_size, order] + written(
            sender_start(),
            coder_kind(true),
            coding_laws::all_sent(coding_laws::bytes_given(part_model(log_size, order), decisions)->Some_0.1),
        ),
    }
}

/// How many bytes there are behind the marker.
pub open spec fn part_len(p: Part) -> nat {
    match p {
        Part::Blocks { size, blocks } => (cyanide_laws::blocks_end(1, blocks) + 1) as nat,
        _ => part_bytes(p).len(),
    }
}

/// The part stands at `m`.
pub open spec fn part_stands(b: Seq<u8>, m: nat, p: Part) -> bool {
    let q = m + 6;
    &&& q + part_len(p) <= b.len()
    &&& marker_at(b, m as int)
    &&& b[(m + 1) as int] == part_method(p)
    &&& be32(b, (m + 2) as int) == part_size(p)
    &&& match p {
        Part::Blocks { size, blocks } => cyanide_laws::blocks_stand(b.skip(q as int), 1, blocks),
        _ => b.subrange(q as int, (q + part_len(p)) as int) == part_bytes(p),
    }
}

/// The parts stand one behind the other.
pub open spec fn parts_stand(b: Seq<u8>, m: nat, ps: Seq<Part>) -> bool
    decreases ps.len(),
{
    ps.len() > 0 ==> part_ok(ps[0]) && part_stands(b, m, ps[0]) && parts_stand(
        b,
        m + 6 + part_len(ps[0]),
        ps.drop_first(),
    )
}

/// Where they end.
pub open spec fn parts_end(m: nat, ps: Seq<Part>) -> nat
    decreases ps.len(),
{
    if ps.len() == 0 {
        m
    } else {
        parts_end(m + 6 + part_len(ps[0]), ps.drop_first())
    }
}

pub open spec fn parts_text(ps: Seq<Part>) -> Seq<u8>
    decreases ps.len(),
{
    if ps.len() == 0 {
        seq![]
    } else {
        part_text(ps[0]) + parts_text(ps.drop_first())
    }
}

/// The rest of the stream from `q` on starts with the bytes at `q`.
proof fn rest_behind(b: Seq<u8>, q: int, bytes: Seq<u8>)
    requires
        0 <= q,
        q + bytes.len() <= b.len(),
        b.subrange(q, q + bytes.len()) == bytes,
    ensures
        b.subrange(q, b.len() as int) == bytes + b.skip(q + bytes.len()),
{
    assert forall|i: int| 0 <= i < bytes.len() implies b[q + i] == bytes[i] by {
        assert(b.subrange(q, q + bytes.len())[i] == bytes[i]);
    }
    assert(b.subrange(q, b.len() as int) =~= bytes + b.skip(q + bytes.len()));
}

proof fn part_is_read(b: Seq<u8>, m: nat, p: Part)
    requires
        b.len() <= u64::MAX,
        part_ok(p),
        part_stands(b, m, p),
    ensures
        part_at(b, m as int) == Ok::<(Seq<u8>, nat), ErrorKind>((part_text(p), m + 6 + part_len(p))),
{
    reveal(part_at);
    let q = (m + 6) as int;
    let bytes = part_bytes(p);
    match p {
        Part::Stored(v) => {},
        Part::Messages { window_byte, second, messages, size } => {
            rest_behind(b, q, bytes);
            darkhorse_laws::written_messages_are_read_back(
                window_byte,
                second,
                messages,
                b.skip(q + bytes.len()),
                size as nat,
            );
        },
        Part::Blocks { size, blocks } => {
            assert(b.skip(q) =~= b.subrange(q, b.len() as int));
            cyanide_laws::written_blocks_are_read_back(b.skip(q), blocks);
        },
        Part::Modelled { log_size, order, decisions } => {
            let out = bytes.skip(2);
            assert(bytes =~= seq![log_size, order] + out);
            assert(b.subrange(q, q + bytes.len())[0] == log_size);
            assert(b.subrange(q, q + bytes.len())[1] == order);
            assert(b.subrange(q + 2, q + 2 + out.len()) =~= out) by {
                assert forall|i: int| 0 <= i < out.len() implies b[q + 2 + i] == out[i] by {
                    assert(b.subrange(q, q + bytes.len())[2 + i] == bytes[2 + i]);
                }
            }
            rest_behind(b, q + 2, out);
            let parts = coding_laws::bytes_given(part_model(log_size, order), decisions)->Some_0.1;
            assert(out =~= written(sender_start(), coder_kind(true), coding_laws::all_sent(parts)));
            coding_laws::written_bytes_are_read_back(
                decisions,
                order as u32,
                1usize << (log_size as usize),
                b.skip(q + 2 + out.len()),
            );
        },
    }
}

proof fn parts_are_read(b: Seq<u8>, m: nat, ps: Seq<Part>, found: Seq<u8>, size: nat)
    requires
        b.len() <= u64::MAX,
        parts_stand(b, m, ps),
        size <= (found + parts_text(ps)).len() || next_marker(b, parts_end(m, ps) as int) is None,
    ensures
        parts_from(b, m, size, found) matches Ok(v) && v.is_prefix_of(found + parts_text(ps)) && (v.len() >= size || v
            == found + parts_text(ps)),
    decreases ps.len(),
{
    let all = found + parts_text(ps);
    if found.len() >= size {
        assert(all.subrange(0, found.len() as int) =~= found);
    } else if ps.len() == 0 {
        assert(all =~= found);
    } else {
        let p = ps[0];
        part_is_read(b, m, p);
        assert(next_marker(b, m as int) == Some(m as int));
        assert((found + part_text(p)) + parts_text(ps.drop_first()) =~= all);
        parts_are_read(b, m + 6 + part_len(p), ps.drop_first(), found + part_text(p), size);
    }
}

/// The parts of a stream, by whatever methods they were written, are read back one
/// behind the other: as many bytes as are asked for, or all of them if there are no
/// more and no marker follows.
pub proof fn written_parts_are_joined(b: Seq<u8>, ps: Seq<Part>, size: nat)
    requires
        b.len() <= u64::MAX,
        parts_stand(b, 0, ps),
        size <= parts_text(ps).len() || next_marker(b, parts_end(0, ps) as int) is None,
    ensures
        decoded(b, size) == Ok::<Seq<u8>, ErrorKind>(cut_to(parts_text(ps), size)),
{
    let text = parts_text(ps);
    assert(Seq::<u8>::empty() + text =~= text);
    parts_are_read(b, 0, ps, seq![], size);
    let v = parts_from(b, 0, size, seq![])->Ok_0;
    assert(v =~= text.subrange(0, v.len() as int));
    assert(text.subrange(0, text.len() as int) =~= text);
    assert(cut_to(v, size) =~= cut_to(text, size));
}

} // verus!
