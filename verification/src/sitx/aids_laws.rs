use vstd::prelude::*;
use crate::error::ErrorKind;
use crate::sitx::archive::{
    application_moves, catalog_added, content_at, element_applied, elements_from, is_sitx, nothing_read, outcome_of,
    size_in, stream_of, AidsView, EntryView, Next, Outcome, ParserState,
};
use crate::sitx::elements::{element_at, element_moves, noted, scanned, ElementView};
use crate::sitx::p2::byte_pos;
use crate::sitx::stream::{stream_content, uncompressed, Content, StreamDescriptor};

verus! {

// How an archive is read in turns: deflated streams are handed out one by one, and what
// inflating each of them gave is handed back.

/// The same aids with more results behind those that were there.
pub open spec fn with_more(aids: AidsView, more: Seq<Result<Seq<u8>, ErrorKind>>) -> AidsView {
    AidsView { inflated: aids.inflated + more, ..aids }
}

/// A stream that does not wait to be inflated does not look at what inflating gave.
proof fn ready_stream_stays(
    data: Seq<u8>,
    desc: StreamDescriptor,
    want_checksum: bool,
    dictionary: Option<Seq<u8>>,
    inflated: Option<Result<Seq<u8>, ErrorKind>>,
)
    requires
        !(stream_content(data, desc, want_checksum, dictionary, None) matches Ok(Content::Deflated(_, _))),
    ensures
        stream_content(data, desc, want_checksum, dictionary, inflated) == stream_content(
            data,
            desc,
            want_checksum,
            dictionary,
            None,
        ),
{
    reveal(stream_content);
    reveal(uncompressed);
}

proof fn stream_ignores_more(
    data: Seq<u8>,
    desc: StreamDescriptor,
    want_checksum: bool,
    aids: AidsView,
    more: Seq<Result<Seq<u8>, ErrorKind>>,
    i: nat,
)
    requires
        !(stream_content(data, desc, want_checksum, aids.dictionary, aids.inflated_at(i)) matches Ok(
            Content::Deflated(_, _),
        )),
    ensures
        stream_content(data, desc, want_checksum, aids.dictionary, with_more(aids, more).inflated_at(i))
            == stream_content(data, desc, want_checksum, aids.dictionary, aids.inflated_at(i)),
{
    if i >= aids.inflated.len() {
        ready_stream_stays(data, desc, want_checksum, aids.dictionary, with_more(aids, more).inflated_at(i));
    }
}

proof fn element_ignores_more(
    data: Seq<u8>,
    q: int,
    el: ElementView,
    p: ParserState,
    aids: AidsView,
    more: Seq<Result<Seq<u8>, ErrorKind>>,
)
    requires
        !(element_applied(data, q, el, p, aids) matches Ok(Next::Deflated(_, _))),
    ensures
        element_applied(data, q, el, p, with_more(aids, more)) == element_applied(data, q, el, p, aids),
{
    reveal(element_applied);
    if el.typ == 5 {
        reveal(catalog_added);
        if let Ok((crc, end)) = scanned(data, el.dataoffset) {
            let desc = stream_of(el, size_in(el.attribs[4]), noted(crc, 0));
            stream_ignores_more(data, desc, false, aids, more, p.inflated);
        }
    }
}

proof fn elements_ignore_more(
    data: Seq<u8>,
    q: int,
    p: ParserState,
    aids: AidsView,
    unknown: bool,
    more: Seq<Result<Seq<u8>, ErrorKind>>,
)
    requires
        0 <= q,
        !(elements_from(data, q, p, aids, unknown).0 matches Ok(Outcome::Deflated(_, _))),
    ensures
        elements_from(data, q, p, with_more(aids, more), unknown) == elements_from(data, q, p, aids, unknown),
    decreases 8 * data.len() - q,
{
    element_moves(data, q, unknown);
    match element_at(data, q, unknown) {
        (Err(e), u) => {},
        (Ok((el, q1)), u) => if el.typ != 0 {
            application_moves(data, q1, el, p, aids);
            element_ignores_more(data, q1, el, p, aids, more);
            match element_applied(data, q1, el, p, aids) {
                Ok(Next::Parsed(p1, q2)) => {
                    elements_ignore_more(data, 8 * byte_pos(q2), p1, aids, u, more);
                },
                _ => {},
            }
        },
    }
}

/// Once an archive can be opened, or is refused, more results of inflating make no
/// difference.
pub proof fn opened_archive_needs_no_more(data: Seq<u8>, aids: AidsView, more: Seq<Result<Seq<u8>, ErrorKind>>)
    requires
        !(outcome_of(data, aids) matches Ok(Outcome::Deflated(_, _))),
    ensures
        outcome_of(data, with_more(aids, more)) == outcome_of(data, aids),
{
    if is_sitx(data) && data[7] != 0x3f {
        elements_ignore_more(data, 64, nothing_read(), aids, false, more);
    }
}

/// The same holds of reading an entry.
pub proof fn read_entry_needs_no_more(
    data: Seq<u8>,
    es: Seq<EntryView>,
    idx: int,
    aids: AidsView,
    more: Seq<Result<Seq<u8>, ErrorKind>>,
)
    requires
        0 <= idx,
        !(content_at(data, es, idx, aids) matches Ok(Content::Deflated(_, _))),
    ensures
        content_at(data, es, idx, with_more(aids, more)) == content_at(data, es, idx, aids),
{
    if idx < es.len() {
        if let Some(f) = es[idx].fork {
            stream_ignores_more(data, f.stream, true, aids, more, 0);
        }
    }
}

/// An entry whose stream is handed out can be read once one result of inflating it is
/// there, and where inflating has failed, reading fails in the same way.
pub proof fn one_result_is_enough(
    data: Seq<u8>,
    es: Seq<EntryView>,
    idx: int,
    aids: AidsView,
    result: Result<Seq<u8>, ErrorKind>,
)
    requires
        0 <= idx,
        content_at(data, es, idx, aids) matches Ok(Content::Deflated(_, _)),
    ensures
        aids.inflated.len() == 0,
        !(content_at(data, es, idx, with_more(aids, seq![result])) matches Ok(Content::Deflated(_, _))),
        result matches Err(e) ==> content_at(data, es, idx, with_more(aids, seq![result])) == Err::<Content, ErrorKind>(
            e,
        ),
{
    reveal(stream_content);
    reveal(uncompressed);
    assert(aids.inflated.len() > 0 ==> aids.inflated_at(0) is Some);
    assert(with_more(aids, seq![result]).inflated[0] == result);
}

} // verus!
