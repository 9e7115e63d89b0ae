use vstd::prelude::*;
use crate::checksum::crc32;
use crate::error::ErrorKind;
use crate::sit5_writing::text_stands;
use crate::sitx::archive::{
    content_at, data_added, element_applied, forks_from, is_sitx, outcome_of, total_from, AidsView, EntryView,
    ForkView, Next, Outcome, Packing, ParserState,
};
use crate::sitx::element_laws::places;
use crate::sitx::elements::ElementView;
use crate::sitx::nodes::{last_with, tag_applied, NodeView};
use crate::sitx::p2::block_stream;
use crate::sitx::stream::{
    machine_size, postprocessed, stream_content, uncompressed, Content, StreamDescriptor,
};

verus! {

// What is answered where an archive, or a part of it, cannot be read.

/// The banner is `StuffIt` with an exclamation mark, or with a question mark for an archive
/// that is encoded as text, which is unsupported. Anything else is no archive.
pub proof fn banner_decides(data: Seq<u8>, aids: AidsView)
    ensures
        is_sitx(data) == ({
            &&& data.len() >= 8
            &&& text_stands(data, 0, "StuffIt"@)
            &&& data[7] == '!' as u8 || data[7] == '?' as u8
        }),
        !is_sitx(data) ==> outcome_of(data, aids) == Err::<Outcome, ErrorKind>(ErrorKind::InvalidData),
        is_sitx(data) && data[7] == '?' as u8 ==> outcome_of(data, aids) == Err::<Outcome, ErrorKind>(
            ErrorKind::Unsupported,
        ),
{
    reveal_strlit("StuffIt");
    let text = "StuffIt"@;
    let mark = seq![0x53u8, 0x74, 0x75, 0x66, 0x66, 0x49, 0x74];
    if data.len() >= 8 {
        let head = data.subrange(0, 7);
        if head == mark {
            assert forall|i: int| 0 <= i < text.len() implies data[0 + i] == #[trigger] text[i] as u32 by {
                assert(data[i] == head[i]);
                assert(i == 0 || i == 1 || i == 2 || i == 3 || i == 4 || i == 5 || i == 6);
            }
        }
        if text_stands(data, 0, text) {
            assert forall|i: int| 0 <= i < 7 implies head[i] == mark[i] by {
                assert(data[0 + i] == text[i] as u32);
                assert(i == 0 || i == 1 || i == 2 || i == 3 || i == 4 || i == 5 || i == 6);
            }
            assert(head =~= mark);
        }
    }
}

/// An element of type 10 is unsupported.
pub proof fn element_of_type_10_is_unsupported(data: Seq<u8>, q: int, el: ElementView, p: ParserState, aids: AidsView)
    requires
        el.typ == 10,
    ensures
        element_applied(data, q, el, p, aids) == Err::<Next, ErrorKind>(ErrorKind::Unsupported),
{
    reveal(element_applied);
}

/// What a catalog says of a node under a key above 12 is unsupported.
pub proof fn other_tags_are_unsupported(data: Seq<u8>, q: int, key: u64, nodes: Seq<NodeView>, i: int)
    requires
        key > 12,
    ensures
        tag_applied(data, q, key, nodes, i) == Err::<(Seq<NodeView>, int), ErrorKind>(ErrorKind::Unsupported),
{
    reveal(tag_applied);
}

proof fn missing_fork_has_no_total(forks: Seq<Option<ForkView>>, i: int, k: int)
    requires
        0 <= i <= k < forks.len(),
        forks[k] is None,
    ensures
        total_from(forks, i) is None,
    decreases k - i,
{
    if i < k {
        missing_fork_has_no_total(forks, i + 1, k);
    }
}

/// A stream with an open place among its forks is invalid.
pub proof fn stream_with_a_gap_is_invalid(p: ParserState, el: ElementView, crc: u32, end: int, k: int)
    requires
        0 <= k < places(p, el.attribs[0]).len(),
        places(p, el.attribs[0])[k] is None,
    ensures
        data_added(p, el, crc, end) == Err::<ParserState, ErrorKind>(ErrorKind::InvalidData),
{
    reveal(data_added);
    missing_fork_has_no_total(places(p, el.attribs[0]), 0, k);
}

/// A fork of a node that there is not is invalid.
pub proof fn fork_without_its_node_is_invalid(
    nodes: Seq<NodeView>,
    forks: Seq<Option<ForkView>>,
    i: int,
    offset: int,
    w: Packing,
    found: Seq<EntryView>,
)
    requires
        0 <= i < forks.len(),
        forks[i] matches Some(f) && f.typ <= 1 && f.entries.len() > 0 && last_with(nodes, f.entries[0]) is None,
    ensures
        forks_from(nodes, forks, i, offset, w, found) == Err::<Seq<EntryView>, ErrorKind>(ErrorKind::InvalidData),
{
}

/// A stream whose bytes do not have its checksum is invalid, if it is looked at.
pub proof fn spoiled_stream_is_invalid(
    data: Seq<u8>,
    desc: StreamDescriptor,
    blocks: Seq<u8>,
    unpacked: Seq<u8>,
    v: Seq<u8>,
    dictionary: Option<Seq<u8>>,
    inflated: Option<Result<Seq<u8>, ErrorKind>>,
)
    requires
        desc.crypto < 0,
        desc.checksum == 0,
        block_stream(data, desc.dataoffset as int) == Ok::<Seq<u8>, ErrorKind>(blocks),
        uncompressed(blocks, desc.compression, machine_size(desc.actualsize), inflated) == Ok::<Content, ErrorKind>(
            Content::Bytes(unpacked),
        ),
        postprocessed(unpacked, desc.preprocess, machine_size(desc.actualsize), dictionary) == Ok::<Seq<u8>, ErrorKind>(v),
        crc32(v) != desc.datacrc,
    ensures
        stream_content(data, desc, true, dictionary, inflated) == Err::<Content, ErrorKind>(ErrorKind::InvalidData),
        stream_content(data, desc, false, dictionary, inflated) == Ok::<Content, ErrorKind>(Content::Bytes(v)),
{
    reveal(stream_content);
}

/// An entry that there is not is invalid; one without a fork has no bytes; a fork that does not
/// lie within its stream is invalid.
pub proof fn entries_that_are_not_there(data: Seq<u8>, entries: Seq<EntryView>, idx: int, aids: AidsView)
    requires
        0 <= idx,
    ensures
        idx >= entries.len() ==> content_at(data, entries, idx, aids) == Err::<Content, ErrorKind>(ErrorKind::InvalidData),
        idx < entries.len() && entries[idx].fork is None ==> content_at(data, entries, idx, aids) == Ok::<
            Content,
            ErrorKind,
        >(Content::Bytes(seq![])),
        idx < entries.len() ==> match entries[idx].fork {
            None => true,
            Some(f) => stream_content(data, f.stream, true, aids.dictionary, aids.inflated_at(0)) matches Ok(
                Content::Bytes(v),
            ) ==> (f.solid_offset + f.length > v.len() ==> content_at(data, entries, idx, aids) == Err::<
                Content,
                ErrorKind,
            >(ErrorKind::InvalidData)),
        },
{
}

} // verus!
