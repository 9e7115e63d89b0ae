use vstd::prelude::*;
use vstd::slice::{slice_subrange, slice_to_vec};
use vstd::string::StringExecFns;
use std::collections::{HashMap, HashSet};
use crate::catalog::append;
use crate::error::{bytes_of, ErrorKind};
use crate::sitx::archive_laws::content_has_its_size;
use crate::sitx::elements::{
    element_at, element_moves, noted, read_element, scan_element_data, scan_moves, scan_stop, scanned, Element,
    ElementView,
};
use crate::sitx::names::{method_name, name_of};
use crate::sitx::nodes::{
    bare_node, bytes_held, catalog_applied, catalog_left, find_node, index_right, info_held, last_with, last_with_push, node_views,
    parse_catalog, EntryBuilder, NodeView,
};
use crate::sitx::p2::{byte_pos, p2_advances, p2_at, raw_at, run_out, Reader};
use crate::sitx::stream::{
    bytes_in, decode_stream, inflated_in, only_deflated_streams_wait, stream_content, Content, Step, StreamDescriptor,
};

verus! {

// === what an archive holds ====================================================

/// Where a fork lies in the content of its stream.
#[derive(Clone, Copy, PartialEq, Eq, Structural)]
pub struct ForkExtract {
    pub stream: StreamDescriptor,
    pub solid_offset: u64,
    pub length: u64,
}

/// A directory, an empty file, or one fork of a file.
pub struct EntryView {
    pub name: Seq<u8>,
    pub is_directory: bool,
    pub is_resource_fork: bool,
    pub is_link: bool,
    pub size: u64,
    pub compressed_size: u64,
    pub compression_name: Seq<char>,
    pub finder_info: Option<Seq<u8>>,
    pub posix_permissions: Option<u32>,
    pub posix_uid: Option<u32>,
    pub posix_gid: Option<u32>,
    pub mtime_1601: Option<u64>,
    pub ctime_1601: Option<u64>,
    pub comment: Option<Seq<u8>>,
    pub fork: Option<ForkExtract>,
}

/// The entry for a node without a fork.
pub open spec fn plain_entry(n: NodeView) -> EntryView {
    EntryView {
        name: match n.path {
            Some(p) => p,
            None => seq![],
        },
        is_directory: n.is_directory,
        is_resource_fork: false,
        is_link: n.is_link,
        size: 0,
        compressed_size: 0,
        compression_name: seq![],
        finder_info: n.finder_info,
        posix_permissions: n.posix_permissions,
        posix_uid: n.posix_uid,
        posix_gid: n.posix_gid,
        mtime_1601: n.mtime_1601,
        ctime_1601: n.ctime_1601,
        comment: n.comment,
        fork: None,
    }
}

/// A fork of a stream: the nodes that share it, its type and its length.
pub struct ForkView {
    pub entries: Seq<i64>,
    pub typ: u64,
    pub length: u64,
}

/// What has been read so far: the nodes, the forks of each stream, the nodes that
/// have forks, as long as no stream has come, the entries, and how many deflated
/// catalogs there were.
pub struct ParserState {
    pub nodes: Seq<NodeView>,
    pub streams: Map<i64, Seq<Option<ForkView>>>,
    pub forked: Option<Set<i64>>,
    pub output: Seq<EntryView>,
    pub inflated: nat,
}

pub open spec fn nothing_read() -> ParserState {
    ParserState {
        nodes: seq![],
        streams: Map::empty(),
        forked: Some(Set::empty()),
        output: seq![],
        inflated: 0,
    }
}

/// What is needed besides the archive: the dictionary for English text, and what
/// inflating the deflated streams has given, in the order in which they come up.
pub struct AidsView {
    pub dictionary: Option<Seq<u8>>,
    pub inflated: Seq<Result<Seq<u8>, ErrorKind>>,
}

impl AidsView {
    /// What inflating stream number `i` has given, if it has been done.
    pub open spec fn inflated_at(self, i: nat) -> Option<Result<Seq<u8>, ErrorKind>> {
        if i < self.inflated.len() {
            Some(self.inflated[i as int])
        } else {
            None
        }
    }
}

// === forks ====================================================================

/// The forks of a stream with one more for slot `index`. Slots may be left open;
/// a fork that is there already is shared, and must be as long.
pub open spec fn fork_placed(forks: Seq<Option<ForkView>>, index: nat, fork: ForkView) -> Result<
    Seq<Option<ForkView>>,
    ErrorKind,
> {
    if index >= forks.len() {
        Ok((forks + Seq::new((index - forks.len()) as nat, |i: int| None::<ForkView>)).push(Some(fork)))
    } else {
        match forks[index as int] {
            None => Ok(forks.update(index as int, Some(fork))),
            Some(f) => if f.length != fork.length {
                Err(ErrorKind::InvalidData)
            } else {
                Ok(forks.update(index as int, Some(ForkView { entries: f.entries + fork.entries, ..f })))
            },
        }
    }
}

/// The forks of stream `id`.
pub open spec fn forks_of(streams: Map<i64, Seq<Option<ForkView>>>, id: i64) -> Seq<Option<ForkView>> {
    if streams.contains_key(id) {
        streams[id]
    } else {
        seq![]
    }
}

/// What a fork element of type `typ` adds.
#[verifier::opaque]
pub open spec fn fork_added(p: ParserState, el: ElementView, typ: u64) -> Result<ParserState, ErrorKind> {
    let entry = el.attribs[1];
    let stream = el.attribs[2];
    let index = el.attribs[3];
    let length = el.attribs[4];
    if length < 0 || index < 0 || index > usize::MAX {
        Err(ErrorKind::InvalidData)
    } else {
        let fork = ForkView { entries: seq![entry], typ, length: length as u64 };
        match fork_placed(forks_of(p.streams, stream), index as nat, fork) {
            Err(e) => Err(e),
            Ok(forks) => Ok(
                ParserState {
                    streams: p.streams.insert(stream, forks),
                    forked: match p.forked {
                        Some(s) => Some(s.insert(entry)),
                        None => None,
                    },
                    ..p
                },
            ),
        }
    }
}

/// The state after a fork element that is refused: the node counts as one that has a fork.
pub open spec fn fork_refused(p: ParserState, el: ElementView) -> ParserState {
    ParserState {
        forked: match p.forked {
            Some(s) => Some(s.insert(el.attribs[1])),
            None => None,
        },
        ..p
    }
}

/// The length of the forks from number `i` on together, if none is missing.
pub open spec fn total_from(forks: Seq<Option<ForkView>>, i: int) -> Option<nat>
    decreases forks.len() - i,
{
    if i >= forks.len() {
        Some(0)
    } else {
        match (forks[i], total_from(forks, i + 1)) {
            (Some(f), Some(n)) => Some(f.length as nat + n),
            _ => None,
        }
    }
}

/// The entries for the nodes from number `i` on that have no fork, behind those in
/// `found`.
pub open spec fn forkless_from(nodes: Seq<NodeView>, forked: Set<i64>, i: int, found: Seq<EntryView>) -> Seq<EntryView>
    decreases nodes.len() - i,
{
    if i >= nodes.len() {
        found
    } else if forked.contains(nodes[i].id) {
        forkless_from(nodes, forked, i + 1, found)
    } else {
        forkless_from(nodes, forked, i + 1, found.push(plain_entry(nodes[i])))
    }
}

/// What the entries of a stream have in common: how it was packed, under what name,
/// and its size with and without packing.
pub struct Packing {
    pub stream: StreamDescriptor,
    pub name: Seq<char>,
    pub packed: u64,
    pub unpacked: u64,
}

/// The share of a fork in the size of the packed stream.
pub open spec fn packed_share(length: u64, packed: u64, unpacked: u64) -> u64 {
    if unpacked == 0 {
        0
    } else {
        (((length * packed) / (unpacked as int)) % 0x1_0000_0000_0000_0000) as u64
    }
}

/// The entry for a fork of a node.
pub open spec fn fork_entry(n: NodeView, f: ForkView, offset: u64, w: Packing) -> EntryView {
    EntryView {
        is_resource_fork: f.typ == 1,
        size: f.length,
        compressed_size: packed_share(f.length, w.packed, w.unpacked),
        compression_name: w.name,
        fork: Some(ForkExtract { stream: w.stream, solid_offset: offset, length: f.length }),
        ..plain_entry(n)
    }
}

/// The entries for the nodes from number `j` on that share a fork, behind those in
/// `found`.
pub open spec fn sharers_from(
    nodes: Seq<NodeView>,
    f: ForkView,
    j: int,
    offset: u64,
    w: Packing,
    found: Seq<EntryView>,
) -> Result<Seq<EntryView>, ErrorKind>
    decreases f.entries.len() - j,
{
    if j >= f.entries.len() {
        Ok(found)
    } else {
        match last_with(nodes, f.entries[j]) {
            None => Err(ErrorKind::InvalidData),
            Some(k) => sharers_from(nodes, f, j + 1, offset, w, found.push(fork_entry(nodes[k], f, offset, w))),
        }
    }
}

/// The same up to the first node that there is not.
pub open spec fn sharers_left(
    nodes: Seq<NodeView>,
    f: ForkView,
    j: int,
    offset: u64,
    w: Packing,
    found: Seq<EntryView>,
) -> Seq<EntryView>
    decreases f.entries.len() - j,
{
    if j >= f.entries.len() {
        found
    } else {
        match last_with(nodes, f.entries[j]) {
            None => found,
            Some(k) => sharers_left(nodes, f, j + 1, offset, w, found.push(fork_entry(nodes[k], f, offset, w))),
        }
    }
}

/// The entries for the forks from number `i` on, behind those in `found`; only data
/// and resource forks have any.
pub open spec fn forks_from(
    nodes: Seq<NodeView>,
    forks: Seq<Option<ForkView>>,
    i: int,
    offset: int,
    w: Packing,
    found: Seq<EntryView>,
) -> Result<Seq<EntryView>, ErrorKind>
    decreases forks.len() - i,
{
    if i >= forks.len() {
        Ok(found)
    } else {
        match forks[i] {
            None => Err(ErrorKind::InvalidData),
            Some(f) => if f.typ > 1 {
                forks_from(nodes, forks, i + 1, offset + f.length, w, found)
            } else {
                match sharers_from(nodes, f, 0, offset as u64, w, found) {
                    Err(e) => Err(e),
                    Ok(more) => forks_from(nodes, forks, i + 1, offset + f.length, w, more),
                }
            },
        }
    }
}

/// The same up to the first node that there is not.
pub open spec fn forks_left(
    nodes: Seq<NodeView>,
    forks: Seq<Option<ForkView>>,
    i: int,
    offset: int,
    w: Packing,
    found: Seq<EntryView>,
) -> Seq<EntryView>
    decreases forks.len() - i,
{
    if i >= forks.len() {
        found
    } else {
        match forks[i] {
            None => found,
            Some(f) => if f.typ > 1 {
                forks_left(nodes, forks, i + 1, offset + f.length, w, found)
            } else {
                match sharers_from(nodes, f, 0, offset as u64, w, found) {
                    Err(e) => sharers_left(nodes, f, 0, offset as u64, w, found),
                    Ok(more) => forks_left(nodes, forks, i + 1, offset + f.length, w, more),
                }
            },
        }
    }
}

/// The stream of an element.
pub open spec fn stream_of(el: ElementView, size: u64, crc: u32) -> StreamDescriptor {
    StreamDescriptor {
        dataoffset: el.dataoffset as usize,
        compression: el.algs[0],
        checksum: el.algs[1],
        preprocess: el.algs[2],
        crypto: el.algs[3],
        actualsize: size,
        datacrc: crc,
    }
}

/// A size that an attribute gives; one that is absent is 0.
pub open spec fn size_in(v: i64) -> u64 {
    if v < 0 {
        0
    } else {
        v as u64
    }
}

/// What the entries of the stream of an element have in common, the forks being `size`
/// bytes long together and the data ending at `end`.
pub open spec fn packing_of(el: ElementView, size: u64, crc: u32, end: int) -> Packing {
    Packing {
        stream: stream_of(el, size, crc),
        name: name_of(el.algs[0], el.algs[2]),
        packed: (byte_pos(end) - el.dataoffset) as u64,
        unpacked: size_in(el.attribs[4]),
    }
}

/// What a data element adds whose data has the checksum `crc` and ends at `end`: its
/// forks, and before the first of all streams the nodes without any.
#[verifier::opaque]
pub open spec fn data_added(p: ParserState, el: ElementView, crc: u32, end: int) -> Result<ParserState, ErrorKind> {
    let forks = forks_of(p.streams, el.attribs[0]);
    match total_from(forks, 0) {
        None => Err(ErrorKind::InvalidData),
        Some(total) => if total > u64::MAX {
            Err(ErrorKind::InvalidData)
        } else {
            let before = match p.forked {
                Some(s) => forkless_from(p.nodes, s, 0, p.output),
                None => p.output,
            };
            match forks_from(p.nodes, forks, 0, 0, packing_of(el, total as u64, crc, end), before) {
                Err(e) => Err(e),
                Ok(output) => Ok(ParserState { output, forked: None, ..p }),
            }
        },
    }
}

/// The state after a data element that is refused: unless a fork is missing, what comes
/// before the first node that there is not is listed.
#[verifier::opaque]
pub open spec fn data_refused(p: ParserState, el: ElementView, crc: u32, end: int) -> ParserState {
    let forks = forks_of(p.streams, el.attribs[0]);
    match total_from(forks, 0) {
        None => p,
        Some(total) => if total > u64::MAX {
            p
        } else {
            let before = match p.forked {
                Some(s) => forkless_from(p.nodes, s, 0, p.output),
                None => p.output,
            };
            let w = packing_of(el, total as u64, crc, end);
            ParserState { output: forks_left(p.nodes, forks, 0, 0, w, before), forked: None, ..p }
        },
    }
}

// === elements =================================================================

/// What an element leads to: the state after it and the position, or a deflated
/// catalog that has to be inflated first.
pub enum Next {
    Parsed(ParserState, int),
    Deflated(Seq<u8>, nat),
}

/// What a catalog element adds.
#[verifier::opaque]
pub open spec fn catalog_added(data: Seq<u8>, p: ParserState, el: ElementView, crc: u32, end: int, aids: AidsView) -> Result<
    Next,
    ErrorKind,
> {
    let desc = stream_of(el, size_in(el.attribs[4]), crc);
    match stream_content(data, desc, false, aids.dictionary, aids.inflated_at(p.inflated)) {
        Err(e) => Err(e),
        Ok(Content::Deflated(body, n)) => Ok(Next::Deflated(body, n)),
        Ok(Content::Bytes(catalog)) => match catalog_applied(catalog, 0, p.nodes, 0, p.nodes.len() as int) {
            Err(e) => Err(e),
            Ok(nodes) => Ok(
                Next::Parsed(
                    ParserState {
                        nodes,
                        inflated: if desc.compression == 3 {
                            p.inflated + 1
                        } else {
                            p.inflated
                        },
                        ..p
                    },
                    end,
                ),
            ),
        },
    }
}

/// The state after a catalog element that is refused: what the catalog says before it is
/// cut short is kept.
#[verifier::opaque]
pub open spec fn catalog_refused(data: Seq<u8>, p: ParserState, el: ElementView, crc: u32, aids: AidsView) -> ParserState {
    let desc = stream_of(el, size_in(el.attribs[4]), crc);
    match stream_content(data, desc, false, aids.dictionary, aids.inflated_at(p.inflated)) {
        Ok(Content::Bytes(catalog)) => ParserState {
            nodes: catalog_left(catalog, 0, p.nodes, 0, p.nodes.len() as int),
            ..p
        },
        _ => p,
    }
}

/// What an element adds whose head ends at `q`.
#[verifier::opaque]
pub open spec fn element_applied(data: Seq<u8>, q: int, el: ElementView, p: ParserState, aids: AidsView) -> Result<
    Next,
    ErrorKind,
> {
    if el.typ == 1 {
        match scanned(data, el.dataoffset) {
            Err(e) => Err(e),
            Ok((crc, q1)) => match data_added(p, el, noted(crc, 0), q1) {
                Err(e) => Err(e),
                Ok(p1) => Ok(Next::Parsed(p1, q1)),
            },
        }
    } else if el.typ == 2 || el.typ == 4 {
        Ok(
            Next::Parsed(
                ParserState { nodes: p.nodes.push(bare_node(el.attribs[0], el.attribs[1], el.typ == 4)), ..p },
                q,
            ),
        )
    } else if el.typ == 3 {
        match p2_at(data, q) {
            Err(e) => Err(e),
            Ok((typ, q1)) => match fork_added(p, el, typ) {
                Err(e) => Err(e),
                Ok(p1) => Ok(Next::Parsed(p1, q1)),
            },
        }
    } else if el.typ == 5 {
        match scanned(data, el.dataoffset) {
            Err(e) => Err(e),
            Ok((crc, q1)) => catalog_added(data, p, el, noted(crc, 0), q1, aids),
        }
    } else if el.typ == 6 {
        match raw_at(data, q, size_in(el.attribs[4]) as int) {
            Err(e) => Err(e),
            Ok((_s, q1)) => Ok(Next::Parsed(p, q1)),
        }
    } else if el.typ == 7 {
        match p2_at(data, q) {
            Err(e) => Err(e),
            Ok((_v, q1)) => Ok(Next::Parsed(p, q1)),
        }
    } else if el.typ == 8 || el.typ == 9 {
        Ok(Next::Parsed(p, q))
    } else if el.typ == 10 {
        Err(ErrorKind::Unsupported)
    } else {
        match scanned(data, el.dataoffset) {
            Err(e) => Err(e),
            Ok((_crc, q1)) => Ok(Next::Parsed(p, q1)),
        }
    }
}

/// The state after an element that is refused or has to wait.
#[verifier::opaque]
pub open spec fn element_refused(data: Seq<u8>, q: int, el: ElementView, p: ParserState, aids: AidsView) -> ParserState {
    if el.typ == 1 {
        match scanned(data, el.dataoffset) {
            Err(e) => p,
            Ok((crc, q1)) => data_refused(p, el, noted(crc, 0), q1),
        }
    } else if el.typ == 3 {
        match p2_at(data, q) {
            Err(e) => p,
            Ok(_) => fork_refused(p, el),
        }
    } else if el.typ == 5 {
        match scanned(data, el.dataoffset) {
            Err(e) => p,
            Ok((crc, q1)) => catalog_refused(data, p, el, noted(crc, 0), aids),
        }
    } else {
        p
    }
}

/// Where a reader is left by an element whose head ends at `q`, be it refused or not, and
/// which bits it then holds back.
#[verifier::opaque]
pub open spec fn element_stop(data: Seq<u8>, q: int, el: ElementView) -> (int, int) {
    if el.typ == 1 || el.typ == 5 || el.typ > 10 {
        scan_stop(data, el.dataoffset, q, 0).0
    } else if el.typ == 3 || el.typ == 7 {
        match p2_at(data, q) {
            Err(e) => run_out(data, q, q),
            Ok((_v, q1)) => (q1, q1),
        }
    } else if el.typ == 6 {
        match raw_at(data, q, size_in(el.attribs[4]) as int) {
            Err(e) => (q, q),
            Ok((_s, q1)) => (q1, q),
        }
    } else {
        (q, q)
    }
}

/// An element ends within the archive, and no earlier than its head.
pub(crate) proof fn application_moves(data: Seq<u8>, q: int, el: ElementView, p: ParserState, aids: AidsView)
    requires
        el.dataoffset == byte_pos(q),
        0 <= q <= 8 * data.len(),
    ensures
        element_applied(data, q, el, p, aids) matches Ok(Next::Parsed(p1, q1)) ==> q <= q1 <= 8 * data.len(),
{
    reveal(element_applied);
    reveal(catalog_added);
    scan_moves(data, el.dataoffset);
    p2_advances(data, q);
}

/// What an archive holds, or a deflated catalog that has to be inflated first.
pub enum Outcome {
    Entries(Seq<EntryView>),
    Deflated(Seq<u8>, nat),
}

/// What the elements from `q` on make of the state `p`. With it comes whether an
/// unknown slot has come up.
pub open spec fn elements_from(data: Seq<u8>, q: int, p: ParserState, aids: AidsView, unknown: bool) -> (
    Result<Outcome, ErrorKind>,
    bool,
)
    decreases 8 * data.len() - q,
        when q >= 0
        via elements_advance
{
    match element_at(data, q, unknown) {
        (Err(e), u) => (Err(e), u),
        (Ok((el, q1)), u) => if el.typ == 0 {
            (Ok(Outcome::Entries(p.output)), u)
        } else {
            match element_applied(data, q1, el, p, aids) {
                Err(e) => (Err(e), u),
                Ok(Next::Deflated(body, n)) => (Ok(Outcome::Deflated(body, n)), u),
                Ok(Next::Parsed(p1, q2)) => elements_from(data, 8 * byte_pos(q2), p1, aids, u),
            }
        },
    }
}

#[via_fn]
proof fn elements_advance(data: Seq<u8>, q: int, p: ParserState, aids: AidsView, unknown: bool) {
    if q >= 0 {
        element_moves(data, q, unknown);
        match element_at(data, q, unknown) {
            (Err(e), u) => {},
            (Ok((el, q1)), u) => {
                application_moves(data, q1, el, p, aids);
            },
        }
    }
}

/// The state after the elements from `q` on, the position where a reader that holds back
/// the bits at `held` is left, and the bits that it then holds back, whether the elements
/// come to their end or not.
pub open spec fn elements_end(data: Seq<u8>, q: int, held: int, p: ParserState, aids: AidsView, unknown: bool) -> (
    ParserState,
    (int, int),
)
    decreases 8 * data.len() - q,
        when q >= 0
        via elements_end_advances
{
    match element_at(data, q, unknown) {
        (Err(e), u) => (p, run_out(data, q, held)),
        (Ok((el, q1)), u) => if el.typ == 0 {
            (p, (q1, q1))
        } else {
            match element_applied(data, q1, el, p, aids) {
                Ok(Next::Parsed(p1, q2)) => elements_end(
                    data,
                    8 * byte_pos(q2),
                    8 * byte_pos(element_stop(data, q1, el).1),
                    p1,
                    aids,
                    u,
                ),
                _ => (element_refused(data, q1, el, p, aids), element_stop(data, q1, el)),
            }
        },
    }
}

#[via_fn]
proof fn elements_end_advances(data: Seq<u8>, q: int, held: int, p: ParserState, aids: AidsView, unknown: bool) {
    if q >= 0 {
        element_moves(data, q, unknown);
        match element_at(data, q, unknown) {
            (Err(e), u) => {},
            (Ok((el, q1)), u) => {
                application_moves(data, q1, el, p, aids);
            },
        }
    }
}

/// The banner of an archive: `StuffIt!`, or `StuffIt?` for one that is encoded as
/// text.
pub open spec fn is_sitx(data: Seq<u8>) -> bool {
    &&& data.len() >= 8
    &&& data.subrange(0, 7) == seq![0x53u8, 0x74, 0x75, 0x66, 0x66, 0x49, 0x74]
    &&& data[7] == 0x21 || data[7] == 0x3f
}

/// The archive ends too early after an unknown slot has come up, as one does that
/// holds recovery records.
pub open spec fn is_recovery(data: Seq<u8>, aids: AidsView) -> bool {
    &&& is_sitx(data)
    &&& data[7] != 0x3f
    &&& elements_from(data, 64, nothing_read(), aids, false) == (
        Err::<Outcome, ErrorKind>(ErrorKind::UnexpectedEof),
        true,
    )
}

/// What an archive holds. One that ends too early after an unknown slot has come up
/// is of a kind that is not supported.
pub open spec fn outcome_of(data: Seq<u8>, aids: AidsView) -> Result<Outcome, ErrorKind> {
    if !is_sitx(data) {
        Err(ErrorKind::InvalidData)
    } else if data[7] == 0x3f {
        Err(ErrorKind::Unsupported)
    } else {
        match elements_from(data, 64, nothing_read(), aids, false) {
            (Err(e), u) => if e == ErrorKind::UnexpectedEof && u {
                Err(ErrorKind::Unsupported)
            } else {
                Err(e)
            },
            (Ok(o), u) => Ok(o),
        }
    }
}

// === entries ==================================================================

/// One directory, empty file or fork.
pub struct SitxEntry {
    name: Vec<u8>,
    is_directory: bool,
    is_resource_fork: bool,
    is_link: bool,
    size: u64,
    compressed_size: u64,
    compression_name: String,
    finder_info: Option<[u8; 32]>,
    posix_permissions: Option<u32>,
    posix_uid: Option<u32>,
    posix_gid: Option<u32>,
    mtime_1601: Option<u64>,
    ctime_1601: Option<u64>,
    comment: Option<Vec<u8>>,
    fork: Option<ForkExtract>,
}

impl SitxEntry {
    pub closed spec fn view(&self) -> EntryView {
        EntryView {
            name: self.name@,
            is_directory: self.is_directory,
            is_resource_fork: self.is_resource_fork,
            is_link: self.is_link,
            size: self.size,
            compressed_size: self.compressed_size,
            compression_name: self.compression_name@,
            finder_info: info_held(self.finder_info),
            posix_permissions: self.posix_permissions,
            posix_uid: self.posix_uid,
            posix_gid: self.posix_gid,
            mtime_1601: self.mtime_1601,
            ctime_1601: self.ctime_1601,
            comment: bytes_held(self.comment),
            fork: self.fork,
        }
    }

    /// The path from the root of the archive, joined with `/`.
    pub fn name(&self) -> (r: &[u8])
        ensures
            r@ == self.view().name,
    {
        self.name.as_slice()
    }

    /// The length of the fork; 0 for directories and empty files.
    pub fn size(&self) -> (r: u64)
        ensures
            r == self.view().size,
    {
        self.size
    }

    /// The share of the fork in the size of its packed stream.
    pub fn compressed_size(&self) -> (r: u64)
        ensures
            r == self.view().compressed_size,
    {
        self.compressed_size
    }

    pub fn is_directory(&self) -> (r: bool)
        ensures
            r == self.view().is_directory,
    {
        self.is_directory
    }

    pub fn is_resource_fork(&self) -> (r: bool)
        ensures
            r == self.view().is_resource_fork,
    {
        self.is_resource_fork
    }

    /// Whether this is a symbolic link.
    pub fn is_link(&self) -> (r: bool)
        ensures
            r == self.view().is_link,
    {
        self.is_link
    }

    /// The name of the way the fork was packed.
    pub fn compression_name(&self) -> (r: &str)
        ensures
            r@ == self.view().compression_name,
    {
        self.compression_name.as_str()
    }

    pub fn finder_info(&self) -> (r: Option<&[u8; 32]>)
        ensures
            match r {
                Some(v) => self.view().finder_info == Some(v@),
                None => self.view().finder_info is None,
            },
    {
        match &self.finder_info {
            Some(v) => Some(v),
            None => None,
        }
    }

    pub fn posix_permissions(&self) -> (r: Option<u32>)
        ensures
            r == self.view().posix_permissions,
    {
        self.posix_permissions
    }

    pub fn posix_uid(&self) -> (r: Option<u32>)
        ensures
            r == self.view().posix_uid,
    {
        self.posix_uid
    }

    pub fn posix_gid(&self) -> (r: Option<u32>)
        ensures
            r == self.view().posix_gid,
    {
        self.posix_gid
    }

    /// The time of the last change, in units of 100 ns since 1601.
    pub fn modification_filetime(&self) -> (r: Option<u64>)
        ensures
            r == self.view().mtime_1601,
    {
        self.mtime_1601
    }

    /// The time of creation, in units of 100 ns since 1601.
    pub fn creation_filetime(&self) -> (r: Option<u64>)
        ensures
            r == self.view().ctime_1601,
    {
        self.ctime_1601
    }

    pub fn comment(&self) -> (r: Option<&[u8]>)
        ensures
            match r {
                Some(v) => self.view().comment == Some(v@),
                None => self.view().comment is None,
            },
    {
        match &self.comment {
            Some(v) => Some(v.as_slice()),
            None => None,
        }
    }
}

pub open spec fn entry_views(v: Seq<SitxEntry>) -> Seq<EntryView> {
    Seq::new(v.len(), |i: int| v[i].view())
}

fn copy_bytes(v: &Option<Vec<u8>>) -> (r: Option<Vec<u8>>)
    ensures
        bytes_held(r) == bytes_held(*v),
{
    match v {
        Some(b) => Some(slice_to_vec(b.as_slice())),
        None => None,
    }
}

/// The entry for a node without a fork.
fn snapshot(b: &EntryBuilder) -> (r: SitxEntry)
    ensures
        r.view() == plain_entry(b.view()),
{
    let name: Vec<u8> = match &b.path {
        Some(p) => slice_to_vec(p.as_slice()),
        None => Vec::new(),
    };
    let r = SitxEntry {
        name,
        is_directory: b.is_directory,
        is_resource_fork: false,
        is_link: b.is_link,
        size: 0,
        compressed_size: 0,
        compression_name: String::new(),
        finder_info: b.finder_info,
        posix_permissions: b.posix_permissions,
        posix_uid: b.posix_uid,
        posix_gid: b.posix_gid,
        mtime_1601: b.mtime_1601,
        ctime_1601: b.ctime_1601,
        comment: copy_bytes(&b.comment),
        fork: None,
    };
    assert(r.compression_name@ =~= seq![]);
    assert(r.view().name =~= plain_entry(b.view()).name);
    r
}

// === the parser ===============================================================

/// A fork of a stream.
pub struct Fork {
    pub entries: Vec<i64>,
    pub typ: u64,
    pub length: u64,
}

impl Fork {
    pub open spec fn view(&self) -> ForkView {
        ForkView { entries: self.entries@, typ: self.typ, length: self.length }
    }
}

pub open spec fn slot_view(f: Option<Fork>) -> Option<ForkView> {
    match f {
        Some(f) => Some(f.view()),
        None => None,
    }
}

pub open spec fn slot_views(v: Seq<Option<Fork>>) -> Seq<Option<ForkView>> {
    Seq::new(v.len(), |i: int| slot_view(v[i]))
}

pub open spec fn stream_views(m: Map<i64, Vec<Option<Fork>>>) -> Map<i64, Seq<Option<ForkView>>> {
    m.map_values(|v: Vec<Option<Fork>>| slot_views(v@))
}

/// What has been read so far.
struct Parser {
    entries: Vec<EntryBuilder>,
    entrydict: HashMap<i64, usize>,
    streamforks: HashMap<i64, Vec<Option<Fork>>>,
    forkedset: Option<HashSet<i64>>,
    output: Vec<SitxEntry>,
    inflated: usize,
}

impl Parser {
    spec fn view(&self) -> ParserState {
        ParserState {
            nodes: node_views(self.entries@),
            streams: stream_views(self.streamforks@),
            forked: match self.forkedset {
                Some(s) => Some(s@),
                None => None,
            },
            output: entry_views(self.output@),
            inflated: self.inflated as nat,
        }
    }

    spec fn wf(&self) -> bool {
        index_right(self.entrydict@, node_views(self.entries@))
    }

    fn new() -> (r: Self)
        ensures
            r.wf(),
            r.view() == nothing_read(),
    {
        broadcast use vstd::std_specs::hash::group_hash_axioms;

        let r = Parser {
            entries: Vec::new(),
            entrydict: HashMap::new(),
            streamforks: HashMap::new(),
            forkedset: Some(HashSet::new()),
            output: Vec::new(),
            inflated: 0,
        };
        assert(r.view().nodes =~= seq![]);
        assert(r.view().output =~= seq![]);
        assert(r.view().streams =~= Map::empty());
        assert(r.view().forked->Some_0 =~= Set::empty());
        r
    }

    /// Add a node of which only its place is known.
    fn add_node(&mut self, id: i64, parent: i64, is_directory: bool)
        requires
            old(self).wf(),
        ensures
            final(self).wf(),
            final(self).view() == (ParserState {
                nodes: old(self).view().nodes.push(bare_node(id, parent, is_directory)),
                ..old(self).view()
            }),
    {
        broadcast use vstd::std_specs::hash::group_hash_axioms;

        let idx: usize = self.entries.len();
        self.entries.push(EntryBuilder::new(id, parent, is_directory));
        self.entrydict.insert(id, idx);
        proof {
            let nodes = old(self).view().nodes;
            let n = bare_node(id, parent, is_directory);
            assert(self.view().nodes =~= nodes.push(n));
            assert forall|k: i64| #[trigger]
                last_with(nodes.push(n), k) == (if self.entrydict@.contains_key(k) {
                    Some(self.entrydict@[k] as int)
                } else {
                    None
                }) by {
                last_with_push(nodes, n, k);
                assert(last_with(nodes, k) == (if old(self).entrydict@.contains_key(k) {
                    Some(old(self).entrydict@[k] as int)
                } else {
                    None
                }));
            }
        }
    }
}

/// Put a fork into its slot.
fn place_fork(forks: &mut Vec<Option<Fork>>, index: usize, entry: i64, typ: u64, length: u64) -> (r: Result<
    (),
    ErrorKind,
>)
    ensures
        match r {
            Ok(_) => fork_placed(
                slot_views(old(forks)@),
                index as nat,
                ForkView { entries: seq![entry], typ, length },
            ) == Ok::<Seq<Option<ForkView>>, ErrorKind>(slot_views(final(forks)@)),
            Err(e) => fork_placed(
                slot_views(old(forks)@),
                index as nat,
                ForkView { entries: seq![entry], typ, length },
            ) == Err::<Seq<Option<ForkView>>, ErrorKind>(e) && slot_views(final(forks)@) == slot_views(old(forks)@),
        },
{
    let ghost before = slot_views(forks@);
    let ghost fork = ForkView { entries: seq![entry], typ, length };
    if index >= forks.len() {
        while forks.len() < index
            invariant
                old(forks)@.len() <= forks@.len() <= index,
                forall|i: int| 0 <= i < old(forks)@.len() ==> forks@[i] == old(forks)@[i],
                forall|i: int| old(forks)@.len() <= i < forks@.len() ==> forks@[i] is None,
            decreases index - forks@.len(),
        {
            forks.push(None);
        }
        forks.push(Some(Fork { entries: vec![entry], typ, length }));
        proof {
            let last = forks@[index as int]->Some_0;
            assert(last.entries@ =~= seq![entry]);
            assert(slot_views(forks@) =~= (before + Seq::new(
                (index - before.len()) as nat,
                |i: int| None::<ForkView>,
            )).push(Some(fork)));
        }
        return Ok(());
    }
    let mut shared: bool = false;
    let mut refused: bool = false;
    match &mut forks[index] {
        None => {},
        Some(f) => {
            if f.length == length {
                f.entries.push(entry);
                shared = true;
            } else {
                refused = true;
            }
        },
    }
    if refused {
        assert(slot_views(forks@) =~= before);
        return Err(ErrorKind::InvalidData);
    }
    if !shared {
        forks.set(index, Some(Fork { entries: vec![entry], typ, length }));
    }
    proof {
        let now = forks@[index as int]->Some_0;
        match before[index as int] {
            None => {
                assert(now.entries@ =~= seq![entry]);
                assert(slot_views(forks@) =~= before.update(index as int, Some(fork)));
            },
            Some(f) => {
                assert(now.entries@ =~= f.entries + seq![entry]);
                assert(slot_views(forks@) =~= before.update(
                    index as int,
                    Some(ForkView { entries: f.entries + fork.entries, ..f }),
                ));
            },
        }
    }
    Ok(())
}

proof fn stream_views_insert(m: Map<i64, Vec<Option<Fork>>>, k: i64, v: Vec<Option<Fork>>)
    ensures
        stream_views(m.remove(k).insert(k, v)) == stream_views(m).insert(k, slot_views(v@)),
        stream_views(m.insert(k, v)) == stream_views(m).insert(k, slot_views(v@)),
{
    assert(stream_views(m.remove(k).insert(k, v)) =~= stream_views(m).insert(k, slot_views(v@)));
    assert(stream_views(m.insert(k, v)) =~= stream_views(m).insert(k, slot_views(v@)));
}

/// Add the fork of an element.
fn handle_fork(p: &mut Parser, el: &Element, typ: u64) -> (r: Result<(), ErrorKind>)
    requires
        old(p).wf(),
        el.attribs@.len() == 10,
    ensures
        final(p).wf(),
        match r {
            Ok(_) => fork_added(old(p).view(), el.view(), typ) == Ok::<ParserState, ErrorKind>(final(p).view()),
            Err(e) => {
                &&& fork_added(old(p).view(), el.view(), typ) == Err::<ParserState, ErrorKind>(e)
                &&& final(p).view() == fork_refused(old(p).view(), el.view())
            },
        },
{
    broadcast use vstd::std_specs::hash::group_hash_axioms;

    reveal(fork_added);
    let entry: i64 = el.attribs[1];
    let stream: i64 = el.attribs[2];
    let index: i64 = el.attribs[3];
    let length: i64 = el.attribs[4];
    match &mut p.forkedset {
        Some(s) => {
            s.insert(entry);
        },
        None => {},
    }
    if length < 0 || index < 0 || index as u64 > usize::MAX as u64 {
        return Err(ErrorKind::InvalidData);
    }
    let mut forks: Vec<Option<Fork>> = match p.streamforks.remove(&stream) {
        Some(v) => v,
        None => Vec::new(),
    };
    assert(slot_views(forks@) =~= forks_of(old(p).view().streams, stream));
    let r: Result<(), ErrorKind> = place_fork(&mut forks, index as usize, entry, typ, length as u64);
    proof {
        stream_views_insert(old(p).streamforks@, stream, forks);
        if r is Err {
            let streams = old(p).view().streams;
            assert(streams.contains_key(stream));
            assert(streams.insert(stream, slot_views(forks@)) =~= streams);
        }
    }
    p.streamforks.insert(stream, forks);
    r
}

/// The length of the forks together.
fn total_length(forks: &Vec<Option<Fork>>) -> (r: Option<u64>)
    ensures
        match r {
            Some(n) => total_from(slot_views(forks@), 0) == Some(n as nat),
            None => match total_from(slot_views(forks@), 0) {
                Some(n) => n > u64::MAX,
                None => true,
            },
        },
{
    let ghost views = slot_views(forks@);
    let mut total: u64 = 0;
    let mut i: usize = 0;
    while i < forks.len()
        invariant
            i <= forks@.len(),
            views == slot_views(forks@),
            total_from(views, 0) == (match total_from(views, i as int) {
                Some(n) => Some(total as nat + n),
                None => None,
            }),
        decreases forks@.len() - i,
    {
        assert(views[i as int] == slot_view(forks@[i as int]));
        match &forks[i] {
            None => {
                return None;
            },
            Some(f) => {
                if f.length > u64::MAX - total {
                    return None;
                }
                total = total + f.length;
            },
        }
        i = i + 1;
    }
    Some(total)
}

/// Add the entries for the nodes without a fork.
fn emit_forkless(entries: &Vec<EntryBuilder>, forked: &HashSet<i64>, output: &mut Vec<SitxEntry>)
    ensures
        entry_views(final(output)@) == forkless_from(
            node_views(entries@),
            forked@,
            0,
            entry_views(old(output)@),
        ),
{
    broadcast use vstd::std_specs::hash::group_hash_axioms;

    let ghost nodes = node_views(entries@);
    let mut i: usize = 0;
    while i < entries.len()
        invariant
            i <= entries@.len(),
            nodes == node_views(entries@),
            forkless_from(nodes, forked@, i as int, entry_views(output@)) == forkless_from(
                nodes,
                forked@,
                0,
                entry_views(old(output)@),
            ),
        decreases entries@.len() - i,
    {
        let ghost before = entry_views(output@);
        assert(nodes[i as int] == entries@[i as int].view());
        if !forked.contains(&entries[i].id) {
            output.push(snapshot(&entries[i]));
            assert(entry_views(output@) =~= before.push(plain_entry(nodes[i as int])));
        }
        i = i + 1;
    }
}

/// What the entries of a stream have in common.
struct Wrapping {
    stream: StreamDescriptor,
    name: String,
    packed: u64,
    unpacked: u64,
}

impl Wrapping {
    spec fn view(&self) -> Packing {
        Packing { stream: self.stream, name: self.name@, packed: self.packed, unpacked: self.unpacked }
    }
}

fn share_of(length: u64, packed: u64, unpacked: u64) -> (r: u64)
    ensures
        r == packed_share(length, packed, unpacked),
{
    if unpacked == 0 {
        return 0;
    }
    assert(0 <= length * packed <= 0xffff_ffff_ffff_ffff * 0xffff_ffff_ffff_ffff) by (nonlinear_arith)
        requires 0 <= length <= 0xffff_ffff_ffff_ffff, 0 <= packed <= 0xffff_ffff_ffff_ffff;
    ((length as u128 * packed as u128 / unpacked as u128) % 0x1_0000_0000_0000_0000) as u64
}

/// The entry for a fork of a node.
fn make_fork_entry(b: &EntryBuilder, f: &Fork, offset: u64, w: &Wrapping) -> (r: SitxEntry)
    ensures
        r.view() == fork_entry(b.view(), f.view(), offset, w.view()),
{
    let mut e: SitxEntry = snapshot(b);
    e.is_resource_fork = f.typ == 1;
    e.size = f.length;
    e.compressed_size = share_of(f.length, w.packed, w.unpacked);
    e.compression_name = w.name.clone();
    e.fork = Some(ForkExtract { stream: w.stream, solid_offset: offset, length: f.length });
    e
}

/// Add the entries for the nodes that share a fork.
fn emit_sharers(
    entries: &Vec<EntryBuilder>,
    index: &HashMap<i64, usize>,
    f: &Fork,
    offset: u64,
    w: &Wrapping,
    output: &mut Vec<SitxEntry>,
) -> (r: Result<(), ErrorKind>)
    requires
        index_right(index@, node_views(entries@)),
    ensures
        entry_views(final(output)@) == sharers_left(
            node_views(entries@),
            f.view(),
            0,
            offset,
            w.view(),
            entry_views(old(output)@),
        ),
        match r {
            Ok(_) => sharers_from(
                node_views(entries@),
                f.view(),
                0,
                offset,
                w.view(),
                entry_views(old(output)@),
            ) == Ok::<Seq<EntryView>, ErrorKind>(entry_views(final(output)@)),
            Err(e) => sharers_from(
                node_views(entries@),
                f.view(),
                0,
                offset,
                w.view(),
                entry_views(old(output)@),
            ) == Err::<Seq<EntryView>, ErrorKind>(e),
        },
{
    let ghost nodes = node_views(entries@);
    let mut j: usize = 0;
    while j < f.entries.len()
        invariant
            j <= f.entries@.len(),
            nodes == node_views(entries@),
            index_right(index@, nodes),
            sharers_left(nodes, f.view(), j as int, offset, w.view(), entry_views(output@)) == sharers_left(
                nodes,
                f.view(),
                0,
                offset,
                w.view(),
                entry_views(old(output)@),
            ),
            sharers_from(nodes, f.view(), j as int, offset, w.view(), entry_views(output@)) == sharers_from(
                nodes,
                f.view(),
                0,
                offset,
                w.view(),
                entry_views(old(output)@),
            ),
        decreases f.entries@.len() - j,
    {
        let k: usize = match find_node(index, Ghost(nodes), f.entries[j]) {
            Some(k) => k,
            None => {
                return Err(ErrorKind::InvalidData);
            },
        };
        let ghost before = entry_views(output@);
        output.push(make_fork_entry(&entries[k], f, offset, w));
        assert(nodes[k as int] == entries@[k as int].view());
        assert(entry_views(output@) =~= before.push(fork_entry(nodes[k as int], f.view(), offset, w.view())));
        j = j + 1;
    }
    Ok(())
}

/// Add the entries for the forks of a stream.
fn emit_forks(
    entries: &Vec<EntryBuilder>,
    index: &HashMap<i64, usize>,
    forks: &Vec<Option<Fork>>,
    w: &Wrapping,
    output: &mut Vec<SitxEntry>,
) -> (r: Result<(), ErrorKind>)
    requires
        index_right(index@, node_views(entries@)),
        total_from(slot_views(forks@), 0) is Some,
        total_from(slot_views(forks@), 0)->Some_0 <= u64::MAX,
    ensures
        entry_views(final(output)@) == forks_left(
            node_views(entries@),
            slot_views(forks@),
            0,
            0,
            w.view(),
            entry_views(old(output)@),
        ),
        match r {
            Ok(_) => forks_from(
                node_views(entries@),
                slot_views(forks@),
                0,
                0,
                w.view(),
                entry_views(old(output)@),
            ) == Ok::<Seq<EntryView>, ErrorKind>(entry_views(final(output)@)),
            Err(e) => forks_from(
                node_views(entries@),
                slot_views(forks@),
                0,
                0,
                w.view(),
                entry_views(old(output)@),
            ) == Err::<Seq<EntryView>, ErrorKind>(e),
        },
{
    let ghost nodes = node_views(entries@);
    let ghost views = slot_views(forks@);
    let mut offset: u64 = 0;
    let mut i: usize = 0;
    while i < forks.len()
        invariant
            i <= forks@.len(),
            nodes == node_views(entries@),
            views == slot_views(forks@),
            index_right(index@, nodes),
            total_from(views, i as int) is Some,
            offset + total_from(views, i as int)->Some_0 <= u64::MAX,
            forks_left(nodes, views, i as int, offset as int, w.view(), entry_views(output@)) == forks_left(
                nodes,
                views,
                0,
                0,
                w.view(),
                entry_views(old(output)@),
            ),
            forks_from(nodes, views, i as int, offset as int, w.view(), entry_views(output@)) == forks_from(
                nodes,
                views,
                0,
                0,
                w.view(),
                entry_views(old(output)@),
            ),
        decreases forks@.len() - i,
    {
        assert(views[i as int] == slot_view(forks@[i as int]));
        match &forks[i] {
            None => {
                return Err(ErrorKind::InvalidData);
            },
            Some(f) => {
                if f.typ <= 1 {
                    match emit_sharers(entries, index, f, offset, w, output) {
                        Ok(_) => {},
                        Err(e) => {
                            return Err(e);
                        },
                    }
                }
                offset = offset + f.length;
            },
        }
        i = i + 1;
    }
    Ok(())
}

fn to_size(v: i64) -> (r: u64)
    ensures
        r == size_in(v),
{
    if v < 0 {
        0
    } else {
        v as u64
    }
}

/// Add the entries of a data element whose data ends at byte `end`.
fn handle_data(p: &mut Parser, el: &mut Element, end: usize, at: Ghost<int>) -> (r: Result<(), ErrorKind>)
    requires
        old(p).wf(),
        old(el).attribs@.len() == 10,
        old(el).alglist@.len() == 6,
        end == byte_pos(at@),
        old(el).dataoffset <= end,
    ensures
        final(p).wf(),
        *final(el) == (Element { actualsize: final(el).actualsize, ..*old(el) }),
        final(el).actualsize == (match total_from(forks_of(old(p).view().streams, old(el).attribs@[0]), 0) {
            Some(n) => if n <= u64::MAX {
                n as u64
            } else {
                old(el).actualsize
            },
            None => old(el).actualsize,
        }),
        match r {
            Ok(_) => data_added(old(p).view(), old(el).view(), old(el).datacrc, at@) == Ok::<ParserState, ErrorKind>(
                final(p).view(),
            ),
            Err(e) => {
                &&& data_added(old(p).view(), old(el).view(), old(el).datacrc, at@) == Err::<ParserState, ErrorKind>(e)
                &&& final(p).view() == data_refused(old(p).view(), old(el).view(), old(el).datacrc, at@)
            },
        },
{
    broadcast use vstd::std_specs::hash::group_hash_axioms;

    reveal(data_added);
    reveal(data_refused);
    let id: i64 = el.attribs[0];
    let unpacked: u64 = to_size(el.attribs[4]);
    let none: Vec<Option<Fork>> = Vec::new();
    let forks: &Vec<Option<Fork>> = match p.streamforks.get(&id) {
        Some(v) => v,
        None => &none,
    };
    assert(slot_views(forks@) =~= forks_of(old(p).view().streams, id));
    let total: u64 = match total_length(forks) {
        Some(n) => n,
        None => {
            return Err(ErrorKind::InvalidData);
        },
    };
    el.actualsize = total;
    match p.forkedset.take() {
        Some(forked) => {
            emit_forkless(&p.entries, &forked, &mut p.output);
        },
        None => {},
    }
    let w = Wrapping {
        stream: StreamDescriptor::from_element(el),
        name: method_name(el.alglist[0], el.alglist[2]),
        packed: (end - el.dataoffset) as u64,
        unpacked,
    };
    emit_forks(&p.entries, &p.entrydict, forks, &w, &mut p.output)
}

/// What is needed besides the archive.
pub struct Aids {
    /// The dictionary for English text.
    pub dictionary: Option<Vec<u8>>,
    /// What inflating the deflated streams has given, in the order in which they come up.
    pub inflated: Vec<Result<Vec<u8>, ErrorKind>>,
}

impl Aids {
    pub open spec fn view(&self) -> AidsView {
        AidsView {
            dictionary: bytes_held(self.dictionary),
            inflated: Seq::new(self.inflated@.len(), |i: int| bytes_of(self.inflated@[i])),
        }
    }

    /// Nothing besides the archive.
    pub fn none() -> (r: Self)
        ensures
            r.view() == (AidsView { dictionary: None, inflated: seq![] }),
    {
        let r = Aids { dictionary: None, inflated: Vec::new() };
        assert(r.view().inflated =~= seq![]);
        r
    }

    fn dictionary(&self) -> (r: Option<&Vec<u8>>)
        ensures
            bytes_in(r) == self.view().dictionary,
    {
        match &self.dictionary {
            Some(v) => Some(v),
            None => None,
        }
    }

    fn inflated(&self, i: usize) -> (r: Option<&Result<Vec<u8>, ErrorKind>>)
        ensures
            inflated_in(r) == self.view().inflated_at(i as nat),
            r is Some ==> i < usize::MAX,
    {
        if i < self.inflated.len() {
            Some(&self.inflated[i])
        } else {
            None
        }
    }
}

/// A deflated stream, and how many bytes are to come of it.
pub struct Deflated {
    pub body: Vec<u8>,
    pub size: usize,
}

spec fn next_of(r: Result<Option<Deflated>, ErrorKind>, p: ParserState, q: int) -> Result<Next, ErrorKind> {
    match r {
        Err(e) => Err(e),
        Ok(None) => Ok(Next::Parsed(p, q)),
        Ok(Some(d)) => Ok(Next::Deflated(d.body@, d.size as nat)),
    }
}

/// Read the catalog of an element; a deflated one may have to be inflated first.
fn handle_catalog(data: &[u8], p: &mut Parser, el: &mut Element, aids: &Aids, at: Ghost<int>) -> (r: Result<
    Option<Deflated>,
    ErrorKind,
>)
    requires
        old(p).wf(),
        old(el).attribs@.len() == 10,
        old(el).alglist@.len() == 6,
    ensures
        final(p).wf(),
        *final(el) == (Element { actualsize: size_in(old(el).attribs@[4]), ..*old(el) }),
        next_of(r, final(p).view(), at@) == catalog_added(
            data@,
            old(p).view(),
            old(el).view(),
            old(el).datacrc,
            at@,
            aids.view(),
        ),
        !(r matches Ok(None)) ==> final(p).view() == catalog_refused(
            data@,
            old(p).view(),
            old(el).view(),
            old(el).datacrc,
            aids.view(),
        ),
{
    reveal(catalog_added);
    reveal(catalog_refused);
    el.actualsize = to_size(el.attribs[4]);
    let desc: StreamDescriptor = StreamDescriptor::from_element(el);
    let inflated: Option<&Result<Vec<u8>, ErrorKind>> = aids.inflated(p.inflated);
    let catalog: Vec<u8> = match decode_stream(data, &desc, false, aids.dictionary(), inflated) {
        Ok(Step::Bytes(v)) => v,
        Ok(Step::Deflated(body, size)) => {
            return Ok(Some(Deflated { body, size }));
        },
        Err(e) => {
            return Err(e);
        },
    };
    proof {
        only_deflated_streams_wait(data@, desc, false, aids.view().dictionary, inflated_in(inflated));
    }
    match parse_catalog(catalog.as_slice(), &mut p.entries, &p.entrydict) {
        Ok(_) => {},
        Err(e) => {
            return Err(e);
        },
    }
    if desc.compression == 3 {
        p.inflated = p.inflated + 1;
    }
    Ok(None)
}

/// Deal with an element whose head has been read.
fn handle_element(data: &[u8], r: &mut Reader, p: &mut Parser, element: Element, aids: &Aids) -> (res: Result<
    Option<Deflated>,
    ErrorKind,
>)
    requires
        old(r).wf(),
        old(r).data() == data@,
        old(p).wf(),
        element.attribs@.len() == 10,
        element.alglist@.len() == 6,
        element.typ != 0,
        element.datacrc == 0,
        element.dataoffset == byte_pos(old(r).at()),
        old(r).held() == old(r).at(),
    ensures
        final(r).wf(),
        final(r).data() == data@,
        final(p).wf(),
        next_of(res, final(p).view(), final(r).at()) == element_applied(
            data@,
            old(r).at(),
            element.view(),
            old(p).view(),
            aids.view(),
        ),
        !(res matches Ok(None)) ==> final(p).view() == element_refused(
            data@,
            old(r).at(),
            element.view(),
            old(p).view(),
            aids.view(),
        ),
        (final(r).at(), final(r).held()) == element_stop(data@, old(r).at(), element.view()),
{
    reveal(element_applied);
    reveal(element_refused);
    reveal(element_stop);
    let mut el: Element = element;
    if el.typ == 1 {
        match scan_element_data(r, &mut el) {
            Ok(_) => {},
            Err(e) => {
                return Err(e);
            },
        }
        let end: usize = r.offset();
        match handle_data(p, &mut el, end, Ghost(r.at())) {
            Ok(_) => Ok(None),
            Err(e) => Err(e),
        }
    } else if el.typ == 2 || el.typ == 4 {
        p.add_node(el.attribs[0], el.attribs[1], el.typ == 4);
        Ok(None)
    } else if el.typ == 3 {
        let typ: u64 = match r.read_p2() {
            Ok(v) => v,
            Err(e) => {
                return Err(e);
            },
        };
        match handle_fork(p, &el, typ) {
            Ok(_) => Ok(None),
            Err(e) => Err(e),
        }
    } else if el.typ == 5 {
        match scan_element_data(r, &mut el) {
            Ok(_) => {},
            Err(e) => {
                return Err(e);
            },
        }
        handle_catalog(data, p, &mut el, aids, Ghost(r.at()))
    } else if el.typ == 6 {
        match r.skip(to_size(el.attribs[4])) {
            Ok(_) => Ok(None),
            Err(e) => Err(e),
        }
    } else if el.typ == 7 {
        match r.read_p2() {
            Ok(_) => Ok(None),
            Err(e) => Err(e),
        }
    } else if el.typ == 8 || el.typ == 9 {
        Ok(None)
    } else if el.typ == 10 {
        Err(ErrorKind::Unsupported)
    } else {
        match scan_element_data(r, &mut el) {
            Ok(_) => Ok(None),
            Err(e) => Err(e),
        }
    }
}

spec fn outcome_from(r: Result<Option<Deflated>, ErrorKind>, p: ParserState) -> Result<Outcome, ErrorKind> {
    match r {
        Err(e) => Err(e),
        Ok(None) => Ok(Outcome::Entries(p.output)),
        Ok(Some(d)) => Ok(Outcome::Deflated(d.body@, d.size as nat)),
    }
}

/// Read the elements up to the one that ends them. The reader is left behind it, or where
/// the first element stops that is refused or has to wait.
fn parse_elements(data: &[u8], r: &mut Reader, p: &mut Parser, aids: &Aids, unknown: &mut bool) -> (res: Result<
    Option<Deflated>,
    ErrorKind,
>)
    requires
        old(r).wf(),
        old(r).data() == data@,
        old(r).at() >= 0,
        old(p).wf(),
    ensures
        final(r).wf(),
        final(r).data() == data@,
        final(p).wf(),
        (final(p).view(), (final(r).at(), final(r).held())) == elements_end(
            data@,
            old(r).at(),
            old(r).held(),
            old(p).view(),
            aids.view(),
            *old(unknown),
        ),
        (outcome_from(res, final(p).view()), *final(unknown)) == elements_from(
            data@,
            old(r).at(),
            old(p).view(),
            aids.view(),
            *old(unknown),
        ),
{
    loop
        invariant
            r.wf(),
            r.data() == data@,
            r.at() >= 0,
            p.wf(),
            elements_end(data@, r.at(), r.held(), p.view(), aids.view(), *unknown) == elements_end(
                data@,
                old(r).at(),
                old(r).held(),
                old(p).view(),
                aids.view(),
                *old(unknown),
            ),
            elements_from(data@, r.at(), p.view(), aids.view(), *unknown) == elements_from(
                data@,
                old(r).at(),
                old(p).view(),
                aids.view(),
                *old(unknown),
            ),
        decreases 8 * data@.len() - r.at(),
    {
        proof {
            element_moves(data@, r.at(), *unknown);
        }
        let el: Element = match read_element(r, unknown) {
            Ok(el) => el,
            Err(e) => {
                return Err(e);
            },
        };
        if el.typ == 0 {
            return Ok(None);
        }
        proof {
            application_moves(data@, r.at(), el.view(), p.view(), aids.view());
        }
        match handle_element(data, r, p, el, aids) {
            Ok(None) => {},
            Ok(Some(d)) => {
                return Ok(Some(d));
            },
            Err(e) => {
                return Err(e);
            },
        }
        r.flush();
    }
}

fn recognize(data: &[u8]) -> (r: bool)
    ensures
        r == is_sitx(data@),
{
    if data.len() < 8 {
        return false;
    }
    let r: bool = data[0] == 0x53 && data[1] == 0x74 && data[2] == 0x75 && data[3] == 0x66 && data[4] == 0x66 && data[5]
        == 0x49 && data[6] == 0x74;
    proof {
        let banner = seq![0x53u8, 0x74, 0x75, 0x66, 0x66, 0x49, 0x74];
        let head = data@.subrange(0, 7);
        assert(forall|i: int| 0 <= i < 7 ==> head[i] == data@[i]);
        if r {
            assert(head =~= banner);
        } else if head == banner {
            assert(head[0] == banner[0] && head[1] == banner[1] && head[2] == banner[2] && head[3] == banner[3]
                && head[4] == banner[4] && head[5] == banner[5] && head[6] == banner[6]);
        }
    }
    r && (data[7] == 0x21 || data[7] == 0x3f)
}

/// Why an archive was refused; `recovery` tells that it seems to hold recovery records.
#[derive(Clone, Copy, Debug, PartialEq, Eq, Structural)]
pub struct SitxError {
    pub kind: ErrorKind,
    pub recovery: bool,
}

impl SitxError {
    pub fn kind(&self) -> (r: ErrorKind)
        ensures
            r == self.kind,
    {
        self.kind
    }

    /// The error in words.
    pub fn to_string(&self) -> (r: String)
        ensures
            r@ == (if self.recovery {
                "sitx: recovery-record / redundancy archives are not supported"@
            } else {
                match self.kind {
                    ErrorKind::InvalidData => "sitx: not a well-formed archive"@,
                    ErrorKind::UnexpectedEof => "sitx: unexpected end of stream"@,
                    ErrorKind::Unsupported => "sitx: archive feature is not supported"@,
                }
            }),
    {
        if self.recovery {
            return String::from_str("sitx: recovery-record / redundancy archives are not supported");
        }
        match self.kind {
            ErrorKind::InvalidData => String::from_str("sitx: not a well-formed archive"),
            ErrorKind::UnexpectedEof => String::from_str("sitx: unexpected end of stream"),
            ErrorKind::Unsupported => String::from_str("sitx: archive feature is not supported"),
        }
    }
}

/// What an archive holds, or a deflated catalog that has to be inflated first.
enum Found {
    Entries(Vec<SitxEntry>),
    Deflated(Deflated),
}

spec fn found_of(r: Result<Found, SitxError>) -> Result<Outcome, ErrorKind> {
    match r {
        Err(e) => Err(e.kind),
        Ok(Found::Entries(v)) => Ok(Outcome::Entries(entry_views(v@))),
        Ok(Found::Deflated(d)) => Ok(Outcome::Deflated(d.body@, d.size as nat)),
    }
}

fn parse(data: &[u8], aids: &Aids) -> (r: Result<Found, SitxError>)
    ensures
        found_of(r) == outcome_of(data@, aids.view()),
        r matches Err(e) ==> e.recovery == is_recovery(data@, aids.view()),
{
    if !recognize(data) {
        return Err(SitxError { kind: ErrorKind::InvalidData, recovery: false });
    }
    if data[7] == 0x3f {
        return Err(SitxError { kind: ErrorKind::Unsupported, recovery: false });
    }
    let mut r = Reader::new(data);
    r.seek(8);
    let mut p = Parser::new();
    let mut unknown: bool = false;
    match parse_elements(data, &mut r, &mut p, aids, &mut unknown) {
        Ok(None) => Ok(Found::Entries(p.output)),
        Ok(Some(d)) => Ok(Found::Deflated(d)),
        Err(e) => {
            if e == ErrorKind::UnexpectedEof && unknown {
                Err(SitxError { kind: ErrorKind::Unsupported, recovery: true })
            } else {
                Err(SitxError { kind: e, recovery: false })
            }
        },
    }
}

// === the archive ==============================================================

/// What reading an entry gives: the part of its stream that is its fork.
pub open spec fn entry_content(data: Seq<u8>, e: EntryView, aids: AidsView) -> Result<Content, ErrorKind> {
    match e.fork {
        None => Ok(Content::Bytes(seq![])),
        Some(f) => match stream_content(data, f.stream, true, aids.dictionary, aids.inflated_at(0)) {
            Err(x) => Err(x),
            Ok(Content::Deflated(body, n)) => Ok(Content::Deflated(body, n)),
            Ok(Content::Bytes(v)) => if f.solid_offset + f.length > v.len() {
                Err(ErrorKind::InvalidData)
            } else {
                Ok(Content::Bytes(v.subrange(f.solid_offset as int, f.solid_offset + f.length)))
            },
        },
    }
}

/// What reading entry `idx` gives.
pub open spec fn content_at(data: Seq<u8>, entries: Seq<EntryView>, idx: int, aids: AidsView) -> Result<
    Content,
    ErrorKind,
> {
    if idx >= entries.len() {
        Err(ErrorKind::InvalidData)
    } else {
        entry_content(data, entries[idx], aids)
    }
}

/// An archive held in memory, and what it holds.
pub struct SitxArchive {
    data: Vec<u8>,
    entries: Vec<SitxEntry>,
}

/// An archive, or a deflated catalog that has to be inflated first.
pub enum Opened {
    Archive(SitxArchive),
    Deflated(Deflated),
}

impl SitxArchive {
    /// The archive's bytes.
    pub closed spec fn data(&self) -> Seq<u8> {
        self.data@
    }

    /// What the archive holds.
    pub closed spec fn catalog(&self) -> Seq<EntryView> {
        entry_views(self.entries@)
    }

    /// The entries are those that the bytes spell, with some aids.
    #[verifier::type_invariant]
    spec fn wf(&self) -> bool {
        exists|aids: AidsView| #[trigger]
            outcome_of(self.data@, aids) == Ok::<Outcome, ErrorKind>(Outcome::Entries(entry_views(self.entries@)))
    }

    /// Whether `data` looks like an archive of this kind.
    pub fn recognize(data: &[u8]) -> (r: bool)
        ensures
            r == is_sitx(data@),
    {
        recognize(data)
    }

    /// Parse an archive. A deflated catalog is handed out, to be inflated before the
    /// archive is opened again; English text is not supported without its dictionary.
    pub fn open(data: Vec<u8>, aids: &Aids) -> (r: Result<Opened, SitxError>)
        ensures
            match r {
                Ok(Opened::Archive(a)) => {
                    &&& a.data() == data@
                    &&& outcome_of(data@, aids.view()) == Ok::<Outcome, ErrorKind>(Outcome::Entries(a.catalog()))
                },
                Ok(Opened::Deflated(d)) => outcome_of(data@, aids.view()) == Ok::<Outcome, ErrorKind>(
                    Outcome::Deflated(d.body@, d.size as nat),
                ),
                Err(e) => {
                    &&& outcome_of(data@, aids.view()) == Err::<Outcome, ErrorKind>(e.kind)
                    &&& e.recovery == is_recovery(data@, aids.view())
                },
            },
    {
        match parse(data.as_slice(), aids) {
            Ok(Found::Entries(entries)) => Ok(Opened::Archive(SitxArchive { data, entries })),
            Ok(Found::Deflated(d)) => Ok(Opened::Deflated(d)),
            Err(e) => Err(e),
        }
    }

    /// The entries: those without a fork first, then the forks of each stream.
    pub fn entries(&self) -> (r: &[SitxEntry])
        ensures
            entry_views(r@) == self.catalog(),
            r@.len() == self.catalog().len(),
    {
        self.entries.as_slice()
    }

    /// Append the content of entry `idx` to `out`, or hand out its deflated stream, to be
    /// inflated before the entry is read again. Directories and empty files have no content.
    pub fn read_entry(&self, idx: usize, aids: &Aids, out: &mut Vec<u8>) -> (r: Result<
        Option<Deflated>,
        ErrorKind,
    >)
        ensures
            match r {
                Ok(None) => content_at(self.data(), self.catalog(), idx as int, aids.view()) matches Ok(
                    Content::Bytes(v),
                ) && final(out)@ == old(out)@ + v && idx < self.catalog().len() && v.len()
                    == self.catalog()[idx as int].size,
                Ok(Some(d)) => {
                    &&& content_at(self.data(), self.catalog(), idx as int, aids.view()) == Ok::<Content, ErrorKind>(
                        Content::Deflated(d.body@, d.size as nat),
                    )
                    &&& final(out)@ == old(out)@
                },
                Err(e) => {
                    &&& content_at(self.data(), self.catalog(), idx as int, aids.view()) == Err::<Content, ErrorKind>(
                        e,
                    )
                    &&& final(out)@ == old(out)@
                },
            },
    {
        proof {
            use_type_invariant(self);
            let opened = choose|opened: AidsView| #[trigger]
                outcome_of(self.data@, opened) == Ok::<Outcome, ErrorKind>(Outcome::Entries(entry_views(self.entries@)));
            content_has_its_size(self.data@, opened, self.catalog(), idx as int, aids.view());
        }
        if idx >= self.entries.len() {
            return Err(ErrorKind::InvalidData);
        }
        let entry: &SitxEntry = &self.entries[idx];
        let fork: ForkExtract = match entry.fork {
            Some(f) => f,
            None => {
                assert(out@ =~= old(out)@ + Seq::<u8>::empty());
                return Ok(None);
            },
        };
        match decode_stream(self.data.as_slice(), &fork.stream, true, aids.dictionary(), aids.inflated(0)) {
            Err(e) => Err(e),
            Ok(Step::Deflated(body, size)) => Ok(Some(Deflated { body, size })),
            Ok(Step::Bytes(v)) => {
                if fork.solid_offset as u128 + fork.length as u128 > v.len() as u128 {
                    return Err(ErrorKind::InvalidData);
                }
                let from: usize = fork.solid_offset as usize;
                append(out, slice_subrange(v.as_slice(), from, from + fork.length as usize));
                Ok(None)
            },
        }
    }
}

} // verus!
