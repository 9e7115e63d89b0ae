use vstd::prelude::*;
use crate::catalog::be32;
use crate::error::ErrorKind;
use crate::sitx::archive::{
    data_added, fork_added, fork_entry, forkless_from, forks_from, forks_of, packing_of, plain_entry, sharers_from, total_from, EntryView,
    ForkExtract, ForkView, Packing, ParserState,
};
use crate::sitx::archive_writing::{checksum_in, data_end, effect, element_of, head_end, Body, Head, Piece};
use crate::sitx::elements::{absent, as_signed, noted};
use crate::sitx::names::name_of;
use crate::sitx::nodes::{last_with, marks_link, path_for, NodeView};
use crate::sitx::p2::byte_pos;
use crate::sitx::stream::StreamDescriptor;
use crate::sitx::writing::{filled, Pair};

verus! {

// What an archive holds, told by the numbers in the heads of its elements.

/// A number of the kind that stands in a list, in the given slot.
pub open spec fn in_slot(slot: u64, value: u64) -> Pair {
    Pair { slot, value, second: 0 }
}

/// It fits into 63 bits.
pub open spec fn is_modest(v: u64) -> bool {
    v < 0x8000_0000_0000_0000
}

proof fn slot_is_filled(slots: Seq<i64>, p: Pair, rest: Seq<Pair>)
    requires
        1 <= p.slot <= slots.len(),
        is_modest(p.value),
    ensures
        filled(slots, seq![p] + rest) == filled(slots.update(p.slot - 1, p.value as i64), rest),
{
    let all = seq![p] + rest;
    assert(all.drop_first() =~= rest);
    assert(as_signed(p.value) == p.value as i64);
}

proof fn slots_are_filled(slots: Seq<i64>, ps: Seq<Pair>)
    requires
        ps.len() <= 4,
        forall|i: int| 0 <= i < ps.len() ==> 1 <= (#[trigger] ps[i]).slot <= slots.len() && is_modest(ps[i].value),
    ensures
        ps.len() == 0 ==> filled(slots, ps) == slots,
        ps.len() == 1 ==> filled(slots, ps) == slots.update(ps[0].slot - 1, ps[0].value as i64),
        ps.len() == 2 ==> filled(slots, ps) == slots.update(ps[0].slot - 1, ps[0].value as i64).update(
            ps[1].slot - 1,
            ps[1].value as i64,
        ),
        ps.len() == 3 ==> filled(slots, ps) == slots.update(ps[0].slot - 1, ps[0].value as i64).update(
            ps[1].slot - 1,
            ps[1].value as i64,
        ).update(ps[2].slot - 1, ps[2].value as i64),
        ps.len() == 4 ==> filled(slots, ps) == slots.update(ps[0].slot - 1, ps[0].value as i64).update(
            ps[1].slot - 1,
            ps[1].value as i64,
        ).update(ps[2].slot - 1, ps[2].value as i64).update(ps[3].slot - 1, ps[3].value as i64),
    decreases ps.len(),
{
    if ps.len() > 0 {
        let rest = ps.drop_first();
        assert(seq![ps[0]] + rest =~= ps);
        slot_is_filled(slots, ps[0], rest);
        slots_are_filled(slots.update(ps[0].slot - 1, ps[0].value as i64), rest);
    }
}

// === nodes ====================================================================

/// The element of a file or a directory: its number, and that of the directory it is in.
pub open spec fn node_piece(directory: bool, id: u64, parent: u64) -> Piece {
    Piece {
        head: Head {
            typ: if directory {
                4
            } else {
                2
            },
            attribs: seq![in_slot(1, id), in_slot(2, parent)],
            algs: seq![],
        },
        body: Body::Nothing,
    }
}

/// Such an element adds a node with its numbers, of which nothing else is known, and changes
/// nothing else.
pub proof fn node_element_adds_a_node(q: int, p: ParserState, directory: bool, id: u64, parent: u64)
    requires
        is_modest(id),
        is_modest(parent),
    ensures
        effect(q, p, node_piece(directory, id, parent)) matches Ok(p1) && {
            &&& p1.nodes == p.nodes.push(
                NodeView {
                    id: id as i64,
                    parent: parent as i64,
                    is_directory: directory,
                    path: None,
                    is_link: false,
                    finder_info: None,
                    posix_permissions: None,
                    posix_uid: None,
                    posix_gid: None,
                    mtime_1601: None,
                    ctime_1601: None,
                    comment: None,
                },
            )
            &&& p1.streams == p.streams
            &&& p1.forked == p.forked
            &&& p1.output == p.output
            &&& p1.inflated == p.inflated
        },
{
    slots_are_filled(absent(10), node_piece(directory, id, parent).head.attribs);
}

/// A node is named below its directory, with a slash between them, if that one has a name.
pub proof fn names_stand_below_their_directories(nodes: Seq<NodeView>, i: int, k: int, name: Seq<u8>)
    requires
        0 <= i < nodes.len(),
        0 <= k < nodes.len(),
        nodes[k].id == nodes[i].parent,
        forall|j: int| k < j < nodes.len() ==> (#[trigger] nodes[j]).id != nodes[i].parent,
    ensures
        nodes[k].path matches Some(above) ==> path_for(nodes, i, name) == above + seq!['/' as u8] + name,
        nodes[k].path is None ==> path_for(nodes, i, name) == name,
{
    last_is_found(nodes, k, nodes[i].parent);
    if let Some(above) = nodes[k].path {
        assert(above.push(0x2f) + name =~= above + seq!['/' as u8] + name);
    }
}

/// A node whose directory is not there is named without it.
pub proof fn names_stand_alone_without_directory(nodes: Seq<NodeView>, i: int, name: Seq<u8>)
    requires
        0 <= i < nodes.len(),
        forall|j: int| 0 <= j < nodes.len() ==> (#[trigger] nodes[j]).id != nodes[i].parent,
    ensures
        path_for(nodes, i, name) == name,
{
    none_is_found(nodes, nodes[i].parent);
}

proof fn last_is_found(nodes: Seq<NodeView>, k: int, id: i64)
    requires
        0 <= k < nodes.len(),
        nodes[k].id == id,
        forall|j: int| k < j < nodes.len() ==> (#[trigger] nodes[j]).id != id,
    ensures
        last_with(nodes, id) == Some(k),
    decreases nodes.len(),
{
    if k < nodes.len() - 1 {
        assert(nodes.last().id != id);
        last_is_found(nodes.drop_last(), k, id);
    }
}

proof fn none_is_found(nodes: Seq<NodeView>, id: i64)
    requires
        forall|j: int| 0 <= j < nodes.len() ==> (#[trigger] nodes[j]).id != id,
    ensures
        last_with(nodes, id) is None,
    decreases nodes.len(),
{
    if nodes.len() > 0 {
        assert(nodes.last().id != id);
        none_is_found(nodes.drop_last(), id);
    }
}

/// Finder information marks a link if its type is `slnk` and its creator `rhap`.
pub proof fn links_are_marked_by_type_and_creator(info: Seq<u8>)
    requires
        info.len() == 32,
    ensures
        marks_link(info) == {
            &&& info[0] == 's' as u8 && info[1] == 'l' as u8 && info[2] == 'n' as u8 && info[3] == 'k' as u8
            &&& info[4] == 'r' as u8 && info[5] == 'h' as u8 && info[6] == 'a' as u8 && info[7] == 'p' as u8
        },
{
    let mark = seq![0x73u8, 0x6c, 0x6e, 0x6b, 0x72, 0x68, 0x61, 0x70];
    let head = info.subrange(0, 8);
    if info[0] == 's' as u8 && info[1] == 'l' as u8 && info[2] == 'n' as u8 && info[3] == 'k' as u8 && info[4] == 'r' as u8
        && info[5] == 'h' as u8 && info[6] == 'a' as u8 && info[7] == 'p' as u8 {
        assert(head =~= mark);
    } else if head == mark {
        assert(head[0] == mark[0] && head[1] == mark[1] && head[2] == mark[2] && head[3] == mark[3]);
        assert(head[4] == mark[4] && head[5] == mark[5] && head[6] == mark[6] && head[7] == mark[7]);
    }
}

// === forks ====================================================================

/// The element of a fork: the node that has it, its stream, its place there, its length, and
/// its kind.
pub open spec fn fork_piece(node: u64, stream: u64, index: u64, length: u64, kind: u64) -> Piece {
    Piece {
        head: Head {
            typ: 3,
            attribs: seq![in_slot(2, node), in_slot(3, stream), in_slot(4, index), in_slot(5, length)],
            algs: seq![],
        },
        body: Body::Number(kind),
    }
}

/// The places of a stream that are known so far.
pub open spec fn places(p: ParserState, stream: i64) -> Seq<Option<ForkView>> {
    if p.streams.contains_key(stream) {
        p.streams[stream]
    } else {
        seq![]
    }
}

/// The element of a fork fills its place in its stream. Where the place has been filled with a
/// fork of that length, the node shares it. Places before it may stay open, and the other
/// places and streams are as they were.
pub proof fn fork_element_fills_its_place(q: int, p: ParserState, node: u64, stream: u64, index: u64, length: u64, kind: u64)
    requires
        is_modest(node),
        is_modest(stream),
        is_modest(index),
        is_modest(length),
        index <= usize::MAX,
        index < places(p, stream as i64).len() ==> match places(p, stream as i64)[index as int] {
            Some(f) => f.length == length,
            None => true,
        },
    ensures
        effect(q, p, fork_piece(node, stream, index, length, kind)) matches Ok(p1) && {
            let s = stream as i64;
            let old_places = places(p, s);
            let new_places = places(p1, s);
            let taken = index < old_places.len() && old_places[index as int] is Some;
            &&& new_places.len() == if index < old_places.len() {
                old_places.len()
            } else {
                (index + 1) as nat
            }
            &&& new_places[index as int] == Some(
                if taken {
                    let f = old_places[index as int]->Some_0;
                    ForkView { entries: f.entries.push(node as i64), typ: f.typ, length: f.length }
                } else {
                    ForkView { entries: seq![node as i64], typ: kind, length }
                },
            )
            &&& forall|i: int|
                0 <= i < new_places.len() && i != index ==> #[trigger] new_places[i] == if i < old_places.len() {
                    old_places[i]
                } else {
                    None
                }
            &&& forall|other: i64| other != s ==> #[trigger] places(p1, other) == places(p, other)
            &&& p1.nodes == p.nodes
            &&& p1.output == p.output
            &&& p1.inflated == p.inflated
            &&& match p.forked {
                Some(set) => p1.forked == Some(set.insert(node as i64)),
                None => p1.forked is None,
            }
        },
{
    reveal(fork_added);
    let w = fork_piece(node, stream, index, length, kind);
    slots_are_filled(absent(10), w.head.attribs);
    let el = element_of(q, w.head);
    assert(el.attribs[1] == node && el.attribs[2] == stream && el.attribs[3] == index && el.attribs[4] == length);
    assert(forks_of(p.streams, stream as i64) == places(p, stream as i64));
    let olds = places(p, stream as i64);
    if index < olds.len() && olds[index as int] is Some {
        let f = olds[index as int]->Some_0;
        assert(f.entries + seq![node as i64] =~= f.entries.push(node as i64));
    }
}

/// A fork of another length than the one in its place is refused.
pub proof fn shared_fork_has_one_length(q: int, p: ParserState, node: u64, stream: u64, index: u64, length: u64, kind: u64)
    requires
        is_modest(node),
        is_modest(stream),
        is_modest(index),
        is_modest(length),
        index <= usize::MAX,
        index < places(p, stream as i64).len(),
        places(p, stream as i64)[index as int] matches Some(f) && f.length != length,
    ensures
        effect(q, p, fork_piece(node, stream, index, length, kind)) == Err::<ParserState, ErrorKind>(
            ErrorKind::InvalidData,
        ),
{
    reveal(fork_added);
    let w = fork_piece(node, stream, index, length, kind);
    slots_are_filled(absent(10), w.head.attribs);
    let el = element_of(q, w.head);
    assert(el.attribs[1] == node && el.attribs[2] == stream && el.attribs[3] == index && el.attribs[4] == length);
}

// === data =====================================================================

/// How a stream was packed, and its data.
pub struct Stream {
    pub number: u64,
    pub size: u64,
    pub compression: u64,
    pub checksum: u64,
    pub preprocess: u64,
    pub chunks: Seq<Seq<u8>>,
    pub tail: Seq<Seq<u8>>,
}

/// The element of the data.
pub open spec fn data_piece(d: Stream) -> Piece {
    Piece {
        head: Head {
            typ: 1,
            attribs: seq![in_slot(1, d.number), in_slot(5, d.size)],
            algs: seq![in_slot(1, d.compression), in_slot(2, d.checksum), in_slot(3, d.preprocess)],
        },
        body: Body::Blocks { chunks: d.chunks, tail: d.tail },
    }
}

/// What the entry of a fork shows of it.
pub struct Shown {
    pub resource: bool,
    pub size: u64,
    pub packed: u64,
    pub method: Seq<char>,
    pub extract: Option<ForkExtract>,
}

/// The entry of a node, with what is shown of a fork of it.
pub open spec fn entry_of(n: NodeView, s: Shown) -> EntryView {
    EntryView {
        name: if n.path is Some {
            n.path->Some_0
        } else {
            Seq::empty()
        },
        is_directory: n.is_directory,
        is_link: n.is_link,
        finder_info: n.finder_info,
        posix_permissions: n.posix_permissions,
        posix_uid: n.posix_uid,
        posix_gid: n.posix_gid,
        mtime_1601: n.mtime_1601,
        ctime_1601: n.ctime_1601,
        comment: n.comment,
        is_resource_fork: s.resource,
        size: s.size,
        compressed_size: s.packed,
        compression_name: s.method,
        fork: s.extract,
    }
}

/// What is shown of a node that has no fork.
pub open spec fn no_fork() -> Shown {
    Shown { resource: false, size: 0, packed: 0, method: seq![], extract: None }
}

/// The entries of the nodes without a fork.
pub open spec fn forkless(nodes: Seq<NodeView>, forked: Set<i64>) -> Seq<EntryView> {
    nodes.filter(|n: NodeView| !forked.contains(n.id)).map_values(|n: NodeView| entry_of(n, no_fork()))
}

/// The stream as it is found again: where its data starts, and the numbers of its methods.
pub open spec fn stream_told(at: int, d: Stream, total: nat, crc: u32) -> StreamDescriptor {
    StreamDescriptor {
        dataoffset: at as usize,
        compression: d.compression as i64,
        checksum: d.checksum as i64,
        preprocess: d.preprocess as i64,
        crypto: -1i64,
        actualsize: total as u64,
        datacrc: crc,
    }
}

/// What is shown of a fork that starts at `offset` of the content: its share in the packed
/// bytes is that in the size of the stream.
pub open spec fn fork_told(d: Stream, f: ForkView, offset: int, sd: StreamDescriptor, packed: int) -> Shown {
    Shown {
        resource: f.typ == 1,
        size: f.length,
        packed: if d.size == 0 {
            0
        } else {
            ((f.length * packed / (d.size as int)) % 0x1_0000_0000_0000_0000) as u64
        },
        method: name_of(d.compression as i64, d.preprocess as i64),
        extract: Some(ForkExtract { stream: sd, solid_offset: offset as u64, length: f.length }),
    }
}

/// The entries of the nodes that share a fork.
pub open spec fn sharers_listed(nodes: Seq<NodeView>, f: ForkView, s: Shown) -> Seq<EntryView> {
    Seq::new(f.entries.len(), |j: int| entry_of(nodes[last_with(nodes, f.entries[j])->Some_0], s))
}

/// The entries of the forks in their places, from place `i` on: those of data and resource
/// forks only.
pub open spec fn forks_listed(
    nodes: Seq<NodeView>,
    forks: Seq<Option<ForkView>>,
    i: int,
    offset: int,
    d: Stream,
    sd: StreamDescriptor,
    packed: int,
) -> Seq<EntryView>
    decreases forks.len() - i,
{
    if i >= forks.len() {
        seq![]
    } else {
        let f = forks[i]->Some_0;
        (if f.typ == 0 || f.typ == 1 {
            sharers_listed(nodes, f, fork_told(d, f, offset, sd, packed))
        } else {
            seq![]
        }) + forks_listed(nodes, forks, i + 1, offset + f.length, d, sd, packed)
    }
}

/// The lengths of the forks from place `i` on.
pub open spec fn lengths(forks: Seq<Option<ForkView>>, i: int) -> nat
    decreases forks.len() - i,
{
    if i >= forks.len() {
        0
    } else {
        (forks[i]->Some_0.length + lengths(forks, i + 1)) as nat
    }
}

/// No place is open, and the nodes are there.
pub open spec fn forks_complete(nodes: Seq<NodeView>, forks: Seq<Option<ForkView>>) -> bool {
    forall|i: int|
        0 <= i < forks.len() ==> match #[trigger] forks[i] {
            Some(f) => forall|j: int| 0 <= j < f.entries.len() ==> last_with(nodes, #[trigger] f.entries[j]) is Some,
            None => false,
        }
}

proof fn forkless_are_listed(nodes: Seq<NodeView>, forked: Set<i64>, i: int, found: Seq<EntryView>)
    requires
        0 <= i <= nodes.len(),
    ensures
        forkless_from(nodes, forked, i, found) == found + forkless(nodes.skip(i), forked),
    decreases nodes.len() - i,
{
    let pred = |n: NodeView| !forked.contains(n.id);
    let f = |n: NodeView| entry_of(n, no_fork());
    if i >= nodes.len() {
        assert(nodes.skip(i) =~= Seq::<NodeView>::empty());
        reveal(Seq::filter);
        assert(forkless(nodes.skip(i), forked) =~= Seq::<EntryView>::empty());
        assert(found + Seq::<EntryView>::empty() =~= found);
    } else {
        let one = seq![nodes[i]];
        let rest = nodes.skip(i + 1);
        assert(nodes.skip(i) =~= one + rest);
        Seq::filter_distributes_over_add(one, rest, pred);
        let kept = if pred(nodes[i]) {
            one
        } else {
            Seq::empty()
        };
        assert(one.filter(pred) =~= kept) by {
            reveal(Seq::filter);
            assert(one.drop_last() =~= Seq::<NodeView>::empty());
            assert(one.drop_last().filter(pred) =~= Seq::<NodeView>::empty());
        }
        assert((kept + rest.filter(pred)).map_values(f) =~= kept.map_values(f) + rest.filter(pred).map_values(f));
        assert(entry_of(nodes[i], no_fork()) == plain_entry(nodes[i]));
        let more = if pred(nodes[i]) {
            found.push(plain_entry(nodes[i]))
        } else {
            found
        };
        forkless_are_listed(nodes, forked, i + 1, more);
        assert(found + (kept.map_values(f) + rest.filter(pred).map_values(f)) =~= more + rest.filter(pred).map_values(f));
    }
}

proof fn sharers_are_listed(
    nodes: Seq<NodeView>,
    f: ForkView,
    j: int,
    offset: u64,
    w: Packing,
    found: Seq<EntryView>,
    s: Shown,
)
    requires
        0 <= j <= f.entries.len(),
        forall|k: int| 0 <= k < f.entries.len() ==> last_with(nodes, #[trigger] f.entries[k]) is Some,
        forall|n: NodeView| #[trigger] fork_entry(n, f, offset, w) == entry_of(n, s),
    ensures
        sharers_from(nodes, f, j, offset, w, found) == Ok::<Seq<EntryView>, ErrorKind>(
            found + sharers_listed(nodes, f, s).skip(j),
        ),
    decreases f.entries.len() - j,
{
    let all = sharers_listed(nodes, f, s);
    if j >= f.entries.len() {
        assert(found + all.skip(j) =~= found);
    } else {
        assert(last_with(nodes, f.entries[j]) is Some);
        let e = fork_entry(nodes[last_with(nodes, f.entries[j])->Some_0], f, offset, w);
        assert(e == all[j]);
        sharers_are_listed(nodes, f, j + 1, offset, w, found.push(e), s);
        assert(found.push(e) + all.skip(j + 1) =~= found + all.skip(j));
    }
}

proof fn all_forks_are_listed(
    nodes: Seq<NodeView>,
    forks: Seq<Option<ForkView>>,
    i: int,
    offset: int,
    w: Packing,
    found: Seq<EntryView>,
    d: Stream,
    packed: int,
)
    requires
        0 <= i <= forks.len(),
        forks_complete(nodes, forks),
        w.unpacked == d.size,
        0 <= packed <= u64::MAX,
        w.packed == packed,
        w.name == name_of(d.compression as i64, d.preprocess as i64),
    ensures
        forks_from(nodes, forks, i, offset, w, found) == Ok::<Seq<EntryView>, ErrorKind>(
            found + forks_listed(nodes, forks, i, offset, d, w.stream, packed),
        ),
    decreases forks.len() - i,
{
    if i >= forks.len() {
        assert(found + Seq::<EntryView>::empty() =~= found);
    } else {
        let f = forks[i]->Some_0;
        assert(forks[i] is Some);
        let rest = forks_listed(nodes, forks, i + 1, offset + f.length, d, w.stream, packed);
        if f.typ > 1 {
            all_forks_are_listed(nodes, forks, i + 1, offset + f.length, w, found, d, packed);
            assert(Seq::<EntryView>::empty() + rest =~= rest);
        } else {
            let s = fork_told(d, f, offset, w.stream, packed);
            assert forall|n: NodeView| #[trigger] fork_entry(n, f, offset as u64, w) == entry_of(n, s) by {}
            sharers_are_listed(nodes, f, 0, offset as u64, w, found, s);
            let mine = sharers_listed(nodes, f, s);
            assert(mine.skip(0) =~= mine);
            all_forks_are_listed(nodes, forks, i + 1, offset + f.length, w, found + mine, d, packed);
            assert(found + mine + rest =~= found + (mine + rest));
        }
    }
}

proof fn lengths_are_the_total(nodes: Seq<NodeView>, forks: Seq<Option<ForkView>>, i: int)
    requires
        0 <= i <= forks.len(),
        forks_complete(nodes, forks),
    ensures
        total_from(forks, i) == Some(lengths(forks, i)),
    decreases forks.len() - i,
{
    if i < forks.len() {
        assert(forks[i] is Some);
        lengths_are_the_total(nodes, forks, i + 1);
    }
}

/// The element of the data lists the nodes without a fork, unless that has been done, and then
/// the forks of its stream in their places, each under every node that shares it, with what
/// the catalog said of the node.
pub proof fn data_element_lists_its_forks(q: int, p: ParserState, d: Stream)
    requires
        is_modest(d.number),
        is_modest(d.size),
        is_modest(d.compression),
        is_modest(d.checksum),
        is_modest(d.preprocess),
        forks_complete(p.nodes, places(p, d.number as i64)),
        lengths(places(p, d.number as i64), 0) <= u64::MAX,
        0 <= byte_pos(data_end(head_end(q, data_piece(d).head), d.chunks, d.tail)) - byte_pos(
            head_end(q, data_piece(d).head),
        ) <= u64::MAX,
    ensures
        effect(q, p, data_piece(d)) matches Ok(p1) && {
            let at = byte_pos(head_end(q, data_piece(d).head));
            let packed = byte_pos(data_end(head_end(q, data_piece(d).head), d.chunks, d.tail)) - at;
            let forks = places(p, d.number as i64);
            let crc = if d.tail.len() > 0 && d.tail[0].len() == 4 {
                be32(d.tail[0], 0)
            } else {
                0
            };
            let sd = stream_told(at, d, lengths(forks, 0), crc);
            &&& p1.output == p.output + (match p.forked {
                Some(set) => forkless(p.nodes, set),
                None => seq![],
            }) + forks_listed(p.nodes, forks, 0, 0, d, sd, packed)
            &&& p1.forked is None
            &&& p1.nodes == p.nodes
            &&& p1.streams == p.streams
            &&& p1.inflated == p.inflated
        },
{
    reveal(data_added);
    let w = data_piece(d);
    slots_are_filled(absent(10), w.head.attribs);
    slots_are_filled(absent(6), w.head.algs);
    let el = element_of(q, w.head);
    assert(el.attribs[0] == d.number && el.attribs[4] == d.size);
    assert(el.algs[0] == d.compression && el.algs[1] == d.checksum && el.algs[2] == d.preprocess && el.algs[3] == -1);
    let forks = places(p, d.number as i64);
    assert(forks_of(p.streams, d.number as i64) == forks);
    lengths_are_the_total(p.nodes, forks, 0);
    let crc = noted(checksum_in(d.tail), 0);
    let end = data_end(head_end(q, w.head), d.chunks, d.tail);
    let packing = packing_of(el, lengths(forks, 0) as u64, crc, end);
    let at = byte_pos(head_end(q, w.head));
    assert(packing.stream == stream_told(at, d, lengths(forks, 0), crc));
    assert(p.nodes.skip(0) =~= p.nodes);
    let before = match p.forked {
        Some(set) => {
            p.output + forkless(p.nodes, set)
        },
        None => p.output + seq![],
    };
    match p.forked {
        Some(set) => {
            forkless_are_listed(p.nodes, set, 0, p.output);
        },
        None => {
            assert(p.output + Seq::<EntryView>::empty() =~= p.output);
        },
    }
    all_forks_are_listed(p.nodes, forks, 0, 0, packing, before, d, byte_pos(end) - at);
}

} // verus!
