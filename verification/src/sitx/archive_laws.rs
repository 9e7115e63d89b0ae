use vstd::prelude::*;
use crate::checksum::crc32;
use crate::error::ErrorKind;
use crate::sitx::archive::{
    application_moves, catalog_added, content_at, data_added, element_applied, elements_from, entry_content, fork_added,
    fork_entry, fork_placed, forkless_from, forks_from, forks_of, is_sitx, nothing_read, outcome_of, packing_of,
    plain_entry, sharers_from, stream_of, total_from, AidsView, EntryView, ForkExtract, ForkView, Next, Outcome,
    Packing, ParserState,
};
use crate::sitx::elements::{absent, as_signed, element_at, element_moves, noted, scanned, slots_from, ElementView};
use crate::sitx::nodes::{last_with, NodeView};
use crate::sitx::p2::{block_stream, byte_pos, p2_advances, p2_at};
use crate::sitx::stream::{
    machine_size, packed_stream_holds_its_content, postprocessed, stored_bytes_stay, stream_content, uncompressed, Content,
};

verus! {

// === refusals =================================================================

/// Bytes without the banner are refused as invalid, and text as unsupported.
pub proof fn only_the_banner_opens(data: Seq<u8>, aids: AidsView)
    ensures
        !is_sitx(data) ==> outcome_of(data, aids) == Err::<Outcome, ErrorKind>(ErrorKind::InvalidData),
        is_sitx(data) && data[7] == 0x3f ==> outcome_of(data, aids) == Err::<Outcome, ErrorKind>(
            ErrorKind::Unsupported,
        ),
{
}

/// A fork that another node shares must have the same length.
pub proof fn shared_forks_agree(forks: Seq<Option<ForkView>>, index: nat, fork: ForkView)
    requires
        index < forks.len(),
        forks[index as int] matches Some(f) && f.length != fork.length,
    ensures
        fork_placed(forks, index, fork) == Err::<Seq<Option<ForkView>>, ErrorKind>(ErrorKind::InvalidData),
{
}

/// A node without a fork has no content.
pub proof fn plain_entries_are_empty(data: Seq<u8>, n: NodeView, aids: AidsView)
    ensures
        entry_content(data, plain_entry(n), aids) == Ok::<Content, ErrorKind>(Content::Bytes(seq![])),
        plain_entry(n).size == 0,
{
}

// === nodes without forks ======================================================

/// The entries of the nodes without forks are theirs, in their order, and none of
/// them has one.
pub proof fn forkless_entries_are_plain(nodes: Seq<NodeView>, forked: Set<i64>, i: int, found: Seq<EntryView>)
    requires
        0 <= i,
    ensures
        ({
            let all = forkless_from(nodes, forked, i, found);
            &&& found.len() <= all.len()
            &&& all.subrange(0, found.len() as int) == found
            &&& forall|k: int|
                found.len() <= k < all.len() ==> exists|j: int|
                    i <= j < nodes.len() && !forked.contains(#[trigger] nodes[j].id) && #[trigger] all[k]
                        == plain_entry(nodes[j])
        }),
    decreases nodes.len() - i,
{
    if i >= nodes.len() {
        assert(found.subrange(0, found.len() as int) =~= found);
    } else if forked.contains(nodes[i].id) {
        forkless_entries_are_plain(nodes, forked, i + 1, found);
    } else {
        let more = found.push(plain_entry(nodes[i]));
        forkless_entries_are_plain(nodes, forked, i + 1, more);
        let all = forkless_from(nodes, forked, i, found);
        assert(all.subrange(0, found.len() as int) =~= all.subrange(0, more.len() as int).subrange(
            0,
            found.len() as int,
        ));
        assert(more.subrange(0, found.len() as int) =~= found);
        assert forall|k: int| found.len() <= k < all.len() implies exists|j: int|
            i <= j < nodes.len() && !forked.contains(#[trigger] nodes[j].id) && #[trigger] all[k] == plain_entry(
                nodes[j],
            ) by {
            if k == found.len() {
                assert(all[k] == all.subrange(0, more.len() as int)[k]);
                assert(!forked.contains(nodes[i].id) && all[k] == plain_entry(nodes[i]));
            }
        }
    }
}

// === forks ====================================================================

/// The entry is that of the node which is number `j` of those that share the fork,
/// and reading it gives `content`.
pub open spec fn shows_fork(
    data: Seq<u8>,
    e: EntryView,
    nodes: Seq<NodeView>,
    f: ForkView,
    j: int,
    content: Seq<u8>,
    aids: AidsView,
) -> bool {
    &&& last_with(nodes, f.entries[j]) matches Some(k) && e.name == plain_entry(nodes[k]).name
    &&& e.is_resource_fork == (f.typ == 1)
    &&& e.size == content.len()
    &&& entry_content(data, e, aids) == Ok::<Content, ErrorKind>(Content::Bytes(content))
}

/// The entries are those of the forks from number `i` on, of which the first starts
/// at `offset` of the content of the stream; only data and resource forks have any.
pub open spec fn shows_forks(
    data: Seq<u8>,
    entries: Seq<EntryView>,
    nodes: Seq<NodeView>,
    forks: Seq<Option<ForkView>>,
    i: int,
    offset: int,
    content: Seq<u8>,
    aids: AidsView,
) -> bool
    decreases forks.len() - i,
{
    if i >= forks.len() {
        entries.len() == 0
    } else {
        let f = forks[i]->Some_0;
        let part = content.subrange(offset, offset + f.length);
        if f.typ > 1 {
            shows_forks(data, entries, nodes, forks, i + 1, offset + f.length, content, aids)
        } else {
            let n = f.entries.len() as int;
            &&& n <= entries.len()
            &&& forall|j: int| 0 <= j < n ==> shows_fork(data, #[trigger] entries[j], nodes, f, j, part, aids)
            &&& shows_forks(
                data,
                entries.subrange(n, entries.len() as int),
                nodes,
                forks,
                i + 1,
                offset + f.length,
                content,
                aids,
            )
        }
    }
}

/// The nodes that share the fork are there.
pub open spec fn sharers_known(nodes: Seq<NodeView>, f: ForkView) -> bool {
    forall|j: int| 0 <= j < f.entries.len() ==> last_with(nodes, #[trigger] f.entries[j]) is Some
}

/// The nodes that have a data or resource fork are there.
pub open spec fn all_known(nodes: Seq<NodeView>, forks: Seq<Option<ForkView>>) -> bool {
    forall|i: int|
        0 <= i < forks.len() ==> match #[trigger] forks[i] {
            Some(f) => f.typ <= 1 ==> sharers_known(nodes, f),
            None => true,
        }
}

proof fn sharers_are_added(
    nodes: Seq<NodeView>,
    f: ForkView,
    j: int,
    offset: u64,
    w: Packing,
    found: Seq<EntryView>,
)
    requires
        0 <= j <= f.entries.len(),
        sharers_known(nodes, f),
    ensures
        sharers_from(nodes, f, j, offset, w, found) matches Ok(all) && {
            &&& all.len() == found.len() + f.entries.len() - j
            &&& all.subrange(0, found.len() as int) == found
            &&& forall|t: int|
                found.len() <= t < all.len() ==> {
                    let k = last_with(nodes, f.entries[j + t - found.len()]);
                    k is Some && #[trigger] all[t] == fork_entry(nodes[k->Some_0], f, offset, w)
                }
        },
    decreases f.entries.len() - j,
{
    if j >= f.entries.len() {
        assert(found.subrange(0, found.len() as int) =~= found);
    } else {
        assert(last_with(nodes, f.entries[j]) is Some);
        let k = last_with(nodes, f.entries[j])->Some_0;
        let more = found.push(fork_entry(nodes[k], f, offset, w));
        sharers_are_added(nodes, f, j + 1, offset, w, more);
        let all = sharers_from(nodes, f, j, offset, w, found)->Ok_0;
        assert(all.subrange(0, found.len() as int) =~= all.subrange(0, more.len() as int).subrange(
            0,
            found.len() as int,
        ));
        assert(more.subrange(0, found.len() as int) =~= found);
        assert(all[found.len() as int] == all.subrange(0, more.len() as int)[found.len() as int]);
    }
}

proof fn forks_are_shown(
    data: Seq<u8>,
    nodes: Seq<NodeView>,
    forks: Seq<Option<ForkView>>,
    i: int,
    offset: int,
    w: Packing,
    found: Seq<EntryView>,
    content: Seq<u8>,
    aids: AidsView,
)
    requires
        0 <= i <= forks.len(),
        all_known(nodes, forks),
        0 <= offset,
        content.len() <= u64::MAX,
        total_from(forks, i) matches Some(rest) && offset + rest == content.len(),
        stream_content(data, w.stream, true, aids.dictionary, aids.inflated_at(0)) == Ok::<Content, ErrorKind>(
            Content::Bytes(content),
        ),
    ensures
        forks_from(nodes, forks, i, offset, w, found) matches Ok(all) && {
            &&& found.len() <= all.len()
            &&& all.subrange(0, found.len() as int) == found
            &&& shows_forks(
                data,
                all.subrange(found.len() as int, all.len() as int),
                nodes,
                forks,
                i,
                offset,
                content,
                aids,
            )
        },
    decreases forks.len() - i,
{
    if i >= forks.len() {
        assert(found.subrange(0, found.len() as int) =~= found);
    } else {
        let f = forks[i]->Some_0;
        let next = offset + f.length;
        let part = content.subrange(offset, next);
        if f.typ > 1 {
            forks_are_shown(data, nodes, forks, i + 1, next, w, found, content, aids);
        } else {
            assert(sharers_known(nodes, f));
            sharers_are_added(nodes, f, 0, offset as u64, w, found);
            let more = sharers_from(nodes, f, 0, offset as u64, w, found)->Ok_0;
            forks_are_shown(data, nodes, forks, i + 1, next, w, more, content, aids);
            let all = forks_from(nodes, forks, i, offset, w, found)->Ok_0;
            let k = found.len() as int;
            let n = f.entries.len() as int;
            let mine = all.subrange(k, all.len() as int);
            assert(all.subrange(0, k) =~= all.subrange(0, k + n).subrange(0, k));
            assert(mine.subrange(n, mine.len() as int) =~= all.subrange(k + n, all.len() as int));
            assert forall|j: int| 0 <= j < n implies shows_fork(
                data,
                #[trigger] mine[j],
                nodes,
                f,
                j,
                part,
                aids,
            ) by {
                assert(mine[j] == all.subrange(0, k + n)[k + j]);
                assert(more[k + j] == mine[j]);
            }
        }
    }
}

/// The entries before those of a data element.
pub open spec fn entries_before(p: ParserState) -> Seq<EntryView> {
    match p.forked {
        Some(s) => forkless_from(p.nodes, s, 0, p.output),
        None => p.output,
    }
}

/// Where the blocks of a data element are unpacked, by whatever methods, to its forks
/// one behind the other, with the right checksum if there is one, each node that has a
/// fork there gets an entry under its path, and reading it gives the fork. What was
/// there before stays in front.
pub proof fn packed_forks_are_read_back(
    data: Seq<u8>,
    p: ParserState,
    el: ElementView,
    crc: u32,
    end: int,
    blocks: Seq<u8>,
    unpacked: Seq<u8>,
    content: Seq<u8>,
    aids: AidsView,
)
    requires
        el.algs.len() == 6,
        el.algs[3] < 0,
        el.algs[1] == 0 ==> crc32(content) == crc,
        0 <= el.dataoffset <= usize::MAX,
        block_stream(data, el.dataoffset) == Ok::<Seq<u8>, ErrorKind>(blocks),
        content.len() <= u64::MAX,
        uncompressed(blocks, el.algs[0], machine_size(content.len() as u64), aids.inflated_at(0)) == Ok::<
            Content,
            ErrorKind,
        >(Content::Bytes(unpacked)),
        postprocessed(unpacked, el.algs[2], machine_size(content.len() as u64), aids.dictionary) == Ok::<
            Seq<u8>,
            ErrorKind,
        >(content),
        total_from(forks_of(p.streams, el.attribs[0]), 0) == Some(content.len()),
        all_known(p.nodes, forks_of(p.streams, el.attribs[0])),
    ensures
        data_added(p, el, crc, end) matches Ok(p1) && {
            let before = entries_before(p);
            &&& before.len() <= p1.output.len()
            &&& p1.output.subrange(0, before.len() as int) == before
            &&& shows_forks(
                data,
                p1.output.subrange(before.len() as int, p1.output.len() as int),
                p.nodes,
                forks_of(p.streams, el.attribs[0]),
                0,
                0,
                content,
                aids,
            )
        },
{
    reveal(data_added);
    let forks = forks_of(p.streams, el.attribs[0]);
    let total = content.len();
    let w = packing_of(el, total as u64, crc, end);
    packed_stream_holds_its_content(
        data,
        w.stream,
        blocks,
        unpacked,
        content,
        aids.dictionary,
        aids.inflated_at(0),
    );
    forks_are_shown(data, p.nodes, forks, 0, 0, w, entries_before(p), content, aids);
}

/// The same for forks that are stored as they are.
pub proof fn stored_forks_are_read_back(
    data: Seq<u8>,
    p: ParserState,
    el: ElementView,
    crc: u32,
    end: int,
    content: Seq<u8>,
    aids: AidsView,
)
    requires
        el.algs.len() == 6,
        el.algs[0] == -1,
        el.algs[2] == -1,
        el.algs[3] < 0,
        el.algs[1] == 0 ==> crc32(content) == crc,
        0 <= el.dataoffset <= usize::MAX,
        block_stream(data, el.dataoffset) == Ok::<Seq<u8>, ErrorKind>(content),
        content.len() <= u64::MAX,
        total_from(forks_of(p.streams, el.attribs[0]), 0) == Some(content.len()),
        all_known(p.nodes, forks_of(p.streams, el.attribs[0])),
    ensures
        data_added(p, el, crc, end) matches Ok(p1) && {
            let before = entries_before(p);
            &&& before.len() <= p1.output.len()
            &&& p1.output.subrange(0, before.len() as int) == before
            &&& shows_forks(
                data,
                p1.output.subrange(before.len() as int, p1.output.len() as int),
                p.nodes,
                forks_of(p.streams, el.attribs[0]),
                0,
                0,
                content,
                aids,
            )
        },
{
    stored_bytes_stay(content, machine_size(content.len() as u64), aids.dictionary, aids.inflated_at(0));
    packed_forks_are_read_back(data, p, el, crc, end, content, content, content, aids);
}

// === where the entries come from ==============================================

/// The state and the position after one more element, if it is not the last.
pub open spec fn next_state(data: Seq<u8>, aids: AidsView, q: int, p: ParserState) -> Option<(int, ParserState)> {
    match element_at(data, q, false).0 {
        Err(e) => None,
        Ok((el, q1)) => if el.typ == 0 {
            None
        } else {
            match element_applied(data, q1, el, p, aids) {
                Ok(Next::Parsed(p1, q2)) => Some((8 * byte_pos(q2), p1)),
                _ => None,
            }
        },
    }
}

/// The position and the state after the first `n` elements of an archive.
pub open spec fn state_after(data: Seq<u8>, aids: AidsView, n: nat) -> Option<(int, ParserState)>
    decreases n,
{
    if n == 0 {
        Some((64, nothing_read()))
    } else {
        match state_after(data, aids, (n - 1) as nat) {
            None => None,
            Some((q, p)) => next_state(data, aids, q, p),
        }
    }
}

/// The length of the first `i` forks together.
pub open spec fn length_before(forks: Seq<Option<ForkView>>, i: int) -> int
    decreases i,
{
    if i <= 0 {
        0
    } else {
        length_before(forks, i - 1) + forks[i - 1]->Some_0.length
    }
}

/// A fork of an archive: how many elements come before that of its stream, and its
/// number there.
pub struct Slot {
    pub before: nat,
    pub number: int,
}

/// The stream element in which a fork lies, the state before it, and what the scan of
/// its data finds.
pub struct Source {
    pub p: ParserState,
    pub el: ElementView,
    pub crc: u32,
    pub end: int,
}

pub open spec fn forks_in(s: Source) -> Seq<Option<ForkView>> {
    forks_of(s.p.streams, s.el.attribs[0])
}

/// The element behind the first `n` is a stream.
pub open spec fn source_at(data: Seq<u8>, aids: AidsView, n: nat) -> Option<Source> {
    match state_after(data, aids, n) {
        None => None,
        Some((q, p)) => match element_at(data, q, false).0 {
            Err(e) => None,
            Ok((el, q1)) => match scanned(data, el.dataoffset) {
                Err(e) => None,
                Ok((crc, end)) => if el.typ == 1 {
                    Some(Source { p, el, crc: noted(crc, 0), end })
                } else {
                    None
                },
            },
        },
    }
}

/// The entry is that of one of the nodes that share the fork in the slot: it is as long
/// as the fork, and lies in the stream behind the forks before it.
pub open spec fn lies_in(data: Seq<u8>, aids: AidsView, e: EntryView, at: Slot) -> bool {
    source_at(data, aids, at.before) matches Some(s) && {
        let forks = forks_in(s);
        let f = forks[at.number]->Some_0;
        &&& 0 <= at.number < forks.len()
        &&& forks[at.number] is Some
        &&& f.typ <= 1
        &&& total_from(forks, 0) matches Some(total) && total <= u64::MAX && e.fork == Some(
            ForkExtract {
                stream: stream_of(s.el, total as u64, s.crc),
                solid_offset: length_before(forks, at.number) as u64,
                length: f.length,
            },
        )
        &&& length_before(forks, at.number) <= u64::MAX
        &&& e.size == f.length
        &&& e.is_resource_fork == (f.typ == 1)
        &&& exists|j: int|
            0 <= j < f.entries.len() && last_with(s.p.nodes, #[trigger] f.entries[j]) is Some && e.name == plain_entry(
                s.p.nodes[last_with(s.p.nodes, f.entries[j])->Some_0],
            ).name
    }
}

/// The entry has no fork, or lies in a slot of the archive.
pub open spec fn has_a_place(data: Seq<u8>, aids: AidsView, e: EntryView) -> bool {
    (e.fork is None && e.size == 0) || exists|at: Slot| lies_in(data, aids, e, at)
}

pub open spec fn all_have_places(data: Seq<u8>, aids: AidsView, es: Seq<EntryView>) -> bool {
    forall|i: int| 0 <= i < es.len() ==> has_a_place(data, aids, #[trigger] es[i])
}

proof fn slots_ignore_unknown(data: Seq<u8>, q: int, slots: Seq<i64>, extra: bool, u: bool, v: bool)
    ensures
        slots_from(data, q, slots, extra, u).0 == slots_from(data, q, slots, extra, v).0,
    decreases 8 * data.len() - q,
{
    p2_advances(data, q);
    match p2_at(data, q) {
        Err(e) => {},
        Ok((slot, q1)) => {
            p2_advances(data, q1);
            match p2_at(data, q1) {
                Err(e) => {},
                Ok((x, q2)) => if slot != 0 {
                    p2_advances(data, q2);
                    let known = slot <= slots.len();
                    let next = if known {
                        slots.update(slot - 1, as_signed(x))
                    } else {
                        slots
                    };
                    if extra && slot == 4 {
                        match p2_at(data, q2) {
                            Err(e) => {},
                            Ok((y, q3)) => {
                                slots_ignore_unknown(data, q3, next, extra, u || !known, v || !known);
                            },
                        }
                    } else {
                        slots_ignore_unknown(data, q2, next, extra, u || !known, v || !known);
                    }
                },
            }
        },
    }
}

/// Whether an unknown slot came up before makes no difference to an element.
proof fn element_ignores_unknown(data: Seq<u8>, q: int, u: bool)
    ensures
        element_at(data, q, u).0 == element_at(data, q, false).0,
{
    reveal(element_at);
    match p2_at(data, q + 1) {
        Err(e) => {},
        Ok((typ, q1)) => {
            slots_ignore_unknown(data, q1, absent(10), false, u, false);
            match slots_from(data, q1, absent(10), false, u) {
                (Err(e), x) => {},
                (Ok((attribs, q2)), x) => {
                    let y = slots_from(data, q1, absent(10), false, false).1;
                    slots_ignore_unknown(data, q2, absent(6), true, x, y);
                },
            }
        },
    }
}

proof fn plain_entries_have_places(data: Seq<u8>, aids: AidsView, nodes: Seq<NodeView>, forked: Set<i64>, found: Seq<EntryView>)
    requires
        all_have_places(data, aids, found),
    ensures
        all_have_places(data, aids, forkless_from(nodes, forked, 0, found)),
{
    forkless_entries_are_plain(nodes, forked, 0, found);
    let all = forkless_from(nodes, forked, 0, found);
    assert forall|i: int| 0 <= i < all.len() implies has_a_place(data, aids, #[trigger] all[i]) by {
        if i < found.len() {
            assert(all.subrange(0, found.len() as int)[i] == found[i]);
        }
    }
}

proof fn sharers_have_places(
    data: Seq<u8>,
    aids: AidsView,
    at: Slot,
    j: int,
    total: nat,
    found: Seq<EntryView>,
)
    requires
        all_have_places(data, aids, found),
        0 <= j,
        source_at(data, aids, at.before) matches Some(s) && {
            let forks = forks_in(s);
            &&& 0 <= at.number < forks.len()
            &&& forks[at.number] is Some
            &&& forks[at.number]->Some_0.typ <= 1
            &&& total_from(forks, 0) == Some(total)
            &&& total <= u64::MAX
            &&& length_before(forks, at.number) <= u64::MAX
        },
    ensures
        ({
            let s = source_at(data, aids, at.before)->Some_0;
            let f = forks_in(s)[at.number]->Some_0;
            let offset = length_before(forks_in(s), at.number) as u64;
            sharers_from(s.p.nodes, f, j, offset, packing_of(s.el, total as u64, s.crc, s.end), found) matches Ok(all)
                ==> all_have_places(data, aids, all)
        }),
    decreases forks_in(source_at(data, aids, at.before)->Some_0)[at.number]->Some_0.entries.len() - j,
{
    let s = source_at(data, aids, at.before)->Some_0;
    let f = forks_in(s)[at.number]->Some_0;
    let offset = length_before(forks_in(s), at.number) as u64;
    if j < f.entries.len() {
        match last_with(s.p.nodes, f.entries[j]) {
            None => {},
            Some(k) => {
                let e = fork_entry(s.p.nodes[k], f, offset, packing_of(s.el, total as u64, s.crc, s.end));
                assert(lies_in(data, aids, e, at));
                sharers_have_places(data, aids, at, j + 1, total, found.push(e));
            },
        }
    }
}

proof fn lengths_add_up(forks: Seq<Option<ForkView>>, i: int)
    requires
        0 <= i <= forks.len(),
        total_from(forks, 0) is Some,
    ensures
        total_from(forks, i) is Some,
        length_before(forks, i) + total_from(forks, i)->Some_0 == total_from(forks, 0)->Some_0,
        i < forks.len() ==> forks[i] is Some,
        length_before(forks, i) >= 0,
    decreases i,
{
    if i > 0 {
        lengths_add_up(forks, i - 1);
    }
}

proof fn forks_have_places(data: Seq<u8>, aids: AidsView, n: nat, i: int, total: nat, found: Seq<EntryView>)
    requires
        all_have_places(data, aids, found),
        source_at(data, aids, n) matches Some(s) && {
            &&& 0 <= i <= forks_in(s).len()
            &&& total_from(forks_in(s), 0) == Some(total)
            &&& total <= u64::MAX
        },
    ensures
        ({
            let s = source_at(data, aids, n)->Some_0;
            forks_from(
                s.p.nodes,
                forks_in(s),
                i,
                length_before(forks_in(s), i),
                packing_of(s.el, total as u64, s.crc, s.end),
                found,
            ) matches Ok(all) ==> all_have_places(data, aids, all)
        }),
    decreases forks_in(source_at(data, aids, n)->Some_0).len() - i,
{
    let s = source_at(data, aids, n)->Some_0;
    let forks = forks_in(s);
    if i < forks.len() {
        lengths_add_up(forks, i);
        let f = forks[i]->Some_0;
        let w = packing_of(s.el, total as u64, s.crc, s.end);
        assert(length_before(forks, i + 1) == length_before(forks, i) + f.length);
        if f.typ > 1 {
            forks_have_places(data, aids, n, i + 1, total, found);
        } else {
            let offset = length_before(forks, i) as u64;
            sharers_have_places(data, aids, Slot { before: n, number: i }, 0, total, found);
            match sharers_from(s.p.nodes, f, 0, offset, w, found) {
                Err(e) => {},
                Ok(more) => {
                    forks_have_places(data, aids, n, i + 1, total, more);
                },
            }
        }
    }
}

/// An element adds only entries that have a place.
proof fn element_has_places(data: Seq<u8>, aids: AidsView, n: nat)
    requires
        state_after(data, aids, n) matches Some((q, p)) && all_have_places(data, aids, p.output),
    ensures
        state_after(data, aids, n + 1) matches Some((q, p)) ==> all_have_places(data, aids, p.output),
{
    let (q, p) = state_after(data, aids, n)->Some_0;
    match element_at(data, q, false).0 {
        Err(e) => {},
        Ok((el, q1)) => {
            reveal(element_applied);
            reveal(fork_added);
            reveal(catalog_added);
            if el.typ == 1 {
                match scanned(data, el.dataoffset) {
                    Err(e) => {},
                    Ok((crc, end)) => {
                        reveal(data_added);
                        let s = Source { p, el, crc: noted(crc, 0), end };
                        assert(source_at(data, aids, n) == Some(s));
                        match total_from(forks_in(s), 0) {
                            None => {},
                            Some(total) => if total <= u64::MAX {
                                if let Some(forked) = p.forked {
                                    plain_entries_have_places(data, aids, p.nodes, forked, p.output);
                                }
                                forks_have_places(data, aids, n, 0, total, entries_before(p));
                            },
                        }
                    },
                }
            }
        },
    }
}

proof fn elements_have_places(data: Seq<u8>, aids: AidsView, n: nat, unknown: bool)
    requires
        state_after(data, aids, n) matches Some((q, p)) && q >= 0 && all_have_places(data, aids, p.output),
    ensures
        ({
            let (q, p) = state_after(data, aids, n)->Some_0;
            elements_from(data, q, p, aids, unknown).0 matches Ok(Outcome::Entries(es)) ==> all_have_places(
                data,
                aids,
                es,
            )
        }),
    decreases 8 * data.len() - state_after(data, aids, n)->Some_0.0,
{
    let (q, p) = state_after(data, aids, n)->Some_0;
    element_ignores_unknown(data, q, unknown);
    element_moves(data, q, unknown);
    match element_at(data, q, unknown) {
        (Err(e), u) => {},
        (Ok((el, q1)), u) => if el.typ != 0 {
            application_moves(data, q1, el, p, aids);
            match element_applied(data, q1, el, p, aids) {
                Ok(Next::Parsed(p1, q2)) => {
                    assert(state_after(data, aids, n + 1) == Some((8 * byte_pos(q2), p1)));
                    element_has_places(data, aids, n);
                    elements_have_places(data, aids, n + 1, u);
                },
                _ => {},
            }
        },
    }
}

/// Every entry of an archive has no fork, or lies in its stream behind the forks that
/// come before its own.
pub proof fn every_entry_has_a_place(data: Seq<u8>, aids: AidsView, es: Seq<EntryView>)
    requires
        outcome_of(data, aids) == Ok::<Outcome, ErrorKind>(Outcome::Entries(es)),
    ensures
        all_have_places(data, aids, es),
{
    assert(state_after(data, aids, 0) == Some((64int, nothing_read())));
    elements_have_places(data, aids, 0, false);
}

/// What is read of an entry that lies in a slot is the slice of the content of its
/// stream that starts at the length of the forks before it, and is as long as the entry
/// says.
pub proof fn content_is_a_slice(data: Seq<u8>, aids: AidsView, e: EntryView, at: Slot, helped: AidsView)
    requires
        lies_in(data, aids, e, at),
    ensures
        entry_content(data, e, helped) matches Ok(Content::Bytes(w)) ==> {
            let s = source_at(data, aids, at.before)->Some_0;
            let from = length_before(forks_in(s), at.number);
            let total = total_from(forks_in(s), 0)->Some_0;
            &&& w.len() == e.size
            &&& stream_content(
                data,
                stream_of(s.el, total as u64, s.crc),
                true,
                helped.dictionary,
                helped.inflated_at(0),
            ) matches Ok(Content::Bytes(v)) && from + e.size <= v.len() && w == v.subrange(from, from + e.size)
        },
{
    let s = source_at(data, aids, at.before)->Some_0;
    lengths_add_up(forks_in(s), at.number);
}

/// Entries that lie in the same slot have the same content.
pub proof fn sharers_read_the_same(data: Seq<u8>, aids: AidsView, a: EntryView, b: EntryView, at: Slot, helped: AidsView)
    requires
        lies_in(data, aids, a, at),
        lies_in(data, aids, b, at),
    ensures
        entry_content(data, a, helped) == entry_content(data, b, helped),
        a.size == b.size,
{
}

/// What is read of any entry of an archive is as long as the entry says.
pub proof fn content_has_its_size(data: Seq<u8>, aids: AidsView, es: Seq<EntryView>, idx: int, helped: AidsView)
    requires
        outcome_of(data, aids) == Ok::<Outcome, ErrorKind>(Outcome::Entries(es)),
        0 <= idx,
    ensures
        content_at(data, es, idx, helped) matches Ok(Content::Bytes(w)) ==> idx < es.len() && w.len() == es[idx].size,
{
    every_entry_has_a_place(data, aids, es);
    if idx < es.len() {
        let e = es[idx];
        assert(has_a_place(data, aids, e));
        if e.fork is Some {
            let at = choose|at: Slot| lies_in(data, aids, e, at);
            content_is_a_slice(data, aids, e, at, helped);
        }
    }
}

} // verus!
