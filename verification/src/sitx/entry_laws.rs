use vstd::prelude::*;
use crate::error::ErrorKind;
use crate::sitx::archive::{
    application_moves, catalog_added, data_added, element_applied, elements_from, fork_added, fork_entry, forkless_from,
    forks_from, forks_of, nothing_read, outcome_of, packing_of, plain_entry, sharers_from, size_in, stream_of,
    total_from, AidsView, EntryView, ForkView, Next, Outcome, Packing, ParserState,
};
use crate::sitx::elements::{element_at, element_moves, noted, scanned, ElementView};
use crate::sitx::nodes::{
    catalog_applied, last_with, last_with_is_last, permissions_at, tag_applied, tag_moves, tags_from, NodeView,
};
use crate::sitx::p2::{byte_pos, p2_advances, p2_at};
use crate::sitx::stream::{stream_content, Content};

verus! {

// What holds of the entries of every archive.

/// A comment is not empty, and an owner comes with a group and with permissions.
pub open spec fn node_sound(n: NodeView) -> bool {
    &&& n.comment matches Some(c) ==> c.len() > 0
    &&& n.posix_uid is Some <==> n.posix_gid is Some
    &&& n.posix_uid is Some ==> n.posix_permissions is Some
}

pub open spec fn nodes_sound(nodes: Seq<NodeView>) -> bool {
    forall|i: int| 0 <= i < nodes.len() ==> node_sound(#[trigger] nodes[i])
}

/// The same of an entry.
pub open spec fn entry_sound(e: EntryView) -> bool {
    &&& e.comment matches Some(c) ==> c.len() > 0
    &&& e.posix_uid is Some <==> e.posix_gid is Some
    &&& e.posix_uid is Some ==> e.posix_permissions is Some
}

pub open spec fn entries_sound(es: Seq<EntryView>) -> bool {
    forall|i: int| 0 <= i < es.len() ==> entry_sound(#[trigger] es[i])
}

/// No entry with a fork comes before one without.
pub open spec fn forkless_first(es: Seq<EntryView>) -> bool {
    forall|i: int, j: int|
        0 <= i < j < es.len() && (#[trigger] es[j]).fork is None ==> (#[trigger] es[i]).fork is None
}

/// What holds between two elements. As long as the nodes that have forks are noted,
/// nothing is listed.
pub open spec fn state_sound(p: ParserState) -> bool {
    &&& nodes_sound(p.nodes)
    &&& entries_sound(p.output)
    &&& forkless_first(p.output)
    &&& p.forked is Some ==> p.output.len() == 0
}

proof fn tag_keeps_soundness(data: Seq<u8>, q: int, key: u64, nodes: Seq<NodeView>, i: int)
    requires
        nodes_sound(nodes),
        0 <= i < nodes.len(),
    ensures
        tag_applied(data, q, key, nodes, i) matches Ok((nodes1, p)) ==> nodes_sound(nodes1) && nodes1.len()
            == nodes.len(),
{
    reveal(tag_applied);
    let n = nodes[i];
    assert(node_sound(n));
    if key == 6 {
        assert(permissions_at(data, q, n).1 is Ok ==> node_sound(permissions_at(data, q, n).0));
    }
}

proof fn tags_keep_soundness(data: Seq<u8>, q: int, nodes: Seq<NodeView>, i: int)
    requires
        nodes_sound(nodes),
        0 <= i < nodes.len(),
    ensures
        tags_from(data, q, nodes, i) matches Ok((nodes1, p)) ==> nodes_sound(nodes1) && nodes1.len() == nodes.len(),
    decreases 8 * data.len() - q,
{
    p2_advances(data, q);
    match p2_at(data, q) {
        Err(e) => {},
        Ok((key, q1)) => if key != 0 {
            tag_moves(data, q1, key, nodes, i);
            tag_keeps_soundness(data, q1, key, nodes, i);
            match tag_applied(data, q1, key, nodes, i) {
                Err(e) => {},
                Ok((nodes1, q2)) => {
                    tags_keep_soundness(data, q2, nodes1, i);
                },
            }
        },
    }
}

proof fn catalog_keeps_soundness(data: Seq<u8>, q: int, nodes: Seq<NodeView>, i: int, n: int)
    requires
        nodes_sound(nodes),
        0 <= i,
        n == nodes.len(),
    ensures
        catalog_applied(data, q, nodes, i, n) matches Ok(nodes1) ==> nodes_sound(nodes1),
    decreases n - i,
{
    if i < n {
        tags_keep_soundness(data, q, nodes, i);
        match tags_from(data, q, nodes, i) {
            Err(e) => {},
            Ok((nodes1, q1)) => {
                catalog_keeps_soundness(data, 8 * byte_pos(q1), nodes1, i + 1, n);
            },
        }
    }
}

proof fn plain_entries_are_sound(nodes: Seq<NodeView>, forked: Set<i64>, i: int, found: Seq<EntryView>)
    requires
        nodes_sound(nodes),
        entries_sound(found),
        forall|k: int| 0 <= k < found.len() ==> (#[trigger] found[k]).fork is None,
        0 <= i,
    ensures
        ({
            let all = forkless_from(nodes, forked, i, found);
            entries_sound(all) && forall|k: int| 0 <= k < all.len() ==> (#[trigger] all[k]).fork is None
        }),
    decreases nodes.len() - i,
{
    if i < nodes.len() {
        if forked.contains(nodes[i].id) {
            plain_entries_are_sound(nodes, forked, i + 1, found);
        } else {
            assert(node_sound(nodes[i]));
            plain_entries_are_sound(nodes, forked, i + 1, found.push(plain_entry(nodes[i])));
        }
    }
}

proof fn sharers_are_sound(nodes: Seq<NodeView>, f: ForkView, j: int, offset: u64, w: Packing, found: Seq<EntryView>)
    requires
        nodes_sound(nodes),
        entries_sound(found),
        forkless_first(found),
        0 <= j,
    ensures
        sharers_from(nodes, f, j, offset, w, found) matches Ok(all) ==> entries_sound(all) && forkless_first(all),
    decreases f.entries.len() - j,
{
    if j < f.entries.len() {
        last_with_is_last(nodes, f.entries[j]);
        match last_with(nodes, f.entries[j]) {
            None => {},
            Some(k) => {
                assert(node_sound(nodes[k]));
                sharers_are_sound(nodes, f, j + 1, offset, w, found.push(fork_entry(nodes[k], f, offset, w)));
            },
        }
    }
}

proof fn forks_are_sound(
    nodes: Seq<NodeView>,
    forks: Seq<Option<ForkView>>,
    i: int,
    offset: int,
    w: Packing,
    found: Seq<EntryView>,
)
    requires
        nodes_sound(nodes),
        entries_sound(found),
        forkless_first(found),
        0 <= i,
    ensures
        forks_from(nodes, forks, i, offset, w, found) matches Ok(all) ==> entries_sound(all) && forkless_first(all),
    decreases forks.len() - i,
{
    if i < forks.len() {
        match forks[i] {
            None => {},
            Some(f) => if f.typ > 1 {
                forks_are_sound(nodes, forks, i + 1, offset + f.length, w, found);
            } else {
                sharers_are_sound(nodes, f, 0, offset as u64, w, found);
                match sharers_from(nodes, f, 0, offset as u64, w, found) {
                    Err(e) => {},
                    Ok(more) => {
                        forks_are_sound(nodes, forks, i + 1, offset + f.length, w, more);
                    },
                }
            },
        }
    }
}

proof fn data_keeps_soundness(p: ParserState, el: ElementView, crc: u32, end: int)
    requires
        state_sound(p),
    ensures
        data_added(p, el, crc, end) matches Ok(p1) ==> state_sound(p1),
{
    reveal(data_added);
    let forks = forks_of(p.streams, el.attribs[0]);
    if let Some(total) = total_from(forks, 0) {
        let before = match p.forked {
            Some(s) => forkless_from(p.nodes, s, 0, p.output),
            None => p.output,
        };
        if let Some(s) = p.forked {
            plain_entries_are_sound(p.nodes, s, 0, p.output);
        }
        forks_are_sound(p.nodes, forks, 0, 0, packing_of(el, total as u64, crc, end), before);
    }
}

proof fn element_keeps_soundness(data: Seq<u8>, q: int, el: ElementView, p: ParserState, aids: AidsView)
    requires
        state_sound(p),
    ensures
        element_applied(data, q, el, p, aids) matches Ok(Next::Parsed(p1, q1)) ==> state_sound(p1),
{
    reveal(element_applied);
    if el.typ == 1 {
        if let Ok((crc, end)) = scanned(data, el.dataoffset) {
            data_keeps_soundness(p, el, noted(crc, 0), end);
        }
    } else if el.typ == 3 {
        reveal(fork_added);
    } else if el.typ == 5 {
        reveal(catalog_added);
        if let Ok((crc, end)) = scanned(data, el.dataoffset) {
            let desc = stream_of(el, size_in(el.attribs[4]), noted(crc, 0));
            if let Ok(Content::Bytes(catalog)) = stream_content(
                data,
                desc,
                false,
                aids.dictionary,
                aids.inflated_at(p.inflated),
            ) {
                catalog_keeps_soundness(catalog, 0, p.nodes, 0, p.nodes.len() as int);
            }
        }
    }
}

proof fn elements_keep_soundness(data: Seq<u8>, q: int, p: ParserState, aids: AidsView, unknown: bool)
    requires
        0 <= q,
        state_sound(p),
    ensures
        elements_from(data, q, p, aids, unknown).0 matches Ok(Outcome::Entries(es)) ==> entries_sound(es)
            && forkless_first(es),
    decreases 8 * data.len() - q,
{
    element_moves(data, q, unknown);
    match element_at(data, q, unknown) {
        (Err(e), u) => {},
        (Ok((el, q1)), u) => if el.typ != 0 {
            application_moves(data, q1, el, p, aids);
            element_keeps_soundness(data, q1, el, p, aids);
            match element_applied(data, q1, el, p, aids) {
                Ok(Next::Parsed(p1, q2)) => {
                    elements_keep_soundness(data, 8 * byte_pos(q2), p1, aids, u);
                },
                _ => {},
            }
        },
    }
}

/// The entries without a fork come first. No comment is empty. An owner and a group come
/// together, and only with permissions.
pub proof fn entries_are_sound(data: Seq<u8>, aids: AidsView, es: Seq<EntryView>)
    requires
        outcome_of(data, aids) == Ok::<Outcome, ErrorKind>(Outcome::Entries(es)),
    ensures
        forkless_first(es),
        entries_sound(es),
{
    elements_keep_soundness(data, 64, nothing_read(), aids, false);
}

} // verus!
