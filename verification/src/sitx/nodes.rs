use vstd::prelude::*;
use std::collections::HashMap;
use crate::catalog::append;
use crate::error::ErrorKind;
use crate::sitx::p2::{bits_at, byte_pos, bytes_at, number_at, p2_advances, p2_at, string_at, Reader};

verus! {

// === nodes ====================================================================

/// A file or directory: its number, that of the directory it is in, and what the
/// catalog says of it.
pub struct NodeView {
    pub id: i64,
    pub parent: i64,
    pub is_directory: bool,
    pub path: Option<Seq<u8>>,
    pub is_link: bool,
    pub finder_info: Option<Seq<u8>>,
    pub posix_permissions: Option<u32>,
    pub posix_uid: Option<u32>,
    pub posix_gid: Option<u32>,
    pub mtime_1601: Option<u64>,
    pub ctime_1601: Option<u64>,
    pub comment: Option<Seq<u8>>,
}

/// A node of which only its place is known.
pub open spec fn bare_node(id: i64, parent: i64, is_directory: bool) -> NodeView {
    NodeView {
        id,
        parent,
        is_directory,
        path: None,
        is_link: false,
        finder_info: None,
        posix_permissions: None,
        posix_uid: None,
        posix_gid: None,
        mtime_1601: None,
        ctime_1601: None,
        comment: None,
    }
}

/// The last node with number `id`.
pub open spec fn last_with(nodes: Seq<NodeView>, id: i64) -> Option<int>
    decreases nodes.len(),
{
    if nodes.len() == 0 {
        None
    } else if nodes.last().id == id {
        Some(nodes.len() - 1)
    } else {
        last_with(nodes.drop_last(), id)
    }
}

/// What `last_with` finds has the number, and no later node has.
pub proof fn last_with_is_last(nodes: Seq<NodeView>, id: i64)
    ensures
        match last_with(nodes, id) {
            Some(k) => {
                &&& 0 <= k < nodes.len()
                &&& nodes[k].id == id
                &&& forall|i: int| k < i < nodes.len() ==> (#[trigger] nodes[i]).id != id
            },
            None => forall|i: int| 0 <= i < nodes.len() ==> (#[trigger] nodes[i]).id != id,
        },
    decreases nodes.len(),
{
    if nodes.len() > 0 && nodes.last().id != id {
        last_with_is_last(nodes.drop_last(), id);
        assert(forall|i: int| 0 <= i < nodes.len() - 1 ==> nodes[i] == nodes.drop_last()[i]);
    }
}

/// A node put behind the others is the last with its number.
pub proof fn last_with_push(nodes: Seq<NodeView>, n: NodeView, id: i64)
    ensures
        last_with(nodes.push(n), id) == (if n.id == id {
            Some(nodes.len() as int)
        } else {
            last_with(nodes, id)
        }),
{
    assert(nodes.push(n).drop_last() =~= nodes);
}

/// The number decides alone.
proof fn last_with_update(nodes: Seq<NodeView>, i: int, n: NodeView, id: i64)
    requires
        0 <= i < nodes.len(),
        n.id == nodes[i].id,
    ensures
        last_with(nodes.update(i, n), id) == last_with(nodes, id),
    decreases nodes.len(),
{
    if i == nodes.len() - 1 {
        assert(nodes.update(i, n).drop_last() =~= nodes.drop_last());
    } else {
        assert(nodes.update(i, n).drop_last() =~= nodes.drop_last().update(i, n));
        last_with_update(nodes.drop_last(), i, n, id);
    }
}

/// The path of node `i` under the name `filename`: below that of its directory, if
/// that one is known.
pub open spec fn path_for(nodes: Seq<NodeView>, i: int, filename: Seq<u8>) -> Seq<u8> {
    match last_with(nodes, nodes[i].parent) {
        Some(k) => match nodes[k].path {
            Some(p) => p.push(0x2f) + filename,
            None => filename,
        },
        None => filename,
    }
}

// === the catalog ==============================================================

/// The position after `num` strings.
pub open spec fn strings_passed(data: Seq<u8>, q: int, num: nat) -> Result<int, ErrorKind>
    decreases num,
{
    if num == 0 {
        Ok(q)
    } else {
        match string_at(data, q) {
            Err(e) => Err(e),
            Ok((_s, q1)) => strings_passed(data, q1, (num - 1) as nat),
        }
    }
}

/// The Finder information that marks a symbolic link.
pub open spec fn marks_link(info: Seq<u8>) -> bool {
    info.subrange(0, 8) == seq![0x73u8, 0x6c, 0x6e, 0x6b, 0x72, 0x68, 0x61, 0x70]
}

/// A node with the permissions at `q`, and with the owner and the group behind them if
/// there are any. With it comes the position after them; where the data ends too early,
/// the node has what came before.
pub open spec fn permissions_at(data: Seq<u8>, q: int, n: NodeView) -> (NodeView, Result<int, ErrorKind>) {
    match bits_at(data, q, 8) {
        Err(e) => (n, Err(e)),
        Ok((owned, q1)) => match number_at(data, q1, 4) {
            Err(e) => (n, Err(e)),
            Ok((mode, q2)) => {
                let n1 = NodeView { posix_permissions: Some(mode as u32), ..n };
                if owned == 0 {
                    (n1, Ok(q2))
                } else {
                    match number_at(data, q2, 4) {
                        Err(e) => (n1, Err(e)),
                        Ok((uid, q3)) => {
                            let n2 = NodeView { posix_uid: Some(uid as u32), ..n1 };
                            match number_at(data, q3, 4) {
                                Err(e) => (n2, Err(e)),
                                Ok((gid, q4)) => (NodeView { posix_gid: Some(gid as u32), ..n2 }, Ok(q4)),
                            }
                        },
                    }
                }
            },
        },
    }
}

/// A node with Finder information.
pub open spec fn informed(n: NodeView, info: Seq<u8>) -> NodeView {
    if marks_link(info) {
        NodeView { is_link: true, ..n }
    } else {
        NodeView { finder_info: Some(info), ..n }
    }
}

/// The position after a tag that says nothing of a node.
pub open spec fn tag_passed(data: Seq<u8>, q: int, key: u64) -> Result<int, ErrorKind> {
    if key == 3 {
        match number_at(data, q, 4) {
            Err(e) => Err(e),
            Ok((v, q1)) => Ok(q1),
        }
    } else if key == 7 {
        match p2_at(data, q) {
            Err(e) => Err(e),
            Ok((v, q1)) => Ok(q1),
        }
    } else if key == 10 {
        match p2_at(data, q) {
            Err(e) => Err(e),
            Ok((num, q1)) => strings_passed(data, q1, num as nat),
        }
    } else if key == 11 || key == 12 {
        match string_at(data, q) {
            Err(e) => Err(e),
            Ok((s, q1)) => Ok(q1),
        }
    } else {
        Err(ErrorKind::Unsupported)
    }
}

/// Node `i` with what a tag says of it, and the position after the tag.
#[verifier::opaque]
pub open spec fn tag_applied(data: Seq<u8>, q: int, key: u64, nodes: Seq<NodeView>, i: int) -> Result<
    (Seq<NodeView>, int),
    ErrorKind,
> {
    let n = nodes[i];
    if key == 1 {
        match string_at(data, q) {
            Err(e) => Err(e),
            Ok((s, q1)) => Ok((nodes.update(i, NodeView { path: Some(path_for(nodes, i, s)), ..n }), q1)),
        }
    } else if key == 2 {
        match number_at(data, q, 8) {
            Err(e) => Err(e),
            Ok((v, q1)) => Ok((nodes.update(i, NodeView { mtime_1601: Some(v as u64), ..n }), q1)),
        }
    } else if key == 4 || key == 5 {
        match bytes_at(data, q, 32) {
            Err(e) => Err(e),
            Ok((s, q1)) => Ok((nodes.update(i, informed(n, s)), q1)),
        }
    } else if key == 6 {
        match permissions_at(data, q, n) {
            (_n1, Err(e)) => Err(e),
            (n1, Ok(q1)) => Ok((nodes.update(i, n1), q1)),
        }
    } else if key == 8 {
        match number_at(data, q, 8) {
            Err(e) => Err(e),
            Ok((v, q1)) => Ok((nodes.update(i, NodeView { ctime_1601: Some(v as u64), ..n }), q1)),
        }
    } else if key == 9 {
        match string_at(data, q) {
            Err(e) => Err(e),
            Ok((s, q1)) => Ok(
                (
                    if s.len() == 0 {
                        nodes
                    } else {
                        nodes.update(i, NodeView { comment: Some(s), ..n })
                    },
                    q1,
                ),
            ),
        }
    } else {
        match tag_passed(data, q, key) {
            Err(e) => Err(e),
            Ok(q1) => Ok((nodes, q1)),
        }
    }
}

/// The nodes after a tag of node `i`, be the tag cut short or not.
#[verifier::opaque]
pub open spec fn tag_left(data: Seq<u8>, q: int, key: u64, nodes: Seq<NodeView>, i: int) -> Seq<NodeView> {
    match tag_applied(data, q, key, nodes, i) {
        Ok((nodes1, _q1)) => nodes1,
        Err(e) => if key == 6 {
            nodes.update(i, permissions_at(data, q, nodes[i]).0)
        } else {
            nodes
        },
    }
}

/// Node `i` with what its tags from `q` on say, and the position after them.
pub open spec fn tags_from(data: Seq<u8>, q: int, nodes: Seq<NodeView>, i: int) -> Result<
    (Seq<NodeView>, int),
    ErrorKind,
>
    decreases 8 * data.len() - q,
    via tags_advance
{
    match p2_at(data, q) {
        Err(e) => Err(e),
        Ok((key, q1)) => if key == 0 {
            Ok((nodes, q1))
        } else {
            match tag_applied(data, q1, key, nodes, i) {
                Err(e) => Err(e),
                Ok((nodes1, q2)) => tags_from(data, q2, nodes1, i),
            }
        },
    }
}

/// The nodes after the tags of node `i` from `q` on, be they cut short or not.
pub open spec fn tags_left(data: Seq<u8>, q: int, nodes: Seq<NodeView>, i: int) -> Seq<NodeView>
    decreases 8 * data.len() - q,
    via tags_left_advance
{
    match p2_at(data, q) {
        Err(e) => nodes,
        Ok((key, q1)) => if key == 0 {
            nodes
        } else {
            match tag_applied(data, q1, key, nodes, i) {
                Err(e) => tag_left(data, q1, key, nodes, i),
                Ok((nodes1, q2)) => tags_left(data, q2, nodes1, i),
            }
        },
    }
}

#[via_fn]
proof fn tags_left_advance(data: Seq<u8>, q: int, nodes: Seq<NodeView>, i: int) {
    p2_advances(data, q);
    match p2_at(data, q) {
        Err(e) => {},
        Ok((key, q1)) => {
            tag_moves(data, q1, key, nodes, i);
        },
    }
}

#[via_fn]
proof fn tags_advance(data: Seq<u8>, q: int, nodes: Seq<NodeView>, i: int) {
    p2_advances(data, q);
    match p2_at(data, q) {
        Err(e) => {},
        Ok((key, q1)) => {
            tag_moves(data, q1, key, nodes, i);
        },
    }
}

proof fn string_moves(data: Seq<u8>, q: int)
    ensures
        string_at(data, q) matches Ok((s, p)) ==> q < p <= 8 * data.len(),
{
    p2_advances(data, q);
}

proof fn strings_move(data: Seq<u8>, q: int, num: nat)
    requires
        q <= 8 * data.len(),
    ensures
        strings_passed(data, q, num) matches Ok(p) ==> q <= p <= 8 * data.len(),
    decreases num,
{
    if num > 0 {
        string_moves(data, q);
        match string_at(data, q) {
            Err(e) => {},
            Ok((s, q1)) => {
                strings_move(data, q1, (num - 1) as nat);
            },
        }
    }
}

/// A tag's value ends within the data.
pub(crate) proof fn tag_moves(data: Seq<u8>, q: int, key: u64, nodes: Seq<NodeView>, i: int)
    ensures
        q <= 8 * data.len() ==> (tag_applied(data, q, key, nodes, i) matches Ok((nodes1, p)) ==> q <= p <= 8
            * data.len()),
{
    reveal(tag_applied);
    string_moves(data, q);
    p2_advances(data, q);
    if q <= 8 * data.len() {
        match p2_at(data, q) {
            Err(e) => {},
            Ok((num, q1)) => {
                strings_move(data, q1, num as nat);
            },
        }
    }
}

/// The nodes from number `i` on, of `n`, with what the catalog says of them.
pub open spec fn catalog_applied(data: Seq<u8>, q: int, nodes: Seq<NodeView>, i: int, n: int) -> Result<
    Seq<NodeView>,
    ErrorKind,
>
    decreases n - i,
{
    if i >= n {
        Ok(nodes)
    } else {
        match tags_from(data, q, nodes, i) {
            Err(e) => Err(e),
            Ok((nodes1, q1)) => catalog_applied(data, 8 * byte_pos(q1), nodes1, i + 1, n),
        }
    }
}

/// The nodes after the catalog has told of those from number `i` on, of `n`, be it cut
/// short or not.
pub open spec fn catalog_left(data: Seq<u8>, q: int, nodes: Seq<NodeView>, i: int, n: int) -> Seq<NodeView>
    decreases n - i,
{
    if i >= n {
        nodes
    } else {
        match tags_from(data, q, nodes, i) {
            Err(e) => tags_left(data, q, nodes, i),
            Ok((nodes1, q1)) => catalog_left(data, 8 * byte_pos(q1), nodes1, i + 1, n),
        }
    }
}

// === reading ==================================================================

/// A file or directory that is being assembled.
pub struct EntryBuilder {
    pub id: i64,
    pub parent: i64,
    pub is_directory: bool,
    pub path: Option<Vec<u8>>,
    pub is_link: bool,
    pub finder_info: Option<[u8; 32]>,
    pub posix_permissions: Option<u32>,
    pub posix_uid: Option<u32>,
    pub posix_gid: Option<u32>,
    pub mtime_1601: Option<u64>,
    pub ctime_1601: Option<u64>,
    pub comment: Option<Vec<u8>>,
}

pub open spec fn bytes_held(v: Option<Vec<u8>>) -> Option<Seq<u8>> {
    match v {
        Some(v) => Some(v@),
        None => None,
    }
}

pub open spec fn info_held(v: Option<[u8; 32]>) -> Option<Seq<u8>> {
    match v {
        Some(v) => Some(v@),
        None => None,
    }
}

impl EntryBuilder {
    pub open spec fn view(&self) -> NodeView {
        NodeView {
            id: self.id,
            parent: self.parent,
            is_directory: self.is_directory,
            path: bytes_held(self.path),
            is_link: self.is_link,
            finder_info: info_held(self.finder_info),
            posix_permissions: self.posix_permissions,
            posix_uid: self.posix_uid,
            posix_gid: self.posix_gid,
            mtime_1601: self.mtime_1601,
            ctime_1601: self.ctime_1601,
            comment: bytes_held(self.comment),
        }
    }

    pub fn new(id: i64, parent: i64, is_directory: bool) -> (r: Self)
        ensures
            r.view() == bare_node(id, parent, is_directory),
    {
        EntryBuilder {
            id,
            parent,
            is_directory,
            path: None,
            is_link: false,
            finder_info: None,
            posix_permissions: None,
            posix_uid: None,
            posix_gid: None,
            mtime_1601: None,
            ctime_1601: None,
            comment: None,
        }
    }
}

pub open spec fn node_views(v: Seq<EntryBuilder>) -> Seq<NodeView> {
    Seq::new(v.len(), |i: int| v[i].view())
}

/// The index holds for each number the last node with it.
pub open spec fn index_right(index: Map<i64, usize>, nodes: Seq<NodeView>) -> bool {
    forall|id: i64| #[trigger]
        last_with(nodes, id) == (if index.contains_key(id) {
            Some(index[id] as int)
        } else {
            None
        })
}

/// The last node with number `id`.
pub(crate) fn find_node(index: &HashMap<i64, usize>, nodes: Ghost<Seq<NodeView>>, id: i64) -> (r: Option<usize>)
    requires
        index_right(index@, nodes@),
    ensures
        match r {
            Some(k) => last_with(nodes@, id) == Some(k as int) && k < nodes@.len(),
            None => last_with(nodes@, id) is None,
        },
{
    broadcast use vstd::std_specs::hash::group_hash_axioms;

    proof {
        last_with_is_last(nodes@, id);
    }
    match index.get(&id) {
        Some(k) => Some(*k),
        None => None,
    }
}

fn copy_info(data: &Vec<u8>) -> (r: [u8; 32])
    requires
        data@.len() == 32,
    ensures
        r@ == data@,
{
    let mut info: [u8; 32] = [0; 32];
    let mut i: usize = 0;
    while i < 32
        invariant
            i <= 32,
            data@.len() == 32,
            forall|k: int| 0 <= k < i ==> info@[k] == data@[k],
        decreases 32 - i,
    {
        info[i] = data[i];
        i = i + 1;
    }
    assert(info@ =~= data@);
    info
}

fn is_link_mark(data: &Vec<u8>) -> (r: bool)
    requires
        data@.len() == 32,
    ensures
        r == marks_link(data@),
{
    let r: bool = data[0] == 0x73 && data[1] == 0x6c && data[2] == 0x6e && data[3] == 0x6b && data[4] == 0x72 && data[5]
        == 0x68 && data[6] == 0x61 && data[7] == 0x70;
    proof {
        let mark = seq![0x73u8, 0x6c, 0x6e, 0x6b, 0x72, 0x68, 0x61, 0x70];
        let head = data@.subrange(0, 8);
        assert(forall|i: int| 0 <= i < 8 ==> head[i] == data@[i]);
        if r {
            assert(head =~= mark);
        } else if head == mark {
            assert(head[0] == mark[0] && head[1] == mark[1] && head[2] == mark[2] && head[3] == mark[3] && head[4]
                == mark[4] && head[5] == mark[5] && head[6] == mark[6] && head[7] == mark[7]);
        }
    }
    r
}

/// A node changed in place keeps the index right if it keeps its number.
proof fn index_stays(index: Map<i64, usize>, nodes: Seq<NodeView>, i: int, n: NodeView)
    requires
        index_right(index, nodes),
        0 <= i < nodes.len(),
        n.id == nodes[i].id,
    ensures
        index_right(index, nodes.update(i, n)),
{
    assert forall|id: i64| #[trigger]
        last_with(nodes.update(i, n), id) == (if index.contains_key(id) {
            Some(index[id] as int)
        } else {
            None
        }) by {
        last_with_update(nodes, i, n, id);
    }
}

/// The path of node `i` under the name `filename`.
fn make_path(entries: &Vec<EntryBuilder>, index: &HashMap<i64, usize>, i: usize, filename: Vec<u8>) -> (r: Vec<u8>)
    requires
        i < entries@.len(),
        index_right(index@, node_views(entries@)),
    ensures
        r@ == path_for(node_views(entries@), i as int, filename@),
{
    match find_node(index, Ghost(node_views(entries@)), entries[i].parent) {
        Some(k) => match &entries[k].path {
            Some(p) => {
                let mut path: Vec<u8> = Vec::new();
                append(&mut path, p.as_slice());
                path.push(0x2f);
                append(&mut path, filename.as_slice());
                assert(path@ =~= p@.push(0x2f) + filename@);
                path
            },
            None => filename,
        },
        None => filename,
    }
}

/// Pass `num` strings.
fn skip_strings(r: &mut Reader, num: u64) -> (res: Result<(), ErrorKind>)
    requires
        old(r).wf(),
    ensures
        final(r).wf(),
        final(r).data() == old(r).data(),
        match res {
            Ok(_) => strings_passed(old(r).data(), old(r).at(), num as nat) == Ok::<int, ErrorKind>(final(r).at()),
            Err(e) => strings_passed(old(r).data(), old(r).at(), num as nat) == Err::<int, ErrorKind>(e),
        },
{
    let mut left: u64 = num;
    while left > 0
        invariant
            r.wf(),
            r.data() == old(r).data(),
            strings_passed(r.data(), r.at(), left as nat) == strings_passed(
                old(r).data(),
                old(r).at(),
                num as nat,
            ),
        decreases left,
    {
        match r.read_string() {
            Ok(_) => {},
            Err(e) => {
                return Err(e);
            },
        }
        left = left - 1;
    }
    Ok(())
}

/// Read Finder information into a node.
fn read_info(r: &mut Reader, node: &mut EntryBuilder) -> (res: Result<(), ErrorKind>)
    requires
        old(r).wf(),
    ensures
        final(r).wf(),
        final(r).data() == old(r).data(),
        match bytes_at(old(r).data(), old(r).at(), 32) {
            Ok((s, q)) => {
                &&& res is Ok
                &&& final(node).view() == informed(old(node).view(), s)
                &&& final(r).at() == q
            },
            Err(e) => res == Err::<(), ErrorKind>(e) && *final(node) == *old(node),
        },
{
    let data: Vec<u8> = match r.read_data(32) {
        Ok(v) => v,
        Err(e) => {
            return Err(e);
        },
    };
    if is_link_mark(&data) {
        node.is_link = true;
    } else {
        node.finder_info = Some(copy_info(&data));
    }
    Ok(())
}

/// Read permissions into a node, and with them its owner and group.
fn read_permissions(r: &mut Reader, node: &mut EntryBuilder) -> (res: Result<(), ErrorKind>)
    requires
        old(r).wf(),
    ensures
        final(r).wf(),
        final(r).data() == old(r).data(),
        permissions_at(old(r).data(), old(r).at(), old(node).view()) == (
            final(node).view(),
            match res {
                Ok(_) => Ok(final(r).at()),
                Err(e) => Err(e),
            },
        ),
{
    let owned: u8 = match r.byte() {
        Ok(v) => v,
        Err(e) => {
            return Err(e);
        },
    };
    let mode: u32 = match r.read_u32_be() {
        Ok(v) => v,
        Err(e) => {
            return Err(e);
        },
    };
    node.posix_permissions = Some(mode);
    if owned != 0 {
        let uid: u32 = match r.read_u32_be() {
            Ok(v) => v,
            Err(e) => {
                return Err(e);
            },
        };
        node.posix_uid = Some(uid);
        let gid: u32 = match r.read_u32_be() {
            Ok(v) => v,
            Err(e) => {
                return Err(e);
            },
        };
        node.posix_gid = Some(gid);
    }
    Ok(())
}

/// Pass a tag that says nothing of a node.
fn skip_tag(r: &mut Reader, key: u64) -> (res: Result<(), ErrorKind>)
    requires
        old(r).wf(),
    ensures
        final(r).wf(),
        final(r).data() == old(r).data(),
        tag_passed(old(r).data(), old(r).at(), key) == (match res {
            Ok(_) => Ok(final(r).at()),
            Err(e) => Err(e),
        }),
{
    if key == 3 {
        match r.read_u32_be() {
            Ok(_) => Ok(()),
            Err(e) => Err(e),
        }
    } else if key == 7 {
        match r.read_p2() {
            Ok(_) => Ok(()),
            Err(e) => Err(e),
        }
    } else if key == 10 {
        match r.read_p2() {
            Ok(num) => skip_strings(r, num),
            Err(e) => Err(e),
        }
    } else if key == 11 || key == 12 {
        match r.read_string() {
            Ok(_) => Ok(()),
            Err(e) => Err(e),
        }
    } else {
        Err(ErrorKind::Unsupported)
    }
}

/// Read the value of a tag into a node. The name is not among these tags.
fn read_node_tag(r: &mut Reader, key: u64, node: &mut EntryBuilder, nodes: Ghost<Seq<NodeView>>, i: Ghost<int>) -> (res:
    Result<(), ErrorKind>)
    requires
        old(r).wf(),
        key != 1,
        0 <= i@ < nodes@.len(),
        nodes@[i@] == old(node).view(),
    ensures
        final(r).wf(),
        final(r).data() == old(r).data(),
        final(node).view().id == old(node).view().id,
        nodes@.update(i@, final(node).view()) == tag_left(old(r).data(), old(r).at(), key, nodes@, i@),
        tag_applied(old(r).data(), old(r).at(), key, nodes@, i@) == (match res {
            Ok(_) => Ok((nodes@.update(i@, final(node).view()), final(r).at())),
            Err(e) => Err(e),
        }),
{
    reveal(tag_applied);
    reveal(tag_left);
    assert(nodes@.update(i@, nodes@[i@]) =~= nodes@);
    if key == 2 {
        let v: u64 = match r.read_u64_be() {
            Ok(v) => v,
            Err(e) => {
                return Err(e);
            },
        };
        node.mtime_1601 = Some(v);
        Ok(())
    } else if key == 4 || key == 5 {
        read_info(r, node)
    } else if key == 6 {
        read_permissions(r, node)
    } else if key == 8 {
        let v: u64 = match r.read_u64_be() {
            Ok(v) => v,
            Err(e) => {
                return Err(e);
            },
        };
        node.ctime_1601 = Some(v);
        Ok(())
    } else if key == 9 {
        let s: Vec<u8> = match r.read_string() {
            Ok(v) => v,
            Err(e) => {
                return Err(e);
            },
        };
        if s.len() > 0 {
            node.comment = Some(s);
        }
        Ok(())
    } else {
        skip_tag(r, key)
    }
}

/// Read the name of node `i`.
fn read_name(r: &mut Reader, entries: &mut Vec<EntryBuilder>, index: &HashMap<i64, usize>, i: usize) -> (res: Result<
    (),
    ErrorKind,
>)
    requires
        old(r).wf(),
        i < old(entries)@.len(),
        index_right(index@, node_views(old(entries)@)),
    ensures
        final(r).wf(),
        final(r).data() == old(r).data(),
        final(entries)@.len() == old(entries)@.len(),
        index_right(index@, node_views(final(entries)@)),
        node_views(final(entries)@) == tag_left(old(r).data(), old(r).at(), 1, node_views(old(entries)@), i as int),
        tag_applied(old(r).data(), old(r).at(), 1, node_views(old(entries)@), i as int) == (match res {
            Ok(_) => Ok((node_views(final(entries)@), final(r).at())),
            Err(e) => Err(e),
        }),
{
    reveal(tag_applied);
    reveal(tag_left);
    let ghost nodes = node_views(entries@);
    let name: Vec<u8> = match r.read_string() {
        Ok(v) => v,
        Err(e) => {
            return Err(e);
        },
    };
    let path: Vec<u8> = make_path(entries, index, i, name);
    entries[i].path = Some(path);
    proof {
        index_stays(index@, nodes, i as int, entries@[i as int].view());
        assert(node_views(entries@) =~= nodes.update(i as int, entries@[i as int].view()));
    }
    Ok(())
}

/// Read the value of a tag into node `i`.
fn read_tag(r: &mut Reader, key: u64, entries: &mut Vec<EntryBuilder>, index: &HashMap<i64, usize>, i: usize) -> (res:
    Result<(), ErrorKind>)
    requires
        old(r).wf(),
        i < old(entries)@.len(),
        index_right(index@, node_views(old(entries)@)),
    ensures
        final(r).wf(),
        final(r).data() == old(r).data(),
        final(entries)@.len() == old(entries)@.len(),
        index_right(index@, node_views(final(entries)@)),
        node_views(final(entries)@) == tag_left(old(r).data(), old(r).at(), key, node_views(old(entries)@), i as int),
        tag_applied(old(r).data(), old(r).at(), key, node_views(old(entries)@), i as int) == (match res {
            Ok(_) => Ok((node_views(final(entries)@), final(r).at())),
            Err(e) => Err(e),
        }),
{
    if key == 1 {
        return read_name(r, entries, index, i);
    }
    let ghost nodes = node_views(entries@);
    let res: Result<(), ErrorKind> = read_node_tag(r, key, &mut entries[i], Ghost(nodes), Ghost(i as int));
    proof {
        index_stays(index@, nodes, i as int, entries@[i as int].view());
        assert(node_views(entries@) =~= nodes.update(i as int, entries@[i as int].view()));
    }
    res
}

/// Read the tags of node `i`.
fn read_tags(r: &mut Reader, entries: &mut Vec<EntryBuilder>, index: &HashMap<i64, usize>, i: usize) -> (res: Result<
    (),
    ErrorKind,
>)
    requires
        old(r).wf(),
        i < old(entries)@.len(),
        index_right(index@, node_views(old(entries)@)),
    ensures
        final(r).wf(),
        final(r).data() == old(r).data(),
        final(entries)@.len() == old(entries)@.len(),
        index_right(index@, node_views(final(entries)@)),
        node_views(final(entries)@) == tags_left(old(r).data(), old(r).at(), node_views(old(entries)@), i as int),
        match res {
            Ok(_) => tags_from(old(r).data(), old(r).at(), node_views(old(entries)@), i as int) == Ok::<
                (Seq<NodeView>, int),
                ErrorKind,
            >((node_views(final(entries)@), final(r).at())),
            Err(e) => tags_from(old(r).data(), old(r).at(), node_views(old(entries)@), i as int) == Err::<
                (Seq<NodeView>, int),
                ErrorKind,
            >(e),
        },
{
    loop
        invariant
            r.wf(),
            r.data() == old(r).data(),
            entries@.len() == old(entries)@.len(),
            i < entries@.len(),
            index_right(index@, node_views(entries@)),
            tags_left(r.data(), r.at(), node_views(entries@), i as int) == tags_left(
                old(r).data(),
                old(r).at(),
                node_views(old(entries)@),
                i as int,
            ),
            tags_from(r.data(), r.at(), node_views(entries@), i as int) == tags_from(
                old(r).data(),
                old(r).at(),
                node_views(old(entries)@),
                i as int,
            ),
        decreases 8 * r.data().len() - r.at(),
    {
        let key: u64 = match r.read_p2() {
            Ok(v) => v,
            Err(e) => {
                return Err(e);
            },
        };
        if key == 0 {
            return Ok(());
        }
        proof {
            tag_moves(r.data(), r.at(), key, node_views(entries@), i as int);
        }
        match read_tag(r, key, entries, index, i) {
            Ok(_) => {},
            Err(e) => {
                return Err(e);
            },
        }
    }
}

/// Read what a catalog says of the nodes. Where it is cut short, they have what came
/// before.
pub fn parse_catalog(catalog: &[u8], entries: &mut Vec<EntryBuilder>, index: &HashMap<i64, usize>) -> (res: Result<
    (),
    ErrorKind,
>)
    requires
        index_right(index@, node_views(old(entries)@)),
    ensures
        final(entries)@.len() == old(entries)@.len(),
        index_right(index@, node_views(final(entries)@)),
        node_views(final(entries)@) == catalog_left(
            catalog@,
            0,
            node_views(old(entries)@),
            0,
            old(entries)@.len() as int,
        ),
        match res {
            Ok(_) => catalog_applied(catalog@, 0, node_views(old(entries)@), 0, old(entries)@.len() as int) == Ok::<
                Seq<NodeView>,
                ErrorKind,
            >(node_views(final(entries)@)),
            Err(e) => catalog_applied(catalog@, 0, node_views(old(entries)@), 0, old(entries)@.len() as int) == Err::<
                Seq<NodeView>,
                ErrorKind,
            >(e),
        },
{
    let mut r = Reader::new(catalog);
    let mut i: usize = 0;
    while i < entries.len()
        invariant
            i <= entries@.len() == old(entries)@.len(),
            r.wf(),
            r.data() == catalog@,
            index_right(index@, node_views(entries@)),
            catalog_left(catalog@, r.at(), node_views(entries@), i as int, entries@.len() as int) == catalog_left(
                catalog@,
                0,
                node_views(old(entries)@),
                0,
                old(entries)@.len() as int,
            ),
            catalog_applied(catalog@, r.at(), node_views(entries@), i as int, entries@.len() as int)
                == catalog_applied(catalog@, 0, node_views(old(entries)@), 0, old(entries)@.len() as int),
        decreases entries@.len() - i,
    {
        match read_tags(&mut r, entries, index, i) {
            Ok(_) => {},
            Err(e) => {
                return Err(e);
            },
        }
        r.flush();
        i = i + 1;
    }
    Ok(())
}

} // verus!
