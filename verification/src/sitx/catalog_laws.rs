use vstd::prelude::*;
use crate::bits::lsb_value;
use crate::error::ErrorKind;
use crate::sitx::nodes::{
    catalog_applied, marks_link, path_for, strings_passed, tag_applied, tags_from, NodeView,
};
use crate::sitx::p2::{big_endian, byte_pos, bytes_at, written_number_is_read_back};
use crate::sitx::writing::{bytes_end, bytes_stand, number_end, number_stands, written_string_is_read_back};

verus! {

// What a writer says of the files and directories in a catalog is read back.

/// What a catalog says of a node.
pub enum Tag {
    Name(Seq<u8>),
    Modified(u64),
    /// A number without use.
    Word(u32),
    /// The Finder information, under either of its keys.
    Finder { second: bool, info: Seq<u8> },
    /// Permissions and, with them or not, owner and group.
    Mode { mode: u32, owners: Option<(u8, u32, u32)> },
    /// Another number without use.
    Number(u64),
    Created(u64),
    Comment(Seq<u8>),
    /// A list of strings without use.
    Strings(Seq<Seq<u8>>),
    /// A string without use, under either of its keys.
    Text { second: bool, text: Seq<u8> },
}

pub open spec fn tag_key(t: Tag) -> u64 {
    match t {
        Tag::Name(s) => 1,
        Tag::Modified(v) => 2,
        Tag::Word(v) => 3,
        Tag::Finder { second, info } => if second {
            5
        } else {
            4
        },
        Tag::Mode { mode, owners } => 6,
        Tag::Number(v) => 7,
        Tag::Created(v) => 8,
        Tag::Comment(s) => 9,
        Tag::Strings(ss) => 10,
        Tag::Text { second, text } => if second {
            12
        } else {
            11
        },
    }
}

/// The big-endian number of `n` bytes stands at `q`.
pub open spec fn word_stands(data: Seq<u8>, q: int, n: nat, v: nat) -> bool {
    q + 8 * n <= 8 * data.len() && big_endian(data, q, n) == v
}

/// The strings stand at `q`.
pub open spec fn strings_stand(data: Seq<u8>, q: int, ss: Seq<Seq<u8>>) -> bool
    decreases ss.len(),
{
    ss.len() > 0 ==> bytes_stand(data, q, ss[0]) && strings_stand(data, bytes_end(q, ss[0]), ss.drop_first())
}

pub open spec fn strings_end(q: int, ss: Seq<Seq<u8>>) -> int
    decreases ss.len(),
{
    if ss.len() == 0 {
        q
    } else {
        strings_end(bytes_end(q, ss[0]), ss.drop_first())
    }
}

/// What a tag says stands at `q`, behind its key.
pub open spec fn value_stands(data: Seq<u8>, q: int, t: Tag) -> bool {
    match t {
        Tag::Name(s) => bytes_stand(data, q, s),
        Tag::Modified(v) => word_stands(data, q, 8, v as nat),
        Tag::Word(v) => word_stands(data, q, 4, v as nat),
        Tag::Finder { second, info } => {
            &&& info.len() == 32
            &&& q + 256 <= 8 * data.len()
            &&& forall|i: int| 0 <= i < 32 ==> lsb_value(data, q + 8 * i, 8) == #[trigger] info[i]
        },
        Tag::Mode { mode, owners } => {
            &&& q + 8 <= 8 * data.len()
            &&& word_stands(data, q + 8, 4, mode as nat)
            &&& match owners {
                None => lsb_value(data, q, 8) == 0,
                Some((flag, uid, gid)) => {
                    &&& flag != 0
                    &&& lsb_value(data, q, 8) == flag
                    &&& word_stands(data, q + 40, 4, uid as nat)
                    &&& word_stands(data, q + 72, 4, gid as nat)
                },
            }
        },
        Tag::Number(v) => number_stands(data, q, v),
        Tag::Created(v) => word_stands(data, q, 8, v as nat),
        Tag::Comment(s) => bytes_stand(data, q, s),
        Tag::Strings(ss) => {
            &&& ss.len() < u64::MAX
            &&& number_stands(data, q, ss.len() as u64)
            &&& strings_stand(data, number_end(q, ss.len() as u64), ss)
        },
        Tag::Text { second, text } => bytes_stand(data, q, text),
    }
}

/// Where it ends.
pub open spec fn value_end(q: int, t: Tag) -> int {
    match t {
        Tag::Name(s) => bytes_end(q, s),
        Tag::Modified(v) => q + 64,
        Tag::Word(v) => q + 32,
        Tag::Finder { second, info } => q + 256,
        Tag::Mode { mode, owners } => if owners is Some {
            q + 104
        } else {
            q + 40
        },
        Tag::Number(v) => number_end(q, v),
        Tag::Created(v) => q + 64,
        Tag::Comment(s) => bytes_end(q, s),
        Tag::Strings(ss) => strings_end(number_end(q, ss.len() as u64), ss),
        Tag::Text { second, text } => bytes_end(q, text),
    }
}

/// The nodes once a tag has said something of node `i`.
pub open spec fn told(nodes: Seq<NodeView>, i: int, t: Tag) -> Seq<NodeView> {
    let n = nodes[i];
    match t {
        Tag::Name(s) => nodes.update(i, NodeView { path: Some(path_for(nodes, i, s)), ..n }),
        Tag::Modified(v) => nodes.update(i, NodeView { mtime_1601: Some(v), ..n }),
        Tag::Finder { second, info } => nodes.update(
            i,
            if marks_link(info) {
                NodeView { is_link: true, ..n }
            } else {
                NodeView { finder_info: Some(info), ..n }
            },
        ),
        Tag::Mode { mode, owners } => {
            let n1 = NodeView { posix_permissions: Some(mode), ..n };
            nodes.update(
                i,
                match owners {
                    None => n1,
                    Some((flag, uid, gid)) => NodeView { posix_uid: Some(uid), posix_gid: Some(gid), ..n1 },
                },
            )
        },
        Tag::Created(v) => nodes.update(i, NodeView { ctime_1601: Some(v), ..n }),
        Tag::Comment(s) => if s.len() == 0 {
            nodes
        } else {
            nodes.update(i, NodeView { comment: Some(s), ..n })
        },
        _ => nodes,
    }
}

/// The tags of a node stand at `q`, and a 0 behind them.
pub open spec fn tags_stand(data: Seq<u8>, q: int, ts: Seq<Tag>) -> bool
    decreases ts.len(),
{
    if ts.len() == 0 {
        number_stands(data, q, 0)
    } else {
        let q1 = number_end(q, tag_key(ts[0]));
        &&& number_stands(data, q, tag_key(ts[0]))
        &&& value_stands(data, q1, ts[0])
        &&& tags_stand(data, value_end(q1, ts[0]), ts.drop_first())
    }
}

pub open spec fn tags_end(q: int, ts: Seq<Tag>) -> int
    decreases ts.len(),
{
    if ts.len() == 0 {
        number_end(q, 0)
    } else {
        tags_end(value_end(number_end(q, tag_key(ts[0])), ts[0]), ts.drop_first())
    }
}

/// The nodes once the tags have said what they say of node `i`.
pub open spec fn all_told(nodes: Seq<NodeView>, i: int, ts: Seq<Tag>) -> Seq<NodeView>
    decreases ts.len(),
{
    if ts.len() == 0 {
        nodes
    } else {
        all_told(told(nodes, i, ts[0]), i, ts.drop_first())
    }
}

/// The tags of one node after another stand at `q`, each node at a byte boundary.
pub open spec fn catalog_stands(data: Seq<u8>, q: int, all: Seq<Seq<Tag>>) -> bool
    decreases all.len(),
{
    all.len() > 0 ==> tags_stand(data, q, all[0]) && catalog_stands(
        data,
        8 * byte_pos(tags_end(q, all[0])),
        all.drop_first(),
    )
}

/// The nodes from number `i` on once the catalog has said what it says of them.
pub open spec fn catalog_told(nodes: Seq<NodeView>, i: int, all: Seq<Seq<Tag>>) -> Seq<NodeView>
    decreases all.len(),
{
    if all.len() == 0 {
        nodes
    } else {
        catalog_told(all_told(nodes, i, all[0]), i + 1, all.drop_first())
    }
}

// === reading ==================================================================

proof fn strings_are_passed(data: Seq<u8>, q: int, ss: Seq<Seq<u8>>)
    requires
        strings_stand(data, q, ss),
    ensures
        strings_passed(data, q, ss.len()) == Ok::<int, ErrorKind>(strings_end(q, ss)),
    decreases ss.len(),
{
    if ss.len() > 0 {
        written_string_is_read_back(data, q, ss[0]);
        strings_are_passed(data, bytes_end(q, ss[0]), ss.drop_first());
    }
}

proof fn tag_is_read(data: Seq<u8>, q: int, nodes: Seq<NodeView>, i: int, t: Tag)
    requires
        value_stands(data, q, t),
        0 <= i < nodes.len(),
    ensures
        tag_applied(data, q, tag_key(t), nodes, i) == Ok::<(Seq<NodeView>, int), ErrorKind>(
            (told(nodes, i, t), value_end(q, t)),
        ),
{
    reveal(tag_applied);
    match t {
        Tag::Name(s) => {
            written_string_is_read_back(data, q, s);
        },
        Tag::Finder { second, info } => {
            assert(bytes_at(data, q, 32)->Ok_0.0 =~= info);
        },
        Tag::Mode { mode, owners } => {},
        Tag::Number(v) => {
            written_number_is_read_back(data, q, v);
        },
        Tag::Comment(s) => {
            written_string_is_read_back(data, q, s);
        },
        Tag::Strings(ss) => {
            written_number_is_read_back(data, q, ss.len() as u64);
            strings_are_passed(data, number_end(q, ss.len() as u64), ss);
        },
        Tag::Text { second, text } => {
            written_string_is_read_back(data, q, text);
        },
        _ => {},
    }
}

/// What tags say of a node is read back.
pub proof fn written_tags_are_read_back(data: Seq<u8>, q: int, nodes: Seq<NodeView>, i: int, ts: Seq<Tag>)
    requires
        tags_stand(data, q, ts),
        0 <= i < nodes.len(),
    ensures
        tags_from(data, q, nodes, i) == Ok::<(Seq<NodeView>, int), ErrorKind>(
            (all_told(nodes, i, ts), tags_end(q, ts)),
        ),
        all_told(nodes, i, ts).len() == nodes.len(),
    decreases ts.len(),
{
    if ts.len() == 0 {
        written_number_is_read_back(data, q, 0);
    } else {
        let t = ts[0];
        let q1 = number_end(q, tag_key(t));
        written_number_is_read_back(data, q, tag_key(t));
        tag_is_read(data, q1, nodes, i, t);
        written_tags_are_read_back(data, value_end(q1, t), told(nodes, i, t), i, ts.drop_first());
    }
}

/// What a catalog says of the nodes from number `i` on is read back.
pub proof fn written_catalog_is_read_back(data: Seq<u8>, q: int, nodes: Seq<NodeView>, i: int, all: Seq<Seq<Tag>>)
    requires
        catalog_stands(data, q, all),
        0 <= i,
        i + all.len() == nodes.len(),
    ensures
        catalog_applied(data, q, nodes, i, nodes.len() as int) == Ok::<Seq<NodeView>, ErrorKind>(
            catalog_told(nodes, i, all),
        ),
    decreases all.len(),
{
    if all.len() > 0 {
        written_tags_are_read_back(data, q, nodes, i, all[0]);
        written_catalog_is_read_back(
            data,
            8 * byte_pos(tags_end(q, all[0])),
            all_told(nodes, i, all[0]),
            i + 1,
            all.drop_first(),
        );
    }
}

} // verus!
