use vstd::prelude::*;
use crate::catalog::{be16, be32, EntryView, ForkView};
use crate::error::ErrorKind;
use crate::sit5::{
    catalog_of, catalog_of_body, comment_at, comment_end, file_entries, folder_entry, folder_path, hash_at,
    header_of, is_sit5, key_at, list_end, offset_of, path_under, record_advances, record_at, record_rest, records_from,
    resource_at, ForkRecord, Header, Record, BANNER,
};

verus! {

// An archive that is written field by field, each field at its place, opens to entries
// with exactly the values that were written.

/// The big-endian number of the `n` bytes at `at`.
pub open spec fn number(data: Seq<u8>, at: int, n: nat) -> nat
    decreases n,
{
    if n == 0 {
        0
    } else {
        256 * number(data, at, (n - 1) as nat) + data[at + n - 1] as nat
    }
}

/// Numbers of two and of four bytes are big-endian.
pub proof fn numbers_are_big_endian(data: Seq<u8>, at: int)
    ensures
        be16(data, at) == number(data, at, 2),
        be32(data, at) == number(data, at, 4),
{
    reveal(be16);
    reveal(be32);
    reveal_with_fuel(number, 5);
}

// === what is written ==========================================================

/// What a record says of a file or folder besides its name and its forks.
pub struct Stamp {
    pub created: u32,
    pub modified: u32,
    pub file_type: Seq<u8>,
    pub creator: Seq<u8>,
    pub finder_flags: u16,
}

/// A fork: its method, its length, the checksum, the bytes as they are stored, and its key
/// if it is encrypted.
pub struct WrittenFork {
    pub method: u8,
    pub length: u32,
    pub crc: u16,
    pub stored: Seq<u8>,
    pub key: Option<Seq<u8>>,
}

/// A name, the place of the record of the folder that it is in, and a comment. A record of
/// the first version has a longer second block.
pub struct Label {
    pub name: Seq<u8>,
    pub parent: u32,
    pub comment: Option<Seq<u8>>,
    pub first_version: bool,
    pub stamp: Stamp,
}

/// A record: a folder and how many records are in it, the empty record behind a folder, or
/// a file.
pub enum Written {
    Folder { label: Label, children: u16 },
    Gap,
    File { label: Label, encrypted: bool, data: WrittenFork, resource: Option<WrittenFork> },
}

/// How long the key of a fork is, with the byte that tells its length.
pub open spec fn key_size(key: Option<Seq<u8>>) -> int {
    if key is Some {
        6
    } else {
        1
    }
}

/// The key stands at `at`. Of an encrypted file each fork that is not empty has one, of
/// five bytes.
pub open spec fn key_stands(data: Seq<u8>, at: int, encrypted: bool, f: WrittenFork) -> bool {
    &&& at + key_size(f.key) <= data.len()
    &&& f.key is Some <==> encrypted && f.length > 0
    &&& match f.key {
        Some(k) => k.len() == 5 && data[at] == 5 && data.subrange(at + 1, at + 6) == k,
        None => data[at] == 0,
    }
}

/// The first fields of the record at `pos`, up to the length of the name.
pub open spec fn front_stands(data: Seq<u8>, pos: int, folder: bool, encrypted: bool, l: Label) -> bool {
    &&& 0 <= pos
    &&& pos + 48 <= data.len()
    &&& number(data, pos, 4) == 0xa5a5_a5a5
    &&& (data[pos + 4] == 1) == l.first_version
    &&& (data[pos + 9] & 0x40u8 != 0) == folder
    &&& (data[pos + 9] & 0x20u8 != 0) == encrypted
    &&& number(data, pos + 10, 4) == l.stamp.created
    &&& number(data, pos + 14, 4) == l.stamp.modified
    &&& number(data, pos + 26, 4) == l.parent
    &&& number(data, pos + 30, 2) == l.name.len()
}

/// How long a comment is, with its length.
pub open spec fn comment_size(l: Label) -> int {
    match l.comment {
        Some(c) => 4 + c.len() as int,
        None => 0,
    }
}

/// Where the second block starts if the name starts at `p`.
pub open spec fn block_at(p: int, l: Label) -> int {
    p + l.name.len() + comment_size(l)
}

pub open spec fn block_size(l: Label) -> int {
    if l.first_version {
        36
    } else {
        32
    }
}

/// The name of the record at `pos` stands at `p`, then the comment, for which the size of
/// the header makes room, and then the second block.
pub open spec fn back_stands(data: Seq<u8>, pos: int, p: int, l: Label, forked: bool) -> bool {
    let named = p + l.name.len();
    let block = block_at(p, l);
    &&& block + block_size(l) <= data.len()
    &&& data.subrange(p, named) == l.name
    &&& match l.comment {
        Some(c) => named < pos + number(data, pos + 6, 2) && number(data, named, 2) == c.len(),
        None => named >= pos + number(data, pos + 6, 2),
    }
    &&& (number(data, block, 2) % 2 == 1) == forked
    &&& data.subrange(block + 4, block + 8) == l.stamp.file_type
    &&& data.subrange(block + 8, block + 12) == l.stamp.creator
    &&& number(data, block + 12, 2) == l.stamp.finder_flags
}

/// Where the stored forks start of the file whose record is at `pos`.
pub open spec fn body_at(pos: int, w: Written) -> int {
    match w {
        Written::Folder { label, children } => block_at(pos + 48, label) + block_size(label),
        Written::Gap => pos + 48,
        Written::File { label, encrypted, data, resource } => {
            let end = block_at(pos + 47 + key_size(data.key), label) + block_size(label);
            match resource {
                Some(f) => end + 13 + key_size(f.key),
                None => end,
            }
        },
    }
}

pub open spec fn stored_size(r: Option<WrittenFork>) -> int {
    match r {
        Some(f) => f.stored.len() as int,
        None => 0,
    }
}

/// Where the next record starts.
pub open spec fn next_at(pos: int, w: Written) -> int {
    match w {
        Written::File { label, encrypted, data, resource } => body_at(pos, w) + stored_size(resource)
            + data.stored.len(),
        _ => body_at(pos, w),
    }
}

/// The fields of the resource fork stand at `at`.
pub open spec fn resource_stands(data: Seq<u8>, at: int, encrypted: bool, f: WrittenFork) -> bool {
    &&& at + 14 <= data.len()
    &&& number(data, at, 4) == f.length
    &&& number(data, at + 4, 4) == f.stored.len()
    &&& number(data, at + 8, 2) == f.crc
    &&& data[at + 12] == f.method
    &&& key_stands(data, at + 13, encrypted, f)
}

/// The record stands at `pos`, field by field, and the forks behind it.
pub open spec fn record_stands(data: Seq<u8>, pos: int, w: Written) -> bool {
    match w {
        Written::Folder { label, children } => {
            &&& front_stands(data, pos, true, data[pos + 9] & 0x20u8 != 0, label)
            &&& number(data, pos + 34, 4) != 0xffff_ffff
            &&& number(data, pos + 46, 2) == children
            &&& back_stands(data, pos, pos + 48, label, false)
        },
        Written::Gap => {
            &&& 0 <= pos
            &&& pos + 48 <= data.len()
            &&& number(data, pos, 4) == 0xa5a5_a5a5
            &&& data[pos + 9] & 0x40u8 != 0
            &&& number(data, pos + 34, 4) == 0xffff_ffff
        },
        Written::File { label, encrypted, data: d, resource } => {
            let p = pos + 47 + key_size(d.key);
            let end = block_at(p, label) + block_size(label);
            let body = body_at(pos, w);
            &&& front_stands(data, pos, false, encrypted, label)
            &&& number(data, pos + 34, 4) == d.length
            &&& number(data, pos + 38, 4) == d.stored.len()
            &&& number(data, pos + 42, 2) == d.crc
            &&& data[pos + 46] == d.method
            &&& key_stands(data, pos + 47, encrypted, d)
            &&& back_stands(data, pos, p, label, resource is Some)
            &&& resource matches Some(f) ==> resource_stands(data, end, encrypted, f)
            &&& next_at(pos, w) <= data.len()
        },
    }
}

// === what is shown ============================================================

/// The path of `name` in the folder whose record is at `parent`, among the known folders.
pub open spec fn path_of(folders: Map<u32, Seq<u8>>, parent: u32, name: Seq<u8>) -> Seq<u8> {
    if folders.contains_key(parent) && folders[parent].len() > 0 {
        folders[parent] + seq![0x2fu8] + name
    } else {
        name
    }
}

/// The entry of a fork that is stored at `offset`.
pub open spec fn fork_shown(l: Label, path: Seq<u8>, f: WrittenFork, is_resource_fork: bool, offset: int) -> EntryView {
    EntryView {
        name: path,
        is_directory: false,
        is_resource_fork,
        is_encrypted: f.key is Some,
        size: f.length,
        file_type: l.stamp.file_type,
        creator: l.stamp.creator,
        finder_flags: l.stamp.finder_flags,
        creation_date: l.stamp.created,
        modification_date: l.stamp.modified,
        fork: Some(ForkView { offset, stored: f.stored.len() as int, method: f.method, crc: f.crc }),
    }
}

/// The entries of the record at `pos`: one for a folder, none for the empty record, and for
/// a file its resource fork, then its data fork unless it is empty and there is another.
pub open spec fn record_shown(pos: int, folders: Map<u32, Seq<u8>>, w: Written) -> Seq<EntryView> {
    match w {
        Written::Folder { label, children } => seq![
            EntryView {
                name: path_of(folders, label.parent, label.name),
                is_directory: true,
                is_resource_fork: false,
                is_encrypted: false,
                size: 0,
                file_type: label.stamp.file_type,
                creator: label.stamp.creator,
                finder_flags: label.stamp.finder_flags,
                creation_date: label.stamp.created,
                modification_date: label.stamp.modified,
                fork: None,
            },
        ],
        Written::Gap => seq![],
        Written::File { label, encrypted, data, resource } => {
            let path = path_of(folders, label.parent, label.name);
            let at = body_at(pos, w);
            match resource {
                None => seq![fork_shown(label, path, data, false, at)],
                Some(f) => if data.length == 0 {
                    seq![fork_shown(label, path, f, true, at)]
                } else {
                    seq![
                        fork_shown(label, path, f, true, at),
                        fork_shown(label, path, data, false, at + f.stored.len()),
                    ]
                },
            }
        },
    }
}

/// The folders that are known after the record at `pos`; a folder is known by where its
/// record starts.
pub open spec fn folders_after(pos: int, folders: Map<u32, Seq<u8>>, w: Written) -> Map<u32, Seq<u8>> {
    match w {
        Written::Folder { label, children } => folders.insert(
            pos as u32,
            path_of(folders, label.parent, label.name),
        ),
        _ => folders,
    }
}

/// How many records are due after one of `left`.
pub open spec fn due_after(left: nat, w: Written) -> int {
    match w {
        Written::Folder { label, children } => left - 1 + children,
        Written::Gap => left as int,
        Written::File { .. } => left - 1,
    }
}

/// The records stand one behind the other from `pos` on, and none is due behind them.
pub open spec fn records_stand(data: Seq<u8>, pos: int, left: nat, ws: Seq<Written>) -> bool
    decreases ws.len(),
{
    if ws.len() == 0 {
        left == 0
    } else {
        &&& left > 0
        &&& record_stands(data, pos, ws[0])
        &&& records_stand(data, next_at(pos, ws[0]), due_after(left, ws[0]) as nat, ws.drop_first())
    }
}

pub open spec fn records_shown(pos: int, folders: Map<u32, Seq<u8>>, ws: Seq<Written>) -> Seq<EntryView>
    decreases ws.len(),
{
    if ws.len() == 0 {
        seq![]
    } else {
        record_shown(pos, folders, ws[0]) + records_shown(
            next_at(pos, ws[0]),
            folders_after(pos, folders, ws[0]),
            ws.drop_first(),
        )
    }
}

// === records ==================================================================

proof fn first_bit_is_parity(v: u16)
    by (bit_vector)
    ensures
        (v & 1u16 != 0) == (v % 2 == 1),
{
}

proof fn key_is_read(data: Seq<u8>, at: int, encrypted: bool, f: WrittenFork)
    requires
        0 <= at,
        key_stands(data, at, encrypted, f),
    ensures
        key_at(data, at, encrypted, f.length) == Ok::<(bool, int), ErrorKind>((f.key is Some, at + key_size(f.key))),
{
}

/// What the record says of a fork.
pub open spec fn described(f: WrittenFork) -> ForkRecord {
    ForkRecord {
        length: f.length,
        stored: f.stored.len() as u32,
        crc: f.crc,
        method: f.method,
        has_key: f.key is Some,
    }
}

proof fn resource_is_read(data: Seq<u8>, block: int, at: int, encrypted: bool, resource: Option<WrittenFork>)
    requires
        0 <= block,
        0 <= at <= data.len(),
        (number(data, block, 2) % 2 == 1) == (resource is Some),
        resource matches Some(f) ==> resource_stands(data, at, encrypted, f),
    ensures
        resource_at(data, block, at, encrypted) == Ok::<(Option<ForkRecord>, int), ErrorKind>(
            match resource {
                Some(f) => (Some(described(f)), at + 13 + key_size(f.key)),
                None => (None, at),
            },
        ),
{
    numbers_are_big_endian(data, block);
    first_bit_is_parity(be16(data, block));
    numbers_are_big_endian(data, at);
    numbers_are_big_endian(data, at + 4);
    numbers_are_big_endian(data, at + 8);
    if let Some(f) = resource {
        key_is_read(data, at + 13, encrypted, f);
    }
}

/// The record that the fields make up, the name standing at `p`.
spec fn record_of(
    data: Seq<u8>,
    pos: int,
    l: Label,
    folder: bool,
    fork: ForkRecord,
    resource: Option<ForkRecord>,
    body: int,
) -> Record {
    Record {
        name: l.name,
        is_directory: folder,
        numfiles: number(data, pos + 46, 2),
        parent: l.parent,
        creation_date: l.stamp.created,
        modification_date: l.stamp.modified,
        file_type: l.stamp.file_type,
        creator: l.stamp.creator,
        finder_flags: l.stamp.finder_flags,
        data: fork,
        resource,
        body,
    }
}

proof fn rest_is_read(
    data: Seq<u8>,
    pos: int,
    p: int,
    folder: bool,
    encrypted: bool,
    l: Label,
    method: u8,
    has_key: bool,
    resource: Option<WrittenFork>,
)
    requires
        data.len() <= u32::MAX,
        front_stands(data, pos, folder, encrypted, l),
        pos + 48 <= p,
        back_stands(data, pos, p, l, resource is Some),
        resource matches Some(f) ==> resource_stands(data, block_at(p, l) + block_size(l), encrypted, f),
    ensures
        record_rest(data, pos, method, has_key, p) == Ok::<Record, ErrorKind>(
            record_of(
                data,
                pos,
                l,
                folder,
                ForkRecord {
                    length: number(data, pos + 34, 4) as u32,
                    stored: number(data, pos + 38, 4) as u32,
                    crc: number(data, pos + 42, 2) as u16,
                    method,
                    has_key,
                },
                match resource {
                    Some(f) => Some(described(f)),
                    None => None,
                },
                block_at(p, l) + block_size(l) + (match resource {
                    Some(f) => 13 + key_size(f.key),
                    None => 0,
                }),
            ),
        ),
{
    let named = p + l.name.len();
    let block = block_at(p, l);
    numbers_are_big_endian(data, pos + 6);
    numbers_are_big_endian(data, pos + 10);
    numbers_are_big_endian(data, pos + 14);
    numbers_are_big_endian(data, pos + 26);
    numbers_are_big_endian(data, pos + 30);
    numbers_are_big_endian(data, pos + 34);
    numbers_are_big_endian(data, pos + 38);
    numbers_are_big_endian(data, pos + 42);
    numbers_are_big_endian(data, pos + 46);
    numbers_are_big_endian(data, named);
    numbers_are_big_endian(data, block + 12);
    assert(offset_of(pos) == pos);
    assert(comment_end(data, named, offset_of(pos) + be16(data, pos + 6)) == Ok::<int, ErrorKind>(block));
    resource_is_read(data, block, block + block_size(l), encrypted, resource);
}

/// A record that stands in the data field by field is read with exactly these fields.
pub proof fn written_record_is_read(data: Seq<u8>, pos: int, w: Written)
    requires
        data.len() <= u32::MAX,
        record_stands(data, pos, w),
    ensures
        match w {
            Written::Folder { label, children } => record_at(data, pos) matches Ok(Some(r)) && {
                &&& r.is_directory
                &&& r.name == label.name
                &&& r.parent == label.parent
                &&& r.creation_date == label.stamp.created
                &&& r.modification_date == label.stamp.modified
                &&& r.file_type == label.stamp.file_type
                &&& r.creator == label.stamp.creator
                &&& r.finder_flags == label.stamp.finder_flags
                &&& r.numfiles == children
                &&& r.resource is None
                &&& r.body == body_at(pos, w)
            },
            Written::Gap => record_at(data, pos) == Ok::<Option<Record>, ErrorKind>(None),
            Written::File { label, encrypted, data: d, resource } => record_at(data, pos) matches Ok(Some(r)) && {
                &&& !r.is_directory
                &&& r.name == label.name
                &&& r.parent == label.parent
                &&& r.creation_date == label.stamp.created
                &&& r.modification_date == label.stamp.modified
                &&& r.file_type == label.stamp.file_type
                &&& r.creator == label.stamp.creator
                &&& r.finder_flags == label.stamp.finder_flags
                &&& r.data == described(d)
                &&& r.resource == (match resource {
                    Some(f) => Some(described(f)),
                    None => None,
                })
                &&& r.body == body_at(pos, w)
            },
        },
{
    numbers_are_big_endian(data, pos);
    numbers_are_big_endian(data, pos + 34);
    numbers_are_big_endian(data, pos + 38);
    numbers_are_big_endian(data, pos + 42);
    match w {
        Written::Folder { label, children } => {
            rest_is_read(data, pos, pos + 48, true, data[pos + 9] & 0x20u8 != 0, label, 0, false, None);
        },
        Written::Gap => {},
        Written::File { label, encrypted, data: d, resource } => {
            key_is_read(data, pos + 47, encrypted, d);
            let p = pos + 47 + key_size(d.key);
            rest_is_read(data, pos, p, false, encrypted, label, d.method, d.key is Some, resource);
        },
    }
}

proof fn paths_are_joined(folders: Map<u32, Seq<u8>>, parent: u32, name: Seq<u8>)
    ensures
        path_under(folder_path(folders, parent), name) == path_of(folders, parent, name),
{
    if folders.contains_key(parent) {
        let f = folders[parent];
        assert(f.push(0x2fu8) + name =~= f + seq![0x2fu8] + name);
    }
}

proof fn records_are_read(
    data: Seq<u8>,
    pos: int,
    left: nat,
    folders: Map<u32, Seq<u8>>,
    ws: Seq<Written>,
    found: Seq<EntryView>,
)
    requires
        data.len() <= u32::MAX,
        records_stand(data, pos, left, ws),
    ensures
        records_from(data, pos, left, folders, found) matches Ok((all, end)) && all == found + records_shown(
            pos,
            folders,
            ws,
        ),
    decreases ws.len(),
{
    if ws.len() == 0 {
        assert(found + records_shown(pos, folders, ws) =~= found);
    } else {
        let w = ws[0];
        let next = next_at(pos, w);
        let now = record_shown(pos, folders, w);
        let folders1 = folders_after(pos, folders, w);
        let rest = records_shown(next, folders1, ws.drop_first());
        written_record_is_read(data, pos, w);
        record_advances(data, pos);
        records_are_read(data, next, due_after(left, w) as nat, folders1, ws.drop_first(), found + now);
        assert((found + now) + rest =~= found + (now + rest));
        match w {
            Written::Folder { label, children } => {
                let r = record_at(data, pos)->Ok_0->Some_0;
                paths_are_joined(folders, label.parent, label.name);
                assert(found + now =~= found.push(folder_entry(r, path_of(folders, label.parent, label.name))));
                assert(offset_of(pos) == pos as u32);
            },
            Written::Gap => {
                assert(found + now =~= found);
            },
            Written::File { label, encrypted, data: d, resource } => {
                let r = record_at(data, pos)->Ok_0->Some_0;
                paths_are_joined(folders, label.parent, label.name);
                let path = path_of(folders, label.parent, label.name);
                assert(file_entries(r, path) =~= now);
            },
        }
    }
}

// === the archive ==============================================================

/// What the archive header holds besides the number of records and their place: 14 bytes
/// without meaning, a comment in two parts, the password hash, and a list of items of 20
/// bytes.
pub struct Front {
    pub filler: bool,
    pub comment: Option<(u16, u16)>,
    pub hash: Option<Seq<u8>>,
    pub items: Option<u16>,
}

/// The header stands at the start of the archive: `count` records stand from `first` on.
pub open spec fn header_stands(data: Seq<u8>, f: Front, count: nat, first: int) -> bool {
    let flags = data[83];
    let at_comment = 100 + (if f.filler {
        14int
    } else {
        0
    });
    let at_hash = at_comment + (if f.comment is Some {
        4int
    } else {
        0
    });
    let at_items = at_hash + (if f.hash is Some {
        6int
    } else {
        0
    });
    let at_end = at_items + (match f.items {
        Some(n) => 2 + 20 * n,
        None => 0,
    });
    &&& is_sit5(data)
    &&& data[82] == 5
    &&& (flags & 0x10u8 != 0) == f.filler
    &&& (flags & 0x20u8 != 0) == (f.comment is Some)
    &&& (flags & 0x80u8 != 0) == (f.hash is Some)
    &&& (flags & 0x40u8 != 0) == (f.items is Some)
    &&& number(data, 92, 2) == count
    &&& number(data, 94, 4) == first
    &&& f.comment matches Some((a, b)) ==> number(data, at_comment, 2) == a && number(data, at_comment + 2, 2) == b
    &&& f.hash matches Some(h) ==> h.len() == 5 && data[at_hash] == 5 && data.subrange(at_hash + 1, at_hash + 6) == h
    &&& f.items matches Some(n) ==> number(data, at_items, 2) == n
    &&& at_end + (match f.comment {
        Some((a, b)) => a + b,
        None => 0,
    }) <= data.len()
    &&& first <= data.len()
}

/// The header is read: where the records stand, how many are due, and the hash.
pub proof fn written_header_is_read(data: Seq<u8>, f: Front, count: nat, first: int)
    requires
        header_stands(data, f, count, first),
    ensures
        header_of(data) == Ok::<Header, ErrorKind>(Header { numfiles: count, first, hash: f.hash }),
{
    let flags = data[83];
    numbers_are_big_endian(data, 92);
    numbers_are_big_endian(data, 94);
    numbers_are_big_endian(data, 100);
    numbers_are_big_endian(data, 102);
    numbers_are_big_endian(data, 114);
    numbers_are_big_endian(data, 116);
    let p1 = comment_at(data, flags)->Ok_0.1;
    assert(comment_at(data, flags) is Ok);
    let p2 = hash_at(data, flags, p1)->Ok_0.1;
    assert(hash_at(data, flags, p1) is Ok);
    numbers_are_big_endian(data, p2);
    assert(list_end(data, flags, p2) is Ok);
}

/// An archive that is written field by field opens to exactly the entries that its records
/// describe, with the names, dates, types, creators, flags, sizes and places that stand in
/// them.
pub proof fn written_fields_are_read_back(data: Seq<u8>, f: Front, count: nat, first: int, ws: Seq<Written>)
    requires
        data.len() <= u32::MAX,
        header_stands(data, f, count, first),
        records_stand(data, first, count, ws),
    ensures
        catalog_of(data) == Ok::<Seq<EntryView>, ErrorKind>(records_shown(first, Map::empty(), ws)),
        catalog_of_body(data) == Ok::<Seq<EntryView>, ErrorKind>(records_shown(first, Map::empty(), ws)),
{
    written_header_is_read(data, f, count, first);
    records_are_read(data, first, count, Map::empty(), ws, seq![]);
    let shown = records_shown(first, Map::empty(), ws);
    assert(Seq::<EntryView>::empty() + shown =~= shown);
}

/// The characters of `text` stand at `at`.
pub open spec fn text_stands(data: Seq<u8>, at: int, text: Seq<char>) -> bool {
    forall|i: int| 0 <= i < text.len() ==> data[at + i] == #[trigger] text[i] as u32
}

spec fn first_stand(data: Seq<u8>, at: int, text: Seq<char>, n: nat) -> bool
    decreases n,
{
    n > 0 ==> data[at + n - 1] == text[n - 1] as u32 && first_stand(data, at, text, (n - 1) as nat)
}

proof fn all_stand(data: Seq<u8>, at: int, text: Seq<char>, n: nat, i: int)
    requires
        first_stand(data, at, text, n),
        0 <= i < n,
    ensures
        data[at + i] == text[i] as u32,
    decreases n,
{
    if i < n - 1 {
        all_stand(data, at, text, (n - 1) as nat, i);
    }
}

#[verifier::spinoff_prover]
proof fn banner_text()
    ensures
        "StuffIt (c)1997-"@.len() == 16,
        first_stand(BANNER@, 0, "StuffIt (c)1997-"@, 16),
        " Aladdin Systems, Inc., http://www.aladdinsys.com/StuffIt/\r\n"@.len() == 60,
        first_stand(BANNER@, 20, " Aladdin Systems, Inc., http://www.aladdinsys.com/StuffIt/\r\n"@, 60),
        BANNER@[16] == 0xff && BANNER@[17] == 0xff && BANNER@[18] == 0xff && BANNER@[19] == 0xff,
        forall|i: int| 0 <= i < 80 && !(16 <= i < 20) ==> #[trigger] BANNER@[i] != 0xff,
{
    reveal_strlit("StuffIt (c)1997-");
    reveal_strlit(" Aladdin Systems, Inc., http://www.aladdinsys.com/StuffIt/\r\n");
    reveal_with_fuel(first_stand, 61);
}

/// A banner is `StuffIt (c)1997-`, four bytes for another year, and a line that names the
/// maker; with it there is a whole header.
pub proof fn banner_is_the_line(data: Seq<u8>)
    ensures
        is_sit5(data) == ({
            &&& data.len() >= 100
            &&& text_stands(data, 0, "StuffIt (c)1997-"@)
            &&& text_stands(data, 20, " Aladdin Systems, Inc., http://www.aladdinsys.com/StuffIt/\r\n"@)
        }),
{
    reveal(is_sit5);
    banner_text();
    let a = "StuffIt (c)1997-"@;
    let b = " Aladdin Systems, Inc., http://www.aladdinsys.com/StuffIt/\r\n"@;
    assert forall|i: int| 0 <= i < 16 implies BANNER@[i] == #[trigger] a[i] as u32 by {
        all_stand(BANNER@, 0, a, 16, i);
    }
    assert forall|i: int| 0 <= i < 60 implies BANNER@[20 + i] == #[trigger] b[i] as u32 by {
        all_stand(BANNER@, 20, b, 60, i);
    }
    if is_sit5(data) {
        assert forall|i: int| 0 <= i < a.len() implies data[0 + i] == #[trigger] a[i] as u32 by {
            assert(BANNER@[i] == 0xffu8 || BANNER@[i] == data[i]);
        }
        assert forall|i: int| 0 <= i < b.len() implies data[20 + i] == #[trigger] b[i] as u32 by {
            assert(BANNER@[20 + i] == 0xffu8 || BANNER@[20 + i] == data[20 + i]);
        }
    }
    if data.len() >= 100 && text_stands(data, 0, a) && text_stands(data, 20, b) {
        assert forall|i: int| 0 <= i < 80 implies #[trigger] BANNER@[i] == 0xffu8 || BANNER@[i] == data[i] by {
            if i < 16 {
                assert(data[0 + i] == a[i] as u32);
            } else if i >= 20 {
                assert(data[20 + (i - 20)] == b[i - 20] as u32);
            }
        }
    }
}

} // verus!
