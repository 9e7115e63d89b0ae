use vstd::prelude::*;
use crate::catalog::{be16, be32, EntryView, ForkView};
use crate::checksum::crc16;
use crate::error::ErrorKind;
use crate::sit5_writing::{number, numbers_are_big_endian, Stamp, WrittenFork};
use crate::stuffit::{
    catalog_from, catalog_of, data_entry, file_entries, folder_entry, folder_prefix, is_stuffit, marks, path_in,
    record_name, resource_entry, END_FOLDER, START_FOLDER,
};

verus! {

// An archive that is written field by field, each field at its place, opens to entries
// with exactly the values that were written.

/// A record: a folder, the end of one, or a file. A folder may say that it holds encrypted
/// items.
pub enum Written {
    Folder { name: Seq<u8>, stamp: Stamp, encrypted: bool },
    End,
    File { name: Seq<u8>, stamp: Stamp, resource: WrittenFork, data: WrittenFork },
}

/// The fork is encrypted.
pub open spec fn is_locked(f: WrittenFork) -> bool {
    f.method & 0x80u8 != 0
}

/// The method, its two flags aside, is that of a folder, or of the end of one.
pub open spec fn method_is(m: u8, v: u8) -> bool {
    m & 0x6fu8 == v
}

/// The record at `pos` is whole, and its checksum, of the first 110 bytes, is right.
pub open spec fn record_is_whole(data: Seq<u8>, pos: int) -> bool {
    &&& 0 <= pos
    &&& pos + 112 <= data.len()
    &&& crc16(data.subrange(pos, pos + 110)) == number(data, pos + 110, 2)
}

/// The name, the type, the creator, the flags and the dates.
pub open spec fn label_stands(data: Seq<u8>, pos: int, name: Seq<u8>, s: Stamp) -> bool {
    &&& name.len() <= 31
    &&& data[pos + 2] == name.len() || (name.len() == 31 && data[pos + 2] > 31)
    &&& data.subrange(pos + 3, pos + 3 + name.len()) == name
    &&& data.subrange(pos + 66, pos + 70) == s.file_type
    &&& data.subrange(pos + 70, pos + 74) == s.creator
    &&& number(data, pos + 74, 2) == s.finder_flags
    &&& number(data, pos + 76, 4) == s.created
    &&& number(data, pos + 80, 4) == s.modified
}

/// The record stands at `pos`, field by field.
pub open spec fn record_stands(data: Seq<u8>, pos: int, w: Written) -> bool {
    let r = data[pos];
    let d = data[pos + 1];
    &&& record_is_whole(data, pos)
    &&& match w {
        Written::Folder { name, stamp, encrypted } => {
            &&& label_stands(data, pos, name, stamp)
            &&& method_is(r, 0x20) || method_is(d, 0x20)
            &&& encrypted == (r & 0x10u8 != 0 || d & 0x10u8 != 0)
        },
        Written::End => {
            &&& method_is(r, 0x21) || method_is(d, 0x21)
            &&& !method_is(r, 0x20) && !method_is(d, 0x20)
        },
        Written::File { name, stamp, resource, data: f } => {
            &&& label_stands(data, pos, name, stamp)
            &&& !method_is(r, 0x20) && !method_is(r, 0x21)
            &&& !method_is(d, 0x20) && !method_is(d, 0x21)
            &&& r == resource.method
            &&& d == f.method
            &&& number(data, pos + 84, 4) == resource.length
            &&& number(data, pos + 88, 4) == f.length
            &&& number(data, pos + 92, 4) == resource.stored.len()
            &&& number(data, pos + 96, 4) == f.stored.len()
            &&& number(data, pos + 100, 2) == resource.crc
            &&& number(data, pos + 102, 2) == f.crc
        },
    }
}

/// Where the next record starts: the stored forks stand behind the record.
pub open spec fn next_at(pos: int, w: Written) -> int {
    match w {
        Written::File { name, stamp, resource, data } => pos + 112 + resource.stored.len() + data.stored.len(),
        _ => pos + 112,
    }
}

/// The path of `name` in the folders that are open, the outermost first.
pub open spec fn path_of(folders: Seq<Seq<u8>>, name: Seq<u8>) -> Seq<u8>
    decreases folders.len(),
{
    if folders.len() == 0 {
        name
    } else {
        folders[0] + seq![0x2fu8] + path_of(folders.drop_first(), name)
    }
}

pub open spec fn fork_shown(
    path: Seq<u8>,
    s: Stamp,
    f: WrittenFork,
    is_resource_fork: bool,
    offset: int,
) -> EntryView {
    EntryView {
        name: path,
        is_directory: false,
        is_resource_fork,
        is_encrypted: is_locked(f),
        size: f.length,
        file_type: s.file_type,
        creator: s.creator,
        finder_flags: s.finder_flags,
        creation_date: s.created,
        modification_date: s.modified,
        fork: Some(ForkView { offset, stored: f.stored.len() as int, method: f.method, crc: f.crc }),
    }
}

/// The entries of the record at `pos`: one for a folder, none for its end, and for a file
/// those of its forks that are not empty, the resource fork first; if both are, that of the
/// data fork.
pub open spec fn record_shown(pos: int, folders: Seq<Seq<u8>>, w: Written) -> Seq<EntryView> {
    match w {
        Written::Folder { name, stamp, encrypted } => seq![
            EntryView {
                name: path_of(folders, name),
                is_directory: true,
                is_resource_fork: false,
                is_encrypted: encrypted,
                size: 0,
                file_type: stamp.file_type,
                creator: stamp.creator,
                finder_flags: stamp.finder_flags,
                creation_date: stamp.created,
                modification_date: stamp.modified,
                fork: None,
            },
        ],
        Written::End => seq![],
        Written::File { name, stamp, resource, data } => {
            let path = path_of(folders, name);
            let r = fork_shown(path, stamp, resource, true, pos + 112);
            let d = fork_shown(path, stamp, data, false, pos + 112 + resource.stored.len());
            if resource.length == 0 {
                seq![d]
            } else if data.length == 0 {
                seq![r]
            } else {
                seq![r, d]
            }
        },
    }
}

/// The folders that are open after the record.
pub open spec fn folders_after(folders: Seq<Seq<u8>>, w: Written) -> Seq<Seq<u8>> {
    match w {
        Written::Folder { name, stamp, encrypted } => folders.push(name),
        Written::End => if folders.len() > 0 {
            folders.drop_last()
        } else {
            folders
        },
        Written::File { .. } => folders,
    }
}

/// The records stand one behind the other from `pos` on, and behind the last there is no
/// room for another before `end`.
pub open spec fn records_stand(data: Seq<u8>, pos: int, end: int, ws: Seq<Written>) -> bool
    decreases ws.len(),
{
    if ws.len() == 0 {
        pos + 112 > end
    } else {
        &&& pos + 112 <= end
        &&& record_stands(data, pos, ws[0])
        &&& records_stand(data, next_at(pos, ws[0]), end, ws.drop_first())
    }
}

pub open spec fn records_shown(pos: int, folders: Seq<Seq<u8>>, ws: Seq<Written>) -> Seq<EntryView>
    decreases ws.len(),
{
    if ws.len() == 0 {
        seq![]
    } else {
        record_shown(pos, folders, ws[0]) + records_shown(
            next_at(pos, ws[0]),
            folders_after(folders, ws[0]),
            ws.drop_first(),
        )
    }
}

// === reading ==================================================================

proof fn number_within(data: Seq<u8>, pos: int, end: int, at: int, n: nat)
    requires
        0 <= pos <= end <= data.len(),
        0 <= at,
        pos + at + n <= end,
    ensures
        number(data.subrange(pos, end), at, n) == number(data, pos + at, n),
    decreases n,
{
    if n > 0 {
        number_within(data, pos, end, at, (n - 1) as nat);
    }
}

pub(crate) proof fn fields_within(data: Seq<u8>, pos: int, at: int)
    requires
        0 <= pos,
        pos + 112 <= data.len(),
        0 <= at,
    ensures
        at + 2 <= 112 ==> be16(data.subrange(pos, pos + 112), at) == number(data, pos + at, 2),
        at + 4 <= 112 ==> be32(data.subrange(pos, pos + 112), at) == number(data, pos + at, 4),
{
    let h = data.subrange(pos, pos + 112);
    numbers_are_big_endian(h, at);
    if at + 2 <= 112 {
        number_within(data, pos, pos + 112, at, 2);
    }
    if at + 4 <= 112 {
        number_within(data, pos, pos + 112, at, 4);
    }
}

proof fn path_from_the_front(folders: Seq<Seq<u8>>, name: Seq<u8>)
    ensures
        path_in(folders, name) == path_of(folders, name),
    decreases folders.len(),
{
    if folders.len() == 0 {
        assert(path_in(folders, name) =~= name);
    } else {
        let last = folders.last();
        let front = folders.drop_last();
        path_from_the_front(front, last + seq![0x2fu8] + name);
        path_behind(front, last, name);
        assert(front.push(last) =~= folders);
        assert(path_in(folders, name) =~= folder_prefix(front) + (last + seq![0x2fu8] + name));
    }
}

proof fn path_behind(front: Seq<Seq<u8>>, last: Seq<u8>, name: Seq<u8>)
    ensures
        path_of(front.push(last), name) == path_of(front, last + seq![0x2fu8] + name),
    decreases front.len(),
{
    let all = front.push(last);
    if front.len() == 0 {
        assert(all.drop_first() =~= Seq::<Seq<u8>>::empty());
        reveal_with_fuel(path_of, 2);
        assert(path_of(all.drop_first(), name) == name);
        assert(all[0] == last);
    } else {
        assert(all.drop_first() =~= front.drop_first().push(last));
        path_behind(front.drop_first(), last, name);
    }
}

/// What the record says besides its forks is read.
proof fn label_is_read(data: Seq<u8>, pos: int, name: Seq<u8>, s: Stamp)
    requires
        record_is_whole(data, pos),
        label_stands(data, pos, name, s),
    ensures
        ({
            let h = data.subrange(pos, pos + 112);
            &&& record_name(h) == name
            &&& h.subrange(66, 70) == s.file_type
            &&& h.subrange(70, 74) == s.creator
            &&& be16(h, 74) == s.finder_flags
            &&& be32(h, 76) == s.created
            &&& be32(h, 80) == s.modified
        }),
{
    let h = data.subrange(pos, pos + 112);
    fields_within(data, pos, 74);
    fields_within(data, pos, 76);
    fields_within(data, pos, 80);
    assert(h[2] == data[pos + 2]);
    assert(record_name(h) =~= data.subrange(pos + 3, pos + 3 + name.len()));
    assert(h.subrange(66, 70) =~= data.subrange(pos + 66, pos + 70));
    assert(h.subrange(70, 74) =~= data.subrange(pos + 70, pos + 74));
}

pub(crate) proof fn file_is_read(data: Seq<u8>, pos: int, folders: Seq<Seq<u8>>, w: Written)
    requires
        w is File,
        record_stands(data, pos, w),
    ensures
        file_entries(data.subrange(pos, pos + 112), folders, pos + 112) == record_shown(pos, folders, w),
        ({
            let h = data.subrange(pos, pos + 112);
            pos + 112 + be32(h, 92) + be32(h, 96) == next_at(pos, w)
        }),
{
    if let Written::File { name, stamp, resource, data: f } = w {
        let h = data.subrange(pos, pos + 112);
        label_is_read(data, pos, name, stamp);
        fields_within(data, pos, 84);
        fields_within(data, pos, 88);
        fields_within(data, pos, 92);
        fields_within(data, pos, 96);
        fields_within(data, pos, 100);
        fields_within(data, pos, 102);
        path_from_the_front(folders, name);
        assert(h[0] == data[pos] && h[1] == data[pos + 1]);
        let path = path_of(folders, name);
        let r = fork_shown(path, stamp, resource, true, pos + 112);
        let d = fork_shown(path, stamp, f, false, pos + 112 + resource.stored.len());
        assert(resource_entry(h, folders, pos + 112) == r);
        assert(data_entry(h, folders, pos + 112) == d);
        assert(file_entries(h, folders, pos + 112) =~= record_shown(pos, folders, w));
    }
}

proof fn records_are_read(
    data: Seq<u8>,
    pos: int,
    end: int,
    folders: Seq<Seq<u8>>,
    ws: Seq<Written>,
    found: Seq<EntryView>,
)
    requires
        0 <= pos,
        records_stand(data, pos, end, ws),
    ensures
        catalog_from(data, pos, end, folders, found) == Ok::<Seq<EntryView>, ErrorKind>(
            found + records_shown(pos, folders, ws),
        ),
    decreases ws.len(),
{
    if ws.len() == 0 {
        assert(found + records_shown(pos, folders, ws) =~= found);
    } else {
        let w = ws[0];
        let h = data.subrange(pos, pos + 112);
        let now = record_shown(pos, folders, w);
        let rest = records_shown(next_at(pos, w), folders_after(folders, w), ws.drop_first());
        fields_within(data, pos, 110);
        assert(h.subrange(0, 110) =~= data.subrange(pos, pos + 110));
        assert(h[0] == data[pos] && h[1] == data[pos + 1]);
        records_are_read(data, next_at(pos, w), end, folders_after(folders, w), ws.drop_first(), found + now);
        assert((found + now) + rest =~= found + (now + rest));
        match w {
            Written::Folder { name, stamp, encrypted } => {
                label_is_read(data, pos, name, stamp);
                path_from_the_front(folders, name);
                assert(marks(h, START_FOLDER));
                assert(found.push(folder_entry(h, folders)) =~= found + now);
            },
            Written::End => {
                assert(!marks(h, START_FOLDER));
                assert(marks(h, END_FOLDER));
                assert(found + now =~= found);
            },
            Written::File { .. } => {
                assert(!marks(h, START_FOLDER));
                assert(!marks(h, END_FOLDER));
                file_is_read(data, pos, folders, w);
            },
        }
    }
}

/// An archive that is written field by field opens to exactly the entries that its records
/// describe, with the paths, dates, types, creators, flags, sizes and places that stand in
/// them. It starts with `SIT!`, says at 6 where it ends, has `rLau` at 10, and its records
/// stand from 22 on.
pub proof fn written_fields_are_read_back(data: Seq<u8>, ws: Seq<Written>)
    requires
        data.len() >= 14,
        data.subrange(0, 4) == seq![0x53u8, 0x49, 0x54, 0x21],
        data.subrange(10, 14) == seq![0x72u8, 0x4c, 0x61, 0x75],
        records_stand(data, 22, number(data, 6, 4) as int, ws),
    ensures
        catalog_of(data) == Ok::<Seq<EntryView>, ErrorKind>(records_shown(22, seq![], ws)),
{
    let a = data.subrange(0, 4);
    let b = data.subrange(10, 14);
    assert(a[0] == data[0] && a[1] == data[1] && a[2] == data[2] && a[3] == data[3]);
    assert(b[0] == data[10] && b[1] == data[11] && b[2] == data[12] && b[3] == data[13]);
    assert(is_stuffit(data));
    numbers_are_big_endian(data, 6);
    records_are_read(data, 22, number(data, 6, 4) as int, seq![], ws, seq![]);
    assert(Seq::<EntryView>::empty() + records_shown(22, seq![], ws) =~= records_shown(22, seq![], ws));
}

} // verus!
