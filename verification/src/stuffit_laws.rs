use vstd::prelude::*;
use crate::catalog::{be16, be32, content_of, entry_content, entry_sound, EntryView};
use crate::checksum::crc16;
use crate::error::ErrorKind;
use crate::method_laws::content_has_its_size;
use crate::methods::{content_accepted, fork_decoded};
use crate::stuffit::{
    catalog_from, catalog_of, data_entry, file_entries, folder_entry, is_stuffit, marks, path_in, record_name,
    resource_entry, ARCHIVE_HEADER_SIZE, END_FOLDER, FILE_HEADER_SIZE, START_FOLDER,
};

verus! {

// What stands in an archive is read back from it.

/// A fork as it is packed: the method, the checksum, the packed bytes and the content.
pub struct Fork {
    pub method: u8,
    pub crc: u16,
    pub packed: Seq<u8>,
    pub content: Seq<u8>,
}

/// The packed bytes stand for the content, and it passes the checksum.
#[verifier::opaque]
pub open spec fn packs(f: Fork) -> bool {
    &&& fork_decoded(f.method, f.packed, f.content.len()) == Ok::<Seq<u8>, ErrorKind>(f.content)
    &&& content_accepted(f.method, f.content, f.crc)
}

/// Bytes that are stored as they are.
pub open spec fn as_stored(content: Seq<u8>) -> Fork {
    Fork { method: 0, crc: crc16(content), packed: content, content }
}

/// Any bytes can be stored as they are.
pub proof fn stored_bytes_are_packed(content: Seq<u8>)
    ensures
        packs(as_stored(content)),
{
    reveal(packs);
    plain_methods();
    assert(content.subrange(0, content.len() as int) =~= content);
}

/// A file: its name and its two forks.
pub struct PackedFile {
    pub name: Seq<u8>,
    pub rsrc: Fork,
    pub data: Fork,
}

/// The forks that the file shows have their content in their packed bytes.
pub open spec fn file_ok(f: PackedFile) -> bool {
    &&& f.rsrc.method < 16
    &&& f.data.method < 16
    &&& f.rsrc.content.len() > 0 ==> packs(f.rsrc)
    &&& f.data.content.len() > 0 || f.rsrc.content.len() == 0 ==> packs(f.data)
}

/// One record of an archive.
pub enum Item {
    Folder(Seq<u8>),
    End,
    File(PackedFile),
}

/// The header of the record at `pos`.
pub open spec fn header_at(data: Seq<u8>, pos: int) -> Seq<u8> {
    data.subrange(pos, pos + FILE_HEADER_SIZE)
}

/// A sound header with the given name stands at `pos`.
pub open spec fn header_stands(data: Seq<u8>, pos: int, name: Seq<u8>) -> bool {
    let h = header_at(data, pos);
    &&& 0 <= pos
    &&& pos + FILE_HEADER_SIZE <= data.len()
    &&& crc16(h.subrange(0, 110)) == be16(h, 110)
    &&& name.len() <= 31
    &&& h[2] == name.len()
    &&& h.subrange(3, (3 + name.len()) as int) == name
}

/// How many bytes an item takes.
pub open spec fn item_size(item: Item) -> int {
    match item {
        Item::File(f) => FILE_HEADER_SIZE + f.rsrc.packed.len() + f.data.packed.len(),
        _ => FILE_HEADER_SIZE as int,
    }
}

/// The item stands at `pos`.
#[verifier::opaque]
pub open spec fn item_stands(data: Seq<u8>, pos: int, item: Item) -> bool {
    let h = header_at(data, pos);
    let start = pos + FILE_HEADER_SIZE;
    match item {
        Item::Folder(name) => header_stands(data, pos, name) && h[0] == 0 && h[1] == START_FOLDER,
        Item::End => header_stands(data, pos, seq![]) && h[0] == 0 && h[1] == END_FOLDER,
        Item::File(f) => {
            &&& header_stands(data, pos, f.name)
            &&& file_ok(f)
            &&& h[0] == f.rsrc.method && h[1] == f.data.method
            &&& be32(h, 84) == f.rsrc.content.len() && be32(h, 92) == f.rsrc.packed.len()
            &&& be32(h, 88) == f.data.content.len() && be32(h, 96) == f.data.packed.len()
            &&& be16(h, 100) == f.rsrc.crc && be16(h, 102) == f.data.crc
            &&& start + f.rsrc.packed.len() + f.data.packed.len() <= data.len()
            &&& data.subrange(start, start + f.rsrc.packed.len()) == f.rsrc.packed
            &&& data.subrange(
                start + f.rsrc.packed.len(),
                start + f.rsrc.packed.len() + f.data.packed.len(),
            ) == f.data.packed
        },
    }
}

/// The items stand one behind the other from `pos` up to `end`.
pub open spec fn items_stand(data: Seq<u8>, pos: int, end: int, items: Seq<Item>) -> bool
    decreases items.len(),
{
    if items.len() == 0 {
        pos == end
    } else {
        item_stands(data, pos, items[0]) && items_stand(data, pos + item_size(items[0]), end, items.drop_first())
    }
}

/// The folders open after an item.
pub open spec fn folders_after(dirs: Seq<Seq<u8>>, item: Item) -> Seq<Seq<u8>> {
    match item {
        Item::Folder(name) => dirs.push(name),
        Item::End => if dirs.len() > 0 {
            dirs.drop_last()
        } else {
            dirs
        },
        Item::File(f) => dirs,
    }
}

/// The entry is a fork at the given path with the given content.
#[verifier::opaque]
pub open spec fn holds_fork(data: Seq<u8>, e: EntryView, path: Seq<u8>, is_resource: bool, content: Seq<u8>) -> bool {
    &&& e.name == path
    &&& !e.is_directory
    &&& e.is_resource_fork == is_resource
    &&& e.size == content.len()
    &&& content_of(data, e) == Ok::<Seq<u8>, ErrorKind>(content)
}

/// The entries are those of the item: one for a folder, none for its end, and for a
/// file its resource fork, if it is not empty, then its data fork, if it is not empty
/// or there is no other.
#[verifier::opaque]
pub open spec fn shows(data: Seq<u8>, entries: Seq<EntryView>, dirs: Seq<Seq<u8>>, item: Item) -> bool {
    match item {
        Item::Folder(name) => {
            &&& entries.len() == 1
            &&& entries[0].is_directory
            &&& entries[0].name == path_in(dirs, name)
            &&& content_of(data, entries[0]) == Ok::<Seq<u8>, ErrorKind>(seq![])
        },
        Item::End => entries.len() == 0,
        Item::File(f) => shows_file(data, entries, path_in(dirs, f.name), f),
    }
}

/// The entries are those of the file.
#[verifier::opaque]
pub open spec fn shows_file(data: Seq<u8>, entries: Seq<EntryView>, path: Seq<u8>, f: PackedFile) -> bool {
    let rsrc = f.rsrc.content;
    let content = f.data.content;
    if rsrc.len() > 0 && content.len() > 0 {
        &&& entries.len() == 2
        &&& holds_fork(data, entries[0], path, true, rsrc)
        &&& holds_fork(data, entries[1], path, false, content)
    } else if rsrc.len() > 0 {
        entries.len() == 1 && holds_fork(data, entries[0], path, true, rsrc)
    } else {
        entries.len() == 1 && holds_fork(data, entries[0], path, false, content)
    }
}

/// How many entries an item has.
pub open spec fn entry_count(item: Item) -> int {
    match item {
        Item::Folder(name) => 1,
        Item::End => 0,
        Item::File(f) => if f.rsrc.content.len() > 0 && f.data.content.len() > 0 {
            2
        } else {
            1
        },
    }
}

/// The entries are those of the items, in their order.
pub open spec fn shows_all(data: Seq<u8>, entries: Seq<EntryView>, dirs: Seq<Seq<u8>>, items: Seq<Item>) -> bool
    decreases items.len(),
{
    if items.len() == 0 {
        entries.len() == 0
    } else {
        let n = entry_count(items[0]);
        &&& n <= entries.len()
        &&& shows(data, entries.subrange(0, n), dirs, items[0])
        &&& shows_all(data, entries.subrange(n, entries.len() as int), folders_after(dirs, items[0]), items.drop_first())
    }
}

proof fn plain_methods()
    by (bit_vector)
    ensures
        0u8 & 0x6fu8 == 0u8,
        0x20u8 & 0x6fu8 == 0x20u8,
        0x21u8 & 0x6fu8 == 0x21u8,
        0u8 & 0x80u8 == 0u8,
        0u8 & 0x0fu8 == 0u8,
{
}

/// No method below 16 marks a folder or an encrypted fork.
proof fn low_methods(m: u8)
    by (bit_vector)
    requires
        m < 16u8,
    ensures
        m & 0x6fu8 < 16u8,
        m & 0x80u8 == 0u8,
{
}

/// The fork stands in the archive where the entry says.
pub open spec fn fork_stands(data: Seq<u8>, e: EntryView, f: Fork) -> bool {
    &&& e.fork matches Some(v) && {
        &&& v.method == f.method
        &&& v.crc == f.crc
        &&& v.stored == f.packed.len()
        &&& 0 <= v.offset
        &&& v.offset + v.stored <= data.len()
        &&& data.subrange(v.offset, v.offset + v.stored) == f.packed
    }
    &&& e.size == f.content.len()
}

/// A packed fork is read back, whatever its method.
pub proof fn packed_fork_is_read_back(data: Seq<u8>, e: EntryView, f: Fork)
    requires
        packs(f),
        fork_stands(data, e, f),
        !e.is_encrypted,
    ensures
        content_of(data, e) == Ok::<Seq<u8>, ErrorKind>(f.content),
{
    reveal(packs);
}

/// An encrypted fork is refused, whatever it holds.
pub proof fn encrypted_fork_is_unsupported(data: Seq<u8>, e: EntryView)
    requires
        e.fork is Some,
        e.is_encrypted,
    ensures
        content_of(data, e) == Err::<Seq<u8>, ErrorKind>(ErrorKind::Unsupported),
{
}

/// Content that is handed out matches its checksum, unless the method has a checksum
/// of its own.
pub proof fn content_matches_its_checksum(data: Seq<u8>, e: EntryView)
    requires
        e.fork matches Some(f) && f.method & 0x0fu8 != 15,
    ensures
        content_of(data, e) matches Ok(v) ==> crc16(v) == e.fork->Some_0.crc,
{
}

/// A record whose header does not match its checksum makes the archive invalid.
pub proof fn bad_header_is_refused(data: Seq<u8>, pos: int, end: int, dirs: Seq<Seq<u8>>, found: Seq<EntryView>)
    requires
        0 <= pos,
        pos + FILE_HEADER_SIZE <= end,
        pos + FILE_HEADER_SIZE <= data.len(),
        crc16(header_at(data, pos).subrange(0, 110)) != be16(header_at(data, pos), 110),
    ensures
        catalog_from(data, pos, end, dirs, found) == Err::<Seq<EntryView>, ErrorKind>(ErrorKind::InvalidData),
{
}

/// The entries of an item that stands at `pos`.
spec fn entries_of(data: Seq<u8>, pos: int, dirs: Seq<Seq<u8>>, item: Item) -> Seq<EntryView> {
    let h = header_at(data, pos);
    match item {
        Item::Folder(name) => seq![folder_entry(h, dirs)],
        Item::End => seq![],
        Item::File(f) => file_entries(h, dirs, pos + FILE_HEADER_SIZE),
    }
}

proof fn folder_is_shown(data: Seq<u8>, pos: int, dirs: Seq<Seq<u8>>, name: Seq<u8>)
    requires
        item_stands(data, pos, Item::Folder(name)),
    ensures
        shows(data, entries_of(data, pos, dirs, Item::Folder(name)), dirs, Item::Folder(name)),
{
    reveal(item_stands);
    reveal(shows);
    assert(record_name(header_at(data, pos)) == name);
}

proof fn file_is_shown(data: Seq<u8>, pos: int, dirs: Seq<Seq<u8>>, f: PackedFile)
    requires
        item_stands(data, pos, Item::File(f)),
    ensures
        shows_file(data, entries_of(data, pos, dirs, Item::File(f)), path_in(dirs, f.name), f),
        entries_of(data, pos, dirs, Item::File(f)).len() == entry_count(Item::File(f)),
{
    reveal(item_stands);
    reveal(shows_file);
    low_methods(f.rsrc.method);
    low_methods(f.data.method);
    let h = header_at(data, pos);
    let start = pos + FILE_HEADER_SIZE;
    let path = path_in(dirs, f.name);
    let entries = entries_of(data, pos, dirs, Item::File(f));
    let x = resource_entry(h, dirs, start);
    let d = data_entry(h, dirs, start);
    assert(record_name(h) == f.name);
    if f.rsrc.content.len() > 0 {
        fork_is_held(data, x, path, true, f.rsrc);
        if f.data.content.len() > 0 {
            fork_is_held(data, d, path, false, f.data);
            assert(entries =~= seq![x, d]);
        } else {
            assert(entries =~= seq![x]);
        }
    } else {
        fork_is_held(data, d, path, false, f.data);
        assert(entries =~= seq![d]);
    }
}

/// An entry under whose path a packed fork stands holds its content.
pub proof fn fork_is_held(data: Seq<u8>, e: EntryView, path: Seq<u8>, is_resource: bool, f: Fork)
    requires
        e.name == path,
        !e.is_directory,
        e.is_resource_fork == is_resource,
        packs(f),
        fork_stands(data, e, f),
        !e.is_encrypted,
    ensures
        holds_fork(data, e, path, is_resource, f.content),
{
    reveal(holds_fork);
    packed_fork_is_read_back(data, e, f);
}

/// The catalog takes up an item and goes on behind it.
proof fn item_is_taken_up(data: Seq<u8>, pos: int, end: int, dirs: Seq<Seq<u8>>, item: Item, found: Seq<EntryView>)
    requires
        item_stands(data, pos, item),
        pos + item_size(item) <= end,
    ensures
        catalog_from(data, pos, end, dirs, found) == catalog_from(
            data,
            pos + item_size(item),
            end,
            folders_after(dirs, item),
            found + entries_of(data, pos, dirs, item),
        ),
{
    reveal(item_stands);
    plain_methods();
    let h = header_at(data, pos);
    let entries = entries_of(data, pos, dirs, item);
    match item {
        Item::Folder(name) => {
            assert(record_name(h) == name);
            assert(marks(h, START_FOLDER));
            assert(found + entries =~= found.push(folder_entry(h, dirs)));
        },
        Item::End => {
            assert(!marks(h, START_FOLDER));
            assert(marks(h, END_FOLDER));
            assert(found + entries =~= found);
        },
        Item::File(f) => {
            low_methods(f.rsrc.method);
            low_methods(f.data.method);
            assert(!marks(h, START_FOLDER));
            assert(!marks(h, END_FOLDER));
        },
    }
}

proof fn item_is_shown(data: Seq<u8>, pos: int, dirs: Seq<Seq<u8>>, item: Item)
    requires
        item_stands(data, pos, item),
    ensures
        shows(data, entries_of(data, pos, dirs, item), dirs, item),
        entries_of(data, pos, dirs, item).len() == entry_count(item),
{
    match item {
        Item::Folder(name) => {
            folder_is_shown(data, pos, dirs, name);
        },
        Item::End => {
            reveal(shows);
        },
        Item::File(f) => {
            file_is_shown(data, pos, dirs, f);
            reveal(shows);
        },
    }
}

proof fn items_are_shown(data: Seq<u8>, pos: int, end: int, dirs: Seq<Seq<u8>>, items: Seq<Item>, found: Seq<EntryView>)
    requires
        items_stand(data, pos, end, items),
    ensures
        catalog_from(data, pos, end, dirs, found) matches Ok(all) && {
            &&& found.len() <= all.len()
            &&& all.subrange(0, found.len() as int) == found
            &&& shows_all(data, all.subrange(found.len() as int, all.len() as int), dirs, items)
        },
    decreases items.len(),
{
    if items.len() == 0 {
        assert(found.subrange(0, found.len() as int) =~= found);
    } else {
        let item = items[0];
        let next = pos + item_size(item);
        let entries = entries_of(data, pos, dirs, item);
        stand_ends(data, next, end, items.drop_first());
        item_is_shown(data, pos, dirs, item);
        item_is_taken_up(data, pos, end, dirs, item, found);
        items_are_shown(data, next, end, folders_after(dirs, item), items.drop_first(), found + entries);
        let all = catalog_from(data, pos, end, dirs, found)->Ok_0;
        let k = found.len() as int;
        let n = entries.len() as int;
        assert(all.subrange(0, k) =~= all.subrange(0, k + n).subrange(0, k));
        assert((found + entries).subrange(0, k) =~= found);
        let rest = all.subrange(k, all.len() as int);
        assert(rest.subrange(0, n) =~= all.subrange(0, k + n).subrange(k, k + n));
        assert((found + entries).subrange(k, k + n) =~= entries);
        assert(rest.subrange(n, rest.len() as int) =~= all.subrange(k + n, all.len() as int));
    }
}

proof fn stand_ends(data: Seq<u8>, pos: int, end: int, items: Seq<Item>)
    requires
        items_stand(data, pos, end, items),
    ensures
        pos <= end,
    decreases items.len(),
{
    if items.len() > 0 {
        stand_ends(data, pos + item_size(items[0]), end, items.drop_first());
    }
}

/// An archive in which folders and packed files stand one behind the other shows
/// exactly those: each folder with its path, and each file's forks with its path and
/// content, the resource fork first.
pub proof fn written_archive_is_read_back(data: Seq<u8>, items: Seq<Item>)
    requires
        is_stuffit(data),
        items_stand(data, ARCHIVE_HEADER_SIZE as int, be32(data, 6) as int, items),
    ensures
        catalog_of(data) matches Ok(entries) && shows_all(data, entries, seq![], items),
{
    items_are_shown(data, ARCHIVE_HEADER_SIZE as int, be32(data, 6) as int, seq![], items, seq![]);
    let all = catalog_of(data)->Ok_0;
    assert(all.subrange(0, all.len() as int) =~= all);
}

// === what holds of every catalog ==============================================

/// Entry `i` is the resource fork of the file whose header ends at `start`. It is not
/// empty, and the data fork comes right behind it under the same name, unless it is empty
/// itself.
pub open spec fn resource_in_place(data: Seq<u8>, entries: Seq<EntryView>, i: int, start: int) -> bool {
    let h = header_at(data, start - FILE_HEADER_SIZE);
    let e = entries[i];
    &&& FILE_HEADER_SIZE <= start <= data.len()
    &&& e.is_resource_fork
    &&& e.size == be32(h, 84)
    &&& e.size > 0
    &&& e.fork matches Some(f) && f.offset == start && f.stored == be32(h, 92)
    &&& be32(h, 88) > 0 ==> {
        &&& i + 1 < entries.len()
        &&& !entries[i + 1].is_resource_fork
        &&& entries[i + 1].size == be32(h, 88)
        &&& entries[i + 1].name == e.name
        &&& entries[i + 1].fork matches Some(f) && f.offset == start + be32(h, 92)
    }
}

/// Entry `i` is the data fork of the file whose header ends at `start`. The resource fork
/// comes right before it under the same name, unless it is empty.
pub open spec fn data_in_place(data: Seq<u8>, entries: Seq<EntryView>, i: int, start: int) -> bool {
    let h = header_at(data, start - FILE_HEADER_SIZE);
    let e = entries[i];
    &&& FILE_HEADER_SIZE <= start <= data.len()
    &&& !e.is_resource_fork
    &&& e.size == be32(h, 88)
    &&& e.fork matches Some(f) && f.offset == start + be32(h, 92) && f.stored == be32(h, 96)
    &&& be32(h, 84) > 0 ==> {
        &&& i > 0
        &&& entries[i - 1].is_resource_fork
        &&& entries[i - 1].size == be32(h, 84)
        &&& entries[i - 1].name == e.name
        &&& entries[i - 1].fork matches Some(f) && f.offset == start
    }
}

/// Entry `i` is a fork of the file whose header ends at `start`, next to the other one.
pub open spec fn fork_in_place(data: Seq<u8>, entries: Seq<EntryView>, i: int, start: int) -> bool {
    resource_in_place(data, entries, i, start) || data_in_place(data, entries, i, start)
}

/// Entry `i` is a directory, or a fork next to the other one of its file.
#[verifier::opaque]
pub open spec fn in_place(data: Seq<u8>, entries: Seq<EntryView>, i: int) -> bool {
    &&& entry_sound(entries[i])
    &&& !entries[i].is_directory ==> exists|start: int| #[trigger] fork_in_place(data, entries, i, start)
}

/// Entries that come behind leave an entry in its place.
proof fn place_is_kept(data: Seq<u8>, a: Seq<EntryView>, b: Seq<EntryView>, i: int)
    requires
        0 <= i < a.len(),
        in_place(data, a, i),
    ensures
        in_place(data, a + b, i),
{
    reveal(in_place);
    if !a[i].is_directory {
        let start = choose|start: int| #[trigger] fork_in_place(data, a, i, start);
        assert(fork_in_place(data, a + b, i, start));
    }
}

/// The forks of a file are next to each other.
proof fn file_is_in_place(data: Seq<u8>, pos: int, dirs: Seq<Seq<u8>>, found: Seq<EntryView>, i: int)
    requires
        0 <= pos,
        pos + FILE_HEADER_SIZE <= data.len(),
        found.len() <= i < (found + file_entries(header_at(data, pos), dirs, pos + FILE_HEADER_SIZE)).len(),
    ensures
        in_place(data, found + file_entries(header_at(data, pos), dirs, pos + FILE_HEADER_SIZE), i),
{
    reveal(in_place);
    let start = pos + FILE_HEADER_SIZE;
    let all = found + file_entries(header_at(data, pos), dirs, start);
    assert(fork_in_place(data, all, i, start));
}

proof fn all_are_in_place(data: Seq<u8>, pos: int, end: int, dirs: Seq<Seq<u8>>, found: Seq<EntryView>, i: int)
    requires
        0 <= pos,
        forall|k: int| 0 <= k < found.len() ==> #[trigger] in_place(data, found, k),
    ensures
        catalog_from(data, pos, end, dirs, found) matches Ok(all) ==> (0 <= i < all.len() ==> in_place(data, all, i)),
    decreases
        (if pos < end {
            end - pos
        } else {
            0
        }),
{
    if pos + FILE_HEADER_SIZE <= end && pos + FILE_HEADER_SIZE <= data.len() {
        let h = header_at(data, pos);
        let start = pos + FILE_HEADER_SIZE;
        if crc16(h.subrange(0, 110)) == be16(h, 110) {
            if marks(h, START_FOLDER) {
                let more = seq![folder_entry(h, dirs)];
                assert(found + more =~= found.push(folder_entry(h, dirs)));
                assert forall|k: int| 0 <= k < (found + more).len() implies #[trigger] in_place(data, found + more, k) by {
                    if k < found.len() {
                        place_is_kept(data, found, more, k);
                    } else {
                        reveal(in_place);
                    }
                }
                all_are_in_place(data, start, end, dirs.push(record_name(h)), found + more, i);
            } else if marks(h, END_FOLDER) {
                let outer = if dirs.len() > 0 {
                    dirs.drop_last()
                } else {
                    dirs
                };
                all_are_in_place(data, start, end, outer, found, i);
            } else {
                let more = file_entries(h, dirs, start);
                assert forall|k: int| 0 <= k < (found + more).len() implies #[trigger] in_place(data, found + more, k) by {
                    if k < found.len() {
                        place_is_kept(data, found, more, k);
                    } else {
                        file_is_in_place(data, pos, dirs, found, k);
                    }
                }
                all_are_in_place(data, start + be32(h, 92) + be32(h, 96), end, dirs, found + more, i);
            }
        }
    }
}

/// Directories, and nothing else, have no fork, and their size is 0. A resource fork is
/// not empty. The two forks of a file stand next to each other under the same name, the
/// resource fork first.
pub proof fn forks_of_a_file_stand_together(data: Seq<u8>, i: int)
    requires
        catalog_of(data) matches Ok(entries) && 0 <= i < entries.len(),
    ensures
        ({
            let entries = catalog_of(data)->Ok_0;
            &&& entry_sound(entries[i])
            &&& entries[i].is_resource_fork ==> entries[i].size > 0
            &&& !entries[i].is_directory ==> exists|start: int| #[trigger] fork_in_place(data, entries, i, start)
        }),
{
    all_are_in_place(data, ARCHIVE_HEADER_SIZE as int, be32(data, 6) as int, seq![], seq![], i);
    reveal(in_place);
}

/// Reading an entry gives as many bytes as the catalog says.
pub proof fn entries_have_their_size(data: Seq<u8>, i: int)
    requires
        catalog_of(data) matches Ok(entries) && 0 <= i < entries.len(),
    ensures
        entry_content(data, catalog_of(data)->Ok_0, i) matches Ok(v) ==> v.len() == catalog_of(data)->Ok_0[i].size,
{
    forks_of_a_file_stand_together(data, i);
    content_has_its_size(data, catalog_of(data)->Ok_0[i]);
}

// === bytes behind the archive =================================================

proof fn records_are_the_same(
    data: Seq<u8>,
    more: Seq<u8>,
    pos: int,
    end: int,
    dirs: Seq<Seq<u8>>,
    found: Seq<EntryView>,
)
    requires
        0 <= pos,
        catalog_from(data, pos, end, dirs, found) is Ok,
    ensures
        catalog_from(data + more, pos, end, dirs, found) == catalog_from(data, pos, end, dirs, found),
    decreases
        (if pos < end {
            end - pos
        } else {
            0
        }),
{
    if pos + FILE_HEADER_SIZE <= end {
        let h = header_at(data, pos);
        let start = pos + FILE_HEADER_SIZE;
        assert(header_at(data + more, pos) =~= h);
        if marks(h, START_FOLDER) {
            records_are_the_same(data, more, start, end, dirs.push(record_name(h)), found.push(folder_entry(h, dirs)));
        } else if marks(h, END_FOLDER) {
            let outer = if dirs.len() > 0 {
                dirs.drop_last()
            } else {
                dirs
            };
            records_are_the_same(data, more, start, end, outer, found);
        } else {
            let next = start + be32(h, 92) + be32(h, 96);
            records_are_the_same(data, more, next, end, dirs, found + file_entries(h, dirs, start));
        }
    }
}

/// Bytes put behind an archive change nothing in its catalog.
pub proof fn bytes_behind_keep_the_catalog(data: Seq<u8>, more: Seq<u8>)
    requires
        catalog_of(data) is Ok,
    ensures
        catalog_of(data + more) == catalog_of(data),
{
    reveal(be32);
    assert(is_stuffit(data + more));
    assert(be32(data + more, 6) == be32(data, 6));
    records_are_the_same(data, more, ARCHIVE_HEADER_SIZE as int, be32(data, 6) as int, seq![], seq![]);
}

/// A fork that stands in the archive is not touched by what comes behind.
pub proof fn fork_bytes_are_the_same(data: Seq<u8>, more: Seq<u8>, e: EntryView)
    requires
        e.fork matches Some(f) ==> 0 <= f.offset && 0 <= f.stored && f.offset + f.stored <= data.len(),
    ensures
        content_of(data + more, e) == content_of(data, e),
{
    if let Some(f) = e.fork {
        assert((data + more).subrange(f.offset, f.offset + f.stored) =~= data.subrange(f.offset, f.offset + f.stored));
    }
}

/// Nor do they change what is read from it, unless the archive was cut short within the
/// entry's fork.
pub proof fn bytes_behind_keep_the_content(data: Seq<u8>, more: Seq<u8>, i: int)
    requires
        catalog_of(data) matches Ok(entries) && 0 <= i < entries.len() && (entries[i].fork matches Some(f)
            ==> f.offset + f.stored <= data.len()),
    ensures
        catalog_of(data + more) == catalog_of(data),
        entry_content(data + more, catalog_of(data)->Ok_0, i) == entry_content(data, catalog_of(data)->Ok_0, i),
{
    bytes_behind_keep_the_catalog(data, more);
    forks_of_a_file_stand_together(data, i);
    fork_bytes_are_the_same(data, more, catalog_of(data)->Ok_0[i]);
}

} // verus!
