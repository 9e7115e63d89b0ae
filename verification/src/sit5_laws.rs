use vstd::prelude::*;
use crate::catalog::{be16, be32, entry_content, entry_sound, EntryView};
use crate::error::ErrorKind;
use crate::method_laws::content_has_its_size;
use crate::sit5::{
    body_of, catalog_of, catalog_of_body, comment_at, comment_end, data_fork_at, file_entries, folder_entry,
    folder_path, fork_entry, hash_at, header_of, is_sit5, is_sit5_exe, list_end, offset_of, path_under,
    record_advances, record_at, record_rest, records_from, resource_at, resource_stored, ForkRecord, Record,
    ENTRYFLAGS_CRYPTED,
};
use crate::stuffit_laws::{fork_bytes_are_the_same, fork_is_held, holds_fork, packs, Fork};

verus! {

// What stands in an archive is read back from it.

/// A file: its name, where the record of its folder starts, and its forks.
pub struct PackedFile {
    pub name: Seq<u8>,
    pub parent: u32,
    pub rsrc: Option<Fork>,
    pub data: Fork,
}

/// One record of an archive: a folder and how many records are in it, the empty
/// record behind a folder, or a file.
pub enum Item {
    Folder { name: Seq<u8>, parent: u32, children: nat },
    Gap,
    File(PackedFile),
}

/// The fork is described.
pub open spec fn describes(r: ForkRecord, f: Fork) -> bool {
    &&& r.length == f.content.len()
    &&& r.stored == f.packed.len()
    &&& r.method == f.method
    &&& r.crc == f.crc
    &&& !r.has_key
}

/// The record describes the file, and its forks stand behind it. Those that it shows
/// have their content in their packed bytes.
#[verifier::opaque]
pub open spec fn record_holds(data: Seq<u8>, r: Record, f: PackedFile) -> bool {
    let start = r.body + resource_stored(r);
    &&& !r.is_directory
    &&& r.name == f.name
    &&& r.parent == f.parent
    &&& describes(r.data, f.data)
    &&& 0 <= r.body
    &&& match (r.resource, f.rsrc) {
        (None, None) => true,
        (Some(x), Some(rsrc)) => {
            &&& describes(x, rsrc)
            &&& packs(rsrc)
            &&& start <= data.len()
            &&& data.subrange(r.body, start) == rsrc.packed
        },
        _ => false,
    }
    &&& f.data.content.len() > 0 || f.rsrc is None ==> packs(f.data)
    &&& start + f.data.packed.len() <= data.len()
    &&& data.subrange(start, start + f.data.packed.len()) == f.data.packed
}

/// The item stands at `pos`.
pub open spec fn item_stands(data: Seq<u8>, pos: int, item: Item) -> bool {
    match item {
        Item::Folder { name, parent, children } => record_at(data, pos) matches Ok(Some(r)) && {
            &&& r.is_directory
            &&& r.name == name
            &&& r.parent == parent
            &&& r.numfiles == children
            &&& pos < r.body
        },
        Item::Gap => record_at(data, pos) matches Ok(None),
        Item::File(f) => record_at(data, pos) matches Ok(Some(r)) && record_holds(data, r, f) && pos < r.body,
    }
}

/// Where the next item stands.
pub open spec fn item_end(data: Seq<u8>, pos: int, item: Item) -> int {
    let r = record_at(data, pos)->Ok_0->Some_0;
    match item {
        Item::Folder { name, parent, children } => r.body,
        Item::Gap => pos + 48,
        Item::File(f) => r.body + resource_stored(r) + r.data.stored,
    }
}

/// How many records are still due after an item.
pub open spec fn due_after(left: nat, item: Item) -> nat {
    match item {
        Item::Folder { name, parent, children } => (left - 1 + children) as nat,
        Item::Gap => left,
        Item::File(f) => (left - 1) as nat,
    }
}

/// The items stand one behind the other from `pos` on, and then no record is due.
pub open spec fn items_stand(data: Seq<u8>, pos: int, left: nat, items: Seq<Item>) -> bool
    decreases items.len(),
{
    if items.len() == 0 {
        left == 0
    } else {
        &&& left > 0
        &&& 0 <= pos <= data.len()
        &&& item_stands(data, pos, items[0])
        &&& items_stand(data, item_end(data, pos, items[0]), due_after(left, items[0]), items.drop_first())
    }
}

/// The folders met after an item.
pub open spec fn folders_after(dirs: Map<u32, Seq<u8>>, pos: int, item: Item) -> Map<u32, Seq<u8>> {
    match item {
        Item::Folder { name, parent, children } => dirs.insert(
            offset_of(pos),
            path_under(folder_path(dirs, parent), name),
        ),
        _ => dirs,
    }
}

/// The entries are those of the file: its resource fork, if it has one, then its data
/// fork, if it is not empty or there is no other.
#[verifier::opaque]
pub open spec fn shows_file(data: Seq<u8>, entries: Seq<EntryView>, path: Seq<u8>, f: PackedFile) -> bool {
    match f.rsrc {
        Some(rsrc) => if f.data.content.len() > 0 {
            &&& entries.len() == 2
            &&& holds_fork(data, entries[0], path, true, rsrc.content)
            &&& holds_fork(data, entries[1], path, false, f.data.content)
        } else {
            entries.len() == 1 && holds_fork(data, entries[0], path, true, rsrc.content)
        },
        None => entries.len() == 1 && holds_fork(data, entries[0], path, false, f.data.content),
    }
}

/// The entries are those of the item.
pub open spec fn shows(data: Seq<u8>, entries: Seq<EntryView>, dirs: Map<u32, Seq<u8>>, item: Item) -> bool {
    match item {
        Item::Folder { name, parent, children } => {
            &&& entries.len() == 1
            &&& entries[0].is_directory
            &&& entries[0].fork is None
            &&& entries[0].name == path_under(folder_path(dirs, parent), name)
        },
        Item::Gap => entries.len() == 0,
        Item::File(f) => shows_file(data, entries, path_under(folder_path(dirs, f.parent), f.name), f),
    }
}

pub open spec fn entry_count(item: Item) -> int {
    match item {
        Item::Folder { name, parent, children } => 1,
        Item::Gap => 0,
        Item::File(f) => if f.rsrc is Some && f.data.content.len() > 0 {
            2
        } else {
            1
        },
    }
}

/// The entries are those of the items, in their order.
pub open spec fn shows_all(
    data: Seq<u8>,
    entries: Seq<EntryView>,
    dirs: Map<u32, Seq<u8>>,
    pos: int,
    items: Seq<Item>,
) -> bool
    decreases items.len(),
{
    if items.len() == 0 {
        entries.len() == 0
    } else {
        let n = entry_count(items[0]);
        &&& n <= entries.len()
        &&& shows(data, entries.subrange(0, n), dirs, items[0])
        &&& shows_all(
            data,
            entries.subrange(n, entries.len() as int),
            folders_after(dirs, pos, items[0]),
            item_end(data, pos, items[0]),
            items.drop_first(),
        )
    }
}

/// The entries of an item that stands at `pos`.
spec fn entries_of(data: Seq<u8>, pos: int, dirs: Map<u32, Seq<u8>>, item: Item) -> Seq<EntryView> {
    let r = record_at(data, pos)->Ok_0->Some_0;
    match item {
        Item::Folder { name, parent, children } => seq![
            folder_entry(r, path_under(folder_path(dirs, parent), name)),
        ],
        Item::Gap => seq![],
        Item::File(f) => file_entries(r, path_under(folder_path(dirs, f.parent), f.name)),
    }
}

proof fn file_is_shown(data: Seq<u8>, r: Record, path: Seq<u8>, f: PackedFile)
    requires
        record_holds(data, r, f),
    ensures
        shows_file(data, file_entries(r, path), path, f),
        file_entries(r, path).len() == entry_count(Item::File(f)),
{
    reveal(record_holds);
    reveal(shows_file);
    let entries = file_entries(r, path);
    let d = fork_entry(r, path, r.data, false, r.body + resource_stored(r));
    match f.rsrc {
        Some(rsrc) => {
            let x = fork_entry(r, path, r.resource->Some_0, true, r.body);
            fork_is_held(data, x, path, true, rsrc);
            if f.data.content.len() > 0 {
                fork_is_held(data, d, path, false, f.data);
                assert(entries =~= seq![x, d]);
            } else {
                assert(entries =~= seq![x]);
            }
        },
        None => {
            fork_is_held(data, d, path, false, f.data);
            assert(entries =~= seq![d]);
        },
    }
}

/// The catalog takes up an item and goes on behind it.
proof fn item_is_taken_up(
    data: Seq<u8>,
    pos: int,
    left: nat,
    dirs: Map<u32, Seq<u8>>,
    item: Item,
    found: Seq<EntryView>,
)
    requires
        item_stands(data, pos, item),
        left > 0,
        0 <= pos <= data.len(),
    ensures
        records_from(data, pos, left, dirs, found) == records_from(
            data,
            item_end(data, pos, item),
            due_after(left, item),
            folders_after(dirs, pos, item),
            found + entries_of(data, pos, dirs, item),
        ),
{
    let entries = entries_of(data, pos, dirs, item);
    match item {
        Item::Folder { name, parent, children } => {
            let r = record_at(data, pos)->Ok_0->Some_0;
            let path = path_under(folder_path(dirs, parent), name);
            assert(found + entries =~= found.push(folder_entry(r, path)));
        },
        Item::Gap => {
            assert(found + entries =~= found);
        },
        Item::File(f) => {
            reveal(record_holds);
        },
    }
}

proof fn items_are_shown(
    data: Seq<u8>,
    pos: int,
    left: nat,
    dirs: Map<u32, Seq<u8>>,
    items: Seq<Item>,
    found: Seq<EntryView>,
)
    requires
        items_stand(data, pos, left, items),
    ensures
        records_from(data, pos, left, dirs, found) matches Ok((all, end)) && {
            &&& found.len() <= all.len()
            &&& all.subrange(0, found.len() as int) == found
            &&& shows_all(data, all.subrange(found.len() as int, all.len() as int), dirs, pos, items)
        },
    decreases items.len(),
{
    if items.len() == 0 {
        assert(found.subrange(0, found.len() as int) =~= found);
    } else {
        let item = items[0];
        let next = item_end(data, pos, item);
        let entries = entries_of(data, pos, dirs, item);
        if let Item::File(f) = item {
            let r = record_at(data, pos)->Ok_0->Some_0;
            file_is_shown(data, r, path_under(folder_path(dirs, f.parent), f.name), f);
        }
        assert(shows(data, entries, dirs, item));
        assert(entries.len() == entry_count(item));
        item_is_taken_up(data, pos, left, dirs, item, found);
        items_are_shown(
            data,
            next,
            due_after(left, item),
            folders_after(dirs, pos, item),
            items.drop_first(),
            found + entries,
        );
        let all = records_from(data, pos, left, dirs, found)->Ok_0.0;
        let k = found.len() as int;
        let n = entries.len() as int;
        assert(all.subrange(0, k) =~= all.subrange(0, k + n).subrange(0, k));
        assert((found + entries).subrange(0, k) =~= found);
        let rest = all.subrange(k, all.len() as int);
        assert(rest.subrange(0, n) =~= all.subrange(0, k + n).subrange(k, k + n));
        assert((found + entries).subrange(k, k + n) =~= entries);
        assert(rest.subrange(n, rest.len() as int) =~= all.subrange(k + n, all.len() as int));
    }
}

/// An archive in which the records of folders and packed files stand one behind the
/// other shows exactly those: each folder with its path, and each file's forks with
/// its path and content, the resource fork first.
pub proof fn written_archive_is_read_back(data: Seq<u8>, items: Seq<Item>)
    requires
        is_sit5(data),
        header_of(data) matches Ok(h) && items_stand(data, h.first, h.numfiles, items),
    ensures
        catalog_of(data) matches Ok(entries) && shows_all(
            data,
            entries,
            Map::empty(),
            header_of(data)->Ok_0.first,
            items,
        ),
{
    let h = header_of(data)->Ok_0;
    items_are_shown(data, h.first, h.numfiles, Map::empty(), items, seq![]);
    let all = catalog_of(data)->Ok_0;
    assert(all.subrange(0, all.len() as int) =~= all);
}

/// An archive behind the program that unpacks it holds what it holds alone.
pub proof fn self_extracting_archive_is_the_same(stub: Seq<u8>, data: Seq<u8>)
    requires
        stub.len() == 0x1a000,
        stub[0] == 0x4d,
        stub[1] == 0x5a,
        be32(stub, 4100) == 0x4203_E853u32,
        is_sit5(data),
    ensures
        body_of(stub + data) == Ok::<Seq<u8>, ErrorKind>(data),
        catalog_of(stub + data) == catalog_of(data),
{
    let all = stub + data;
    reveal(be32);
    assert(all[4100] == stub[4100] && all[4101] == stub[4101] && all[4102] == stub[4102] && all[4103] == stub[4103]);
    assert(be32(all, 4100) == be32(stub, 4100));
    assert(is_sit5_exe(all));
    assert(!is_sit5(all)) by {
        reveal(is_sit5);
        assert(crate::sit5::BANNER@[0] == 0x53);
        assert(all[0] == stub[0]);
    }
    assert(all.skip(0x1a000) =~= data);
}

// === what holds of every catalog ==============================================

/// Entry `i` is the resource fork of the file whose record is `r`. The data fork comes
/// right behind it under the same name, unless it is empty.
pub open spec fn resource_in_place(r: Record, entries: Seq<EntryView>, i: int) -> bool {
    let e = entries[i];
    &&& e.is_resource_fork
    &&& r.resource matches Some(x) && e.size == x.length && (e.fork matches Some(f) && f.offset == r.body && f.stored
        == x.stored)
    &&& r.data.length > 0 ==> {
        &&& i + 1 < entries.len()
        &&& !entries[i + 1].is_resource_fork
        &&& entries[i + 1].size == r.data.length
        &&& entries[i + 1].name == e.name
        &&& entries[i + 1].fork matches Some(f) && f.offset == r.body + resource_stored(r)
    }
}

/// Entry `i` is the data fork of the file whose record is `r`. The resource fork, if there
/// is one, comes right before it under the same name.
pub open spec fn data_in_place(r: Record, entries: Seq<EntryView>, i: int) -> bool {
    let e = entries[i];
    &&& !e.is_resource_fork
    &&& e.size == r.data.length
    &&& e.fork matches Some(f) && f.offset == r.body + resource_stored(r) && f.stored == r.data.stored
    &&& r.resource matches Some(x) ==> {
        &&& i > 0
        &&& entries[i - 1].is_resource_fork
        &&& entries[i - 1].size == x.length
        &&& entries[i - 1].name == e.name
        &&& entries[i - 1].fork matches Some(f) && f.offset == r.body
    }
}

/// Entry `i` is a fork of the file whose record stands at `pos`, next to the other one,
/// and the forks stand behind the record.
pub open spec fn fork_in_place(data: Seq<u8>, entries: Seq<EntryView>, i: int, pos: int) -> bool {
    record_at(data, pos) matches Ok(Some(r)) && {
        &&& 0 <= pos < r.body
        &&& !r.is_directory
        &&& r.body + resource_stored(r) + r.data.stored <= data.len()
        &&& resource_in_place(r, entries, i) || data_in_place(r, entries, i)
    }
}

/// Entry `i` is a directory, or a fork next to the other one of its file.
#[verifier::opaque]
pub open spec fn in_place(data: Seq<u8>, entries: Seq<EntryView>, i: int) -> bool {
    &&& entry_sound(entries[i])
    &&& !entries[i].is_directory ==> exists|pos: int| #[trigger] fork_in_place(data, entries, i, pos)
}

/// Entries that come behind leave an entry in its place.
proof fn place_is_kept(data: Seq<u8>, a: Seq<EntryView>, b: Seq<EntryView>, i: int)
    requires
        0 <= i < a.len(),
        in_place(data, a, i),
    ensures
        in_place(data, a + b, i),
{
    reveal(in_place);
    if !a[i].is_directory {
        let pos = choose|pos: int| #[trigger] fork_in_place(data, a, i, pos);
        assert(fork_in_place(data, a + b, i, pos));
    }
}

/// The forks of a file are next to each other.
proof fn file_is_in_place(data: Seq<u8>, pos: int, r: Record, path: Seq<u8>, found: Seq<EntryView>, i: int)
    requires
        0 <= pos < r.body,
        record_at(data, pos) == Ok::<Option<Record>, ErrorKind>(Some(r)),
        !r.is_directory,
        r.body + resource_stored(r) + r.data.stored <= data.len(),
        found.len() <= i < (found + file_entries(r, path)).len(),
    ensures
        in_place(data, found + file_entries(r, path), i),
{
    reveal(in_place);
    let all = found + file_entries(r, path);
    assert(fork_in_place(data, all, i, pos)) by {
        match r.resource {
            None => {
                assert(file_entries(r, path).len() == 1);
                assert(data_in_place(r, all, i));
            },
            Some(x) => {
                if i == found.len() {
                    assert(resource_in_place(r, all, i));
                } else {
                    assert(data_in_place(r, all, i));
                }
            },
        }
    }
}

proof fn all_are_in_place(
    data: Seq<u8>,
    pos: int,
    left: nat,
    dirs: Map<u32, Seq<u8>>,
    found: Seq<EntryView>,
    i: int,
)
    requires
        0 <= pos,
        forall|k: int| 0 <= k < found.len() ==> #[trigger] in_place(data, found, k),
    ensures
        records_from(data, pos, left, dirs, found) matches Ok((all, end)) ==> (0 <= i < all.len() ==> in_place(
            data,
            all,
            i,
        )),
    decreases data.len() - pos,
{
    if left > 0 {
        record_advances(data, pos);
        match record_at(data, pos) {
            Err(e) => {},
            Ok(None) => {
                all_are_in_place(data, pos + 48, left, dirs, found, i);
            },
            Ok(Some(r)) => {
                let path = path_under(folder_path(dirs, r.parent), r.name);
                if r.is_directory {
                    let more = seq![folder_entry(r, path)];
                    assert(found + more =~= found.push(folder_entry(r, path)));
                    assert forall|k: int| 0 <= k < (found + more).len() implies #[trigger] in_place(
                        data,
                        found + more,
                        k,
                    ) by {
                        if k < found.len() {
                            place_is_kept(data, found, more, k);
                        } else {
                            reveal(in_place);
                        }
                    }
                    all_are_in_place(
                        data,
                        r.body,
                        (left - 1 + r.numfiles) as nat,
                        dirs.insert(offset_of(pos), path),
                        found + more,
                        i,
                    );
                } else {
                    let next = r.body + resource_stored(r) + r.data.stored;
                    let more = file_entries(r, path);
                    if next <= data.len() {
                        assert forall|k: int| 0 <= k < (found + more).len() implies #[trigger] in_place(
                            data,
                            found + more,
                            k,
                        ) by {
                            if k < found.len() {
                                place_is_kept(data, found, more, k);
                            } else {
                                file_is_in_place(data, pos, r, path, found, k);
                            }
                        }
                        all_are_in_place(data, next, (left - 1) as nat, dirs, found + more, i);
                    }
                }
            },
        }
    }
}

/// Directories, and nothing else, have no fork, and their size is 0. The two forks of a
/// file stand next to each other under the same name, the resource fork first, and lie
/// within the archive.
pub proof fn forks_of_a_file_stand_together(data: Seq<u8>, i: int)
    requires
        catalog_of_body(data) matches Ok(entries) && 0 <= i < entries.len(),
    ensures
        ({
            let entries = catalog_of_body(data)->Ok_0;
            &&& entry_sound(entries[i])
            &&& !entries[i].is_directory ==> exists|pos: int| #[trigger] fork_in_place(data, entries, i, pos)
        }),
{
    let h = header_of(data)->Ok_0;
    all_are_in_place(data, h.first, h.numfiles, Map::empty(), seq![], i);
    reveal(in_place);
}

/// Reading an entry gives as many bytes as the catalog says.
pub proof fn entries_have_their_size(data: Seq<u8>, i: int)
    requires
        catalog_of_body(data) matches Ok(entries) && 0 <= i < entries.len(),
    ensures
        entry_content(data, catalog_of_body(data)->Ok_0, i) matches Ok(v) ==> v.len() == catalog_of_body(
            data,
        )->Ok_0[i].size,
{
    forks_of_a_file_stand_together(data, i);
    content_has_its_size(data, catalog_of_body(data)->Ok_0[i]);
}

// === bytes behind the archive =================================================

proof fn numbers_are_the_same(data: Seq<u8>, more: Seq<u8>, at: int)
    requires
        0 <= at,
    ensures
        at + 2 <= data.len() ==> be16(data + more, at) == be16(data, at),
        at + 4 <= data.len() ==> be32(data + more, at) == be32(data, at),
{
    reveal(be16);
    reveal(be32);
}

proof fn slice_is_the_same(data: Seq<u8>, more: Seq<u8>, a: int, b: int)
    requires
        0 <= a <= b <= data.len(),
    ensures
        (data + more).subrange(a, b) == data.subrange(a, b),
{
    assert((data + more).subrange(a, b) =~= data.subrange(a, b));
}

proof fn header_is_the_same(data: Seq<u8>, more: Seq<u8>)
    requires
        header_of(data) is Ok,
    ensures
        header_of(data + more) == header_of(data),
{
    let all = data + more;
    reveal(is_sit5);
    assert(is_sit5(all));
    let flags = data[83];
    numbers_are_the_same(data, more, 92);
    numbers_are_the_same(data, more, 94);
    numbers_are_the_same(data, more, 100);
    numbers_are_the_same(data, more, 102);
    numbers_are_the_same(data, more, 114);
    numbers_are_the_same(data, more, 116);
    assert(comment_at(all, flags) == comment_at(data, flags));
    let p1 = comment_at(data, flags)->Ok_0.1;
    if hash_at(data, flags, p1)->Ok_0.0 is Some {
        slice_is_the_same(data, more, p1 + 1, p1 + 6);
    }
    assert(hash_at(all, flags, p1) == hash_at(data, flags, p1));
    let p2 = hash_at(data, flags, p1)->Ok_0.1;
    numbers_are_the_same(data, more, p2);
    assert(list_end(all, flags, p2) == list_end(data, flags, p2));
}

proof fn resource_is_the_same(data: Seq<u8>, more: Seq<u8>, block: int, pos: int, crypted: bool)
    requires
        0 <= block,
        block + 32 <= pos,
        pos <= data.len(),
        resource_at(data, block, pos, crypted) is Ok,
    ensures
        resource_at(data + more, block, pos, crypted) == resource_at(data, block, pos, crypted),
{
    numbers_are_the_same(data, more, block);
    numbers_are_the_same(data, more, pos);
    numbers_are_the_same(data, more, pos + 4);
    numbers_are_the_same(data, more, pos + 8);
}

proof fn rest_is_the_same(data: Seq<u8>, more: Seq<u8>, pos: int, method: u8, has_key: bool, p: int)
    requires
        0 <= pos,
        pos + 48 <= p <= data.len(),
        record_rest(data, pos, method, has_key, p) is Ok,
    ensures
        record_rest(data + more, pos, method, has_key, p) == record_rest(data, pos, method, has_key, p),
{
    let all = data + more;
    numbers_are_the_same(data, more, pos + 6);
    numbers_are_the_same(data, more, pos + 10);
    numbers_are_the_same(data, more, pos + 14);
    numbers_are_the_same(data, more, pos + 26);
    numbers_are_the_same(data, more, pos + 30);
    numbers_are_the_same(data, more, pos + 34);
    numbers_are_the_same(data, more, pos + 38);
    numbers_are_the_same(data, more, pos + 42);
    numbers_are_the_same(data, more, pos + 46);
    let named = p + be16(data, pos + 30);
    numbers_are_the_same(data, more, named);
    slice_is_the_same(data, more, p, named);
    let headerend = offset_of(pos) + be16(data, pos + 6);
    assert(comment_end(all, named, headerend) == comment_end(data, named, headerend));
    let block = comment_end(data, named, headerend)->Ok_0;
    let after_block = block + (if data[pos + 4] == 1 {
        36int
    } else {
        32int
    });
    slice_is_the_same(data, more, block + 4, block + 8);
    slice_is_the_same(data, more, block + 8, block + 12);
    numbers_are_the_same(data, more, block + 12);
    resource_is_the_same(data, more, block, after_block, data[pos + 9] & ENTRYFLAGS_CRYPTED != 0);
}

proof fn record_is_the_same(data: Seq<u8>, more: Seq<u8>, pos: int)
    requires
        0 <= pos,
        record_at(data, pos) is Ok,
    ensures
        record_at(data + more, pos) == record_at(data, pos),
{
    numbers_are_the_same(data, more, pos);
    numbers_are_the_same(data, more, pos + 34);
    assert(data_fork_at(data + more, pos) == data_fork_at(data, pos));
    let (method, has_key, p) = data_fork_at(data, pos)->Ok_0;
    if record_at(data, pos)->Ok_0 is Some {
        rest_is_the_same(data, more, pos, method, has_key, p);
    }
}

proof fn records_are_the_same(
    data: Seq<u8>,
    more: Seq<u8>,
    pos: int,
    left: nat,
    dirs: Map<u32, Seq<u8>>,
    found: Seq<EntryView>,
)
    requires
        0 <= pos,
        records_from(data, pos, left, dirs, found) is Ok,
    ensures
        records_from(data + more, pos, left, dirs, found) == records_from(data, pos, left, dirs, found),
    decreases data.len() - pos,
{
    if left > 0 {
        record_advances(data, pos);
        record_is_the_same(data, more, pos);
        match record_at(data, pos)->Ok_0 {
            None => {
                records_are_the_same(data, more, pos + 48, left, dirs, found);
            },
            Some(r) => {
                let path = path_under(folder_path(dirs, r.parent), r.name);
                if r.is_directory {
                    records_are_the_same(
                        data,
                        more,
                        r.body,
                        (left - 1 + r.numfiles) as nat,
                        dirs.insert(offset_of(pos), path),
                        found.push(folder_entry(r, path)),
                    );
                } else {
                    let next = r.body + resource_stored(r) + r.data.stored;
                    records_are_the_same(data, more, next, (left - 1) as nat, dirs, found + file_entries(r, path));
                }
            },
        }
    }
}

/// Bytes put behind an archive change neither its catalog nor what is read from it.
pub proof fn bytes_behind_change_nothing(data: Seq<u8>, more: Seq<u8>, i: int)
    requires
        catalog_of_body(data) is Ok,
    ensures
        catalog_of_body(data + more) == catalog_of_body(data),
        ({
            let entries = catalog_of_body(data)->Ok_0;
            0 <= i < entries.len() ==> entry_content(data + more, entries, i) == entry_content(data, entries, i)
        }),
{
    header_is_the_same(data, more);
    let h = header_of(data)->Ok_0;
    records_are_the_same(data, more, h.first, h.numfiles, Map::empty(), seq![]);
    let entries = catalog_of_body(data)->Ok_0;
    if 0 <= i < entries.len() {
        forks_of_a_file_stand_together(data, i);
        fork_bytes_are_the_same(data, more, entries[i]);
    }
}

} // verus!
