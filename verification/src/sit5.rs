use std::collections::HashMap;
use vstd::prelude::*;
use vstd::slice::{slice_subrange, slice_to_vec};
use crate::catalog::{append, be16, be32, entry_content, read_be16, read_be32, read_fork, read_four, EntryView, ForkView};
use crate::error::ErrorKind;
use crate::sit5_laws::entries_have_their_size;

verus! {

/// The number that opens every record.
pub const SIT5_ID: u32 = 0xA5A5_A5A5;

/// The only archive version that is understood.
pub const SIT5_VERSION: u8 = 5;

/// The length of a password hash and of a fork's key.
pub const KEY_LENGTH: usize = 5;

/// Archive flag: 14 more bytes follow the header.
pub const ARCHIVEFLAGS_14BYTES: u8 = 0x10;

/// Archive flag: a comment follows.
pub const ARCHIVEFLAGS_20: u8 = 0x20;

/// Archive flag: a list of 20-byte items follows.
pub const ARCHIVEFLAGS_40: u8 = 0x40;

/// Archive flag: a password hash follows.
pub const ARCHIVEFLAGS_CRYPTED: u8 = 0x80;

/// Record flag: a folder.
pub const ENTRYFLAGS_DIRECTORY: u8 = 0x40;

/// Record flag: encrypted forks.
pub const ENTRYFLAGS_CRYPTED: u8 = 0x20;

/// The length of the archive header.
pub const HEADER_LEN: usize = 100;

/// The length of the program in front of a self-extracting archive.
pub const EXE_STUB_LEN: usize = 0x1a000;

/// The text that opens an archive; 0xff stands for any byte.
pub const BANNER: [u8; 80] = [
    0x53, 0x74, 0x75, 0x66, 0x66, 0x49, 0x74, 0x20, 0x28, 0x63, 0x29, 0x31, 0x39, 0x39, 0x37, 0x2d,
    0xff, 0xff, 0xff, 0xff, 0x20, 0x41, 0x6c, 0x61, 0x64, 0x64, 0x69, 0x6e, 0x20, 0x53, 0x79, 0x73,
    0x74, 0x65, 0x6d, 0x73, 0x2c, 0x20, 0x49, 0x6e, 0x63, 0x2e, 0x2c, 0x20, 0x68, 0x74, 0x74, 0x70,
    0x3a, 0x2f, 0x2f, 0x77, 0x77, 0x77, 0x2e, 0x61, 0x6c, 0x61, 0x64, 0x64, 0x69, 0x6e, 0x73, 0x79,
    0x73, 0x2e, 0x63, 0x6f, 0x6d, 0x2f, 0x53, 0x74, 0x75, 0x66, 0x66, 0x49, 0x74, 0x2f, 0x0d, 0x0a,
];

/// The sizes of the fields of a record behind its mark.
pub const HEAD_FIELDS: [usize; 16] = [1, 1, 2, 1, 1, 4, 4, 4, 4, 4, 2, 2, 4, 4, 2, 2];

/// The sizes of the fields of a record's second block.
pub const BLOCK_FIELDS: [usize; 6] = [2, 2, 4, 4, 2, 18];

/// The same in a record of version 1.
pub const LONG_BLOCK_FIELDS: [usize; 6] = [2, 2, 4, 4, 2, 22];

/// The sizes of the fields of a resource fork, up to its key.
pub const RESOURCE_FIELDS: [usize; 5] = [4, 4, 2, 2, 1];

// === the format ===============================================================

/// The banner at the start of at least a header's worth of bytes.
#[verifier::opaque]
pub open spec fn is_sit5(data: Seq<u8>) -> bool {
    &&& data.len() >= HEADER_LEN
    &&& forall|i: int| 0 <= i < 80 ==> #[trigger] BANNER@[i] == 0xffu8 || BANNER@[i] == data[i]
}

/// The mark of the program in front of a self-extracting archive.
pub open spec fn is_sit5_exe(data: Seq<u8>) -> bool {
    &&& data.len() >= 4104
    &&& data[0] == 0x4d && data[1] == 0x5a
    &&& be32(data, 4100) == 0x4203_E853u32
}

/// The archive proper: what follows the program, or all of the bytes.
pub open spec fn body_of(data: Seq<u8>) -> Result<Seq<u8>, ErrorKind> {
    if !is_sit5(data) && is_sit5_exe(data) {
        if data.len() < EXE_STUB_LEN {
            Err(ErrorKind::UnexpectedEof)
        } else {
            Ok(data.skip(EXE_STUB_LEN as int))
        }
    } else {
        Ok(data)
    }
}

/// What the archive header says: the number of records at the top, where the
/// first of them lies, and the password hash.
pub struct Header {
    pub numfiles: nat,
    pub first: int,
    pub hash: Option<Seq<u8>>,
}

/// The password hash, if there is one, and the position after it.
pub open spec fn hash_at(data: Seq<u8>, flags: u8, pos: int) -> Result<(Option<Seq<u8>>, int), ErrorKind> {
    if flags & ARCHIVEFLAGS_CRYPTED == 0 {
        Ok((None, pos))
    } else if pos + 1 > data.len() {
        Err(ErrorKind::UnexpectedEof)
    } else if data[pos] != 5 {
        Err(ErrorKind::InvalidData)
    } else if pos + 6 > data.len() {
        Err(ErrorKind::UnexpectedEof)
    } else {
        Ok((Some(data.subrange(pos + 1, pos + 6)), pos + 6))
    }
}

/// The position after the list of 20-byte items, if there is one.
pub open spec fn list_end(data: Seq<u8>, flags: u8, pos: int) -> Result<int, ErrorKind> {
    if flags & ARCHIVEFLAGS_40 == 0 {
        Ok(pos)
    } else if pos + 2 > data.len() || pos + 2 + 20 * be16(data, pos) > data.len() {
        Err(ErrorKind::UnexpectedEof)
    } else {
        Ok(pos + 2 + 20 * be16(data, pos))
    }
}

/// The lengths of the two parts of a comment, and the position after them.
pub open spec fn comment_at(data: Seq<u8>, flags: u8) -> Result<(int, int), ErrorKind> {
    let p1 = if flags & ARCHIVEFLAGS_14BYTES != 0 {
        114int
    } else {
        100int
    };
    if p1 > data.len() {
        Err(ErrorKind::UnexpectedEof)
    } else if flags & ARCHIVEFLAGS_20 == 0 {
        Ok((0, p1))
    } else if p1 + 4 > data.len() {
        Err(ErrorKind::UnexpectedEof)
    } else {
        Ok((be16(data, p1) + be16(data, p1 + 2), p1 + 4))
    }
}

/// The archive header.
pub open spec fn header_of(data: Seq<u8>) -> Result<Header, ErrorKind> {
    if !is_sit5(data) || data[82] != SIT5_VERSION {
        Err(ErrorKind::InvalidData)
    } else {
        let flags = data[83];
        match comment_at(data, flags) {
            Err(e) => Err(e),
            Ok((comment, p1)) => match hash_at(data, flags, p1) {
                Err(e) => Err(e),
                Ok((hash, p2)) => match list_end(data, flags, p2) {
                    Err(e) => Err(e),
                    Ok(p3) => if p3 + comment > data.len() || be32(data, 94) > data.len() {
                        Err(ErrorKind::UnexpectedEof)
                    } else {
                        Ok(Header { numfiles: be16(data, 92) as nat, first: be32(data, 94) as int, hash })
                    },
                },
            },
        }
    }
}

/// The key of a fork: whether there is one, and the position after it. An
/// encrypted fork that is not empty has a key of five bytes, any other has none.
pub open spec fn key_at(data: Seq<u8>, pos: int, crypted: bool, length: u32) -> Result<(bool, int), ErrorKind> {
    if pos + 1 > data.len() {
        Err(ErrorKind::UnexpectedEof)
    } else if crypted && length != 0 {
        if data[pos] != 5 {
            Err(ErrorKind::Unsupported)
        } else if pos + 6 > data.len() {
            Err(ErrorKind::UnexpectedEof)
        } else {
            Ok((true, pos + 6))
        }
    } else if data[pos] != 0 {
        Err(ErrorKind::Unsupported)
    } else {
        Ok((false, pos + 1))
    }
}

/// A fork as its record describes it.
pub struct ForkRecord {
    pub length: u32,
    pub stored: u32,
    pub crc: u16,
    pub method: u8,
    pub has_key: bool,
}

/// A record of a folder or a file; `body` is where the forks are stored.
pub struct Record {
    pub name: Seq<u8>,
    pub is_directory: bool,
    pub numfiles: nat,
    pub parent: u32,
    pub creation_date: u32,
    pub modification_date: u32,
    pub file_type: Seq<u8>,
    pub creator: Seq<u8>,
    pub finder_flags: u16,
    pub data: ForkRecord,
    pub resource: Option<ForkRecord>,
    pub body: int,
}

/// The data fork's method and key, and the position after them; a folder has two
/// bytes there.
pub open spec fn data_fork_at(data: Seq<u8>, pos: int) -> Result<(u8, bool, int), ErrorKind> {
    if data[pos + 9] & ENTRYFLAGS_DIRECTORY != 0 {
        if pos + 48 > data.len() {
            Err(ErrorKind::UnexpectedEof)
        } else {
            Ok((0u8, false, pos + 48))
        }
    } else if pos + 47 > data.len() {
        Err(ErrorKind::UnexpectedEof)
    } else {
        match key_at(data, pos + 47, data[pos + 9] & ENTRYFLAGS_CRYPTED != 0, be32(data, pos + 34)) {
            Err(e) => Err(e),
            Ok((k, p)) => Ok((data[pos + 46], k, p)),
        }
    }
}

/// The position after a comment, which is there only if the header has room for it.
pub open spec fn comment_end(data: Seq<u8>, pos: int, headerend: int) -> Result<int, ErrorKind> {
    if pos >= headerend {
        Ok(pos)
    } else if pos + 2 > data.len() || pos + 4 + be16(data, pos) > data.len() {
        Err(ErrorKind::UnexpectedEof)
    } else {
        Ok(pos + 4 + be16(data, pos))
    }
}

/// The resource fork, if the flags at `block` announce one, and the position after it.
pub open spec fn resource_at(data: Seq<u8>, block: int, pos: int, crypted: bool) -> Result<
    (Option<ForkRecord>, int),
    ErrorKind,
> {
    if be16(data, block) & 1u16 == 0 {
        Ok((None, pos))
    } else if pos + 13 > data.len() {
        Err(ErrorKind::UnexpectedEof)
    } else {
        match key_at(data, pos + 13, crypted, be32(data, pos)) {
            Err(e) => Err(e),
            Ok((has_key, p)) => Ok(
                (
                    Some(
                        ForkRecord {
                            length: be32(data, pos),
                            stored: be32(data, pos + 4),
                            crc: be16(data, pos + 8),
                            method: data[pos + 12],
                            has_key,
                        },
                    ),
                    p,
                ),
            ),
        }
    }
}

/// Where a record starts, as folders are known by it.
pub open spec fn offset_of(pos: int) -> u32 {
    (pos % 0x1_0000_0000) as u32
}

/// The record at `pos`, whose data fork's method and key end at `p`.
pub open spec fn record_rest(data: Seq<u8>, pos: int, method: u8, has_key: bool, p: int) -> Result<Record, ErrorKind> {
    let named = p + be16(data, pos + 30);
    if named > data.len() {
        Err(ErrorKind::UnexpectedEof)
    } else {
        match comment_end(data, named, offset_of(pos) + be16(data, pos + 6)) {
            Err(e) => Err(e),
            Ok(block) => {
                let after_block = block + (if data[pos + 4] == 1 {
                    36int
                } else {
                    32int
                });
                if after_block > data.len() {
                    Err(ErrorKind::UnexpectedEof)
                } else {
                    match resource_at(data, block, after_block, data[pos + 9] & ENTRYFLAGS_CRYPTED != 0) {
                        Err(e) => Err(e),
                        Ok((resource, body)) => Ok(
                            Record {
                                name: data.subrange(p, named),
                                is_directory: data[pos + 9] & ENTRYFLAGS_DIRECTORY != 0,
                                numfiles: be16(data, pos + 46) as nat,
                                parent: be32(data, pos + 26),
                                creation_date: be32(data, pos + 10),
                                modification_date: be32(data, pos + 14),
                                file_type: data.subrange(block + 4, block + 8),
                                creator: data.subrange(block + 8, block + 12),
                                finder_flags: be16(data, block + 12),
                                data: ForkRecord {
                                    length: be32(data, pos + 34),
                                    stored: be32(data, pos + 38),
                                    crc: be16(data, pos + 42),
                                    method,
                                    has_key,
                                },
                                resource,
                                body,
                            },
                        ),
                    }
                }
            },
        }
    }
}

/// The record at `pos`; `None` for the empty record that follows a folder, which
/// takes 48 bytes.
pub open spec fn record_at(data: Seq<u8>, pos: int) -> Result<Option<Record>, ErrorKind> {
    if pos + 4 > data.len() {
        Err(ErrorKind::UnexpectedEof)
    } else if be32(data, pos) != SIT5_ID {
        Err(ErrorKind::InvalidData)
    } else if pos + 46 > data.len() {
        Err(ErrorKind::UnexpectedEof)
    } else {
        match data_fork_at(data, pos) {
            Err(e) => Err(e),
            Ok((method, has_key, p)) => if data[pos + 9] & ENTRYFLAGS_DIRECTORY != 0 && be32(data, pos + 34)
                == 0xffff_ffffu32 {
                Ok(None)
            } else {
                match record_rest(data, pos, method, has_key, p) {
                    Err(e) => Err(e),
                    Ok(r) => Ok(Some(r)),
                }
            },
        }
    }
}

/// The path of `name` within the folder `parent`; the root is the empty path.
pub open spec fn path_under(parent: Seq<u8>, name: Seq<u8>) -> Seq<u8> {
    if parent.len() == 0 {
        name
    } else {
        parent.push(0x2fu8) + name
    }
}

/// The path of the folder whose record starts at `offset`, empty if there is none.
pub open spec fn folder_path(dirs: Map<u32, Seq<u8>>, offset: u32) -> Seq<u8> {
    if dirs.contains_key(offset) {
        dirs[offset]
    } else {
        seq![]
    }
}

pub open spec fn folder_entry(r: Record, path: Seq<u8>) -> EntryView {
    EntryView {
        name: path,
        is_directory: true,
        is_resource_fork: false,
        is_encrypted: false,
        size: 0,
        file_type: r.file_type,
        creator: r.creator,
        finder_flags: r.finder_flags,
        creation_date: r.creation_date,
        modification_date: r.modification_date,
        fork: None,
    }
}

pub open spec fn fork_entry(r: Record, path: Seq<u8>, f: ForkRecord, is_resource_fork: bool, offset: int) -> EntryView {
    EntryView {
        name: path,
        is_directory: false,
        is_resource_fork,
        is_encrypted: f.has_key,
        size: f.length,
        file_type: r.file_type,
        creator: r.creator,
        finder_flags: r.finder_flags,
        creation_date: r.creation_date,
        modification_date: r.modification_date,
        fork: Some(ForkView { offset, stored: f.stored as int, method: f.method, crc: f.crc }),
    }
}

pub open spec fn resource_stored(r: Record) -> int {
    match r.resource {
        None => 0,
        Some(f) => f.stored as int,
    }
}

/// The entries of a file: its resource fork if it has one, and its data fork if
/// it is not empty or there is no other.
pub open spec fn file_entries(r: Record, path: Seq<u8>) -> Seq<EntryView> {
    let rsrc = match r.resource {
        None => seq![],
        Some(f) => seq![fork_entry(r, path, f, true, r.body)],
    };
    if r.data.length != 0 || r.resource is None {
        rsrc.push(fork_entry(r, path, r.data, false, r.body + resource_stored(r)))
    } else {
        rsrc
    }
}

/// A record ends within the archive, behind the place where it starts.
pub(crate) proof fn record_advances(data: Seq<u8>, pos: int)
    ensures
        match record_at(data, pos) {
            Ok(Some(r)) => pos < r.body <= data.len(),
            Ok(None) => pos + 48 <= data.len(),
            Err(e) => true,
        },
{
}

/// The catalog, given that `left` records are still due at `pos`, the folders met
/// so far and the entries found so far, and the position after the last record. A
/// folder adds its own records to those that are due, and the empty record behind it
/// counts for nothing.
pub open spec fn records_from(
    data: Seq<u8>,
    pos: int,
    left: nat,
    dirs: Map<u32, Seq<u8>>,
    found: Seq<EntryView>,
) -> Result<(Seq<EntryView>, int), ErrorKind>
    decreases data.len() - pos,
    via records_advance
{
    if left == 0 {
        Ok((found, pos))
    } else {
        match record_at(data, pos) {
            Err(e) => Err(e),
            Ok(None) => records_from(data, pos + 48, left, dirs, found),
            Ok(Some(r)) => {
                let path = path_under(folder_path(dirs, r.parent), r.name);
                if r.is_directory {
                    records_from(
                        data,
                        r.body,
                        (left - 1 + r.numfiles) as nat,
                        dirs.insert(offset_of(pos), path),
                        found.push(folder_entry(r, path)),
                    )
                } else {
                    let next = r.body + resource_stored(r) + r.data.stored;
                    if next > data.len() {
                        Err(ErrorKind::UnexpectedEof)
                    } else {
                        records_from(data, next, (left - 1) as nat, dirs, found + file_entries(r, path))
                    }
                }
            },
        }
    }
}

#[via_fn]
proof fn records_advance(
    data: Seq<u8>,
    pos: int,
    left: nat,
    dirs: Map<u32, Seq<u8>>,
    found: Seq<EntryView>,
) {
    record_advances(data, pos);
}

// === where a cursor stops =====================================================

/// The position after the fields from number `i` on, or before the first of them that
/// does not fit into `len` bytes.
pub open spec fn fields_stop(len: int, pos: int, sizes: Seq<usize>, i: int) -> int
    decreases sizes.len() - i,
{
    if i >= sizes.len() || pos + sizes[i] > len {
        pos
    } else {
        fields_stop(len, pos + sizes[i], sizes, i + 1)
    }
}

/// The size of the fields from number `i` on together.
pub open spec fn fields_size(sizes: Seq<usize>, i: int) -> int
    decreases sizes.len() - i,
{
    if i >= sizes.len() {
        0
    } else {
        sizes[i] + fields_size(sizes, i + 1)
    }
}

/// Where a cursor stops at a key, be it cut short or not.
pub open spec fn key_stop(data: Seq<u8>, pos: int, crypted: bool, length: u32) -> int {
    match key_at(data, pos, crypted, length) {
        Ok((_k, p)) => p,
        Err(e) => if pos + 1 > data.len() {
            pos
        } else {
            pos + 1
        },
    }
}

/// Where a cursor stops at the data fork's method and key.
pub open spec fn data_fork_stop(data: Seq<u8>, pos: int) -> int {
    match data_fork_at(data, pos) {
        Ok((_m, _k, p)) => p,
        Err(e) => if data[pos + 9] & ENTRYFLAGS_DIRECTORY != 0 || pos + 47 > data.len() {
            pos + 46
        } else {
            key_stop(data, pos + 47, data[pos + 9] & ENTRYFLAGS_CRYPTED != 0, be32(data, pos + 34))
        },
    }
}

/// Where a cursor stops at a comment.
pub open spec fn comment_stop(data: Seq<u8>, pos: int, headerend: int) -> int {
    match comment_end(data, pos, headerend) {
        Ok(p) => p,
        Err(e) => if pos + 2 > data.len() {
            pos
        } else if pos + 4 > data.len() {
            pos + 2
        } else {
            pos + 4
        },
    }
}

/// Where a cursor stops at a resource fork.
pub open spec fn resource_stop(data: Seq<u8>, block: int, pos: int, crypted: bool) -> int {
    if be16(data, block) & 1u16 == 0 {
        pos
    } else if pos + 13 > data.len() {
        fields_stop(data.len() as int, pos, RESOURCE_FIELDS@, 0)
    } else {
        key_stop(data, pos + 13, crypted, be32(data, pos))
    }
}

/// The fields of the second block of the record at `pos`.
pub open spec fn block_fields(data: Seq<u8>, pos: int) -> Seq<usize> {
    if data[pos + 4] == 1 {
        LONG_BLOCK_FIELDS@
    } else {
        BLOCK_FIELDS@
    }
}

/// Where a cursor stops in the record at `pos` behind the data fork's key, which ends at
/// `p`.
pub open spec fn rest_stop(data: Seq<u8>, pos: int, p: int) -> int {
    let named = p + be16(data, pos + 30);
    if named > data.len() {
        p
    } else {
        let headerend = offset_of(pos) + be16(data, pos + 6);
        match comment_end(data, named, headerend) {
            Err(e) => comment_stop(data, named, headerend),
            Ok(block) => {
                let after_block = block + (if data[pos + 4] == 1 {
                    36int
                } else {
                    32int
                });
                if after_block > data.len() {
                    fields_stop(data.len() as int, block, block_fields(data, pos), 0)
                } else {
                    resource_stop(data, block, after_block, data[pos + 9] & ENTRYFLAGS_CRYPTED != 0)
                }
            },
        }
    }
}

/// Where a cursor stops at the record at `pos`, be it cut short or not.
pub open spec fn record_stop(data: Seq<u8>, pos: int) -> int {
    if pos + 4 > data.len() {
        pos
    } else if be32(data, pos) != SIT5_ID {
        pos + 4
    } else if pos + 46 > data.len() {
        fields_stop(data.len() as int, pos + 4, HEAD_FIELDS@, 0)
    } else {
        match data_fork_at(data, pos) {
            Err(e) => data_fork_stop(data, pos),
            Ok((_method, _has_key, p)) => if data[pos + 9] & ENTRYFLAGS_DIRECTORY != 0 && be32(data, pos + 34)
                == 0xffff_ffffu32 {
                p
            } else {
                rest_stop(data, pos, p)
            },
        }
    }
}

/// Where a cursor stops at the records of which `left` are still due at `pos`, whether
/// they all are there or not.
pub open spec fn records_stop(data: Seq<u8>, pos: int, left: nat) -> int
    decreases data.len() - pos,
    via records_stop_advances
{
    if left == 0 {
        pos
    } else {
        match record_at(data, pos) {
            Err(e) => record_stop(data, pos),
            Ok(None) => records_stop(data, pos + 48, left),
            Ok(Some(r)) => if r.is_directory {
                records_stop(data, r.body, (left - 1 + r.numfiles) as nat)
            } else {
                let next = r.body + resource_stored(r) + r.data.stored;
                if next > data.len() {
                    r.body
                } else {
                    records_stop(data, next, (left - 1) as nat)
                }
            },
        }
    }
}

#[via_fn]
proof fn records_stop_advances(data: Seq<u8>, pos: int, left: nat) {
    record_advances(data, pos);
}

proof fn fields_size_positive(sizes: Seq<usize>, i: int)
    requires
        0 <= i,
    ensures
        fields_size(sizes, i) >= 0,
    decreases sizes.len() - i,
{
    if i < sizes.len() {
        fields_size_positive(sizes, i + 1);
    }
}

proof fn stop_is_ahead(len: int, pos: int, sizes: Seq<usize>, i: int)
    requires
        0 <= i,
    ensures
        fields_stop(len, pos, sizes, i) >= pos,
    decreases sizes.len() - i,
{
    if i < sizes.len() && pos + sizes[i] <= len {
        stop_is_ahead(len, pos + sizes[i], sizes, i + 1);
    }
}

proof fn field_sizes()
    ensures
        fields_size(HEAD_FIELDS@, 0) == 42,
        fields_size(BLOCK_FIELDS@, 0) == 32,
        fields_size(LONG_BLOCK_FIELDS@, 0) == 36,
        fields_size(RESOURCE_FIELDS@, 0) == 13,
{
    reveal_with_fuel(fields_size, 17);
}

/// The catalog of an archive that starts at its banner.
pub open spec fn catalog_of_body(data: Seq<u8>) -> Result<Seq<EntryView>, ErrorKind> {
    match header_of(data) {
        Err(e) => Err(e),
        Ok(h) => match records_from(data, h.first, h.numfiles, Map::empty(), seq![]) {
            Err(e) => Err(e),
            Ok((entries, end)) => Ok(entries),
        },
    }
}

/// The catalog of an archive or of a self-extracting one.
pub open spec fn catalog_of(data: Seq<u8>) -> Result<Seq<EntryView>, ErrorKind> {
    match body_of(data) {
        Err(e) => Err(e),
        Ok(body) => catalog_of_body(body),
    }
}


// === entries ==================================================================

/// How to extract one fork.
struct ForkInfo {
    offset: u128,
    complen: u32,
    method: u8,
    crc: u16,
}

/// A directory, or one fork of a file.
pub struct StuffIt5Entry {
    name: Vec<u8>,
    is_directory: bool,
    is_resource_fork: bool,
    is_encrypted: bool,
    size: u32,
    file_type: [u8; 4],
    creator: [u8; 4],
    finder_flags: u16,
    creation_date: u32,
    modification_date: u32,
    fork: Option<ForkInfo>,
}

impl StuffIt5Entry {
    pub closed spec fn view(&self) -> EntryView {
        EntryView {
            name: self.name@,
            is_directory: self.is_directory,
            is_resource_fork: self.is_resource_fork,
            is_encrypted: self.is_encrypted,
            size: self.size,
            file_type: self.file_type@,
            creator: self.creator@,
            finder_flags: self.finder_flags,
            creation_date: self.creation_date,
            modification_date: self.modification_date,
            fork: match self.fork {
                None => None,
                Some(f) => Some(
                    ForkView { offset: f.offset as int, stored: f.complen as int, method: f.method, crc: f.crc },
                ),
            },
        }
    }

    spec fn wf(&self) -> bool {
        self.fork matches Some(f) ==> f.offset <= 0x1_0000_0001_0000_0000
    }

    /// The path from the archive's root, its parts joined with `/`. A file's two
    /// forks share it.
    pub fn name(&self) -> (r: &[u8])
        ensures
            r@ == self.view().name,
    {
        self.name.as_slice()
    }

    /// The fork's decoded length in bytes, 0 for a directory.
    pub fn size(&self) -> (r: u64)
        ensures
            r == self.view().size,
    {
        self.size as u64
    }

    /// Whether this entry is a directory.
    pub fn is_directory(&self) -> (r: bool)
        ensures
            r == self.view().is_directory,
    {
        self.is_directory
    }

    /// Whether this entry is a resource fork.
    pub fn is_resource_fork(&self) -> (r: bool)
        ensures
            r == self.view().is_resource_fork,
    {
        self.is_resource_fork
    }

    /// Whether the fork is encrypted.
    pub fn is_encrypted(&self) -> (r: bool)
        ensures
            r == self.view().is_encrypted,
    {
        self.is_encrypted
    }

    /// The file type, four raw bytes.
    pub fn file_type(&self) -> (r: [u8; 4])
        ensures
            r@ == self.view().file_type,
    {
        self.file_type
    }

    /// The creator code, four raw bytes.
    pub fn creator(&self) -> (r: [u8; 4])
        ensures
            r@ == self.view().creator,
    {
        self.creator
    }

    /// The Finder flags.
    pub fn finder_flags(&self) -> (r: u16)
        ensures
            r == self.view().finder_flags,
    {
        self.finder_flags
    }

    /// The creation date in seconds since 1904.
    pub fn creation_date(&self) -> (r: u32)
        ensures
            r == self.view().creation_date,
    {
        self.creation_date
    }

    /// The modification date in seconds since 1904.
    pub fn modification_date(&self) -> (r: u32)
        ensures
            r == self.view().modification_date,
    {
        self.modification_date
    }
}

/// The catalog behind a list of entries.
pub open spec fn views(entries: Seq<StuffIt5Entry>) -> Seq<EntryView> {
    Seq::new(entries.len(), |i: int| entries[i].view())
}

// === recognition ==============================================================

/// Whether `data` starts with an archive.
pub fn recognize(data: &[u8]) -> (r: bool)
    ensures
        r == is_sit5(data@),
{
    reveal(is_sit5);
    if data.len() < HEADER_LEN {
        return false;
    }
    let mut i: usize = 0;
    while i < 80
        invariant
            i <= 80,
            data@.len() >= HEADER_LEN,
            forall|k: int| 0 <= k < i ==> #[trigger] BANNER@[k] == 0xffu8 || BANNER@[k] == data@[k],
        decreases 80 - i,
    {
        let m: u8 = BANNER[i];
        if m != 0xff && m != data[i] {
            reveal(is_sit5);
            assert(BANNER@[i as int] != 0xffu8 && BANNER@[i as int] != data@[i as int]);
            return false;
        }
        i = i + 1;
    }
    true
}

/// Whether `data` starts with the program of a self-extracting archive.
fn recognize_exe(data: &[u8]) -> (r: bool)
    ensures
        r == is_sit5_exe(data@),
{
    data.len() >= 4104 && data[0] == 0x4d && data[1] == 0x5a && read_be32(data, 4100) == 0x4203_E853
}

// === parsing ==================================================================

/// A place in the archive's bytes.
struct Cursor<'a> {
    data: &'a [u8],
    pos: usize,
}

impl<'a> Cursor<'a> {
    spec fn wf(&self) -> bool {
        self.pos <= self.data@.len()
    }

    fn seek(&mut self, pos: u128) -> (r: Result<(), ErrorKind>)
        requires
            old(self).wf(),
        ensures
            final(self).wf(),
            final(self).data == old(self).data,
            match r {
                Ok(_) => pos <= old(self).data@.len() && final(self).pos == pos,
                Err(e) => {
                    &&& pos > old(self).data@.len()
                    &&& e == ErrorKind::UnexpectedEof
                    &&& final(self).pos == old(self).pos
                },
            },
    {
        if pos > self.data.len() as u128 {
            return Err(ErrorKind::UnexpectedEof);
        }
        self.pos = pos as usize;
        Ok(())
    }

    /// Pass `n` bytes.
    fn skip(&mut self, n: usize) -> (r: Result<(), ErrorKind>)
        requires
            old(self).wf(),
        ensures
            final(self).wf(),
            final(self).data == old(self).data,
            match r {
                Ok(_) => final(self).pos == old(self).pos + n,
                Err(e) => {
                    &&& old(self).pos + n > old(self).data@.len()
                    &&& e == ErrorKind::UnexpectedEof
                    &&& final(self).pos == old(self).pos
                },
            },
    {
        if n > self.data.len() - self.pos {
            return Err(ErrorKind::UnexpectedEof);
        }
        self.pos = self.pos + n;
        Ok(())
    }

    /// Pass fields of the given sizes, as far as they are there.
    fn pass(&mut self, sizes: &[usize]) -> (r: Result<(), ErrorKind>)
        requires
            old(self).wf(),
        ensures
            final(self).wf(),
            final(self).data == old(self).data,
            final(self).pos == fields_stop(old(self).data@.len() as int, old(self).pos as int, sizes@, 0),
            match r {
                Ok(_) => final(self).pos == old(self).pos + fields_size(sizes@, 0),
                Err(e) => {
                    &&& old(self).pos + fields_size(sizes@, 0) > old(self).data@.len()
                    &&& e == ErrorKind::UnexpectedEof
                },
            },
    {
        let mut i: usize = 0;
        while i < sizes.len()
            invariant
                i <= sizes@.len(),
                self.wf(),
                self.data == old(self).data,
                self.pos + fields_size(sizes@, i as int) == old(self).pos + fields_size(sizes@, 0),
                fields_stop(self.data@.len() as int, self.pos as int, sizes@, i as int) == fields_stop(
                    old(self).data@.len() as int,
                    old(self).pos as int,
                    sizes@,
                    0,
                ),
            decreases sizes@.len() - i,
        {
            match self.skip(sizes[i]) {
                Ok(_) => {},
                Err(e) => {
                    proof {
                        fields_size_positive(sizes@, i + 1);
                    }
                    return Err(e);
                },
            }
            i = i + 1;
        }
        Ok(())
    }

    fn take(&mut self, n: usize) -> (r: Result<&'a [u8], ErrorKind>)
        requires
            old(self).wf(),
        ensures
            final(self).wf(),
            final(self).data == old(self).data,
            match r {
                Ok(s) => {
                    &&& final(self).pos == old(self).pos + n
                    &&& s@ == old(self).data@.subrange(old(self).pos as int, old(self).pos + n)
                },
                Err(e) => {
                    &&& old(self).pos + n > old(self).data@.len()
                    &&& e == ErrorKind::UnexpectedEof
                    &&& final(self).pos == old(self).pos
                },
            },
    {
        if n > self.data.len() - self.pos {
            return Err(ErrorKind::UnexpectedEof);
        }
        let s = slice_subrange(self.data, self.pos, self.pos + n);
        self.pos = self.pos + n;
        Ok(s)
    }

    fn u8(&mut self) -> (r: Result<u8, ErrorKind>)
        requires
            old(self).wf(),
        ensures
            final(self).wf(),
            final(self).data == old(self).data,
            match r {
                Ok(v) => final(self).pos == old(self).pos + 1 && v == old(self).data@[old(self).pos as int],
                Err(e) => {
                    &&& old(self).pos + 1 > old(self).data@.len()
                    &&& e == ErrorKind::UnexpectedEof
                    &&& final(self).pos == old(self).pos
                },
            },
    {
        if self.data.len() - self.pos < 1 {
            return Err(ErrorKind::UnexpectedEof);
        }
        let v: u8 = self.data[self.pos];
        self.pos = self.pos + 1;
        Ok(v)
    }

    fn u16(&mut self) -> (r: Result<u16, ErrorKind>)
        requires
            old(self).wf(),
        ensures
            final(self).wf(),
            final(self).data == old(self).data,
            match r {
                Ok(v) => final(self).pos == old(self).pos + 2 && v == be16(old(self).data@, old(self).pos as int),
                Err(e) => {
                    &&& old(self).pos + 2 > old(self).data@.len()
                    &&& e == ErrorKind::UnexpectedEof
                    &&& final(self).pos == old(self).pos
                },
            },
    {
        if self.data.len() - self.pos < 2 {
            return Err(ErrorKind::UnexpectedEof);
        }
        let v: u16 = read_be16(self.data, self.pos);
        self.pos = self.pos + 2;
        Ok(v)
    }

    fn u32(&mut self) -> (r: Result<u32, ErrorKind>)
        requires
            old(self).wf(),
        ensures
            final(self).wf(),
            final(self).data == old(self).data,
            match r {
                Ok(v) => final(self).pos == old(self).pos + 4 && v == be32(old(self).data@, old(self).pos as int),
                Err(e) => {
                    &&& old(self).pos + 4 > old(self).data@.len()
                    &&& e == ErrorKind::UnexpectedEof
                    &&& final(self).pos == old(self).pos
                },
            },
    {
        if self.data.len() - self.pos < 4 {
            return Err(ErrorKind::UnexpectedEof);
        }
        let v: u32 = read_be32(self.data, self.pos);
        self.pos = self.pos + 4;
        Ok(v)
    }

    /// A password hash or a key.
    fn key(&mut self) -> (r: Result<[u8; 5], ErrorKind>)
        requires
            old(self).wf(),
        ensures
            final(self).wf(),
            final(self).data == old(self).data,
            match r {
                Ok(v) => {
                    &&& final(self).pos == old(self).pos + 5
                    &&& v@ == old(self).data@.subrange(old(self).pos as int, old(self).pos + 5)
                },
                Err(e) => {
                    &&& old(self).pos + 5 > old(self).data@.len()
                    &&& e == ErrorKind::UnexpectedEof
                    &&& final(self).pos == old(self).pos
                },
            },
    {
        let b = match self.take(KEY_LENGTH) {
            Ok(b) => b,
            Err(e) => {
                return Err(e);
            },
        };
        let k: [u8; 5] = [b[0], b[1], b[2], b[3], b[4]];
        assert(k@ =~= b@);
        Ok(k)
    }
}

/// The header as it is used.
struct ParsedHeader {
    numfiles: u16,
    first: u32,
    hash: Option<[u8; 5]>,
}

impl ParsedHeader {
    spec fn view(&self) -> Header {
        Header {
            numfiles: self.numfiles as nat,
            first: self.first as int,
            hash: match self.hash {
                None => None,
                Some(k) => Some(k@),
            },
        }
    }
}

/// Read the archive header.
fn parse_header(data: &[u8]) -> (r: Result<ParsedHeader, ErrorKind>)
    ensures
        match r {
            Ok(h) => header_of(data@) == Ok::<Header, ErrorKind>(h.view()) && h.first <= data@.len(),
            Err(e) => header_of(data@) == Err::<Header, ErrorKind>(e),
        },
{
    if !recognize(data) {
        return Err(ErrorKind::InvalidData);
    }
    assert(data@.len() >= HEADER_LEN) by {
        reveal(is_sit5);
    }
    if data[82] != SIT5_VERSION {
        return Err(ErrorKind::InvalidData);
    }
    let flags: u8 = data[83];
    let numfiles: u16 = read_be16(data, 92);
    let first: u32 = read_be32(data, 94);
    let mut c = Cursor { data, pos: HEADER_LEN };
    let comment: usize = match read_comment_lengths(&mut c, flags) {
        Ok(n) => n,
        Err(e) => {
            return Err(e);
        },
    };
    let hash: Option<[u8; 5]> = match read_hash(&mut c, flags) {
        Ok(h) => h,
        Err(e) => {
            return Err(e);
        },
    };
    match skip_list(&mut c, flags) {
        Ok(_) => {},
        Err(e) => {
            return Err(e);
        },
    }
    match c.skip(comment) {
        Ok(_) => {},
        Err(e) => {
            return Err(e);
        },
    }
    if first as u64 > data.len() as u64 {
        return Err(ErrorKind::UnexpectedEof);
    }
    Ok(ParsedHeader { numfiles, first, hash })
}

/// Read the lengths of the comment's two parts.
fn read_comment_lengths(c: &mut Cursor, flags: u8) -> (r: Result<usize, ErrorKind>)
    requires
        old(c).wf(),
        old(c).pos == 100,
    ensures
        final(c).wf(),
        final(c).data == old(c).data,
        match r {
            Ok(n) => comment_at(old(c).data@, flags) == Ok::<(int, int), ErrorKind>((n as int, final(c).pos as int)),
            Err(e) => comment_at(old(c).data@, flags) == Err::<(int, int), ErrorKind>(e),
        },
{
    if flags & ARCHIVEFLAGS_14BYTES != 0 {
        match c.skip(14) {
            Ok(_) => {},
            Err(e) => {
                return Err(e);
            },
        }
    }
    if flags & ARCHIVEFLAGS_20 == 0 {
        return Ok(0);
    }
    let commentsize: u16 = match c.u16() {
        Ok(v) => v,
        Err(e) => {
            return Err(e);
        },
    };
    let length_b: u16 = match c.u16() {
        Ok(v) => v,
        Err(e) => {
            return Err(e);
        },
    };
    Ok(commentsize as usize + length_b as usize)
}

/// Read the password hash, if there is one.
fn read_hash(c: &mut Cursor, flags: u8) -> (r: Result<Option<[u8; 5]>, ErrorKind>)
    requires
        old(c).wf(),
    ensures
        final(c).wf(),
        final(c).data == old(c).data,
        match r {
            Ok(h) => hash_at(old(c).data@, flags, old(c).pos as int) == Ok::<(Option<Seq<u8>>, int), ErrorKind>(
                (
                    match h {
                        None => None,
                        Some(k) => Some(k@),
                    },
                    final(c).pos as int,
                ),
            ),
            Err(e) => hash_at(old(c).data@, flags, old(c).pos as int) == Err::<(Option<Seq<u8>>, int), ErrorKind>(e),
        },
{
    if flags & ARCHIVEFLAGS_CRYPTED == 0 {
        return Ok(None);
    }
    let hashsize: u8 = match c.u8() {
        Ok(v) => v,
        Err(e) => {
            return Err(e);
        },
    };
    if hashsize != 5 {
        return Err(ErrorKind::InvalidData);
    }
    match c.key() {
        Ok(k) => Ok(Some(k)),
        Err(e) => Err(e),
    }
}

/// Pass the list of 20-byte items, if there is one.
fn skip_list(c: &mut Cursor, flags: u8) -> (r: Result<(), ErrorKind>)
    requires
        old(c).wf(),
    ensures
        final(c).wf(),
        final(c).data == old(c).data,
        match r {
            Ok(_) => list_end(old(c).data@, flags, old(c).pos as int) == Ok::<int, ErrorKind>(final(c).pos as int),
            Err(e) => list_end(old(c).data@, flags, old(c).pos as int) == Err::<int, ErrorKind>(e),
        },
{
    if flags & ARCHIVEFLAGS_40 == 0 {
        return Ok(());
    }
    let length_n: u16 = match c.u16() {
        Ok(v) => v,
        Err(e) => {
            return Err(e);
        },
    };
    c.skip(20 * length_n as usize)
}

/// Read the key that follows a fork's method; `true` if there is one.
fn read_fork_key(c: &mut Cursor, crypted: bool, forklen: u32) -> (r: Result<bool, ErrorKind>)
    requires
        old(c).wf(),
    ensures
        final(c).wf(),
        final(c).data == old(c).data,
        final(c).pos == key_stop(old(c).data@, old(c).pos as int, crypted, forklen),
        final(c).pos >= old(c).pos,
        match r {
            Ok(k) => key_at(old(c).data@, old(c).pos as int, crypted, forklen) == Ok::<(bool, int), ErrorKind>(
                (k, final(c).pos as int),
            ),
            Err(e) => key_at(old(c).data@, old(c).pos as int, crypted, forklen) == Err::<(bool, int), ErrorKind>(e),
        },
{
    let passlen: u8 = match c.u8() {
        Ok(v) => v,
        Err(e) => {
            return Err(e);
        },
    };
    if crypted && forklen != 0 {
        if passlen != 5 {
            return Err(ErrorKind::Unsupported);
        }
        match c.key() {
            Ok(_) => Ok(true),
            Err(e) => Err(e),
        }
    } else if passlen != 0 {
        Err(ErrorKind::Unsupported)
    } else {
        Ok(false)
    }
}

#[derive(Clone, Copy)]
struct ParsedFork {
    length: u32,
    stored: u32,
    crc: u16,
    method: u8,
    has_key: bool,
}

impl ParsedFork {
    spec fn view(self) -> ForkRecord {
        ForkRecord {
            length: self.length,
            stored: self.stored,
            crc: self.crc,
            method: self.method,
            has_key: self.has_key,
        }
    }
}

/// A record as it is used.
struct ParsedRecord<'a> {
    name: &'a [u8],
    is_directory: bool,
    numfiles: u16,
    parent: u32,
    creation_date: u32,
    modification_date: u32,
    file_type: [u8; 4],
    creator: [u8; 4],
    finder_flags: u16,
    data: ParsedFork,
    resource: Option<ParsedFork>,
    body: usize,
}

impl<'a> ParsedRecord<'a> {
    spec fn view(&self) -> Record {
        Record {
            name: self.name@,
            is_directory: self.is_directory,
            numfiles: self.numfiles as nat,
            parent: self.parent,
            creation_date: self.creation_date,
            modification_date: self.modification_date,
            file_type: self.file_type@,
            creator: self.creator@,
            finder_flags: self.finder_flags,
            data: self.data.view(),
            resource: match self.resource {
                None => None,
                Some(f) => Some(f.view()),
            },
            body: self.body as int,
        }
    }
}

/// Pass the comment of a record whose header ends at `headerend`.
fn skip_comment(c: &mut Cursor, headerend: u64) -> (r: Result<(), ErrorKind>)
    requires
        old(c).wf(),
    ensures
        final(c).wf(),
        final(c).data == old(c).data,
        final(c).pos == comment_stop(old(c).data@, old(c).pos as int, headerend as int),
        final(c).pos >= old(c).pos,
        match r {
            Ok(_) => comment_end(old(c).data@, old(c).pos as int, headerend as int) == Ok::<int, ErrorKind>(
                final(c).pos as int,
            ),
            Err(e) => comment_end(old(c).data@, old(c).pos as int, headerend as int) == Err::<int, ErrorKind>(e),
        },
{
    if (c.pos as u64) < headerend {
        let commentsize: u16 = match c.u16() {
            Ok(v) => v,
            Err(e) => {
                return Err(e);
            },
        };
        match c.skip(2) {
            Ok(_) => {},
            Err(e) => {
                return Err(e);
            },
        }
        c.skip(commentsize as usize)
    } else {
        Ok(())
    }
}

/// Read the resource fork's part of a record.
fn read_resource(c: &mut Cursor, crypted: bool) -> (r: Result<ParsedFork, ErrorKind>)
    requires
        old(c).wf(),
    ensures
        final(c).wf(),
        final(c).data == old(c).data,
        final(c).pos >= old(c).pos,
        forall|block: int| be16(old(c).data@, block) & 1u16 != 0 ==> final(c).pos == #[trigger] resource_stop(
            old(c).data@,
            block,
            old(c).pos as int,
            crypted,
        ),
        forall|block: int| be16(old(c).data@, block) & 1u16 != 0 ==> match r {
            Ok(f) => #[trigger] resource_at(old(c).data@, block, old(c).pos as int, crypted) == Ok::<
                (Option<ForkRecord>, int),
                ErrorKind,
            >((Some(f.view()), final(c).pos as int)),
            Err(e) => resource_at(old(c).data@, block, old(c).pos as int, crypted) == Err::<
                (Option<ForkRecord>, int),
                ErrorKind,
            >(e),
        },
{
    let at: usize = c.pos;
    proof {
        field_sizes();
        stop_is_ahead(c.data@.len() as int, at as int, RESOURCE_FIELDS@, 0);
    }
    match c.pass(RESOURCE_FIELDS.as_slice()) {
        Ok(_) => {},
        Err(e) => {
            return Err(e);
        },
    }
    let length: u32 = read_be32(c.data, at);
    let stored: u32 = read_be32(c.data, at + 4);
    let crc: u16 = read_be16(c.data, at + 8);
    let method: u8 = c.data[at + 12];
    match read_fork_key(c, crypted, length) {
        Err(e) => Err(e),
        Ok(has_key) => Ok(ParsedFork { length, stored, crc, method, has_key }),
    }
}

/// Read the data fork's method and key of the record at `start`; a folder has two
/// other bytes there.
fn read_data_fork(c: &mut Cursor, start: usize) -> (r: Result<(u8, bool), ErrorKind>)
    requires
        old(c).wf(),
        old(c).pos == start + 46,
    ensures
        final(c).wf(),
        final(c).data == old(c).data,
        final(c).pos == data_fork_stop(old(c).data@, start as int),
        final(c).pos >= old(c).pos,
        match r {
            Ok((m, k)) => data_fork_at(old(c).data@, start as int) == Ok::<(u8, bool, int), ErrorKind>(
                (m, k, final(c).pos as int),
            ) && final(c).pos >= start + 48,
            Err(e) => data_fork_at(old(c).data@, start as int) == Err::<(u8, bool, int), ErrorKind>(e),
        },
{
    let flags: u8 = c.data[start + 9];
    if flags & ENTRYFLAGS_DIRECTORY != 0 {
        match c.skip(2) {
            Ok(_) => Ok((0, false)),
            Err(e) => Err(e),
        }
    } else {
        let datalength: u32 = read_be32(c.data, start + 34);
        let method: u8 = match c.u8() {
            Ok(v) => v,
            Err(e) => {
                return Err(e);
            },
        };
        match read_fork_key(c, flags & ENTRYFLAGS_CRYPTED != 0, datalength) {
            Ok(k) => Ok((method, k)),
            Err(e) => Err(e),
        }
    }
}

/// Read what follows the data fork's key in the record at `start`.
fn read_rest<'a>(c: &mut Cursor<'a>, start: usize, method: u8, has_key: bool) -> (r: Result<ParsedRecord<'a>, ErrorKind>)
    requires
        old(c).wf(),
        old(c).pos >= start + 48,
    ensures
        final(c).wf(),
        final(c).data == old(c).data,
        final(c).pos == rest_stop(old(c).data@, start as int, old(c).pos as int),
        match r {
            Ok(rec) => {
                &&& record_rest(old(c).data@, start as int, method, has_key, old(c).pos as int) == Ok::<
                    Record,
                    ErrorKind,
                >(rec.view())
                &&& final(c).pos == rec.body
                &&& rec.body > start
            },
            Err(e) => record_rest(old(c).data@, start as int, method, has_key, old(c).pos as int) == Err::<
                Record,
                ErrorKind,
            >(e),
        },
{
    let all: &'a [u8] = c.data;
    let flags: u8 = all[start + 9];
    let name = match c.take(read_be16(all, start + 30) as usize) {
        Ok(n) => n,
        Err(e) => {
            return Err(e);
        },
    };
    let headerend: u64 = (start as u64 % 0x1_0000_0000) + read_be16(all, start + 6) as u64;
    match skip_comment(c, headerend) {
        Ok(_) => {},
        Err(e) => {
            return Err(e);
        },
    }
    let block: usize = c.pos;
    proof {
        field_sizes();
    }
    let passed: Result<(), ErrorKind> = if all[start + 4] == 1 {
        c.pass(LONG_BLOCK_FIELDS.as_slice())
    } else {
        c.pass(BLOCK_FIELDS.as_slice())
    };
    match passed {
        Ok(_) => {},
        Err(e) => {
            return Err(e);
        },
    }
    let resource: Option<ParsedFork> = if read_be16(all, block) & 1 != 0 {
        match read_resource(c, flags & ENTRYFLAGS_CRYPTED != 0) {
            Ok(f) => Some(f),
            Err(e) => {
                return Err(e);
            },
        }
    } else {
        None
    };
    Ok(
        ParsedRecord {
            name,
            is_directory: flags & ENTRYFLAGS_DIRECTORY != 0,
            numfiles: read_be16(all, start + 46),
            parent: read_be32(all, start + 26),
            creation_date: read_be32(all, start + 10),
            modification_date: read_be32(all, start + 14),
            file_type: read_four(all, block + 4),
            creator: read_four(all, block + 8),
            finder_flags: read_be16(all, block + 12),
            data: ParsedFork {
                length: read_be32(all, start + 34),
                stored: read_be32(all, start + 38),
                crc: read_be16(all, start + 42),
                method,
                has_key,
            },
            resource,
            body: c.pos,
        },
    )
}

/// Read one record; `None` for an empty one.
fn read_record<'a>(c: &mut Cursor<'a>) -> (r: Result<Option<ParsedRecord<'a>>, ErrorKind>)
    requires
        old(c).wf(),
    ensures
        final(c).wf(),
        final(c).data == old(c).data,
        final(c).pos == record_stop(old(c).data@, old(c).pos as int),
        match r {
            Ok(None) => {
                &&& record_at(old(c).data@, old(c).pos as int) == Ok::<Option<Record>, ErrorKind>(None)
                &&& final(c).pos == old(c).pos + 48
            },
            Ok(Some(rec)) => {
                &&& record_at(old(c).data@, old(c).pos as int) == Ok::<Option<Record>, ErrorKind>(Some(rec.view()))
                &&& final(c).pos == rec.body
                &&& rec.body > old(c).pos
            },
            Err(e) => record_at(old(c).data@, old(c).pos as int) == Err::<Option<Record>, ErrorKind>(e),
        },
{
    let start: usize = c.pos;
    let headid: u32 = match c.u32() {
        Ok(v) => v,
        Err(e) => {
            return Err(e);
        },
    };
    if headid != SIT5_ID {
        return Err(ErrorKind::InvalidData);
    }
    proof {
        field_sizes();
    }
    match c.pass(HEAD_FIELDS.as_slice()) {
        Ok(_) => {},
        Err(e) => {
            return Err(e);
        },
    }
    let (method, has_key) = match read_data_fork(c, start) {
        Ok(m) => m,
        Err(e) => {
            return Err(e);
        },
    };
    if c.data[start + 9] & ENTRYFLAGS_DIRECTORY != 0 && read_be32(c.data, start + 34) == 0xffff_ffff {
        return Ok(None);
    }
    match read_rest(c, start, method, has_key) {
        Ok(rec) => Ok(Some(rec)),
        Err(e) => Err(e),
    }
}

/// Join the path of a folder and a name with `/`.
fn join_path(parent: &[u8], name: &[u8]) -> (r: Vec<u8>)
    ensures
        r@ == path_under(parent@, name@),
{
    let mut p: Vec<u8> = slice_to_vec(parent);
    if parent.len() > 0 {
        p.push(0x2f);
    }
    append(&mut p, name);
    assert(parent@.len() == 0 ==> p@ =~= name@);
    p
}

fn make_fork_entry(rec: &ParsedRecord, path: &[u8], f: ParsedFork, is_resource_fork: bool, offset: u128) -> (r: StuffIt5Entry)
    requires
        offset <= 0x1_0000_0001_0000_0000,
    ensures
        r.wf(),
        r.view() == fork_entry(rec.view(), path@, f.view(), is_resource_fork, offset as int),
{
    StuffIt5Entry {
        name: slice_to_vec(path),
        is_directory: false,
        is_resource_fork,
        is_encrypted: f.has_key,
        size: f.length,
        file_type: rec.file_type,
        creator: rec.creator,
        finder_flags: rec.finder_flags,
        creation_date: rec.creation_date,
        modification_date: rec.modification_date,
        fork: Some(ForkInfo { offset, complen: f.stored, method: f.method, crc: f.crc }),
    }
}

/// The paths in an executable map.
spec fn paths(m: Map<u32, Vec<u8>>) -> Map<u32, Seq<u8>> {
    m.map_values(|v: Vec<u8>| v@)
}

/// Read the records from the cursor's place on. The cursor is left behind the last of
/// them, or where the first stops that is not understood.
fn parse_tree(c: &mut Cursor, toplevel: usize) -> (r: Result<Vec<StuffIt5Entry>, ErrorKind>)
    requires
        old(c).wf(),
    ensures
        final(c).wf(),
        final(c).data == old(c).data,
        final(c).pos == records_stop(old(c).data@, old(c).pos as int, toplevel as nat),
        match r {
            Ok(entries) => {
                &&& records_from(old(c).data@, old(c).pos as int, toplevel as nat, Map::empty(), seq![]) == Ok::<
                    (Seq<EntryView>, int),
                    ErrorKind,
                >((views(entries@), final(c).pos as int))
                &&& forall|i: int| 0 <= i < entries@.len() ==> (#[trigger] entries@[i]).wf()
            },
            Err(e) => records_from(old(c).data@, old(c).pos as int, toplevel as nat, Map::empty(), seq![]) == Err::<
                (Seq<EntryView>, int),
                ErrorKind,
            >(e),
        },
{
    broadcast use vstd::std_specs::hash::group_hash_axioms;

    let ghost data = c.data@;
    let ghost goal = records_from(old(c).data@, old(c).pos as int, toplevel as nat, Map::empty(), seq![]);
    let mut entries: Vec<StuffIt5Entry> = Vec::new();
    let mut dirs: HashMap<u32, Vec<u8>> = HashMap::new();
    let mut left: u128 = toplevel as u128;
    proof {
        assert(views(entries@) =~= seq![]);
        assert(paths(dirs@) =~= Map::empty());
    }
    while left > 0
        invariant
            c.wf(),
            c.data == old(c).data,
            c.data@ == data,
            left <= toplevel + 0xffff * c.pos,
            goal == records_from(old(c).data@, old(c).pos as int, toplevel as nat, Map::empty(), seq![]),
            records_from(data, c.pos as int, left as nat, paths(dirs@), views(entries@)) == goal,
            records_stop(data, c.pos as int, left as nat) == records_stop(data, old(c).pos as int, toplevel as nat),
            forall|i: int| 0 <= i < entries@.len() ==> (#[trigger] entries@[i]).wf(),
        decreases data.len() - c.pos,
    {
        let offs: u32 = (c.pos as u64 % 0x1_0000_0000) as u32;
        let ghost dirs0 = paths(dirs@);
        let ghost found0 = views(entries@);
        let ghost pos0 = c.pos as int;
        let rec = match read_record(c) {
            Err(e) => {
                return Err(e);
            },
            Ok(None) => {
                continue;
            },
            Ok(Some(rec)) => rec,
        };
        let path: Vec<u8> = match dirs.get(&rec.parent) {
            Some(parent) => join_path(parent.as_slice(), rec.name),
            None => slice_to_vec(rec.name),
        };
        assert(path@ == path_under(folder_path(dirs0, rec.parent), rec.name@));
        if rec.is_directory {
            let entry = StuffIt5Entry {
                name: slice_to_vec(path.as_slice()),
                is_directory: true,
                is_resource_fork: false,
                is_encrypted: false,
                size: 0,
                file_type: rec.file_type,
                creator: rec.creator,
                finder_flags: rec.finder_flags,
                creation_date: rec.creation_date,
                modification_date: rec.modification_date,
                fork: None,
            };
            entries.push(entry);
            dirs.insert(offs, path);
            proof {
                assert(views(entries@) =~= found0.push(folder_entry(rec.view(), path@)));
                assert(paths(dirs@) =~= dirs0.insert(offset_of(pos0), path@));
            }
            left = left - 1 + rec.numfiles as u128;
        } else {
            let mut at: u128 = rec.body as u128;
            if let Some(f) = rec.resource {
                entries.push(make_fork_entry(&rec, path.as_slice(), f, true, at));
                assert(views(entries@) =~= found0 + seq![fork_entry(rec.view(), path@, f.view(), true, rec.body as int)]);
                at = at + f.stored as u128;
            }
            let ghost found1 = views(entries@);
            if rec.data.length != 0 || rec.resource.is_none() {
                entries.push(make_fork_entry(&rec, path.as_slice(), rec.data, false, at));
                assert(views(entries@) =~= found1.push(
                    fork_entry(rec.view(), path@, rec.data.view(), false, at as int),
                ));
            }
            proof {
                assert(at == rec.view().body + resource_stored(rec.view()));
                assert(views(entries@) =~= found0 + file_entries(rec.view(), path@));
            }
            match c.seek(at + rec.data.stored as u128) {
                Ok(_) => {},
                Err(e) => {
                    return Err(e);
                },
            }
            left = left - 1;
        }
    }
    Ok(entries)
}

// === archives =================================================================

/// A parsed archive.
pub struct StuffIt5Archive {
    data: Vec<u8>,
    entries: Vec<StuffIt5Entry>,
    password_hash: Option<[u8; 5]>,
}

impl StuffIt5Archive {
    /// The archive's bytes, without the program in front of them.
    pub closed spec fn data(&self) -> Seq<u8> {
        self.data@
    }

    /// What the archive holds.
    pub closed spec fn catalog(&self) -> Seq<EntryView> {
        views(self.entries@)
    }

    /// The password hash.
    pub closed spec fn hash(&self) -> Option<Seq<u8>> {
        match self.password_hash {
            None => None,
            Some(k) => Some(k@),
        }
    }

    /// The catalog and the hash are those that the bytes spell.
    #[verifier::type_invariant]
    spec fn wf(&self) -> bool {
        &&& catalog_of_body(self.data@) == Ok::<Seq<EntryView>, ErrorKind>(views(self.entries@))
        &&& header_of(self.data@) is Ok
        &&& header_of(self.data@)->Ok_0.hash == self.hash()
        &&& forall|i: int| 0 <= i < self.entries@.len() ==> (#[trigger] self.entries@[i]).wf()
    }

    /// Whether `data` looks like an archive or a self-extracting one.
    pub fn recognize(data: &[u8]) -> (r: bool)
        ensures
            r == (is_sit5(data@) || is_sit5_exe(data@)),
    {
        recognize(data) || recognize_exe(data)
    }

    /// Parse an archive or a self-extracting one held in memory.
    pub fn open(data: &[u8]) -> (r: Result<Self, ErrorKind>)
        ensures
            match r {
                Ok(a) => {
                    &&& body_of(data@) == Ok::<Seq<u8>, ErrorKind>(a.data())
                    &&& catalog_of(data@) == Ok::<Seq<EntryView>, ErrorKind>(a.catalog())
                    &&& header_of(a.data()) is Ok
                    &&& header_of(a.data())->Ok_0.hash == a.hash()
                },
                Err(e) => catalog_of(data@) == Err::<Seq<EntryView>, ErrorKind>(e),
            },
    {
        let body: Vec<u8> = if !recognize(data) && recognize_exe(data) {
            if data.len() < EXE_STUB_LEN {
                return Err(ErrorKind::UnexpectedEof);
            }
            let rest = slice_subrange(data, EXE_STUB_LEN, data.len());
            assert(rest@ =~= data@.skip(EXE_STUB_LEN as int));
            slice_to_vec(rest)
        } else {
            slice_to_vec(data)
        };
        let header = match parse_header(body.as_slice()) {
            Ok(h) => h,
            Err(e) => {
                return Err(e);
            },
        };
        let mut c = Cursor { data: body.as_slice(), pos: header.first as usize };
        match parse_tree(&mut c, header.numfiles as usize) {
            Err(e) => Err(e),
            Ok(entries) => Ok(StuffIt5Archive { data: body, entries, password_hash: header.hash }),
        }
    }

    /// Directories and forks in archive order, each file's resource fork first.
    pub fn entries(&self) -> (r: &[StuffIt5Entry])
        ensures
            views(r@) == self.catalog(),
            r@.len() == self.catalog().len(),
    {
        self.entries.as_slice()
    }

    /// The password hash, if the archive is encrypted.
    pub fn password_hash(&self) -> (r: Option<[u8; 5]>)
        ensures
            match r {
                None => self.hash() is None,
                Some(k) => self.hash() == Some(k@),
            },
    {
        self.password_hash
    }

    /// Whether the archive as a whole is marked encrypted.
    pub fn is_encrypted(&self) -> (r: bool)
        ensures
            r == self.hash() is Some,
    {
        self.password_hash.is_some()
    }

    /// Append the content of entry `idx` to `out`. A directory has none.
    pub fn read_entry(&self, idx: usize, out: &mut Vec<u8>) -> (r: Result<(), ErrorKind>)
        ensures
            match r {
                Ok(_) => {
                    &&& entry_content(self.data(), self.catalog(), idx as int) is Ok
                    &&& final(out)@ == old(out)@ + entry_content(self.data(), self.catalog(), idx as int)->Ok_0
                    &&& idx < self.catalog().len()
                    &&& final(out)@.len() == old(out)@.len() + self.catalog()[idx as int].size
                },
                Err(e) => {
                    &&& entry_content(self.data(), self.catalog(), idx as int) == Err::<Seq<u8>, ErrorKind>(e)
                    &&& final(out)@ == old(out)@
                },
            },
    {
        proof {
            use_type_invariant(self);
        }
        if idx >= self.entries.len() {
            return Err(ErrorKind::InvalidData);
        }
        proof {
            entries_have_their_size(self.data@, idx as int);
        }
        let e = &self.entries[idx];
        assert(self.entries@[idx as int].wf());
        match &e.fork {
            None => {
                assert(out@ =~= out@ + seq![]);
                Ok(())
            },
            Some(f) => {
                if e.is_encrypted {
                    return Err(ErrorKind::Unsupported);
                }
                match read_fork(self.data.as_slice(), f.offset, f.complen, f.method, f.crc, e.size) {
                    Err(x) => Err(x),
                    Ok(decoded) => {
                        append(out, decoded.as_slice());
                        Ok(())
                    },
                }
            },
        }
    }
}

} // verus!
