use vstd::prelude::*;
use crate::catalog::{content_of, entry_content, EntryView};
use crate::checksum::crc16;
use crate::error::ErrorKind;
use crate::methods::fork_decoded;
use crate::sit5::{
    self, body_of, catalog_of_body, hash_at, header_of, is_sit5, is_sit5_exe, key_at, record_at, records_from, Header,
};
use crate::sit5_writing::{banner_is_the_line, number, numbers_are_big_endian, text_stands};
use crate::stuffit::{
    catalog_from, catalog_of, file_entries, folder_entry, is_stuffit, marks, record_name, END_FOLDER, START_FOLDER,
};
use crate::stuffit_writing::{fields_within, file_is_read, folders_after, next_at, record_stands, Written};

verus! {

// What is answered where an archive, or a part of it, cannot be read.

// === contents =================================================================

/// A fork that does not lie within the archive is refused as invalid, unless it is encrypted.
pub proof fn fork_out_of_reach_is_invalid(data: Seq<u8>, e: EntryView)
    requires
        !e.is_encrypted,
        e.fork matches Some(f) && f.offset + f.stored > data.len(),
    ensures
        content_of(data, e) == Err::<Seq<u8>, ErrorKind>(ErrorKind::InvalidData),
{
}

/// A fork whose bytes do not have its checksum is refused as invalid, but for the method that
/// has a checksum of its own.
pub proof fn spoiled_fork_is_invalid(data: Seq<u8>, e: EntryView, v: Seq<u8>)
    requires
        !e.is_encrypted,
        e.fork matches Some(f) && {
            &&& 0 <= f.offset
            &&& 0 <= f.stored
            &&& f.offset + f.stored <= data.len()
            &&& fork_decoded(f.method, data.subrange(f.offset, f.offset + f.stored), e.size as nat) == Ok::<
                Seq<u8>,
                ErrorKind,
            >(v)
            &&& f.method & 0x0fu8 != 15
            &&& crc16(v) != f.crc
        },
    ensures
        content_of(data, e) == Err::<Seq<u8>, ErrorKind>(ErrorKind::InvalidData),
{
}

/// A fork that is stored as it is, with fewer bytes than it has, ends too early.
pub proof fn short_stored_fork_ends_too_early(method: u8, raw: Seq<u8>, size: nat)
    requires
        method & 0x0fu8 == 0,
        raw.len() < size,
    ensures
        fork_decoded(method, raw, size) == Err::<Seq<u8>, ErrorKind>(ErrorKind::UnexpectedEof),
{
}

/// An entry that there is not is refused as invalid; a directory has no bytes.
pub proof fn entries_that_are_not_there(data: Seq<u8>, catalog: Seq<EntryView>, idx: int)
    requires
        0 <= idx,
    ensures
        idx >= catalog.len() ==> entry_content(data, catalog, idx) == Err::<Seq<u8>, ErrorKind>(ErrorKind::InvalidData),
        idx < catalog.len() && catalog[idx].fork is None ==> entry_content(data, catalog, idx) == Ok::<
            Seq<u8>,
            ErrorKind,
        >(seq![]),
{
}

// === classic archives =========================================================

/// Bytes without `SIT!` at the start and `rLau` at 10 are no archive.
pub proof fn other_bytes_are_no_archive(data: Seq<u8>)
    requires
        data.len() < 14 || data.subrange(0, 4) != seq!['S' as u8, 'I' as u8, 'T' as u8, '!' as u8] || data.subrange(
            10,
            14,
        ) != seq!['r' as u8, 'L' as u8, 'a' as u8, 'u' as u8],
    ensures
        catalog_of(data) == Err::<Seq<EntryView>, ErrorKind>(ErrorKind::InvalidData),
{
    if is_stuffit(data) {
        assert(data.subrange(0, 4) =~= seq!['S' as u8, 'I' as u8, 'T' as u8, '!' as u8]);
        assert(data.subrange(10, 14) =~= seq!['r' as u8, 'L' as u8, 'a' as u8, 'u' as u8]);
    }
}

/// The records stand one behind the other from `pos` up to `stop`.
pub open spec fn records_stand_up_to(data: Seq<u8>, pos: int, stop: int, end: int, ws: Seq<Written>) -> bool
    decreases ws.len(),
{
    if ws.len() == 0 {
        pos == stop
    } else {
        &&& pos + 112 <= end
        &&& record_stands(data, pos, ws[0])
        &&& records_stand_up_to(data, next_at(pos, ws[0]), stop, end, ws.drop_first())
    }
}

proof fn records_are_passed(
    data: Seq<u8>,
    pos: int,
    stop: int,
    end: int,
    folders: Seq<Seq<u8>>,
    ws: Seq<Written>,
    found: Seq<EntryView>,
) -> (rest: (Seq<Seq<u8>>, Seq<EntryView>))
    requires
        0 <= pos,
        records_stand_up_to(data, pos, stop, end, ws),
    ensures
        catalog_from(data, pos, end, folders, found) == catalog_from(data, stop, end, rest.0, rest.1),
        0 <= stop,
    decreases ws.len(),
{
    if ws.len() == 0 {
        (folders, found)
    } else {
        let w = ws[0];
        let h = data.subrange(pos, pos + 112);
        fields_within(data, pos, 110);
        assert(h.subrange(0, 110) =~= data.subrange(pos, pos + 110));
        assert(h[0] == data[pos] && h[1] == data[pos + 1]);
        let after = folders_after(folders, w);
        match w {
            Written::Folder { name, stamp, encrypted } => {
                assert(marks(h, START_FOLDER));
                records_are_passed(
                    data,
                    pos + 112,
                    stop,
                    end,
                    folders.push(record_name(h)),
                    ws.drop_first(),
                    found.push(folder_entry(h, folders)),
                )
            },
            Written::End => {
                assert(!marks(h, START_FOLDER));
                assert(marks(h, END_FOLDER));
                records_are_passed(data, pos + 112, stop, end, after, ws.drop_first(), found)
            },
            Written::File { .. } => {
                assert(!marks(h, START_FOLDER));
                assert(!marks(h, END_FOLDER));
                file_is_read(data, pos, folders, w);
                records_are_passed(
                    data,
                    next_at(pos, w),
                    stop,
                    end,
                    folders,
                    ws.drop_first(),
                    found + file_entries(h, folders, pos + 112),
                )
            },
        }
    }
}

/// An archive that says it goes on where its bytes end, ends too early; one in which a record
/// has another checksum than it says is invalid. What came before makes no difference.
pub proof fn cut_or_spoiled_archive_is_refused(data: Seq<u8>, ws: Seq<Written>, stop: int)
    requires
        data.len() >= 14,
        is_stuffit(data),
        records_stand_up_to(data, 22, stop, number(data, 6, 4) as int, ws),
        stop + 112 <= number(data, 6, 4),
    ensures
        stop + 112 > data.len() ==> catalog_of(data) == Err::<Seq<EntryView>, ErrorKind>(ErrorKind::UnexpectedEof),
        stop + 112 <= data.len() && crc16(data.subrange(stop, stop + 110)) != number(data, stop + 110, 2)
            ==> catalog_of(data) == Err::<Seq<EntryView>, ErrorKind>(ErrorKind::InvalidData),
{
    let end = number(data, 6, 4) as int;
    numbers_are_big_endian(data, 6);
    let rest = records_are_passed(data, 22, stop, end, seq![], ws, seq![]);
    if stop + 112 <= data.len() {
        let h = data.subrange(stop, stop + 112);
        fields_within(data, stop, 110);
        assert(h.subrange(0, 110) =~= data.subrange(stop, stop + 110));
    }
}

// === archives of version 5 ====================================================

/// Bytes without the banner are no archive, nor is one of another version.
pub proof fn other_versions_are_invalid(data: Seq<u8>)
    requires
        data.len() >= 100,
        !text_stands(data, 0, "StuffIt (c)1997-"@) || data[82] != 5,
    ensures
        catalog_of_body(data) == Err::<Seq<EntryView>, ErrorKind>(ErrorKind::InvalidData),
{
    banner_is_the_line(data);
}

/// A program that should have an archive behind it and is too short ends too early.
pub proof fn short_program_ends_too_early(data: Seq<u8>)
    requires
        !is_sit5(data),
        is_sit5_exe(data),
        data.len() < 0x1a000,
    ensures
        body_of(data) == Err::<Seq<u8>, ErrorKind>(ErrorKind::UnexpectedEof),
        sit5::catalog_of(data) == Err::<Seq<EntryView>, ErrorKind>(ErrorKind::UnexpectedEof),
{
}

/// The hash of a password has five bytes; one of another length is invalid.
pub proof fn other_hashes_are_invalid(data: Seq<u8>, flags: u8, pos: int)
    requires
        0 <= pos < data.len(),
        flags & 0x80u8 != 0,
        data[pos] != 5,
    ensures
        hash_at(data, flags, pos) == Err::<(Option<Seq<u8>>, int), ErrorKind>(ErrorKind::InvalidData),
{
}

/// The key of an encrypted fork has five bytes, and a fork that is not encrypted or empty has
/// none; others are unsupported.
pub proof fn other_keys_are_unsupported(data: Seq<u8>, pos: int, encrypted: bool, length: u32)
    requires
        0 <= pos < data.len(),
        data[pos] != if encrypted && length != 0 {
            5u8
        } else {
            0u8
        },
    ensures
        key_at(data, pos, encrypted, length) == Err::<(bool, int), ErrorKind>(ErrorKind::Unsupported),
{
}

/// A record that is due and does not start with its mark is invalid; one of which not even the
/// fixed part is there ends too early.
pub proof fn record_without_its_mark_is_invalid(
    data: Seq<u8>,
    pos: int,
    left: nat,
    dirs: Map<u32, Seq<u8>>,
    found: Seq<EntryView>,
)
    requires
        0 <= pos,
        left > 0,
    ensures
        pos + 4 > data.len() ==> records_from(data, pos, left, dirs, found) == Err::<(Seq<EntryView>, int), ErrorKind>(
            ErrorKind::UnexpectedEof,
        ),
        pos + 4 <= data.len() && number(data, pos, 4) != 0xa5a5_a5a5 ==> records_from(data, pos, left, dirs, found)
            == Err::<(Seq<EntryView>, int), ErrorKind>(ErrorKind::InvalidData),
        pos + 4 <= data.len() && number(data, pos, 4) == 0xa5a5_a5a5 && pos + 46 > data.len() ==> records_from(
            data,
            pos,
            left,
            dirs,
            found,
        ) == Err::<(Seq<EntryView>, int), ErrorKind>(ErrorKind::UnexpectedEof),
{
    numbers_are_big_endian(data, pos);
}

/// A file whose forks do not lie within the archive ends too early.
pub proof fn file_without_its_forks_ends_too_early(
    data: Seq<u8>,
    pos: int,
    left: nat,
    dirs: Map<u32, Seq<u8>>,
    found: Seq<EntryView>,
)
    requires
        left > 0,
        record_at(data, pos) matches Ok(Some(r)) && {
            &&& !r.is_directory
            &&& r.body + r.data.stored + (if r.resource is Some {
                r.resource->Some_0.stored as int
            } else {
                0
            }) > data.len()
        },
    ensures
        records_from(data, pos, left, dirs, found) == Err::<(Seq<EntryView>, int), ErrorKind>(ErrorKind::UnexpectedEof),
{
}

/// An archive whose first record should lie behind its end ends too early.
pub proof fn header_that_points_outside_ends_too_early(data: Seq<u8>)
    requires
        is_sit5(data),
        data[82] == 5,
        data[83] & 0x10u8 == 0,
        data[83] & 0x20u8 == 0,
        data[83] & 0x40u8 == 0,
        data[83] & 0x80u8 == 0,
        number(data, 94, 4) > data.len(),
    ensures
        header_of(data) == Err::<Header, ErrorKind>(ErrorKind::UnexpectedEof),
{
    reveal(is_sit5);
    numbers_are_big_endian(data, 94);
}

} // verus!
