use vstd::prelude::*;
use vstd::slice::{slice_subrange, slice_to_vec};
use crate::catalog::{
    append, be16, be32, entry_content, read_be16, read_be32, read_fork, read_four, EntryView, ForkView,
};
use crate::checksum::{crc16, crc16_arc};
use crate::error::ErrorKind;
use crate::stuffit_laws::entries_have_their_size;

verus! {

/// The length of one record header.
pub const FILE_HEADER_SIZE: usize = 112;

/// Records start right after the archive header.
pub const ARCHIVE_HEADER_SIZE: usize = 22;

/// The method that opens a folder.
pub const START_FOLDER: u8 = 0x20;

/// The method that closes a folder.
pub const END_FOLDER: u8 = 0x21;

/// The method bit of a password-protected fork.
pub const ENCRYPTED_FLAG: u8 = 0x80;

/// The method bit of a folder with encrypted items.
pub const FOLDER_CONTAINS_ENCRYPTED: u8 = 0x10;

/// All method bits but those two.
pub const FOLDER_MASK: u8 = 0x6f;

// === the format ===============================================================

/// `SIT!` at the start and `rLau` at offset 10.
pub open spec fn is_stuffit(data: Seq<u8>) -> bool {
    &&& data.len() >= 14
    &&& data[0] == 0x53 && data[1] == 0x49 && data[2] == 0x54 && data[3] == 0x21
    &&& data[10] == 0x72 && data[11] == 0x4c && data[12] == 0x61 && data[13] == 0x75
}

/// The folders, each followed by a slash.
pub open spec fn folder_prefix(dirs: Seq<Seq<u8>>) -> Seq<u8>
    decreases dirs.len(),
{
    if dirs.len() == 0 {
        seq![]
    } else {
        folder_prefix(dirs.drop_last()) + dirs.last().push(0x2fu8)
    }
}

/// The path of `name` within nested folders.
pub open spec fn path_in(dirs: Seq<Seq<u8>>, name: Seq<u8>) -> Seq<u8> {
    folder_prefix(dirs) + name
}

/// One of the two methods is `method`, its encryption bits aside.
pub open spec fn marks(h: Seq<u8>, method: u8) -> bool {
    h[1] & FOLDER_MASK == method || h[0] & FOLDER_MASK == method
}

/// The name in a record header: at most 31 bytes.
pub open spec fn record_name(h: Seq<u8>) -> Seq<u8> {
    let n = if h[2] > 31 {
        31
    } else {
        h[2] as int
    };
    h.subrange(3, 3 + n)
}

/// The entry of a record whose fork, if any, is given.
pub open spec fn record_entry(
    h: Seq<u8>,
    name: Seq<u8>,
    is_directory: bool,
    is_resource_fork: bool,
    is_encrypted: bool,
    size: u32,
    fork: Option<ForkView>,
) -> EntryView {
    EntryView {
        name,
        is_directory,
        is_resource_fork,
        is_encrypted,
        size,
        file_type: h.subrange(66, 70),
        creator: h.subrange(70, 74),
        finder_flags: be16(h, 74),
        creation_date: be32(h, 76),
        modification_date: be32(h, 80),
        fork,
    }
}

/// The entry of a folder.
pub open spec fn folder_entry(h: Seq<u8>, dirs: Seq<Seq<u8>>) -> EntryView {
    record_entry(
        h,
        path_in(dirs, record_name(h)),
        true,
        false,
        h[1] & FOLDER_CONTAINS_ENCRYPTED != 0 || h[0] & FOLDER_CONTAINS_ENCRYPTED != 0,
        0,
        None,
    )
}

/// The entry of a file's resource fork, stored at `start`.
pub open spec fn resource_entry(h: Seq<u8>, dirs: Seq<Seq<u8>>, start: int) -> EntryView {
    record_entry(
        h,
        path_in(dirs, record_name(h)),
        false,
        true,
        h[0] & ENCRYPTED_FLAG != 0,
        be32(h, 84),
        Some(ForkView { offset: start, stored: be32(h, 92) as int, method: h[0], crc: be16(h, 100) }),
    )
}

/// The entry of a file's data fork, stored behind its resource fork.
pub open spec fn data_entry(h: Seq<u8>, dirs: Seq<Seq<u8>>, start: int) -> EntryView {
    record_entry(
        h,
        path_in(dirs, record_name(h)),
        false,
        false,
        h[1] & ENCRYPTED_FLAG != 0,
        be32(h, 88),
        Some(ForkView { offset: start + be32(h, 92), stored: be32(h, 96) as int, method: h[1], crc: be16(h, 102) }),
    )
}

/// The entries of a file: its resource fork if it is not empty, and its data fork
/// if it is not empty or there is no other.
pub open spec fn file_entries(h: Seq<u8>, dirs: Seq<Seq<u8>>, start: int) -> Seq<EntryView> {
    let rsrc = if be32(h, 84) != 0 {
        seq![resource_entry(h, dirs, start)]
    } else {
        seq![]
    };
    if be32(h, 88) != 0 || be32(h, 84) == 0 {
        rsrc.push(data_entry(h, dirs, start))
    } else {
        rsrc
    }
}

/// The catalog, given the entries found before `pos` and the folders open there.
pub open spec fn catalog_from(data: Seq<u8>, pos: int, end: int, dirs: Seq<Seq<u8>>, found: Seq<EntryView>) -> Result<
    Seq<EntryView>,
    ErrorKind,
>
    decreases
        (if pos < end {
            end - pos
        } else {
            0
        }),
{
    if pos + FILE_HEADER_SIZE > end {
        Ok(found)
    } else if pos + FILE_HEADER_SIZE > data.len() {
        Err(ErrorKind::UnexpectedEof)
    } else {
        let h = data.subrange(pos, pos + FILE_HEADER_SIZE);
        let start = pos + FILE_HEADER_SIZE;
        if crc16(h.subrange(0, 110)) != be16(h, 110) {
            Err(ErrorKind::InvalidData)
        } else if marks(h, START_FOLDER) {
            catalog_from(data, start, end, dirs.push(record_name(h)), found.push(folder_entry(h, dirs)))
        } else if marks(h, END_FOLDER) {
            catalog_from(
                data,
                start,
                end,
                if dirs.len() > 0 {
                    dirs.drop_last()
                } else {
                    dirs
                },
                found,
            )
        } else {
            catalog_from(
                data,
                start + be32(h, 92) + be32(h, 96),
                end,
                dirs,
                found + file_entries(h, dirs, start),
            )
        }
    }
}

/// The catalog of an archive.
pub open spec fn catalog_of(data: Seq<u8>) -> Result<Seq<EntryView>, ErrorKind> {
    if !is_stuffit(data) {
        Err(ErrorKind::InvalidData)
    } else {
        catalog_from(data, ARCHIVE_HEADER_SIZE as int, be32(data, 6) as int, seq![], seq![])
    }
}

// === entries ==================================================================

/// How to extract one fork.
struct ForkInfo {
    offset: u64,
    complen: u32,
    method: u8,
    crc: u16,
}

/// A directory, or one fork of a file.
pub struct StuffItEntry {
    name: Vec<u8>,
    is_directory: bool,
    is_resource_fork: bool,
    is_encrypted: bool,
    size: u32,
    file_type: [u8; 4],
    creator: [u8; 4],
    finder_flags: u16,
    creation_date: u32,
    modification_date: u32,
    fork: Option<ForkInfo>,
}

impl StuffItEntry {
    pub closed spec fn view(&self) -> EntryView {
        EntryView {
            name: self.name@,
            is_directory: self.is_directory,
            is_resource_fork: self.is_resource_fork,
            is_encrypted: self.is_encrypted,
            size: self.size,
            file_type: self.file_type@,
            creator: self.creator@,
            finder_flags: self.finder_flags,
            creation_date: self.creation_date,
            modification_date: self.modification_date,
            fork: match self.fork {
                None => None,
                Some(f) => Some(
                    ForkView { offset: f.offset as int, stored: f.complen as int, method: f.method, crc: f.crc },
                ),
            },
        }
    }

    spec fn wf(&self) -> bool {
        self.fork matches Some(f) ==> f.offset <= 0x4_0000_0000
    }

    /// The path from the archive's root, its parts joined with `/`. A file's two
    /// forks share it.
    pub fn name(&self) -> (r: &[u8])
        ensures
            r@ == self.view().name,
    {
        self.name.as_slice()
    }

    /// The fork's decoded length in bytes, 0 for a directory.
    pub fn size(&self) -> (r: u64)
        ensures
            r == self.view().size,
    {
        self.size as u64
    }

    /// Whether this entry is a directory.
    pub fn is_directory(&self) -> (r: bool)
        ensures
            r == self.view().is_directory,
    {
        self.is_directory
    }

    /// Whether this entry is a resource fork.
    pub fn is_resource_fork(&self) -> (r: bool)
        ensures
            r == self.view().is_resource_fork,
    {
        self.is_resource_fork
    }

    /// Whether the fork is encrypted or the folder holds encrypted items.
    pub fn is_encrypted(&self) -> (r: bool)
        ensures
            r == self.view().is_encrypted,
    {
        self.is_encrypted
    }

    /// The file type, four raw bytes.
    pub fn file_type(&self) -> (r: [u8; 4])
        ensures
            r@ == self.view().file_type,
    {
        self.file_type
    }

    /// The creator code, four raw bytes.
    pub fn creator(&self) -> (r: [u8; 4])
        ensures
            r@ == self.view().creator,
    {
        self.creator
    }

    /// The Finder flags.
    pub fn finder_flags(&self) -> (r: u16)
        ensures
            r == self.view().finder_flags,
    {
        self.finder_flags
    }

    /// The creation date in seconds since 1904.
    pub fn creation_date(&self) -> (r: u32)
        ensures
            r == self.view().creation_date,
    {
        self.creation_date
    }

    /// The modification date in seconds since 1904.
    pub fn modification_date(&self) -> (r: u32)
        ensures
            r == self.view().modification_date,
    {
        self.modification_date
    }
}

/// The catalog behind a list of entries.
pub open spec fn views(entries: Seq<StuffItEntry>) -> Seq<EntryView> {
    Seq::new(entries.len(), |i: int| entries[i].view())
}

// === parsing ==================================================================

/// Whether `data` opens like a classic archive.
fn recognize(data: &[u8]) -> (r: bool)
    ensures
        r == is_stuffit(data@),
{
    data.len() >= 14 && data[0] == 0x53 && data[1] == 0x49 && data[2] == 0x54 && data[3] == 0x21 && data[10] == 0x72
        && data[11] == 0x4c && data[12] == 0x61 && data[13] == 0x75
}

spec fn dirs_view(dirs: Seq<Vec<u8>>) -> Seq<Seq<u8>> {
    Seq::new(dirs.len(), |i: int| dirs[i]@)
}

/// Join the open folders and a name with `/`.
fn join_path(dirs: &Vec<Vec<u8>>, name: &[u8]) -> (r: Vec<u8>)
    ensures
        r@ == path_in(dirs_view(dirs@), name@),
{
    let mut p: Vec<u8> = Vec::new();
    let mut i: usize = 0;
    let ghost all = dirs_view(dirs@);
    assert(all.subrange(0, 0) =~= seq![]);
    while i < dirs.len()
        invariant
            i <= dirs@.len(),
            all == dirs_view(dirs@),
            p@ == folder_prefix(all.subrange(0, i as int)),
        decreases dirs@.len() - i,
    {
        let ghost before = p@;
        append(&mut p, dirs[i].as_slice());
        p.push(0x2f);
        proof {
            assert(all.subrange(0, i + 1).drop_last() =~= all.subrange(0, i as int));
            assert(p@ =~= before + all[i as int].push(0x2fu8));
        }
        i = i + 1;
    }
    assert(all.subrange(0, i as int) =~= all);
    append(&mut p, name);
    p
}

fn make_entry(
    name: Vec<u8>,
    is_directory: bool,
    is_resource_fork: bool,
    is_encrypted: bool,
    size: u32,
    header: &[u8],
    fork: Option<ForkInfo>,
) -> (r: StuffItEntry)
    requires
        header@.len() == 112,
        fork matches Some(f) ==> f.offset <= 0x4_0000_0000,
    ensures
        r.wf(),
        r.view() == record_entry(
            header@,
            name@,
            is_directory,
            is_resource_fork,
            is_encrypted,
            size,
            match fork {
                None => None,
                Some(f) => Some(
                    ForkView { offset: f.offset as int, stored: f.complen as int, method: f.method, crc: f.crc },
                ),
            },
        ),
{
    StuffItEntry {
        name,
        is_directory,
        is_resource_fork,
        is_encrypted,
        size,
        file_type: read_four(header, 66),
        creator: read_four(header, 70),
        finder_flags: read_be16(header, 74),
        creation_date: read_be32(header, 76),
        modification_date: read_be32(header, 80),
        fork,
    }
}

/// Read the catalog.
fn parse(data: &[u8]) -> (r: Result<Vec<StuffItEntry>, ErrorKind>)
    ensures
        match r {
            Ok(entries) => {
                &&& catalog_of(data@) == Ok::<Seq<EntryView>, ErrorKind>(views(entries@))
                &&& forall|i: int| 0 <= i < entries@.len() ==> (#[trigger] entries@[i]).wf()
            },
            Err(e) => catalog_of(data@) == Err::<Seq<EntryView>, ErrorKind>(e),
        },
{
    if !recognize(data) {
        return Err(ErrorKind::InvalidData);
    }
    let end: u64 = read_be32(data, 6) as u64;
    let mut pos: u64 = ARCHIVE_HEADER_SIZE as u64;
    let mut entries: Vec<StuffItEntry> = Vec::new();
    let mut dirstack: Vec<Vec<u8>> = Vec::new();
    proof {
        assert(views(entries@) =~= seq![]);
        assert(dirs_view(dirstack@) =~= seq![]);
    }
    while pos + FILE_HEADER_SIZE as u64 <= end
        invariant
            end <= u32::MAX,
            pos <= 3 * u32::MAX,
            forall|i: int| 0 <= i < entries@.len() ==> (#[trigger] entries@[i]).wf(),
            catalog_from(data@, pos as int, end as int, dirs_view(dirstack@), views(entries@)) == catalog_of(data@),
        decreases end + 3 * u32::MAX - pos,
    {
        if pos + FILE_HEADER_SIZE as u64 > data.len() as u64 {
            return Err(ErrorKind::UnexpectedEof);
        }
        let header = slice_subrange(data, pos as usize, (pos + FILE_HEADER_SIZE as u64) as usize);
        let ghost h = header@;
        let stored_crc: u16 = read_be16(header, 110);
        if crc16_arc(slice_subrange(header, 0, 110)) != stored_crc {
            return Err(ErrorKind::InvalidData);
        }
        let resourcemethod: u8 = header[0];
        let datamethod: u8 = header[1];
        let namelen: usize = if header[2] > 31 {
            31
        } else {
            header[2] as usize
        };
        let name = slice_subrange(header, 3, 3 + namelen);
        let start: u64 = pos + FILE_HEADER_SIZE as u64;
        let is_start: bool = (datamethod & FOLDER_MASK) == START_FOLDER || (resourcemethod & FOLDER_MASK)
            == START_FOLDER;
        let is_end: bool = (datamethod & FOLDER_MASK) == END_FOLDER || (resourcemethod & FOLDER_MASK) == END_FOLDER;
        let ghost dirs0 = dirs_view(dirstack@);
        let ghost found0 = views(entries@);
        if is_start {
            let path = join_path(&dirstack, name);
            let contains_encrypted: bool = datamethod & FOLDER_CONTAINS_ENCRYPTED != 0 || resourcemethod
                & FOLDER_CONTAINS_ENCRYPTED != 0;
            entries.push(make_entry(path, true, false, contains_encrypted, 0, header, None));
            dirstack.push(slice_to_vec(name));
            proof {
                assert(views(entries@) =~= found0.push(folder_entry(h, dirs0)));
                assert(dirs_view(dirstack@) =~= dirs0.push(record_name(h)));
            }
            pos = start;
        } else if is_end {
            let _closed = dirstack.pop();
            proof {
                assert(dirs_view(dirstack@) =~= (if dirs0.len() > 0 {
                    dirs0.drop_last()
                } else {
                    dirs0
                }));
            }
            pos = start;
        } else {
            let rsrclength: u32 = read_be32(header, 84);
            let datalength: u32 = read_be32(header, 88);
            let rsrccomplen: u32 = read_be32(header, 92);
            let datacomplen: u32 = read_be32(header, 96);
            if rsrclength != 0 {
                entries.push(
                    make_entry(
                        join_path(&dirstack, name),
                        false,
                        true,
                        resourcemethod & ENCRYPTED_FLAG != 0,
                        rsrclength,
                        header,
                        Some(
                            ForkInfo {
                                offset: start,
                                complen: rsrccomplen,
                                method: resourcemethod,
                                crc: read_be16(header, 100),
                            },
                        ),
                    ),
                );
                assert(views(entries@) =~= found0 + seq![resource_entry(h, dirs0, start as int)]);
            }
            let ghost found1 = views(entries@);
            if datalength != 0 || rsrclength == 0 {
                entries.push(
                    make_entry(
                        join_path(&dirstack, name),
                        false,
                        false,
                        datamethod & ENCRYPTED_FLAG != 0,
                        datalength,
                        header,
                        Some(
                            ForkInfo {
                                offset: start + rsrccomplen as u64,
                                complen: datacomplen,
                                method: datamethod,
                                crc: read_be16(header, 102),
                            },
                        ),
                    ),
                );
                assert(views(entries@) =~= found1.push(data_entry(h, dirs0, start as int)));
            }
            proof {
                assert(views(entries@) =~= found0 + file_entries(h, dirs0, start as int));
            }
            pos = start + rsrccomplen as u64 + datacomplen as u64;
        }
    }
    Ok(entries)
}

// === archives =================================================================

/// A parsed classic archive.
pub struct StuffItArchive {
    data: Vec<u8>,
    entries: Vec<StuffItEntry>,
}

impl StuffItArchive {
    /// The archive's bytes.
    pub closed spec fn data(&self) -> Seq<u8> {
        self.data@
    }

    /// What the archive holds.
    pub closed spec fn catalog(&self) -> Seq<EntryView> {
        views(self.entries@)
    }

    /// The catalog is the one that the bytes spell.
    #[verifier::type_invariant]
    spec fn wf(&self) -> bool {
        &&& catalog_of(self.data@) == Ok::<Seq<EntryView>, ErrorKind>(views(self.entries@))
        &&& forall|i: int| 0 <= i < self.entries@.len() ==> (#[trigger] self.entries@[i]).wf()
    }

    /// Whether `data` looks like a classic archive.
    pub fn recognize(data: &[u8]) -> (r: bool)
        ensures
            r == is_stuffit(data@),
    {
        recognize(data)
    }

    /// Parse an archive held in memory.
    pub fn open(data: &[u8]) -> (r: Result<Self, ErrorKind>)
        ensures
            match r {
                Ok(a) => {
                    &&& a.data() == data@
                    &&& catalog_of(data@) == Ok::<Seq<EntryView>, ErrorKind>(a.catalog())
                },
                Err(e) => catalog_of(data@) == Err::<Seq<EntryView>, ErrorKind>(e),
            },
    {
        match parse(data) {
            Err(e) => Err(e),
            Ok(entries) => Ok(StuffItArchive { data: slice_to_vec(data), entries }),
        }
    }

    /// Directories and forks in archive order, each file's resource fork first.
    pub fn entries(&self) -> (r: &[StuffItEntry])
        ensures
            views(r@) == self.catalog(),
            r@.len() == self.catalog().len(),
    {
        self.entries.as_slice()
    }

    /// Append the content of entry `idx` to `out`. A directory has none.
    pub fn read_entry(&self, idx: usize, out: &mut Vec<u8>) -> (r: Result<(), ErrorKind>)
        ensures
            match r {
                Ok(_) => {
                    &&& entry_content(self.data(), self.catalog(), idx as int) is Ok
                    &&& final(out)@ == old(out)@ + entry_content(self.data(), self.catalog(), idx as int)->Ok_0
                    &&& idx < self.catalog().len()
                    &&& final(out)@.len() == old(out)@.len() + self.catalog()[idx as int].size
                },
                Err(e) => {
                    &&& entry_content(self.data(), self.catalog(), idx as int) == Err::<Seq<u8>, ErrorKind>(e)
                    &&& final(out)@ == old(out)@
                },
            },
    {
        proof {
            use_type_invariant(self);
        }
        if idx >= self.entries.len() {
            return Err(ErrorKind::InvalidData);
        }
        proof {
            entries_have_their_size(self.data@, idx as int);
        }
        let e = &self.entries[idx];
        assert(self.entries@[idx as int].wf());
        match &e.fork {
            None => {
                assert(out@ =~= out@ + seq![]);
                Ok(())
            },
            Some(f) => {
                if e.is_encrypted {
                    return Err(ErrorKind::Unsupported);
                }
                match read_fork(self.data.as_slice(), f.offset as u128, f.complen, f.method, f.crc, e.size) {
                    Err(x) => Err(x),
                    Ok(decoded) => {
                        append(out, decoded.as_slice());
                        Ok(())
                    },
                }
            },
        }
    }
}

} // verus!
