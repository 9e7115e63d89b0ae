use newtua_stuffit::checksum::crc32_ieee;
use newtua_stuffit::error::ErrorKind;
use newtua_stuffit::rc4::Rc4;
use newtua_stuffit::sitx::archive::{Aids, Opened, SitxError};
use newtua_stuffit::sitx::SitxArchive;
use std::collections::BTreeMap;

/// Open an archive whose catalog is not deflated.
fn open(data: Vec<u8>) -> Result<SitxArchive, SitxError> {
    match SitxArchive::open(data, &Aids::none())? {
        Opened::Archive(arc) => Ok(arc),
        Opened::Deflated(_) => panic!("the catalog is deflated"),
    }
}

/// Read an entry whose stream is not deflated.
fn read(arc: &SitxArchive, idx: usize, out: &mut Vec<u8>) -> Result<(), ErrorKind> {
    match arc.read_entry(idx, &Aids::none(), out)? {
        None => Ok(()),
        Some(_) => panic!("the stream is deflated"),
    }
}

#[derive(Default)]
struct Writer {
    out: Vec<u8>,
    cur: u8,
    nbits: u8,
}

impl Writer {
    fn bit(&mut self, b: u32) {
        if b & 1 != 0 {
            self.cur |= 1 << self.nbits;
        }
        self.nbits += 1;
        if self.nbits == 8 {
            self.out.push(self.cur);
            self.cur = 0;
            self.nbits = 0;
        }
    }

    fn byte(&mut self, b: u8) {
        for i in 0..8 {
            self.bit(u32::from(b >> i));
        }
    }

    fn write_u32_be(&mut self, v: u32) {
        for b in v.to_be_bytes() {
            self.byte(b);
        }
    }

    fn write_u64_be(&mut self, v: u64) {
        for b in v.to_be_bytes() {
            self.byte(b);
        }
    }

    fn write_p2(&mut self, result: u64) {
        let value = result + 1;
        let n = value.count_ones();
        for _ in 0..n - 1 {
            self.bit(1);
        }
        self.bit(0);
        let hb = 63 - value.leading_zeros();
        for i in 0..=hb {
            self.bit(((value >> i) & 1) as u32);
        }
    }

    fn flush(&mut self) {
        if self.nbits > 0 {
            self.out.push(self.cur);
            self.cur = 0;
            self.nbits = 0;
        }
    }

    fn raw(&mut self, data: &[u8]) {
        assert_eq!(self.nbits, 0, "raw write off a byte boundary");
        self.out.extend_from_slice(data);
    }

    fn write_string(&mut self, s: &[u8]) {
        self.write_p2(s.len() as u64);
        self.flush();
        self.raw(s);
    }

    fn finish(mut self) -> Vec<u8> {
        self.flush();
        self.out
    }
}

fn write_header(w: &mut Writer, typ: u64, attribs: &[(u64, u64)], alglist: &[(u64, u64)]) {
    w.bit(0);
    w.write_p2(typ);
    for &(t, v) in attribs {
        w.write_p2(t);
        w.write_p2(v);
    }
    w.write_p2(0);
    for &(t, v) in alglist {
        w.write_p2(t);
        w.write_p2(v);
    }
    w.write_p2(0);
}

fn write_file(w: &mut Writer, id: u64, parent: Option<u64>) {
    let mut attribs = vec![(1u64, id)];
    if let Some(p) = parent {
        attribs.push((2, p));
    }
    write_header(w, 2, &attribs, &[]);
    w.flush();
}

fn write_dir(w: &mut Writer, id: u64, parent: Option<u64>) {
    let mut attribs = vec![(1u64, id)];
    if let Some(p) = parent {
        attribs.push((2, p));
    }
    write_header(w, 4, &attribs, &[]);
    w.flush();
}

fn write_fork(w: &mut Writer, entry: u64, stream: u64, index: u64, length: u64, fork_type: u64) {
    write_header(
        w,
        3,
        &[(2, entry), (3, stream), (4, index), (5, length)],
        &[],
    );
    w.write_p2(fork_type);
    w.flush();
}

fn write_data_area(w: &mut Writer, payload: &[u8], crc: Option<u32>) {
    w.flush();
    w.write_p2(payload.len() as u64);
    w.flush();
    w.raw(payload);
    w.write_p2(0);
    w.flush();
    match crc {
        Some(c) => {
            w.write_p2(4);
            w.flush();
            w.raw(&c.to_be_bytes());
            w.write_p2(0);
        }
        None => w.write_p2(0),
    }
    w.flush();
}

fn write_data(
    w: &mut Writer,
    objid: u64,
    uncompsize: u64,
    alglist: &[(u64, u64)],
    payload: &[u8],
    crc: Option<u32>,
) {
    write_header(w, 1, &[(1, objid), (5, uncompsize)], alglist);
    write_data_area(w, payload, crc);
}

fn write_catalog(w: &mut Writer, catalog: &[u8]) {
    write_header(w, 5, &[(5, catalog.len() as u64)], &[]);
    write_data_area(w, catalog, None);
}

fn write_end(w: &mut Writer) {
    write_header(w, 0, &[], &[]);
}

fn build_catalog(names: &[&[u8]]) -> Vec<u8> {
    let mut c = Writer::default();
    for name in names {
        c.write_p2(1);
        c.write_string(name);
        c.write_p2(0);
        c.flush();
    }
    c.finish()
}

fn archive(build: impl FnOnce(&mut Writer)) -> Vec<u8> {
    let mut w = Writer::default();
    w.raw(b"StuffIt!");
    build(&mut w);
    w.finish()
}

fn extract_all(arc: &SitxArchive) -> BTreeMap<String, Vec<u8>> {
    let mut map = BTreeMap::new();
    for (i, e) in arc.entries().iter().enumerate() {
        if e.is_directory() {
            continue;
        }
        let mut key = String::from_utf8_lossy(e.name()).into_owned();
        if e.is_resource_fork() {
            key.push_str("/..namedfork/rsrc");
        }
        let mut buf = Vec::new();
        read(arc, i, &mut buf).unwrap();
        map.insert(key, buf);
    }
    map
}

#[test]
fn recognizes_stuffitx_banner() {
    assert!(SitxArchive::recognize(b"StuffIt!blahblah"));
    assert!(SitxArchive::recognize(b"StuffIt?blahblah"));
    assert!(!SitxArchive::recognize(b"StuffIt5blah"));
    assert!(!SitxArchive::recognize(b"SIT!"));
}

#[test]
fn base_n_body_is_unsupported() {
    let err = open(b"StuffIt?padding".to_vec())
        .err()
        .expect("base-N body must fail");
    assert_eq!(err.kind(), ErrorKind::Unsupported);
}

#[test]
fn recovery_style_desync_reports_unsupported() {
    let data = archive(|w| {
        write_header(w, 2, &[(1, 1), (24, 99)], &[]);
    });

    let err = open(data)
        .err()
        .expect("a desynced, truncated stream must fail");
    assert_eq!(err.kind(), ErrorKind::Unsupported);
    assert!(
        err.to_string().contains("recovery"),
        "unexpected error message: {err:?}"
    );
}

#[test]
fn plain_truncation_without_unknown_fields_stays_unexpected_eof() {
    let data = archive(|_w| {});

    let err = open(data)
        .err()
        .expect("a truncated stream must fail");
    assert_eq!(err.kind(), ErrorKind::UnexpectedEof);
}

#[test]
fn stored_single_file_round_trips() {
    let content = b"the quick brown fox, stored uncompressed".to_vec();
    let data = archive(|w| {
        write_file(w, 1, None);
        write_fork(w, 1, 1, 0, content.len() as u64, 0);
        write_catalog(w, &build_catalog(&[b"fox.txt"]));
        write_data(w, 1, content.len() as u64, &[], &content, None);
        write_end(w);
    });
    let arc = open(data).unwrap();
    let files = extract_all(&arc);
    assert_eq!(files.get("fox.txt").map(Vec::as_slice), Some(&content[..]));
}

#[test]
fn bad_crc_is_rejected() {
    let content = b"content whose crc will be wrong".to_vec();
    let data = archive(|w| {
        write_file(w, 1, None);
        write_fork(w, 1, 1, 0, content.len() as u64, 0);
        write_catalog(w, &build_catalog(&[b"bad.txt"]));
        write_data(
            w,
            1,
            content.len() as u64,
            &[(2, 0)],
            &content,
            Some(0xdead_beef),
        );
        write_end(w);
    });
    let arc = open(data).unwrap();
    let mut buf = Vec::new();
    let err = read(&arc, 0, &mut buf).unwrap_err();
    assert_eq!(err, ErrorKind::InvalidData);
}

#[test]
fn rc4_file_round_trips() {
    let content = b"no compression, only RC4 obfuscation over the bytes".to_vec();
    let key = [0x42u8];
    let mut cipher = content.clone();
    Rc4::new(&key).apply(&mut cipher);
    let mut payload = vec![0u8, 0u8, key[0]];
    payload.extend_from_slice(&cipher);
    let data = archive(|w| {
        write_file(w, 1, None);
        write_fork(w, 1, 1, 0, content.len() as u64, 0);
        write_catalog(w, &build_catalog(&[b"secret.txt"]));
        write_data(w, 1, content.len() as u64, &[(1, 5)], &payload, None);
        write_end(w);
    });
    let arc = open(data).unwrap();
    assert_eq!(
        extract_all(&arc).get("secret.txt").map(Vec::as_slice),
        Some(&content[..])
    );
}

#[test]
fn catalog_metadata_is_parsed() {
    let finder: [u8; 32] = std::array::from_fn(|i| i as u8);
    let mut catalog = Writer::default();
    catalog.write_p2(1);
    catalog.write_string(b"meta");
    catalog.write_p2(2);
    catalog.write_u64_be(132_000_000_000_000_000);
    catalog.write_p2(8);
    catalog.write_u64_be(131_000_000_000_000_000);
    catalog.write_p2(4);
    for b in finder {
        catalog.byte(b);
    }
    catalog.write_p2(6);
    catalog.byte(1);
    catalog.write_u32_be(0o644);
    catalog.write_u32_be(501);
    catalog.write_u32_be(20);
    catalog.write_p2(9);
    catalog.write_string(b"a comment");
    catalog.write_p2(0);
    catalog.flush();
    let catalog = catalog.finish();

    let data = archive(|w| {
        write_dir(w, 1, None);
        write_catalog(w, &catalog);
        write_file(w, 2, None);
        write_fork(w, 2, 2, 0, 1, 0);
        write_data(w, 2, 1, &[], b"x", None);
        write_end(w);
    });
    let arc = open(data).unwrap();
    let dir = arc.entries().iter().find(|e| e.is_directory()).unwrap();
    assert_eq!(dir.name(), b"meta");
    assert_eq!(dir.modification_filetime(), Some(132_000_000_000_000_000));
    assert_eq!(dir.creation_filetime(), Some(131_000_000_000_000_000));
    assert_eq!(dir.finder_info(), Some(&finder));
    assert_eq!(dir.posix_permissions(), Some(0o644));
    assert_eq!(dir.posix_uid(), Some(501));
    assert_eq!(dir.posix_gid(), Some(20));
    assert_eq!(dir.comment(), Some(&b"a comment"[..]));
}

#[test]
fn symlink_finder_info_marks_a_link() {
    let mut catalog = Writer::default();
    catalog.write_p2(1);
    catalog.write_string(b"link");
    catalog.write_p2(4);
    for &b in b"slnkrhap" {
        catalog.byte(b);
    }
    for _ in 8..32 {
        catalog.byte(0);
    }
    catalog.write_p2(0);
    catalog.flush();
    let catalog = catalog.finish();

    let data = archive(|w| {
        write_dir(w, 1, None);
        write_catalog(w, &catalog);
        write_file(w, 2, None);
        write_fork(w, 2, 2, 0, 1, 0);
        write_data(w, 2, 1, &[], b"x", None);
        write_end(w);
    });
    let arc = open(data).unwrap();
    let link = arc.entries().iter().find(|e| e.name() == b"link").unwrap();
    assert!(link.is_link());
    assert_eq!(link.finder_info(), None);
}

#[test]
fn x86_preprocessor_is_wired_into_the_chain() {
    let content: Vec<u8> = (0..300u32).map(|i| ((i % 200) as u8).min(0xe7)).collect();
    let data = archive(|w| {
        write_file(w, 1, None);
        write_fork(w, 1, 1, 0, content.len() as u64, 0);
        write_catalog(w, &build_catalog(&[b"code.bin"]));
        write_data(w, 1, content.len() as u64, &[(3, 2)], &content, None);
        write_end(w);
    });
    let arc = open(data).unwrap();
    assert_eq!(
        extract_all(&arc).get("code.bin").map(Vec::as_slice),
        Some(&content[..])
    );
}

#[test]
fn directory_and_child_build_nested_paths() {
    let content = b"inside a directory".to_vec();
    let data = archive(|w| {
        write_dir(w, 1, None);
        write_file(w, 2, Some(1));
        write_fork(w, 2, 1, 0, content.len() as u64, 0);
        write_catalog(w, &build_catalog(&[b"folder", b"child.txt"]));
        write_data(w, 1, content.len() as u64, &[], &content, None);
        write_end(w);
    });
    let arc = open(data).unwrap();
    let dir = &arc.entries()[0];
    assert!(dir.is_directory());
    assert_eq!(dir.name(), b"folder");
    let files = extract_all(&arc);
    assert_eq!(
        files.get("folder/child.txt").map(Vec::as_slice),
        Some(&content[..])
    );
}

#[test]
fn replicated_fork_serves_multiple_files() {
    let content = b"shared payload for two files".to_vec();
    let n = content.len() as u64;
    let data = archive(|w| {
        write_file(w, 1, None);
        write_file(w, 2, None);
        write_fork(w, 1, 1, 0, n, 0);
        write_fork(w, 2, 1, 0, n, 0);
        write_catalog(w, &build_catalog(&[b"a.txt", b"b.txt"]));
        write_data(w, 1, n, &[], &content, None);
        write_end(w);
    });
    let arc = open(data).unwrap();
    let files = extract_all(&arc);
    assert_eq!(files.get("a.txt").map(Vec::as_slice), Some(&content[..]));
    assert_eq!(files.get("b.txt").map(Vec::as_slice), Some(&content[..]));
}

#[test]
fn replicated_fork_length_mismatch_is_rejected() {
    let data = archive(|w| {
        write_file(w, 1, None);
        write_file(w, 2, None);
        write_fork(w, 1, 1, 0, 10, 0);
        write_fork(w, 2, 1, 0, 20, 0);
        write_catalog(w, &build_catalog(&[b"a", b"b"]));
        write_data(w, 1, 10, &[], &[0u8; 10], None);
        write_end(w);
    });
    let err = open(data)
        .err()
        .expect("length mismatch must fail");
    assert_eq!(err.kind(), ErrorKind::InvalidData);
}

#[test]
fn resource_and_data_forks_both_extract() {
    let dataf = b"data fork bytes".to_vec();
    let rsrc = b"resource fork bytes".to_vec();
    let mut payload = dataf.clone();
    payload.extend_from_slice(&rsrc);
    let data = archive(|w| {
        write_file(w, 1, None);
        write_fork(w, 1, 1, 0, dataf.len() as u64, 0);
        write_fork(w, 1, 1, 1, rsrc.len() as u64, 1);
        write_catalog(w, &build_catalog(&[b"both"]));
        write_data(w, 1, (dataf.len() + rsrc.len()) as u64, &[], &payload, None);
        write_end(w);
    });
    let arc = open(data).unwrap();
    let files = extract_all(&arc);
    assert_eq!(files.get("both").map(Vec::as_slice), Some(&dataf[..]));
    assert_eq!(
        files.get("both/..namedfork/rsrc").map(Vec::as_slice),
        Some(&rsrc[..])
    );
}

#[test]
fn unsupported_codec_parses_but_read_fails() {
    let content = vec![0u8; 8];
    let data = archive(|w| {
        write_file(w, 1, None);
        write_fork(w, 1, 1, 0, content.len() as u64, 0);
        write_catalog(w, &build_catalog(&[b"c.bin"]));
        write_data(w, 1, content.len() as u64, &[(1, 9)], &content, None);
        write_end(w);
    });
    let arc = open(data).unwrap();
    assert_eq!(arc.entries()[0].name(), b"c.bin");
    assert_eq!(arc.entries()[0].compression_name(), "Method 9");
    let mut buf = Vec::new();
    let err = read(&arc, 0, &mut buf).unwrap_err();
    assert_eq!(err, ErrorKind::Unsupported);
}

fn packed_archive(alglist: &[(u64, u64)], length: u64, payload: &[u8], crc: Option<u32>) -> Vec<u8> {
    archive(|w| {
        write_file(w, 1, None);
        write_fork(w, 1, 1, 0, length, 0);
        write_catalog(w, &build_catalog(&[b"packed"]));
        write_data(w, 1, length, alglist, payload, crc);
        write_end(w);
    })
}

#[test]
fn deflated_entry_asks_for_its_body_and_takes_the_inflated_bytes() {
    let content = b"what comes of inflating".to_vec();
    let mut payload = vec![15u8];
    payload.extend_from_slice(b"deflated body");
    let crc = crc32_ieee(&content);
    let data = packed_archive(&[(1, 3), (2, 0)], content.len() as u64, &payload, Some(crc));
    let arc = open(data).unwrap();
    assert_eq!(arc.entries()[0].compression_name(), "Deflate");

    let mut out = Vec::new();
    let wanted = arc.read_entry(0, &Aids::none(), &mut out).unwrap().unwrap();
    assert_eq!(wanted.body, b"deflated body");
    assert_eq!(wanted.size, content.len());
    assert!(out.is_empty());

    let aids = Aids { dictionary: None, inflated: vec![Ok(content.clone())] };
    assert!(arc.read_entry(0, &aids, &mut out).unwrap().is_none());
    assert_eq!(out, content);

    let aids = Aids { dictionary: None, inflated: vec![Ok(b"something else".to_vec())] };
    assert_eq!(arc.read_entry(0, &aids, &mut out).err(), Some(ErrorKind::InvalidData));
    assert_eq!(out, content);

    let aids = Aids { dictionary: None, inflated: vec![Err(ErrorKind::UnexpectedEof)] };
    assert_eq!(arc.read_entry(0, &aids, &mut out).err(), Some(ErrorKind::UnexpectedEof));
    assert_eq!(out, content);
}

#[test]
fn deflate_window_other_than_fifteen_is_unsupported() {
    let data = packed_archive(&[(1, 3)], 4, &[14, 0, 0], None);
    let arc = open(data).unwrap();
    let mut out = Vec::new();
    assert_eq!(read(&arc, 0, &mut out).unwrap_err(), ErrorKind::Unsupported);
}

#[test]
fn deflated_catalog_is_asked_for_and_used() {
    let catalog = build_catalog(&[b"inner"]);
    let data = archive(|w| {
        write_file(w, 1, None);
        write_fork(w, 1, 1, 0, 2, 0);
        write_header(w, 5, &[(5, catalog.len() as u64)], &[(1, 3)]);
        write_data_area(w, &[15, 1, 2, 3], None);
        write_data(w, 1, 2, &[], b"hi", None);
        write_end(w);
    });
    let mut aids = Aids::none();
    match SitxArchive::open(data.clone(), &aids).unwrap() {
        Opened::Archive(_) => panic!("the catalog has not been inflated yet"),
        Opened::Deflated(d) => {
            assert_eq!(d.body, [1, 2, 3]);
            assert_eq!(d.size, catalog.len());
        }
    }
    aids.inflated.push(Ok(catalog));
    match SitxArchive::open(data, &aids).unwrap() {
        Opened::Archive(arc) => {
            assert_eq!(arc.entries()[0].name(), b"inner");
            let mut out = Vec::new();
            read(&arc, 0, &mut out).unwrap();
            assert_eq!(out, b"hi");
        }
        Opened::Deflated(_) => panic!("the catalog has been inflated"),
    }
}

#[test]
fn catalog_that_cannot_be_inflated_is_refused() {
    let data = |slot: u64| {
        archive(|w| {
            write_file(w, 1, None);
            write_header(w, 5, &[(slot, 7)], &[(1, 3)]);
            write_data_area(w, &[15, 1, 2, 3], None);
            write_end(w);
        })
    };
    let aids = Aids { dictionary: None, inflated: vec![Err(ErrorKind::UnexpectedEof)] };
    let err = SitxArchive::open(data(5), &aids).err().unwrap();
    assert_eq!(err, SitxError { kind: ErrorKind::UnexpectedEof, recovery: false });
    // After a slot that there is not, it passes for a recovery record.
    let err = SitxArchive::open(data(11), &aids).err().unwrap();
    assert_eq!(err, SitxError { kind: ErrorKind::Unsupported, recovery: true });
}

#[test]
fn encrypted_and_unknown_preprocessors_are_unsupported() {
    // The list of algorithms gives a second value to the cipher.
    let data = archive(|w| {
        write_file(w, 1, None);
        write_fork(w, 1, 1, 0, 2, 0);
        write_catalog(w, &build_catalog(&[b"secret"]));
        w.bit(0);
        w.write_p2(1);
        for v in [1, 1, 5, 2, 0] {
            w.write_p2(v);
        }
        for v in [4, 0, 7, 0] {
            w.write_p2(v);
        }
        write_data_area(w, b"hi", None);
        write_end(w);
    });
    let mut out = Vec::new();
    let arc = open(data).unwrap();
    assert_eq!(read(&arc, 0, &mut out).unwrap_err(), ErrorKind::Unsupported);
    for preprocess in [0u64, 1, 3, 8] {
        let arc = open(packed_archive(&[(3, preprocess)], 2, b"hi", None)).unwrap();
        assert_eq!(read(&arc, 0, &mut out).unwrap_err(), ErrorKind::Unsupported);
    }
    let arc = open(packed_archive(&[(1, 6), (3, 0)], 2, b"hi", None)).unwrap();
    assert_eq!(arc.entries()[0].compression_name(), "Iron+English");
}

#[test]
fn fork_past_the_end_of_its_stream_is_invalid() {
    let arc = open(packed_archive(&[], 10, b"short", None)).unwrap();
    let mut out = Vec::new();
    assert_eq!(read(&arc, 0, &mut out).unwrap_err(), ErrorKind::InvalidData);
    assert_eq!(read(&arc, 7, &mut out).unwrap_err(), ErrorKind::InvalidData);
}

#[test]
fn compressed_size_is_a_proportional_share() {
    let data = archive(|w| {
        write_file(w, 1, None);
        write_fork(w, 1, 1, 0, 30, 0);
        write_fork(w, 1, 1, 1, 10, 1);
        write_catalog(w, &build_catalog(&[b"f"]));
        write_data(w, 1, 40, &[], &[7u8; 40], None);
        write_end(w);
    });
    let arc = open(data).unwrap();
    // The data takes 2 + 40 + 1 + 1 bytes.
    assert_eq!(arc.entries()[0].compressed_size(), 30 * 44 / 40);
    assert_eq!(arc.entries()[1].compressed_size(), 10 * 44 / 40);
    assert_eq!(arc.entries()[0].compression_name(), "Method -1");
}

#[test]
fn gap_in_the_forks_of_a_stream_is_invalid() {
    let data = archive(|w| {
        write_file(w, 1, None);
        write_fork(w, 1, 1, 1, 2, 0);
        write_catalog(w, &build_catalog(&[b"f"]));
        write_data(w, 1, 2, &[], b"hi", None);
        write_end(w);
    });
    assert_eq!(open(data).err().unwrap().kind(), ErrorKind::InvalidData);
}

#[test]
fn element_of_type_ten_is_unsupported_and_later_ones_are_passed() {
    let data = archive(|w| write_header(w, 10, &[], &[]));
    assert_eq!(open(data).err().unwrap().kind(), ErrorKind::Unsupported);
    let data = archive(|w| {
        write_header(w, 11, &[], &[]);
        write_data_area(w, b"passed", None);
        write_header(w, 6, &[(5, 3)], &[]);
        w.flush();
        w.raw(b"abc");
        write_header(w, 7, &[], &[]);
        w.write_p2(9);
        w.flush();
        write_header(w, 8, &[], &[]);
        w.flush();
        write_end(w);
    });
    assert!(open(data).unwrap().entries().is_empty());
}

#[test]
fn entries_without_a_fork_come_first() {
    let mut catalog = Writer::default();
    // An owner without a comment, and an empty comment without an owner.
    catalog.write_p2(1);
    catalog.write_string(b"file");
    catalog.write_p2(6);
    catalog.byte(1);
    catalog.write_u32_be(0o600);
    catalog.write_u32_be(7);
    catalog.write_u32_be(8);
    catalog.write_p2(0);
    catalog.flush();
    catalog.write_p2(1);
    catalog.write_string(b"folder");
    catalog.write_p2(6);
    catalog.byte(0);
    catalog.write_u32_be(0o755);
    catalog.write_p2(9);
    catalog.write_string(b"");
    catalog.write_p2(0);
    catalog.flush();
    catalog.write_p2(1);
    catalog.write_string(b"empty");
    catalog.write_p2(0);
    catalog.flush();
    let catalog = catalog.finish();
    let data = archive(|w| {
        write_file(w, 1, None);
        write_dir(w, 2, None);
        write_file(w, 3, None);
        write_fork(w, 1, 1, 0, 2, 0);
        write_fork(w, 1, 2, 0, 3, 1);
        write_catalog(w, &catalog);
        write_data(w, 1, 2, &[], b"hi", None);
        write_data(w, 2, 3, &[], b"res", None);
        write_end(w);
    });
    let arc = open(data).unwrap();
    let names: Vec<&[u8]> = arc.entries().iter().map(|e| e.name()).collect();
    assert_eq!(names, [&b"folder"[..], b"empty", b"file", b"file"]);
    let folder = &arc.entries()[0];
    assert_eq!(folder.comment(), None);
    assert_eq!(folder.posix_permissions(), Some(0o755));
    assert_eq!(folder.posix_uid(), None);
    assert_eq!(folder.posix_gid(), None);
    let file = &arc.entries()[3];
    assert!(file.is_resource_fork());
    assert_eq!(file.posix_permissions(), Some(0o600));
    assert_eq!(file.posix_uid(), Some(7));
    assert_eq!(file.posix_gid(), Some(8));
}
