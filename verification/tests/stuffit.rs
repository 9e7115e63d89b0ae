use newtua_stuffit::bits::BitWriter;
use newtua_stuffit::checksum::crc16_arc;
use newtua_stuffit::error::ErrorKind;
use newtua_stuffit::stuffit::{
    StuffItArchive, ARCHIVE_HEADER_SIZE, ENCRYPTED_FLAG, END_FOLDER, FILE_HEADER_SIZE, START_FOLDER,
};

struct BitW {
    out: Vec<u8>,
    acc: u8,
    n: u8,
}
impl BitW {
    fn new() -> Self {
        BitW {
            out: Vec::new(),
            acc: 0,
            n: 0,
        }
    }
    fn put_bit(&mut self, b: u32) {
        self.acc = (self.acc << 1) | (b as u8 & 1);
        self.n += 1;
        if self.n == 8 {
            self.out.push(self.acc);
            self.acc = 0;
            self.n = 0;
        }
    }
    fn put_bits(&mut self, val: u32, bits: u32) {
        for i in (0..bits).rev() {
            self.put_bit((val >> i) & 1);
        }
    }
    fn finish(mut self) -> Vec<u8> {
        if self.n > 0 {
            self.acc <<= 8 - self.n;
            self.out.push(self.acc);
        }
        self.out
    }
}

fn write_tree(w: &mut BitW, symbols: &[u8]) {
    if symbols.len() == 1 {
        w.put_bit(1);
        w.put_bits(u32::from(symbols[0]), 8);
        return;
    }
    let mid = symbols.len() / 2;
    w.put_bit(0);
    write_tree(w, &symbols[..mid]);
    write_tree(w, &symbols[mid..]);
}

fn walk_codes(
    symbols: &[u8],
    prefix: u32,
    len: u32,
    codes: &mut std::collections::HashMap<u8, (u32, u32)>,
) {
    if symbols.len() == 1 {
        codes.insert(symbols[0], (prefix, len));
        return;
    }
    let mid = symbols.len() / 2;
    walk_codes(&symbols[..mid], prefix << 1, len + 1, codes);
    walk_codes(&symbols[mid..], (prefix << 1) | 1, len + 1, codes);
}

fn huffman_encode(content: &[u8]) -> Vec<u8> {
    let mut symbols: Vec<u8> = content.to_vec();
    symbols.sort_unstable();
    symbols.dedup();
    let mut w = BitW::new();
    write_tree(&mut w, &symbols);
    let mut codes = std::collections::HashMap::new();
    walk_codes(&symbols, 0, 0, &mut codes);
    for &b in content {
        let (c, l) = codes[&b];
        w.put_bits(c, l);
    }
    w.finish()
}

fn lzw_encode(input: &[u8]) -> Vec<u8> {
    let mut dict: std::collections::HashMap<Vec<u8>, u32> = std::collections::HashMap::new();
    for b in 0..=255u32 {
        dict.insert(vec![b as u8], b);
    }
    let mut next_code = 257u32;
    let mut bits = BitWriter::default();
    if input.is_empty() {
        return bits.finish();
    }
    let mut current = vec![input[0]];
    for &c in &input[1..] {
        let mut cand = current.clone();
        cand.push(c);
        if dict.contains_key(&cand) {
            current = cand;
        } else {
            bits.bits(dict[&current], 9);
            dict.insert(cand, next_code);
            next_code += 1;
            assert!(
                next_code < 512,
                "lzw fixture too large; the code width would grow past 9 bits"
            );
            current = vec![c];
        }
    }
    bits.bits(dict[&current], 9);
    bits.finish()
}

struct ForkSpec {
    method: u8,
    content: Vec<u8>,
}

fn compress(method: u8, content: &[u8]) -> Vec<u8> {
    match method & 0x0f {
        0 => content.to_vec(),
        1 => content.to_vec(),
        2 => lzw_encode(content),
        3 => huffman_encode(content),
        m => panic!("mirror builder cannot compress method {m}"),
    }
}

fn fork(method: u8, content: &[u8]) -> ForkSpec {
    ForkSpec {
        method,
        content: content.to_vec(),
    }
}

struct FileSpec {
    name: &'static [u8],
    file_type: [u8; 4],
    creator: [u8; 4],
    rsrc: Option<ForkSpec>,
    data: Option<ForkSpec>,
}

impl FileSpec {
    fn plain(name: &'static [u8], data: Option<ForkSpec>, rsrc: Option<ForkSpec>) -> Self {
        FileSpec {
            name,
            file_type: *b"TEXT",
            creator: *b"ttxt",
            rsrc,
            data,
        }
    }
}

enum Node {
    Dir(&'static [u8], Vec<Node>),
    File(FileSpec),
}

#[allow(clippy::too_many_arguments)]
fn make_header(
    rsrcmethod: u8,
    datamethod: u8,
    name: &[u8],
    file_type: [u8; 4],
    creator: [u8; 4],
    rsrclength: u32,
    datalength: u32,
    rsrccomplen: u32,
    datacomplen: u32,
    rsrccrc: u16,
    datacrc: u16,
) -> Vec<u8> {
    let mut h = vec![0u8; FILE_HEADER_SIZE];
    h[0] = rsrcmethod;
    h[1] = datamethod;
    let namelen = name.len().min(31);
    h[2] = namelen as u8;
    h[3..3 + namelen].copy_from_slice(&name[..namelen]);
    h[66..70].copy_from_slice(&file_type);
    h[70..74].copy_from_slice(&creator);
    h[84..88].copy_from_slice(&rsrclength.to_be_bytes());
    h[88..92].copy_from_slice(&datalength.to_be_bytes());
    h[92..96].copy_from_slice(&rsrccomplen.to_be_bytes());
    h[96..100].copy_from_slice(&datacomplen.to_be_bytes());
    h[100..102].copy_from_slice(&rsrccrc.to_be_bytes());
    h[102..104].copy_from_slice(&datacrc.to_be_bytes());
    let crc = crc16_arc(&h[0..110]);
    h[110..112].copy_from_slice(&crc.to_be_bytes());
    h
}

fn emit_nodes(nodes: &[Node], out: &mut Vec<u8>) {
    for node in nodes {
        match node {
            Node::Dir(name, children) => {
                out.extend_from_slice(&make_header(
                    0,
                    START_FOLDER,
                    name,
                    *b"fold",
                    *b"MACS",
                    0,
                    0,
                    0,
                    0,
                    0,
                    0,
                ));
                emit_nodes(children, out);
                out.extend_from_slice(&make_header(
                    0, END_FOLDER, b"", [0; 4], [0; 4], 0, 0, 0, 0, 0, 0,
                ));
            }
            Node::File(f) => {
                let rcomp = f.rsrc.as_ref().map(|r| compress(r.method, &r.content));
                let dcomp = f.data.as_ref().map(|d| compress(d.method, &d.content));
                let rsrclength = f.rsrc.as_ref().map_or(0, |r| r.content.len()) as u32;
                let datalength = f.data.as_ref().map_or(0, |d| d.content.len()) as u32;
                let rsrccomplen = rcomp.as_ref().map_or(0, |c| c.len()) as u32;
                let datacomplen = dcomp.as_ref().map_or(0, |c| c.len()) as u32;
                let rsrcmethod = f.rsrc.as_ref().map_or(0, |r| r.method);
                let datamethod = f.data.as_ref().map_or(0, |d| d.method);
                let rsrccrc = f.rsrc.as_ref().map_or(0, |r| crc16_arc(&r.content));
                let datacrc = f.data.as_ref().map_or(0, |d| crc16_arc(&d.content));

                out.extend_from_slice(&make_header(
                    rsrcmethod,
                    datamethod,
                    f.name,
                    f.file_type,
                    f.creator,
                    rsrclength,
                    datalength,
                    rsrccomplen,
                    datacomplen,
                    rsrccrc,
                    datacrc,
                ));
                if let Some(c) = rcomp {
                    out.extend_from_slice(&c);
                }
                if let Some(c) = dcomp {
                    out.extend_from_slice(&c);
                }
            }
        }
    }
}

fn count_files(nodes: &[Node]) -> usize {
    let mut n = 0;
    for node in nodes {
        match node {
            Node::Dir(_, children) => n += count_files(children),
            Node::File(_) => n += 1,
        }
    }
    n
}

fn build_archive(nodes: &[Node]) -> Vec<u8> {
    let mut out = vec![0u8; ARCHIVE_HEADER_SIZE];
    out[0..4].copy_from_slice(b"SIT!");
    out[10..14].copy_from_slice(b"rLau");
    emit_nodes(nodes, &mut out);
    let numfiles = count_files(nodes) as u16;
    out[4..6].copy_from_slice(&numfiles.to_be_bytes());
    let totalsize = out.len() as u32;
    out[6..10].copy_from_slice(&totalsize.to_be_bytes());
    out
}

fn read(a: &StuffItArchive, idx: usize) -> Vec<u8> {
    let mut out = Vec::new();
    a.read_entry(idx, &mut out).unwrap();
    out
}

#[test]
fn stuffit_recognizes_valid_signature() {
    let arc = build_archive(&[Node::File(FileSpec::plain(
        b"f",
        Some(fork(0, b"hi")),
        None,
    ))]);
    assert!(StuffItArchive::recognize(&arc));
}

#[test]
fn stuffit_rejects_garbage_and_short_input() {
    assert!(!StuffItArchive::recognize(b"not an archive"));
    assert!(!StuffItArchive::recognize(b"SIT!"));
    let mut buf = vec![0u8; 22];
    buf[0..4].copy_from_slice(b"SIT!");
    assert!(!StuffItArchive::recognize(&buf));
}

#[test]
fn parses_both_forks_resource_first() {
    let arc = build_archive(&[Node::File(FileSpec::plain(
        b"both",
        Some(fork(0, b"DATA")),
        Some(fork(0, b"RES")),
    ))]);
    let a = StuffItArchive::open(&arc[..]).unwrap();
    assert_eq!(a.entries().len(), 2);
    assert!(a.entries()[0].is_resource_fork());
    assert!(!a.entries()[1].is_resource_fork());
    assert_eq!(a.entries()[0].name(), b"both");
    assert_eq!(a.entries()[1].name(), b"both");
    assert_eq!(read(&a, 0), b"RES");
    assert_eq!(read(&a, 1), b"DATA");
}

#[test]
fn data_only_file() {
    let arc = build_archive(&[Node::File(FileSpec::plain(
        b"d",
        Some(fork(0, b"only data")),
        None,
    ))]);
    let a = StuffItArchive::open(&arc[..]).unwrap();
    assert_eq!(a.entries().len(), 1);
    assert!(!a.entries()[0].is_resource_fork());
    assert_eq!(read(&a, 0), b"only data");
}

#[test]
fn stuffit_resource_only_file() {
    let arc = build_archive(&[Node::File(FileSpec::plain(
        b"r",
        None,
        Some(fork(0, b"only rsrc")),
    ))]);
    let a = StuffItArchive::open(&arc[..]).unwrap();
    assert_eq!(a.entries().len(), 1);
    assert!(a.entries()[0].is_resource_fork());
    assert_eq!(read(&a, 0), b"only rsrc");
}

#[test]
fn stuffit_empty_file_yields_one_empty_data_fork() {
    let arc = build_archive(&[Node::File(FileSpec::plain(b"empty", None, None))]);
    let a = StuffItArchive::open(&arc[..]).unwrap();
    assert_eq!(a.entries().len(), 1);
    assert!(!a.entries()[0].is_resource_fork());
    assert_eq!(a.entries()[0].size(), 0);
    assert_eq!(read(&a, 0), b"");
}

#[test]
fn stuffit_nested_directory_paths() {
    let arc = build_archive(&[Node::Dir(
        b"dir",
        vec![Node::File(FileSpec::plain(
            b"inner",
            Some(fork(0, b"hi")),
            None,
        ))],
    )]);
    let a = StuffItArchive::open(&arc[..]).unwrap();
    assert_eq!(a.entries().len(), 2);
    assert!(a.entries()[0].is_directory());
    assert_eq!(a.entries()[0].name(), b"dir");
    assert_eq!(a.entries()[1].name(), b"dir/inner");
    assert_eq!(read(&a, 1), b"hi");
}

#[test]
fn folder_exit_returns_to_parent() {
    let arc = build_archive(&[
        Node::Dir(
            b"dir",
            vec![Node::File(FileSpec::plain(
                b"a",
                Some(fork(0, b"AA")),
                None,
            ))],
        ),
        Node::File(FileSpec::plain(b"top", Some(fork(0, b"TT")), None)),
    ]);
    let a = StuffItArchive::open(&arc[..]).unwrap();
    let names: Vec<&[u8]> = a.entries().iter().map(|e| e.name()).collect();
    assert_eq!(names, vec![&b"dir"[..], &b"dir/a"[..], &b"top"[..]]);
    assert_eq!(read(&a, 2), b"TT");
}

fn roundtrip_method(method: u8, content: &[u8]) {
    let arc = build_archive(&[Node::File(FileSpec::plain(
        b"f",
        Some(fork(method, content)),
        None,
    ))]);
    let a = StuffItArchive::open(&arc[..]).unwrap();
    assert_eq!(read(&a, 0), content, "method {method}");
}

#[test]
fn stuffit_method0_store_roundtrip() {
    roundtrip_method(0, b"stored bytes, verbatim");
}

#[test]
fn stuffit_method1_rle90_roundtrip() {
    roundtrip_method(1, b"the quick brown fox");
}

#[test]
fn stuffit_method2_compress_roundtrip() {
    roundtrip_method(2, b"abcabcabcabcabcabc compress me please");
}

#[test]
fn stuffit_method3_huffman_roundtrip() {
    roundtrip_method(3, b"huffman huffman huffman tree");
}

#[test]
fn fork_crc_mismatch_is_error() {
    let content = b"crc me";
    let mut arc = build_archive(&[Node::File(FileSpec::plain(
        b"f",
        Some(fork(0, content)),
        None,
    ))]);
    let h = ARCHIVE_HEADER_SIZE;
    let bad = crc16_arc(content) ^ 0xffff;
    arc[h + 102..h + 104].copy_from_slice(&bad.to_be_bytes());
    let newcrc = crc16_arc(&arc[h..h + 110]);
    arc[h + 110..h + 112].copy_from_slice(&newcrc.to_be_bytes());

    let a = StuffItArchive::open(&arc[..]).unwrap();
    let mut out = Vec::new();
    assert!(a.read_entry(0, &mut out).is_err());
}

#[test]
fn bad_header_checksum_is_error() {
    let mut arc =
        build_archive(&[Node::File(FileSpec::plain(b"f", Some(fork(0, b"x")), None))]);
    arc[ARCHIVE_HEADER_SIZE + 2] ^= 0xff;
    assert!(StuffItArchive::open(&arc[..]).is_err());
}

#[test]
fn stuffit_encrypted_fork_is_unsupported() {
    let arc = build_archive(&[Node::File(FileSpec::plain(
        b"enc",
        Some(fork(ENCRYPTED_FLAG, b"xxxx")),
        None,
    ))]);
    let a = StuffItArchive::open(&arc[..]).unwrap();
    assert!(a.entries()[0].is_encrypted());
    let mut out = Vec::new();
    let err = a.read_entry(0, &mut out).unwrap_err();
    assert_eq!(err, ErrorKind::Unsupported);
}

#[test]
fn unsupported_method_is_unsupported() {
    let arc = build_archive(&[Node::File(FileSpec {
        name: b"lz",
        file_type: *b"TEXT",
        creator: *b"ttxt",
        rsrc: None,
        data: Some(fork(0, b"payload")),
    })]);
    let mut arc = arc;
    arc[ARCHIVE_HEADER_SIZE + 1] = 14;
    let h = ARCHIVE_HEADER_SIZE;
    let newcrc = crc16_arc(&arc[h..h + 110]);
    arc[h + 110..h + 112].copy_from_slice(&newcrc.to_be_bytes());
    let a = StuffItArchive::open(&arc[..]).unwrap();
    let mut out = Vec::new();
    let err = a.read_entry(0, &mut out).unwrap_err();
    assert_eq!(err, ErrorKind::Unsupported);
}

#[test]
fn stuffit_read_entry_out_of_range_errors() {
    let arc = build_archive(&[Node::File(FileSpec::plain(b"f", Some(fork(0, b"x")), None))]);
    let a = StuffItArchive::open(&arc[..]).unwrap();
    let mut out = Vec::new();
    assert!(a.read_entry(9, &mut out).is_err());
}

#[test]
fn stuffit_directory_read_is_empty() {
    let arc = build_archive(&[Node::Dir(
        b"dir",
        vec![Node::File(FileSpec::plain(
            b"a",
            Some(fork(0, b"AA")),
            None,
        ))],
    )]);
    let a = StuffItArchive::open(&arc[..]).unwrap();
    assert!(a.entries()[0].is_directory());
    assert_eq!(read(&a, 0), b"");
}

#[test]
fn stuffit_metadata_is_parsed() {
    let arc = build_archive(&[Node::File(FileSpec {
        name: b"meta",
        file_type: *b"APPL",
        creator: *b"CODE",
        rsrc: None,
        data: Some(fork(0, b"x")),
    })]);
    let a = StuffItArchive::open(&arc[..]).unwrap();
    assert_eq!(a.entries()[0].file_type(), *b"APPL");
    assert_eq!(a.entries()[0].creator(), *b"CODE");
}

#[test]
fn stuffit_bytes_behind_the_archive_change_nothing() {
    let mut arc = build_archive(&[
        Node::Dir(b"folder", vec![]),
        Node::File(FileSpec::plain(b"both", Some(fork(3, b"DATA DATA")), Some(fork(1, b"RES")))),
    ]);
    let before = StuffItArchive::open(&arc[..]).unwrap();
    arc.extend_from_slice(b"whatever comes behind");
    let after = StuffItArchive::open(&arc[..]).unwrap();
    assert_eq!(before.entries().len(), 3);
    assert_eq!(after.entries().len(), 3);
    for i in 0..3 {
        assert_eq!(after.entries()[i].name(), before.entries()[i].name());
        assert_eq!(after.entries()[i].size(), before.entries()[i].size());
        assert_eq!(read(&after, i), read(&before, i));
    }
}

#[test]
fn stuffit_fork_cut_short_is_mended_by_the_bytes_behind() {
    let mut arc = build_archive(&[Node::File(FileSpec::plain(b"d", Some(fork(0, b"12345678")), None))]);
    let last = arc.pop().unwrap();
    let cut = StuffItArchive::open(&arc[..]).unwrap();
    assert_eq!(cut.read_entry(0, &mut Vec::new()), Err(ErrorKind::InvalidData));
    arc.push(last);
    assert_eq!(read(&StuffItArchive::open(&arc[..]).unwrap(), 0), b"12345678");
}

#[test]
fn stuffit_entries_have_the_size_that_is_read() {
    for method in [0u8, 1, 2, 3] {
        let arc = build_archive(&[
            Node::Dir(b"folder", vec![]),
            Node::File(FileSpec::plain(
                b"both",
                Some(fork(method, b"aaaaaaaaaaaabbbbbbbb")),
                Some(fork(method, b"xyxyxyxyxyxyxy")),
            )),
        ]);
        let a = StuffItArchive::open(&arc[..]).unwrap();
        for (i, e) in a.entries().iter().enumerate() {
            let mut out = vec![1, 2, 3];
            a.read_entry(i, &mut out).unwrap();
            assert_eq!(out.len() as u64, 3 + e.size());
            assert_eq!(e.is_directory(), i == 0);
            assert_eq!(e.is_resource_fork(), i == 1);
        }
        assert_eq!(a.entries()[0].size(), 0);
    }
}
