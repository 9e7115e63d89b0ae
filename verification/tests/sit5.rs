use newtua_stuffit::bits::BitWriter;
use newtua_stuffit::checksum::crc16_arc;
use newtua_stuffit::error::ErrorKind;
use newtua_stuffit::sit5::{
    recognize, StuffIt5Archive, ARCHIVEFLAGS_CRYPTED, BANNER, ENTRYFLAGS_CRYPTED, ENTRYFLAGS_DIRECTORY, EXE_STUB_LEN,
    HEADER_LEN, KEY_LENGTH, SIT5_ID, SIT5_VERSION,
};
use std::collections::HashMap;

struct BitW {
    out: Vec<u8>,
    acc: u8,
    n: u8,
}
impl BitW {
    fn new() -> Self {
        BitW {
            out: Vec::new(),
            acc: 0,
            n: 0,
        }
    }
    fn put_bit(&mut self, b: u32) {
        self.acc = (self.acc << 1) | (b as u8 & 1);
        self.n += 1;
        if self.n == 8 {
            self.out.push(self.acc);
            self.acc = 0;
            self.n = 0;
        }
    }
    fn put_bits(&mut self, val: u32, bits: u32) {
        for i in (0..bits).rev() {
            self.put_bit((val >> i) & 1);
        }
    }
    fn finish(mut self) -> Vec<u8> {
        if self.n > 0 {
            self.acc <<= 8 - self.n;
            self.out.push(self.acc);
        }
        self.out
    }
}

fn write_tree(w: &mut BitW, symbols: &[u8]) {
    if symbols.len() == 1 {
        w.put_bit(1);
        w.put_bits(u32::from(symbols[0]), 8);
        return;
    }
    let mid = symbols.len() / 2;
    w.put_bit(0);
    write_tree(w, &symbols[..mid]);
    write_tree(w, &symbols[mid..]);
}

fn walk_codes(symbols: &[u8], prefix: u32, len: u32, codes: &mut HashMap<u8, (u32, u32)>) {
    if symbols.len() == 1 {
        codes.insert(symbols[0], (prefix, len));
        return;
    }
    let mid = symbols.len() / 2;
    walk_codes(&symbols[..mid], prefix << 1, len + 1, codes);
    walk_codes(&symbols[mid..], (prefix << 1) | 1, len + 1, codes);
}

fn huffman_encode(content: &[u8]) -> Vec<u8> {
    let mut symbols: Vec<u8> = content.to_vec();
    symbols.sort_unstable();
    symbols.dedup();
    let mut w = BitW::new();
    write_tree(&mut w, &symbols);
    let mut codes = HashMap::new();
    walk_codes(&symbols, 0, 0, &mut codes);
    for &b in content {
        let (c, l) = codes[&b];
        w.put_bits(c, l);
    }
    w.finish()
}

fn lzw_encode(input: &[u8]) -> Vec<u8> {
    let mut dict: HashMap<Vec<u8>, u32> = HashMap::new();
    for b in 0..=255u32 {
        dict.insert(vec![b as u8], b);
    }
    let mut next_code = 257u32;
    let mut bits = BitWriter::default();
    if input.is_empty() {
        return bits.finish();
    }
    let mut current = vec![input[0]];
    for &c in &input[1..] {
        let mut cand = current.clone();
        cand.push(c);
        if dict.contains_key(&cand) {
            current = cand;
        } else {
            bits.bits(dict[&current], 9);
            dict.insert(cand, next_code);
            next_code += 1;
            assert!(next_code < 512, "lzw fixture too large for 9-bit codes");
            current = vec![c];
        }
    }
    bits.bits(dict[&current], 9);
    bits.finish()
}

fn compress(method: u8, content: &[u8]) -> Vec<u8> {
    match method & 0x0f {
        0 => content.to_vec(),
        1 => content.to_vec(),
        2 => lzw_encode(content),
        3 => huffman_encode(content),
        m => panic!("mirror builder cannot compress method {m}"),
    }
}

struct ForkSpec {
    method: u8,
    content: Vec<u8>,
}

fn fork(method: u8, content: &[u8]) -> ForkSpec {
    ForkSpec {
        method,
        content: content.to_vec(),
    }
}

struct FileSpec {
    name: &'static [u8],
    file_type: [u8; 4],
    creator: [u8; 4],
    rsrc: Option<ForkSpec>,
    data: Option<ForkSpec>,
    encrypted: bool,
}

impl FileSpec {
    fn plain(name: &'static [u8], data: Option<ForkSpec>, rsrc: Option<ForkSpec>) -> Self {
        FileSpec {
            name,
            file_type: *b"TEXT",
            creator: *b"ttxt",
            rsrc,
            data,
            encrypted: false,
        }
    }
}

enum Node {
    Dir(&'static [u8], Vec<Node>),
    File(FileSpec),
}

#[allow(clippy::too_many_arguments)]
fn entry_prefix(
    flags: u8,
    diroffs: u32,
    namelen: usize,
    datalength: u32,
    datacomplen: u32,
    datacrc: u16,
    method_or_numfiles: u16,
) -> Vec<u8> {
    let mut h = vec![0u8; 48];
    h[0..4].copy_from_slice(&SIT5_ID.to_be_bytes());
    h[4] = 1;
    let headersize = (48 + namelen) as u16;
    h[6..8].copy_from_slice(&headersize.to_be_bytes());
    h[9] = flags;
    h[26..30].copy_from_slice(&diroffs.to_be_bytes());
    h[30..32].copy_from_slice(&(namelen as u16).to_be_bytes());
    h[34..38].copy_from_slice(&datalength.to_be_bytes());
    h[38..42].copy_from_slice(&datacomplen.to_be_bytes());
    h[42..44].copy_from_slice(&datacrc.to_be_bytes());
    if flags & ENTRYFLAGS_DIRECTORY != 0 {
        h[46..48].copy_from_slice(&method_or_numfiles.to_be_bytes());
    } else {
        h[46] = method_or_numfiles as u8;
        h[47] = 0;
    }
    h
}

fn second_block(
    file_type: [u8; 4],
    creator: [u8; 4],
    rsrc: Option<(u32, u32, u16, u8)>,
) -> Vec<u8> {
    let mut b = Vec::new();
    let something: u16 = if rsrc.is_some() { 0x01 } else { 0x00 };
    b.extend_from_slice(&something.to_be_bytes());
    b.extend_from_slice(&[0, 0]);
    b.extend_from_slice(&file_type);
    b.extend_from_slice(&creator);
    b.extend_from_slice(&[0, 0]);
    b.extend_from_slice(&[0u8; 22]);
    if let Some((len, complen, crc, method)) = rsrc {
        b.extend_from_slice(&len.to_be_bytes());
        b.extend_from_slice(&complen.to_be_bytes());
        b.extend_from_slice(&crc.to_be_bytes());
        b.extend_from_slice(&[0, 0]);
        b.push(method);
        b.push(0);
    }
    b
}

fn emit(node: &Node, parent_offs: u32, records: &mut Vec<u8>) {
    let offs = (HEADER_LEN + records.len()) as u32;
    match node {
        Node::Dir(name, children) => {
            let numfiles = children.len() as u16;
            records.extend_from_slice(&entry_prefix(
                ENTRYFLAGS_DIRECTORY,
                parent_offs,
                name.len(),
                0,
                0,
                0,
                numfiles,
            ));
            records.extend_from_slice(name);
            records.extend_from_slice(&second_block(*b"fold", *b"MACS", None));
            for child in children {
                emit(child, offs, records);
            }
        }
        Node::File(f) => {
            let rcomp = f.rsrc.as_ref().map(|r| compress(r.method, &r.content));
            let dcomp = f.data.as_ref().map(|d| compress(d.method, &d.content));
            let rlen = f.rsrc.as_ref().map_or(0, |r| r.content.len()) as u32;
            let dlen = f.data.as_ref().map_or(0, |d| d.content.len()) as u32;
            let rcomplen = rcomp.as_ref().map_or(0, |c| c.len()) as u32;
            let dcomplen = dcomp.as_ref().map_or(0, |c| c.len()) as u32;
            let rmethod = f.rsrc.as_ref().map_or(0, |r| r.method);
            let dmethod = f.data.as_ref().map_or(0, |d| d.method);
            let rcrc = f.rsrc.as_ref().map_or(0, |r| crc16(&r.content, r.method));
            let dcrc = f.data.as_ref().map_or(0, |d| crc16(&d.content, d.method));

            let flags = if f.encrypted { ENTRYFLAGS_CRYPTED } else { 0 };
            let mut prefix = entry_prefix(
                flags,
                parent_offs,
                f.name.len(),
                dlen,
                dcomplen,
                dcrc,
                dmethod as u16,
            );
            let mut key_data = Vec::new();
            if f.encrypted && dlen != 0 {
                prefix[47] = KEY_LENGTH as u8;
                key_data = vec![0xAA; KEY_LENGTH];
            }

            records.extend_from_slice(&prefix);
            records.extend_from_slice(&key_data);
            records.extend_from_slice(f.name);

            let rsrc_desc = f.rsrc.as_ref().map(|_| (rlen, rcomplen, rcrc, rmethod));
            let mut sb = second_block(f.file_type, f.creator, rsrc_desc);
            if f.encrypted && rlen != 0 {
                let last = sb.len() - 1;
                sb[last] = KEY_LENGTH as u8;
                sb.extend_from_slice(&[0xBB; KEY_LENGTH]);
            }
            records.extend_from_slice(&sb);

            if let Some(c) = rcomp {
                records.extend_from_slice(&c);
            }
            if let Some(c) = dcomp {
                records.extend_from_slice(&c);
            }
        }
    }
}

fn crc16(content: &[u8], method: u8) -> u16 {
    if method & 0x0f == 15 {
        0
    } else {
        crc16_arc(content)
    }
}

fn build_archive(nodes: &[Node]) -> Vec<u8> {
    let mut records = Vec::new();
    for node in nodes {
        emit(node, 0, &mut records);
    }

    let mut arc = vec![0u8; HEADER_LEN];
    let mut banner = BANNER.to_vec();
    for (i, b) in banner.iter_mut().enumerate() {
        if *b == 0xFF {
            *b = b"2000"[i - 16];
        }
    }
    arc[..banner.len()].copy_from_slice(&banner);
    arc[82] = SIT5_VERSION;
    arc[83] = 0;
    arc[92..94].copy_from_slice(&(nodes.len() as u16).to_be_bytes());
    arc[94..98].copy_from_slice(&(HEADER_LEN as u32).to_be_bytes());
    arc.extend_from_slice(&records);
    let totalsize = arc.len() as u32;
    arc[84..88].copy_from_slice(&totalsize.to_be_bytes());
    arc
}

fn open(arc: &[u8]) -> StuffIt5Archive {
    StuffIt5Archive::open(arc).unwrap()
}

fn read(a: &StuffIt5Archive, idx: usize) -> Vec<u8> {
    let mut out = Vec::new();
    a.read_entry(idx, &mut out).unwrap();
    out
}

#[test]
fn sit5_recognizes_valid_signature() {
    let arc = build_archive(&[Node::File(FileSpec::plain(
        b"f",
        Some(fork(0, b"hi")),
        None,
    ))]);
    assert!(StuffIt5Archive::recognize(&arc));
}

#[test]
fn sit5_rejects_garbage_and_short_input() {
    assert!(!StuffIt5Archive::recognize(
        b"not a stuffit 5 archive at all"
    ));
    assert!(!StuffIt5Archive::recognize(b"StuffIt (c)1997-"));
    assert!(!StuffIt5Archive::recognize(&[0u8; 200]));
}

#[test]
fn single_data_fork_store() {
    let arc = build_archive(&[Node::File(FileSpec::plain(
        b"d",
        Some(fork(0, b"only data")),
        None,
    ))]);
    let a = open(&arc);
    assert_eq!(a.entries().len(), 1);
    assert!(!a.entries()[0].is_resource_fork());
    assert_eq!(a.entries()[0].name(), b"d");
    assert_eq!(read(&a, 0), b"only data");
}

#[test]
fn sit5_empty_file_yields_one_empty_data_fork() {
    let arc = build_archive(&[Node::File(FileSpec::plain(b"empty", None, None))]);
    let a = open(&arc);
    assert_eq!(a.entries().len(), 1);
    assert!(!a.entries()[0].is_resource_fork());
    assert_eq!(a.entries()[0].size(), 0);
    assert_eq!(read(&a, 0), b"");
}

#[test]
fn both_forks_resource_first() {
    let arc = build_archive(&[Node::File(FileSpec::plain(
        b"both",
        Some(fork(0, b"DATA")),
        Some(fork(0, b"RES")),
    ))]);
    let a = open(&arc);
    assert_eq!(a.entries().len(), 2);
    assert!(a.entries()[0].is_resource_fork());
    assert!(!a.entries()[1].is_resource_fork());
    assert_eq!(a.entries()[0].name(), b"both");
    assert_eq!(a.entries()[1].name(), b"both");
    assert_eq!(read(&a, 0), b"RES");
    assert_eq!(read(&a, 1), b"DATA");
}

#[test]
fn sit5_resource_only_file() {
    let arc = build_archive(&[Node::File(FileSpec::plain(
        b"r",
        None,
        Some(fork(0, b"only rsrc")),
    ))]);
    let a = open(&arc);
    assert_eq!(a.entries().len(), 1);
    assert!(a.entries()[0].is_resource_fork());
    assert_eq!(read(&a, 0), b"only rsrc");
}

#[test]
fn sit5_nested_directory_paths() {
    let arc = build_archive(&[Node::Dir(
        b"dir",
        vec![Node::File(FileSpec::plain(
            b"inner",
            Some(fork(0, b"hi")),
            None,
        ))],
    )]);
    let a = open(&arc);
    assert_eq!(a.entries().len(), 2);
    assert!(a.entries()[0].is_directory());
    assert_eq!(a.entries()[0].name(), b"dir");
    assert_eq!(a.entries()[1].name(), b"dir/inner");
    assert_eq!(read(&a, 1), b"hi");
}

#[test]
fn sibling_after_folder_returns_to_root() {
    let arc = build_archive(&[
        Node::Dir(
            b"dir",
            vec![Node::File(FileSpec::plain(
                b"a",
                Some(fork(0, b"AA")),
                None,
            ))],
        ),
        Node::File(FileSpec::plain(b"top", Some(fork(0, b"TT")), None)),
    ]);
    let a = open(&arc);
    let names: Vec<&[u8]> = a.entries().iter().map(|e| e.name()).collect();
    assert_eq!(names, vec![&b"dir"[..], &b"dir/a"[..], &b"top"[..]]);
    assert_eq!(read(&a, 2), b"TT");
}

#[test]
fn deeply_nested_paths() {
    let arc = build_archive(&[Node::Dir(
        b"a",
        vec![Node::Dir(
            b"b",
            vec![Node::File(FileSpec::plain(
                b"c",
                Some(fork(0, b"deep")),
                None,
            ))],
        )],
    )]);
    let a = open(&arc);
    let names: Vec<&[u8]> = a.entries().iter().map(|e| e.name()).collect();
    assert_eq!(names, vec![&b"a"[..], &b"a/b"[..], &b"a/b/c"[..]]);
    assert_eq!(read(&a, 2), b"deep");
}

fn roundtrip_method(method: u8, content: &[u8]) {
    let arc = build_archive(&[Node::File(FileSpec::plain(
        b"f",
        Some(fork(method, content)),
        None,
    ))]);
    let a = open(&arc);
    assert_eq!(read(&a, 0), content, "method {method}");
}

#[test]
fn sit5_method0_store_roundtrip() {
    roundtrip_method(0, b"stored bytes, verbatim");
}

#[test]
fn sit5_method1_rle90_roundtrip() {
    roundtrip_method(1, b"the quick brown fox");
}

#[test]
fn sit5_method2_compress_roundtrip() {
    roundtrip_method(2, b"abcabcabcabcabcabc compress me please");
}

#[test]
fn sit5_method3_huffman_roundtrip() {
    roundtrip_method(3, b"huffman huffman huffman tree");
}

#[test]
fn sit5_metadata_is_parsed() {
    let arc = build_archive(&[Node::File(FileSpec {
        name: b"meta",
        file_type: *b"APPL",
        creator: *b"CODE",
        rsrc: None,
        data: Some(fork(0, b"x")),
        encrypted: false,
    })]);
    let a = open(&arc);
    assert_eq!(a.entries()[0].file_type(), *b"APPL");
    assert_eq!(a.entries()[0].creator(), *b"CODE");
}

#[test]
fn sit5_directory_read_is_empty() {
    let arc = build_archive(&[Node::Dir(
        b"dir",
        vec![Node::File(FileSpec::plain(
            b"a",
            Some(fork(0, b"AA")),
            None,
        ))],
    )]);
    let a = open(&arc);
    assert!(a.entries()[0].is_directory());
    assert_eq!(read(&a, 0), b"");
}

#[test]
fn sit5_encrypted_fork_is_unsupported() {
    let arc = build_archive(&[Node::File(FileSpec {
        name: b"enc",
        file_type: *b"TEXT",
        creator: *b"ttxt",
        rsrc: None,
        data: Some(fork(0, b"secret payload")),
        encrypted: true,
    })]);
    let a = open(&arc);
    assert_eq!(a.entries().len(), 1);
    assert!(a.entries()[0].is_encrypted());
    let mut out = Vec::new();
    let err = a.read_entry(0, &mut out).unwrap_err();
    assert_eq!(err, ErrorKind::Unsupported);
}

#[test]
fn archive_password_hash_is_parsed() {
    let mut arc = build_archive(&[Node::File(FileSpec::plain(
        b"f",
        Some(fork(0, b"hi")),
        None,
    ))]);
    let hash = [1u8, 2, 3, 4, 5];
    let mut block = vec![KEY_LENGTH as u8];
    block.extend_from_slice(&hash);
    arc[83] |= ARCHIVEFLAGS_CRYPTED;
    let shift = block.len();
    arc.splice(HEADER_LEN..HEADER_LEN, block);
    arc[94..98].copy_from_slice(&((HEADER_LEN + shift) as u32).to_be_bytes());
    let a = open(&arc);
    assert_eq!(a.password_hash(), Some(hash));
    assert!(a.is_encrypted());
    assert_eq!(read(&a, 0), b"hi");
}

#[test]
fn bad_entry_id_is_error() {
    let mut arc =
        build_archive(&[Node::File(FileSpec::plain(b"f", Some(fork(0, b"x")), None))]);
    arc[HEADER_LEN] ^= 0xff;
    assert!(StuffIt5Archive::open(&arc[..]).is_err());
}

#[test]
fn wrong_version_is_error() {
    let mut arc =
        build_archive(&[Node::File(FileSpec::plain(b"f", Some(fork(0, b"x")), None))]);
    arc[82] = 4;
    assert!(StuffIt5Archive::open(&arc[..]).is_err());
}

#[test]
fn truncated_input_is_error() {
    let arc = build_archive(&[Node::File(FileSpec::plain(
        b"f",
        Some(fork(0, b"payload")),
        None,
    ))]);
    assert!(StuffIt5Archive::open(&arc[..arc.len() - 3]).is_err());
}

#[test]
fn sit5_read_entry_out_of_range_errors() {
    let arc = build_archive(&[Node::File(FileSpec::plain(b"f", Some(fork(0, b"x")), None))]);
    let a = open(&arc);
    let mut out = Vec::new();
    assert!(a.read_entry(9, &mut out).is_err());
}

fn wrap_exe(archive: &[u8]) -> Vec<u8> {
    let mut exe = vec![0u8; EXE_STUB_LEN];
    exe[0] = b'M';
    exe[1] = b'Z';
    exe[4100..4104].copy_from_slice(&0x4203_E853u32.to_be_bytes());
    exe.extend_from_slice(archive);
    exe
}

#[test]
fn exe_variant_is_recognized_and_opened() {
    let arc = build_archive(&[Node::File(FileSpec::plain(
        b"sfx",
        Some(fork(3, b"self extracting payload payload")),
        None,
    ))]);
    let exe = wrap_exe(&arc);
    assert!(StuffIt5Archive::recognize(&exe));
    assert!(!recognize(&exe));
    let a = open(&exe);
    assert_eq!(a.entries().len(), 1);
    assert_eq!(a.entries()[0].name(), b"sfx");
    assert_eq!(read(&a, 0), b"self extracting payload payload");
}

#[test]
fn sit5_bytes_behind_the_archive_change_nothing() {
    let mut arc = build_archive(&[
        Node::Dir(b"folder", vec![]),
        Node::File(FileSpec::plain(b"both", Some(fork(3, b"DATA DATA")), Some(fork(1, b"RES")))),
    ]);
    let before = open(&arc);
    arc.extend_from_slice(b"whatever comes behind");
    let after = open(&arc);
    assert_eq!(before.entries().len(), 3);
    assert_eq!(after.entries().len(), 3);
    for i in 0..3 {
        let e = &after.entries()[i];
        assert_eq!(e.name(), before.entries()[i].name());
        assert_eq!(e.size(), read(&after, i).len() as u64);
        assert_eq!(read(&after, i), read(&before, i));
        assert_eq!(e.is_directory(), i == 0);
        assert_eq!(e.is_resource_fork(), i == 1);
    }
    assert_eq!(after.entries()[0].size(), 0);
}
