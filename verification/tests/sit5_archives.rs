use newtua_stuffit::checksum::crc16_arc;
use newtua_stuffit::sit5::StuffIt5Archive;
use std::collections::HashMap;

const SIT5_ID: u32 = 0xA5A5_A5A5;
const HEADER_LEN: usize = 100;
const DIRECTORY: u8 = 0x40;

const BANNER: &[u8] =
    b"StuffIt (c)1997-\xFF\xFF\xFF\xFF Aladdin Systems, Inc., http://www.aladdinsys.com/StuffIt/\x0d\x0a";

struct BitW {
    out: Vec<u8>,
    acc: u8,
    n: u8,
}
impl BitW {
    fn new() -> Self {
        BitW {
            out: Vec::new(),
            acc: 0,
            n: 0,
        }
    }
    fn put_bit(&mut self, b: u32) {
        self.acc = (self.acc << 1) | (b as u8 & 1);
        self.n += 1;
        if self.n == 8 {
            self.out.push(self.acc);
            self.acc = 0;
            self.n = 0;
        }
    }
    fn put_bits(&mut self, val: u32, bits: u32) {
        for i in (0..bits).rev() {
            self.put_bit((val >> i) & 1);
        }
    }
    fn finish(mut self) -> Vec<u8> {
        if self.n > 0 {
            self.acc <<= 8 - self.n;
            self.out.push(self.acc);
        }
        self.out
    }
}

fn write_tree(w: &mut BitW, symbols: &[u8]) {
    if symbols.len() == 1 {
        w.put_bit(1);
        w.put_bits(u32::from(symbols[0]), 8);
        return;
    }
    let mid = symbols.len() / 2;
    w.put_bit(0);
    write_tree(w, &symbols[..mid]);
    write_tree(w, &symbols[mid..]);
}

fn walk_codes(symbols: &[u8], prefix: u32, len: u32, codes: &mut HashMap<u8, (u32, u32)>) {
    if symbols.len() == 1 {
        codes.insert(symbols[0], (prefix, len));
        return;
    }
    let mid = symbols.len() / 2;
    walk_codes(&symbols[..mid], prefix << 1, len + 1, codes);
    walk_codes(&symbols[mid..], (prefix << 1) | 1, len + 1, codes);
}

fn huffman_encode(content: &[u8]) -> Vec<u8> {
    let mut symbols: Vec<u8> = content.to_vec();
    symbols.sort_unstable();
    symbols.dedup();
    let mut w = BitW::new();
    write_tree(&mut w, &symbols);
    let mut codes = HashMap::new();
    walk_codes(&symbols, 0, 0, &mut codes);
    for &b in content {
        let (c, l) = codes[&b];
        w.put_bits(c, l);
    }
    w.finish()
}

fn compress(method: u8, content: &[u8]) -> Vec<u8> {
    match method & 0x0f {
        0 => content.to_vec(),
        3 => huffman_encode(content),
        m => panic!("builder cannot compress method {m}"),
    }
}

struct ForkSpec {
    method: u8,
    content: Vec<u8>,
}

fn fork(method: u8, content: &[u8]) -> ForkSpec {
    ForkSpec {
        method,
        content: content.to_vec(),
    }
}

struct FileSpec {
    name: &'static [u8],
    rsrc: Option<ForkSpec>,
    data: Option<ForkSpec>,
}

enum Node {
    Dir(&'static [u8], Vec<Node>),
    File(FileSpec),
}

#[allow(clippy::too_many_arguments)]
fn entry_prefix(
    flags: u8,
    diroffs: u32,
    namelen: usize,
    datalength: u32,
    datacomplen: u32,
    datacrc: u16,
    method_or_numfiles: u16,
) -> Vec<u8> {
    let mut h = vec![0u8; 48];
    h[0..4].copy_from_slice(&SIT5_ID.to_be_bytes());
    h[4] = 1;
    let headersize = (48 + namelen) as u16;
    h[6..8].copy_from_slice(&headersize.to_be_bytes());
    h[9] = flags;
    h[26..30].copy_from_slice(&diroffs.to_be_bytes());
    h[30..32].copy_from_slice(&(namelen as u16).to_be_bytes());
    h[34..38].copy_from_slice(&datalength.to_be_bytes());
    h[38..42].copy_from_slice(&datacomplen.to_be_bytes());
    h[42..44].copy_from_slice(&datacrc.to_be_bytes());
    if flags & DIRECTORY != 0 {
        h[46..48].copy_from_slice(&method_or_numfiles.to_be_bytes());
    } else {
        h[46] = method_or_numfiles as u8;
        h[47] = 0;
    }
    h
}

fn second_block(rsrc: Option<(u32, u32, u16, u8)>) -> Vec<u8> {
    let mut b = Vec::new();
    let something: u16 = if rsrc.is_some() { 0x01 } else { 0x00 };
    b.extend_from_slice(&something.to_be_bytes());
    b.extend_from_slice(&[0, 0]);
    b.extend_from_slice(b"TEXT");
    b.extend_from_slice(b"ttxt");
    b.extend_from_slice(&0u16.to_be_bytes());
    b.extend_from_slice(&[0u8; 22]);
    if let Some((len, complen, crc, method)) = rsrc {
        b.extend_from_slice(&len.to_be_bytes());
        b.extend_from_slice(&complen.to_be_bytes());
        b.extend_from_slice(&crc.to_be_bytes());
        b.extend_from_slice(&[0, 0]);
        b.push(method);
        b.push(0);
    }
    b
}

fn crc16(content: &[u8], method: u8) -> u16 {
    if method & 0x0f == 15 {
        0
    } else {
        crc16_arc(content)
    }
}

fn emit(node: &Node, parent_offs: u32, records: &mut Vec<u8>) {
    let offs = (HEADER_LEN + records.len()) as u32;
    match node {
        Node::Dir(name, children) => {
            records.extend_from_slice(&entry_prefix(
                DIRECTORY,
                parent_offs,
                name.len(),
                0,
                0,
                0,
                children.len() as u16,
            ));
            records.extend_from_slice(name);
            records.extend_from_slice(&second_block(None));
            for child in children {
                emit(child, offs, records);
            }
        }
        Node::File(f) => {
            let rcomp = f.rsrc.as_ref().map(|r| compress(r.method, &r.content));
            let dcomp = f.data.as_ref().map(|d| compress(d.method, &d.content));
            let rlen = f.rsrc.as_ref().map_or(0, |r| r.content.len()) as u32;
            let dlen = f.data.as_ref().map_or(0, |d| d.content.len()) as u32;
            let rcomplen = rcomp.as_ref().map_or(0, |c| c.len()) as u32;
            let dcomplen = dcomp.as_ref().map_or(0, |c| c.len()) as u32;
            let rmethod = f.rsrc.as_ref().map_or(0, |r| r.method);
            let dmethod = f.data.as_ref().map_or(0, |d| d.method);
            let rcrc = f.rsrc.as_ref().map_or(0, |r| crc16(&r.content, r.method));
            let dcrc = f.data.as_ref().map_or(0, |d| crc16(&d.content, d.method));

            records.extend_from_slice(&entry_prefix(
                0,
                parent_offs,
                f.name.len(),
                dlen,
                dcomplen,
                dcrc,
                dmethod as u16,
            ));
            records.extend_from_slice(f.name);
            let rsrc_desc = f.rsrc.as_ref().map(|_| (rlen, rcomplen, rcrc, rmethod));
            records.extend_from_slice(&second_block(rsrc_desc));
            if let Some(c) = rcomp {
                records.extend_from_slice(&c);
            }
            if let Some(c) = dcomp {
                records.extend_from_slice(&c);
            }
        }
    }
}

fn build_archive(nodes: &[Node]) -> Vec<u8> {
    let mut records = Vec::new();
    for node in nodes {
        emit(node, 0, &mut records);
    }
    let mut arc = vec![0u8; HEADER_LEN];
    let mut banner = BANNER.to_vec();
    for (i, b) in banner.iter_mut().enumerate() {
        if *b == 0xFF {
            *b = b"2000"[i - 16];
        }
    }
    arc[..banner.len()].copy_from_slice(&banner);
    arc[82] = 5;
    arc[83] = 0;
    arc[92..94].copy_from_slice(&(nodes.len() as u16).to_be_bytes());
    arc[94..98].copy_from_slice(&(HEADER_LEN as u32).to_be_bytes());
    arc.extend_from_slice(&records);
    let totalsize = arc.len() as u32;
    arc[84..88].copy_from_slice(&totalsize.to_be_bytes());
    arc
}

fn sample_tree() -> Vec<Node> {
    vec![
        Node::Dir(
            b"docs",
            vec![Node::File(FileSpec {
                name: b"readme",
                data: Some(fork(3, b"huffman huffman data data data fork")),
                rsrc: Some(fork(0, b"resource fork bytes")),
            })],
        ),
        Node::File(FileSpec {
            name: b"top",
            data: Some(fork(0, b"top level store")),
            rsrc: None,
        }),
    ]
}

fn our_fork(arc: &[u8], idx: usize) -> Vec<u8> {
    let a = StuffIt5Archive::open(arc).unwrap();
    let mut out = Vec::new();
    a.read_entry(idx, &mut out).unwrap();
    out
}

#[test]
fn mirror_roundtrip_tree_both_forks() {
    let arc = build_archive(&sample_tree());
    assert!(StuffIt5Archive::recognize(&arc));
    let a = StuffIt5Archive::open(&arc[..]).unwrap();

    let names: Vec<&[u8]> = a.entries().iter().map(|e| e.name()).collect();
    assert_eq!(
        names,
        vec![
            &b"docs"[..],
            &b"docs/readme"[..],
            &b"docs/readme"[..],
            &b"top"[..],
        ]
    );
    assert!(a.entries()[1].is_resource_fork());
    assert_eq!(our_fork(&arc, 1), b"resource fork bytes");
    assert_eq!(our_fork(&arc, 2), b"huffman huffman data data data fork");
    assert_eq!(our_fork(&arc, 3), b"top level store");
}
