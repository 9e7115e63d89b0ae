use newtua_stuffit::bits::BitReaderMsb;
use newtua_stuffit::error::ErrorKind;
use newtua_stuffit::stuffit5::{decode, initial_window, AdaptiveTree, DISTANCE_LENGTHS, NUM_NODES, WINDOW_SIZE};
use std::collections::HashMap;

#[derive(Default)]
struct MsbWriter {
    bytes: Vec<u8>,
    acc: u32,
    nbits: u32,
}

impl MsbWriter {
    fn bit(&mut self, b: bool) {
        self.acc = (self.acc << 1) | u32::from(b);
        self.nbits += 1;
        if self.nbits == 8 {
            self.bytes.push(self.acc as u8);
            self.acc = 0;
            self.nbits = 0;
        }
    }
    fn bits(&mut self, val: u32, n: u32) {
        for i in (0..n).rev() {
            self.bit((val >> i) & 1 != 0);
        }
    }
    fn finish(mut self) -> Vec<u8> {
        if self.nbits > 0 {
            self.bytes.push((self.acc << (8 - self.nbits)) as u8);
        }
        self.bytes
    }
}

fn distance_codes() -> HashMap<usize, (u32, u32)> {
    let mut map = HashMap::new();
    let mut code = 0u32;
    for length in 1..=8u32 {
        for (i, &len) in DISTANCE_LENGTHS.iter().enumerate() {
            if len == length {
                map.insert(i, (code, length));
                code += 1;
            }
        }
        code <<= 1;
    }
    map
}

fn encode_symbol(tree: &mut AdaptiveTree, w: &mut MsbWriter, value: i32) {
    let leaf = NUM_NODES - 1 - value as usize;
    let mut path = Vec::new();
    let mut node = leaf;
    while let Some(p) = tree.parent(node) {
        path.push(tree.left(p) == Some(node));
        node = p;
    }
    for &bit in path.iter().rev() {
        w.bit(bit);
    }
    tree.update_node(leaf);
}

#[derive(Clone, Copy)]
enum Op {
    Lit(u8),
    Match { dist: usize, len: usize },
}

fn encode(ops: &[Op]) -> Vec<u8> {
    let mut tree = AdaptiveTree::new();
    let dcodes = distance_codes();
    let mut w = MsbWriter::default();
    for op in ops {
        match *op {
            Op::Lit(b) => encode_symbol(&mut tree, &mut w, i32::from(b)),
            Op::Match { dist, len } => {
                encode_symbol(&mut tree, &mut w, (len as i32) - 3 + 0x100);
                let highbits = (dist - 1) >> 6;
                let (c, l) = dcodes[&highbits];
                w.bits(c, l);
                w.bits(((dist - 1) & 0x3f) as u32, 6);
            }
        }
    }
    w.finish()
}

fn expand(ops: &[Op]) -> Vec<u8> {
    let mut buf = initial_window();
    let mut pos = 0usize;
    let mut out = Vec::new();
    for op in ops {
        let count = match *op {
            Op::Lit(_) => 1,
            Op::Match { len, .. } => len,
        };
        for _ in 0..count {
            let byte = match *op {
                Op::Lit(b) => b,
                Op::Match { dist, .. } => buf[pos.wrapping_sub(dist) & (WINDOW_SIZE - 1)],
            };
            buf[pos & (WINDOW_SIZE - 1)] = byte;
            pos += 1;
            out.push(byte);
        }
    }
    out
}

fn roundtrip(ops: &[Op]) {
    let expected = expand(ops);
    let stream = encode(ops);
    let got = decode(&stream, expected.len()).unwrap();
    assert_eq!(got, expected);
}

#[test]
fn literals_only() {
    let ops: Vec<Op> = b"hello LZAH StuffIt method five"
        .iter()
        .map(|&b| Op::Lit(b))
        .collect();
    roundtrip(&ops);
}

#[test]
fn literal_then_match() {
    let ops = [
        Op::Lit(b'a'),
        Op::Lit(b'b'),
        Op::Lit(b'c'),
        Op::Lit(b'd'),
        Op::Match { dist: 4, len: 4 },
    ];
    roundtrip(&ops);
}

#[test]
fn match_distance_extra_bits() {
    let ops = [
        Op::Lit(b'x'),
        Op::Lit(b'y'),
        Op::Match { dist: 100, len: 5 },
    ];
    roundtrip(&ops);
}

#[test]
fn overlapping_run() {
    let ops = [Op::Lit(b'Z'), Op::Match { dist: 1, len: 40 }];
    roundtrip(&ops);
}

#[test]
fn maximum_length_match() {
    let ops = [Op::Lit(b'q'), Op::Match { dist: 1, len: 60 }];
    roundtrip(&ops);
}

#[test]
fn stuffit5_zero_outlen_returns_empty_without_parsing() {
    assert_eq!(decode(&[], 0).unwrap(), Vec::<u8>::new());
    assert_eq!(decode(&[0xFF, 0x00], 0).unwrap(), Vec::<u8>::new());
}

#[test]
fn stuffit5_truncated_stream_is_unexpected_eof() {
    let ops = [Op::Lit(b'a'), Op::Match { dist: 100, len: 5 }];
    let mut stream = encode(&ops);
    stream.truncate(1);
    let err = decode(&stream, expand(&ops).len()).unwrap_err();
    assert_eq!(err, ErrorKind::UnexpectedEof);
}

fn grown_tree() -> AdaptiveTree {
    let mut tree = AdaptiveTree::new();
    for _ in 0..40 {
        tree.update_node(NUM_NODES - 1 - usize::from(b'a'));
    }
    for _ in 0..20 {
        tree.update_node(NUM_NODES - 1 - usize::from(b'b'));
    }
    tree
}

fn depth(tree: &AdaptiveTree, value: usize) -> usize {
    let mut node = NUM_NODES - 1 - value;
    let mut n = 0;
    while let Some(p) = tree.parent(node) {
        node = p;
        n += 1;
    }
    assert_eq!(node, 0);
    n
}

#[test]
fn rebuilt_tree_keeps_its_symbols_and_their_order() {
    let mut tree = grown_tree();
    tree.reconstruct_tree();
    for value in 0..314 {
        assert!(depth(&tree, usize::from(b'a')) <= depth(&tree, value));
        if value != usize::from(b'a') {
            assert!(depth(&tree, usize::from(b'b')) <= depth(&tree, value));
        }
        assert!(tree.left(NUM_NODES - 1 - value).is_none());
    }
    for value in [b'a', b'b', b'c'] {
        let mut w = MsbWriter::default();
        let mut writer = grown_tree();
        writer.reconstruct_tree();
        encode_symbol(&mut writer, &mut w, i32::from(value));
        let bytes = w.finish();
        let mut reader = grown_tree();
        reader.reconstruct_tree();
        let mut bits = BitReaderMsb::new(&bytes);
        assert_eq!(reader.decode_symbol(&mut bits), Ok(usize::from(value)));
    }
}

#[test]
fn symbol_that_is_cut_short_leaves_the_tree() {
    let mut tree = grown_tree();
    let before = depth(&tree, 0);
    let mut bits = BitReaderMsb::new(&[]);
    assert_eq!(tree.decode_symbol(&mut bits), Err(ErrorKind::UnexpectedEof));
    assert_eq!(depth(&tree, 0), before);
    assert_eq!(bits.read_bit(), None);
}
