use newtua_stuffit::error::ErrorKind;
use newtua_stuffit::sitx::elements::{read_element, scan_element_data, Element};
use newtua_stuffit::sitx::nodes::{parse_catalog, EntryBuilder};
use newtua_stuffit::sitx::p2::Reader;
use std::collections::HashMap;

fn element(datacrc: u32) -> Element {
    Element {
        typ: 1,
        attribs: vec![-1; 10],
        alglist: vec![-1; 6],
        dataoffset: 0,
        actualsize: 0,
        datacrc,
    }
}

#[test]
fn data_without_a_checksum_keeps_the_one_noted_before() {
    let data = [0x04u8, 0x78, 0x02, 0x02];
    let mut r = Reader::new(&data);
    let mut el = element(9);
    scan_element_data(&mut r, &mut el).unwrap();
    assert_eq!(el.datacrc, 9);
    assert_eq!(r.offset(), 4);
}

#[test]
fn checksum_behind_the_data_is_noted() {
    let data = [0x04u8, 0x78, 0x02, 0x15, 0xde, 0xad, 0xbe, 0xef, 0x02];
    let mut r = Reader::new(&data);
    let mut el = element(9);
    scan_element_data(&mut r, &mut el).unwrap();
    assert_eq!(el.datacrc, 0xdead_beef);
    assert_eq!(r.offset(), 9);

    // It is noted even where the row of blocks does not end.
    let mut r = Reader::new(&data[..8]);
    let mut el = element(9);
    assert_eq!(scan_element_data(&mut r, &mut el), Err(ErrorKind::UnexpectedEof));
    assert_eq!(el.datacrc, 0xdead_beef);
    assert_eq!(r.offset(), 8);

    // And not where it is cut short itself.
    let mut r = Reader::new(&data[..7]);
    let mut el = element(9);
    assert_eq!(scan_element_data(&mut r, &mut el), Err(ErrorKind::UnexpectedEof));
    assert_eq!(el.datacrc, 9);
    assert_eq!(r.offset(), 4);
}

#[test]
fn element_that_is_cut_short_takes_what_is_left() {
    // A bit, the type 1, and a list that does not end.
    let data = [0x08u8, 0xff];
    let mut r = Reader::new(&data);
    let mut unknown = false;
    assert!(read_element(&mut r, &mut unknown).is_err());
    assert_eq!(r.offset(), 2);
    assert!(!unknown);
}

#[derive(Default)]
struct Bits {
    out: Vec<u8>,
    n: usize,
}

impl Bits {
    fn bit(&mut self, b: bool) {
        if self.n % 8 == 0 {
            self.out.push(0);
        }
        if b {
            *self.out.last_mut().unwrap() |= 1 << (self.n % 8);
        }
        self.n += 1;
    }

    fn number(&mut self, result: u64) {
        let value = result + 1;
        for _ in 1..value.count_ones() {
            self.bit(true);
        }
        self.bit(false);
        for i in 0..64 - value.leading_zeros() {
            self.bit((value >> i) & 1 == 1);
        }
    }

    fn bytes(&mut self, bytes: &[u8]) {
        for &b in bytes {
            for i in 0..8 {
                self.bit((b >> i) & 1 == 1);
            }
        }
    }
}

fn one_node() -> (Vec<EntryBuilder>, HashMap<i64, usize>) {
    let mut index = HashMap::new();
    index.insert(1, 0);
    (vec![EntryBuilder::new(1, -1, false)], index)
}

#[test]
fn catalog_that_is_cut_short_leaves_what_came_before() {
    let mut w = Bits::default();
    w.number(2);
    w.bytes(&[0, 0, 0, 0, 0, 0, 0, 5]);
    w.number(6);
    w.bytes(&[1]);
    w.bytes(&0o644u32.to_be_bytes());
    w.bytes(&501u32.to_be_bytes());
    w.bytes(&[0, 0]);
    let (mut entries, index) = one_node();
    assert_eq!(parse_catalog(&w.out, &mut entries, &index), Err(ErrorKind::UnexpectedEof));
    assert_eq!(entries[0].mtime_1601, Some(5));
    assert_eq!(entries[0].posix_permissions, Some(0o644));
    assert_eq!(entries[0].posix_uid, Some(501));
    assert_eq!(entries[0].posix_gid, None);
}

#[test]
fn unknown_tag_leaves_what_came_before() {
    let mut w = Bits::default();
    w.number(8);
    w.bytes(&[0, 0, 0, 0, 0, 0, 1, 0]);
    w.number(13);
    w.number(0);
    let (mut entries, index) = one_node();
    assert_eq!(parse_catalog(&w.out, &mut entries, &index), Err(ErrorKind::Unsupported));
    assert_eq!(entries[0].ctime_1601, Some(256));
    assert_eq!(entries[0].mtime_1601, None);
}
