use vstd::prelude::*;
use crate::catalog::be32;
use crate::error::ErrorKind;
use crate::sitx::p2::{blocks_from, blocks_stop, byte_pos, p2_advances, p2_at, raw_at, run_out, Reader};

verus! {

// An archive is a row of elements. An element is one bit without meaning, a type, a
// list of attributes and a list of algorithms; each list is made of pairs of a slot
// number and a value and ends with a 0. Most elements are followed by data: blocks,
// then a row of blocks of which the first may be a checksum.

/// The head of an element; absent attributes and algorithms are -1.
pub struct ElementView {
    pub typ: u64,
    pub attribs: Seq<i64>,
    pub algs: Seq<i64>,
    pub dataoffset: int,
}

/// A number of 64 bits as a signed one.
pub open spec fn as_signed(v: u64) -> i64 {
    (if v >= 0x8000_0000_0000_0000 {
        v - 0x1_0000_0000_0000_0000
    } else {
        v as int
    }) as i64
}

pub open spec fn absent(n: nat) -> Seq<i64> {
    Seq::new(n, |i: int| -1i64)
}

/// What a list holds behind what is in `slots`, and the position after it. With it
/// comes whether a slot has come up that there is not, `unknown` telling of the
/// time before; this is known also where the data ends too early. In the list of
/// algorithms slot 4 has a second value.
pub open spec fn slots_from(data: Seq<u8>, q: int, slots: Seq<i64>, extra: bool, unknown: bool) -> (
    Result<(Seq<i64>, int), ErrorKind>,
    bool,
)
    decreases 8 * data.len() - q,
    via slots_advance
{
    match p2_at(data, q) {
        Err(e) => (Err(e), unknown),
        Ok((slot, q1)) => if slot == 0 {
            (Ok((slots, q1)), unknown)
        } else {
            match p2_at(data, q1) {
                Err(e) => (Err(e), unknown),
                Ok((v, q2)) => {
                    let known = slot <= slots.len();
                    let next = if known {
                        slots.update(slot - 1, as_signed(v))
                    } else {
                        slots
                    };
                    if extra && slot == 4 {
                        match p2_at(data, q2) {
                            Err(e) => (Err(e), unknown || !known),
                            Ok((_w, q3)) => slots_from(data, q3, next, extra, unknown || !known),
                        }
                    } else {
                        slots_from(data, q2, next, extra, unknown || !known)
                    }
                },
            }
        },
    }
}

#[via_fn]
proof fn slots_advance(data: Seq<u8>, q: int, slots: Seq<i64>, extra: bool, unknown: bool) {
    p2_advances(data, q);
    match p2_at(data, q) {
        Err(e) => {},
        Ok((slot, q1)) => {
            p2_advances(data, q1);
            match p2_at(data, q1) {
                Err(e) => {},
                Ok((v, q2)) => {
                    p2_advances(data, q2);
                },
            }
        },
    }
}

/// The head of the element at `q` and the position after it, and whether an unknown
/// slot has come up.
#[verifier::opaque]
pub open spec fn element_at(data: Seq<u8>, q: int, unknown: bool) -> (Result<(ElementView, int), ErrorKind>, bool) {
    if q >= 8 * data.len() {
        (Err(ErrorKind::UnexpectedEof), unknown)
    } else {
        match p2_at(data, q + 1) {
            Err(e) => (Err(e), unknown),
            Ok((typ, q1)) => match slots_from(data, q1, absent(10), false, unknown) {
                (Err(e), u) => (Err(e), u),
                (Ok((attribs, q2)), u) => match slots_from(data, q2, absent(6), true, u) {
                    (Err(e), u2) => (Err(e), u2),
                    (Ok((algs, q3)), u2) => (
                        Ok((ElementView { typ, attribs, algs, dataoffset: byte_pos(q3) }, q3)),
                        u2,
                    ),
                },
            },
        }
    }
}

/// The checksum behind the blocks at byte `offset`, if there is one, and the position
/// after the data.
#[verifier::opaque]
pub open spec fn scanned(data: Seq<u8>, offset: int) -> Result<(Option<u32>, int), ErrorKind> {
    match blocks_from(data, 8 * offset, seq![]) {
        Err(e) => Err(e),
        Ok((_s, q)) => {
            let q0 = 8 * byte_pos(q);
            match p2_at(data, q0) {
                Err(e) => Err(e),
                Ok((n, q1)) => if n == 4 {
                    match raw_at(data, q1, 4) {
                        Err(e) => Err(e),
                        Ok((s, q2)) => match blocks_from(data, q2, seq![]) {
                            Err(e) => Err(e),
                            Ok((_t, q3)) => Ok((Some(be32(s, 0)), q3)),
                        },
                    }
                } else {
                    match blocks_from(data, q0, seq![]) {
                        Err(e) => Err(e),
                        Ok((_t, q3)) => Ok((None, q3)),
                    }
                },
            }
        },
    }
}

/// The checksum that is noted once `found` has come up where `before` was noted.
pub open spec fn noted(found: Option<u32>, before: u32) -> u32 {
    match found {
        Some(crc) => crc,
        None => before,
    }
}

/// Where a reader that holds back the bits at `held` is left by the data at byte
/// `offset`, be it cut short or not, which bits it then holds back, and which checksum is
/// noted where `before` was.
#[verifier::opaque]
pub open spec fn scan_stop(data: Seq<u8>, offset: int, held: int, before: u32) -> ((int, int), u32) {
    match blocks_from(data, 8 * offset, seq![]) {
        Err(e) => (blocks_stop(data, 8 * offset, 8 * byte_pos(held)), before),
        Ok((_s, q)) => {
            let q0 = 8 * byte_pos(q);
            match p2_at(data, q0) {
                Err(e) => (run_out(data, q0, q0), before),
                Ok((n, q1)) => if n == 4 {
                    match raw_at(data, q1, 4) {
                        Err(e) => ((q1, q1), before),
                        Ok((s, q2)) => (blocks_stop(data, q2, q1), be32(s, 0)),
                    }
                } else {
                    (blocks_stop(data, q0, q0), before)
                },
            }
        },
    }
}

proof fn slots_move(data: Seq<u8>, q: int, slots: Seq<i64>, extra: bool, unknown: bool)
    ensures
        match slots_from(data, q, slots, extra, unknown) {
            (Ok((s, p)), u) => q < p <= 8 * data.len() && s.len() == slots.len(),
            (Err(e), u) => true,
        },
    decreases 8 * data.len() - q,
{
    p2_advances(data, q);
    match p2_at(data, q) {
        Err(e) => {},
        Ok((slot, q1)) => if slot != 0 {
            p2_advances(data, q1);
            match p2_at(data, q1) {
                Err(e) => {},
                Ok((v, q2)) => {
                    let known = slot <= slots.len();
                    let next = if known {
                        slots.update(slot - 1, as_signed(v))
                    } else {
                        slots
                    };
                    if extra && slot == 4 {
                        p2_advances(data, q2);
                        match p2_at(data, q2) {
                            Err(e) => {},
                            Ok((_w, q3)) => slots_move(data, q3, next, extra, unknown || !known),
                        }
                    } else {
                        slots_move(data, q2, next, extra, unknown || !known);
                    }
                },
            }
        },
    }
}

/// An element takes some bits, all of them within the data.
pub proof fn element_moves(data: Seq<u8>, q: int, unknown: bool)
    ensures
        match element_at(data, q, unknown) {
            (Ok((el, p)), u) => {
                &&& q < p <= 8 * data.len()
                &&& el.attribs.len() == 10
                &&& el.algs.len() == 6
                &&& el.dataoffset == byte_pos(p)
            },
            (Err(e), u) => true,
        },
{
    reveal(element_at);
    p2_advances(data, q + 1);
    match p2_at(data, q + 1) {
        Err(e) => {},
        Ok((typ, q1)) => {
            slots_move(data, q1, absent(10), false, unknown);
            match slots_from(data, q1, absent(10), false, unknown) {
                (Err(e), u) => {},
                (Ok((attribs, q2)), u) => {
                    slots_move(data, q2, absent(6), true, u);
                },
            }
        },
    }
}

proof fn blocks_move(data: Seq<u8>, q: int, found: Seq<u8>)
    ensures
        blocks_from(data, q, found) matches Ok((s, p)) ==> q < p <= 8 * data.len(),
    decreases 8 * data.len() - q,
{
    p2_advances(data, q);
    match p2_at(data, q) {
        Err(e) => {},
        Ok((n, p)) => if n != 0 {
            match raw_at(data, p, n as int) {
                Err(e) => {},
                Ok((s, r)) => {
                    blocks_move(data, r, found + s);
                },
            }
        },
    }
}

/// Which bytes were found before makes no difference to where the blocks end.
proof fn blocks_end(data: Seq<u8>, q: int, a: Seq<u8>, b: Seq<u8>)
    ensures
        match (blocks_from(data, q, a), blocks_from(data, q, b)) {
            (Ok((s, p)), Ok((t, r))) => p == r,
            (Err(e), Err(f)) => e == f,
            _ => false,
        },
    decreases 8 * data.len() - q,
{
    p2_advances(data, q);
    match p2_at(data, q) {
        Err(e) => {},
        Ok((n, p)) => if n != 0 {
            match raw_at(data, p, n as int) {
                Err(e) => {},
                Ok((s, r)) => {
                    blocks_end(data, r, a + s, b + s);
                },
            }
        },
    }
}

/// A reader is left behind blocks that come to their end.
proof fn blocks_stop_behind(data: Seq<u8>, q: int, held: int, found: Seq<u8>)
    ensures
        blocks_from(data, q, found) matches Ok((s, p)) ==> blocks_stop(data, q, held) == (p, p),
    decreases 8 * data.len() - q,
{
    p2_advances(data, q);
    match p2_at(data, q) {
        Err(e) => {},
        Ok((n, p)) => if n != 0 {
            match raw_at(data, p, n as int) {
                Err(e) => {},
                Ok((s, r)) => {
                    blocks_stop_behind(data, r, p, found + s);
                },
            }
        },
    }
}

/// The data of an element ends after it starts, within the archive.
pub proof fn scan_moves(data: Seq<u8>, offset: int)
    requires
        offset >= 0,
    ensures
        scanned(data, offset) matches Ok((crc, p)) ==> 8 * offset < p <= 8 * data.len(),
{
    reveal(scanned);
    blocks_move(data, 8 * offset, seq![]);
    match blocks_from(data, 8 * offset, seq![]) {
        Err(e) => {},
        Ok((_s, q)) => {
            let q0 = 8 * byte_pos(q);
            p2_advances(data, q0);
            blocks_move(data, q0, seq![]);
            match p2_at(data, q0) {
                Err(e) => {},
                Ok((n, q1)) => {
                    match raw_at(data, q1, 4) {
                        Err(e) => {},
                        Ok((s, q2)) => {
                            blocks_move(data, q2, seq![]);
                        },
                    }
                },
            }
        },
    }
}

// === reading ==================================================================

/// The head of an element, and what scanning its data has told.
pub struct Element {
    pub typ: u64,
    pub attribs: Vec<i64>,
    pub alglist: Vec<i64>,
    pub dataoffset: usize,
    pub actualsize: u64,
    pub datacrc: u32,
}

impl Element {
    pub open spec fn view(&self) -> ElementView {
        ElementView {
            typ: self.typ,
            attribs: self.attribs@,
            algs: self.alglist@,
            dataoffset: self.dataoffset as int,
        }
    }
}

fn to_signed(v: u64) -> (r: i64)
    ensures
        r == as_signed(v),
{
    if v >= 0x8000_0000_0000_0000 {
        (v as i128 - 0x1_0000_0000_0000_0000) as i64
    } else {
        v as i64
    }
}

fn no_slots(n: usize) -> (r: Vec<i64>)
    ensures
        r@ == absent(n as nat),
{
    let mut v: Vec<i64> = Vec::new();
    while v.len() < n
        invariant
            v@.len() <= n,
            forall|i: int| 0 <= i < v@.len() ==> v@[i] == -1,
        decreases n - v@.len(),
    {
        v.push(-1);
    }
    assert(v@ =~= absent(n as nat));
    v
}

/// Read a list of `n` slots.
fn read_slots(r: &mut Reader, n: usize, extra: bool, unknown: &mut bool) -> (res: Result<Vec<i64>, ErrorKind>)
    requires
        old(r).wf(),
    ensures
        final(r).wf(),
        final(r).data() == old(r).data(),
        slots_from(old(r).data(), old(r).at(), absent(n as nat), extra, *old(unknown)) == (
            match res {
                Ok(v) => Ok((v@, final(r).at())),
                Err(e) => Err(e),
            },
            *final(unknown),
        ),
        match res {
            Ok(_) => old(r).at() < final(r).at() <= 8 * old(r).data().len() && final(r).held() == final(r).at(),
            Err(_) => (final(r).at(), final(r).held()) == run_out(old(r).data(), old(r).at(), old(r).held()),
        },
{
    let mut slots: Vec<i64> = no_slots(n);
    loop
        invariant
            r.wf(),
            r.data() == old(r).data(),
            slots@.len() == n,
            run_out(r.data(), r.at(), r.held()) == run_out(old(r).data(), old(r).at(), old(r).held()),
            slots_from(r.data(), r.at(), slots@, extra, *unknown) == slots_from(
                old(r).data(),
                old(r).at(),
                absent(n as nat),
                extra,
                *old(unknown),
            ),
        decreases 8 * r.data().len() - r.at(),
    {
        let slot: u64 = match r.read_p2() {
            Ok(v) => v,
            Err(e) => {
                return Err(e);
            },
        };
        if slot == 0 {
            proof {
                slots_move(old(r).data(), old(r).at(), absent(n as nat), extra, *old(unknown));
            }
            return Ok(slots);
        }
        let v: u64 = match r.read_p2() {
            Ok(v) => v,
            Err(e) => {
                return Err(e);
            },
        };
        if slot <= n as u64 {
            slots.set((slot - 1) as usize, to_signed(v));
        } else {
            *unknown = true;
        }
        if extra && slot == 4 {
            match r.read_p2() {
                Ok(_) => {},
                Err(e) => {
                    return Err(e);
                },
            }
        }
    }
}

/// Read the head of an element; `unknown` is set if an unknown slot comes up.
pub fn read_element(r: &mut Reader, unknown: &mut bool) -> (res: Result<Element, ErrorKind>)
    requires
        old(r).wf(),
    ensures
        final(r).wf(),
        final(r).data() == old(r).data(),
        element_at(old(r).data(), old(r).at(), *old(unknown)) == (
            match res {
                Ok(el) => Ok((el.view(), final(r).at())),
                Err(e) => Err(e),
            },
            *final(unknown),
        ),
        match res {
            Ok(el) => {
                &&& el.attribs@.len() == 10
                &&& el.alglist@.len() == 6
                &&& el.actualsize == 0
                &&& el.datacrc == 0
                &&& old(r).at() < final(r).at() <= 8 * old(r).data().len()
                &&& old(r).at() >= 0
                &&& final(r).held() == final(r).at()
            },
            Err(_) => (final(r).at(), final(r).held()) == run_out(old(r).data(), old(r).at(), old(r).held()),
        },
{
    reveal(element_at);
    proof {
        element_moves(r.data(), r.at(), *unknown);
    }
    match r.bit() {
        Ok(_) => {},
        Err(e) => {
            return Err(e);
        },
    }
    let typ: u64 = match r.read_p2() {
        Ok(v) => v,
        Err(e) => {
            return Err(e);
        },
    };
    let attribs: Vec<i64> = match read_slots(r, 10, false, unknown) {
        Ok(v) => v,
        Err(e) => {
            return Err(e);
        },
    };
    let alglist: Vec<i64> = match read_slots(r, 6, true, unknown) {
        Ok(v) => v,
        Err(e) => {
            return Err(e);
        },
    };
    let dataoffset: usize = r.offset();
    Ok(Element { typ, attribs, alglist, dataoffset, actualsize: 0, datacrc: 0 })
}

/// Pass a row of blocks.
fn skip_blocks(r: &mut Reader) -> (res: Result<(), ErrorKind>)
    requires
        old(r).wf(),
    ensures
        final(r).wf(),
        final(r).data() == old(r).data(),
        (final(r).at(), final(r).held()) == blocks_stop(old(r).data(), old(r).at(), old(r).held()),
        match res {
            Ok(_) => blocks_from(old(r).data(), old(r).at(), seq![]) is Ok && blocks_from(
                old(r).data(),
                old(r).at(),
                seq![],
            )->Ok_0.1 == final(r).at(),
            Err(e) => blocks_from(old(r).data(), old(r).at(), seq![]) == Err::<(Seq<u8>, int), ErrorKind>(e),
        },
{
    let ghost mut found: Seq<u8> = seq![];
    let ghost goal = blocks_from(r.data(), r.at(), seq![]);
    loop
        invariant
            r.wf(),
            r.data() == old(r).data(),
            goal == blocks_from(old(r).data(), old(r).at(), seq![]),
            goal == blocks_from(r.data(), r.at(), found),
            blocks_stop(r.data(), r.at(), r.held()) == blocks_stop(old(r).data(), old(r).at(), old(r).held()),
        decreases 8 * r.data().len() - r.at(),
    {
        let ghost q = r.at();
        let n: u64 = match r.read_p2() {
            Ok(v) => v,
            Err(e) => {
                return Err(e);
            },
        };
        if n == 0 {
            return Ok(());
        }
        let ghost p = r.at();
        match r.skip(n) {
            Ok(_) => {},
            Err(e) => {
                return Err(e);
            },
        }
        proof {
            found = found + raw_at(r.data(), p, n as int)->Ok_0.0;
        }
    }
}

/// Pass the data of an element and note its checksum, if it has one.
pub fn scan_element_data(r: &mut Reader, el: &mut Element) -> (res: Result<(), ErrorKind>)
    requires
        old(r).wf(),
    ensures
        final(r).wf(),
        final(r).data() == old(r).data(),
        final(el).view() == old(el).view(),
        final(el).actualsize == old(el).actualsize,
        ((final(r).at(), final(r).held()), final(el).datacrc) == scan_stop(
            old(r).data(),
            old(el).dataoffset as int,
            old(r).held(),
            old(el).datacrc,
        ),
        match res {
            Ok(_) => {
                &&& scanned(old(r).data(), old(el).dataoffset as int) matches Ok((found, end)) && final(el).datacrc
                    == noted(found, old(el).datacrc) && final(r).at() == end
                &&& 8 * old(el).dataoffset < final(r).at() <= 8 * old(r).data().len()
            },
            Err(e) => scanned(old(r).data(), old(el).dataoffset as int) == Err::<(Option<u32>, int), ErrorKind>(e),
        },
{
    reveal(scanned);
    reveal(scan_stop);
    proof {
        scan_moves(r.data(), el.dataoffset as int);
    }
    r.seek(el.dataoffset);
    r.flush();
    assert(r.at() == 8 * el.dataoffset);
    proof {
        blocks_stop_behind(r.data(), r.at(), r.held(), seq![]);
    }
    match skip_blocks(r) {
        Ok(_) => {},
        Err(e) => {
            return Err(e);
        },
    }
    r.flush();
    let ghost q0 = r.at();
    let n: u64 = match r.read_p2() {
        Ok(v) => v,
        Err(e) => {
            return Err(e);
        },
    };
    if n == 0 {
        return Ok(());
    }
    if n == 4 {
        el.datacrc = match r.read_raw_u32_be() {
            Ok(v) => v,
            Err(e) => {
                return Err(e);
            },
        };
    } else {
        let ghost q1 = r.at();
        match r.skip(n) {
            Ok(_) => {},
            Err(e) => {
                return Err(e);
            },
        }
        proof {
            let s = raw_at(r.data(), q1, n as int)->Ok_0.0;
            blocks_end(r.data(), r.at(), seq![] + s, seq![]);
        }
    }
    skip_blocks(r)
}

} // verus!
