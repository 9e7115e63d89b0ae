use vstd::prelude::*;
use vstd::arithmetic::div_mod::{lemma_fundamental_div_mod, lemma_mod_breakdown, lemma_small_mod};
use vstd::slice::slice_subrange;
use crate::catalog::append;
use crate::lzss::lemma_mod_add_multiples_vanish_any;

verus! {

// The stored form of x86 code holds the targets of near calls and jumps as
// absolute addresses; decoding makes them relative again. Every byte keeps its
// place, so an output position is an input position too.

/// Which of the opcodes up to two bytes before the last one, counted from the
/// last one itself, were left alone: at all, and although their address looked
/// like one.
#[derive(Clone, Copy, PartialEq, Eq, Structural)]
pub struct Marks {
    pub left0: bool,
    pub left1: bool,
    pub left2: bool,
    pub odd0: bool,
    pub odd1: bool,
    pub odd2: bool,
}

/// The same, one to three bytes before an opcode.
#[derive(Clone, Copy, PartialEq, Eq, Structural)]
pub struct Near {
    pub left1: bool,
    pub left2: bool,
    pub left3: bool,
    pub odd1: bool,
    pub odd2: bool,
    pub odd3: bool,
}

pub open spec fn no_marks() -> Marks {
    Marks { left0: false, left1: false, left2: false, odd0: false, odd1: false, odd2: false }
}

pub open spec fn nothing_near() -> Near {
    Near { left1: false, left2: false, left3: false, odd1: false, odd2: false, odd3: false }
}

/// What is near an opcode that comes `dist` bytes after the last one.
pub open spec fn aged(m: Marks, dist: int) -> Near {
    Near {
        left1: dist == 1 && m.left0,
        left2: (dist == 1 && m.left1) || (dist == 2 && m.left0),
        left3: (dist == 1 && m.left2) || (dist == 2 && m.left1) || (dist == 3 && m.left0),
        odd1: dist == 1 && m.odd0,
        odd2: (dist == 1 && m.odd1) || (dist == 2 && m.odd0),
        odd3: (dist == 1 && m.odd2) || (dist == 2 && m.odd1) || (dist == 3 && m.odd0),
    }
}

/// The marks once the opcode itself has been dealt with.
pub open spec fn marked(near: Near, left: bool, odd: bool) -> Marks {
    Marks { left0: left, left1: near.left1, left2: near.left2, odd0: odd, odd1: near.odd1, odd2: near.odd2 }
}

/// An address is converted if none near was odd and at most one was left alone.
pub open spec fn convertible(near: Near) -> bool {
    &&& !near.odd1 && !near.odd2 && !near.odd3
    &&& !(near.left1 && near.left2) && !(near.left1 && near.left3) && !(near.left2 && near.left3)
}

pub open spec fn is_opcode(b: u8) -> bool {
    b == 0xe8 || b == 0xe9
}

/// The top byte of a small address, positive or negative.
pub open spec fn is_edge(b: int) -> bool {
    b == 0 || b == 0xff
}

/// The little-endian number of the four bytes at `at`.
#[verifier::opaque]
pub open spec fn le32(s: Seq<u8>, at: int) -> u32 {
    (s[at] + 0x100 * s[at + 1] + 0x1_0000 * s[at + 2] + 0x100_0000 * s[at + 3]) as u32
}

#[verifier::opaque]
pub open spec fn le_bytes(v: u32) -> Seq<u8> {
    seq![(v % 0x100) as u8, ((v / 0x100) % 0x100) as u8, ((v / 0x1_0000) % 0x100) as u8, (v / 0x100_0000) as u8]
}

/// What an address at `pos` is relative to.
pub open spec fn base(pos: int) -> u32 {
    ((pos % 0x1_0000_0000) as u32).wrapping_add(6)
}

/// `v` with its digits below `unit` turned over, `unit` being a power of 256.
pub open spec fn turned(v: u32, unit: int) -> u32 {
    (v - v as int % unit + (unit - 1 - v as int % unit)) as u32
}

/// The relative address, looked at once more if the byte that the opcode left
/// alone points to, whose unit is `unit`, is an edge.
pub open spec fn corrected(abs: u32, k: u32, unit: int) -> u32 {
    let r = abs.wrapping_sub(k);
    if is_edge((r as int / unit) % 0x100) {
        turned(r, 0x100 * unit).wrapping_sub(k)
    } else {
        r
    }
}

/// The address with 25 digits and a sign.
pub open spec fn signed25(r: u32) -> u32 {
    let v = r as int % 0x200_0000;
    if v >= 0x100_0000 {
        (v + 0xfe00_0000) as u32
    } else {
        v as u32
    }
}

/// The relative address behind the stored one.
#[verifier::opaque]
pub open spec fn restored(abs: u32, pos: int, near: Near) -> u32 {
    let k = base(pos);
    signed25(
        if near.left1 {
            corrected(abs, k, 0x1_0000)
        } else if near.left2 {
            corrected(abs, k, 0x100)
        } else if near.left3 {
            corrected(abs, k, 1)
        } else {
            abs.wrapping_sub(k)
        },
    )
}

/// What happens to an opcode: it is left alone, or its address is converted.
#[derive(Clone, Copy, PartialEq, Eq, Structural)]
pub enum Action {
    Keep(Marks),
    Convert(u32),
}

/// What happens to the opcode at `pos`. One without a whole address behind it is
/// left alone and not counted.
pub open spec fn action_at(input: Seq<u8>, pos: int, near: Near) -> Action {
    if pos + 5 > input.len() {
        Action::Keep(marked(near, false, false))
    } else if !is_edge(input[pos + 4] as int) {
        Action::Keep(marked(near, true, false))
    } else if !convertible(near) {
        Action::Keep(marked(near, true, true))
    } else {
        Action::Convert(restored(le32(input, pos + 1), pos, near))
    }
}

/// The next `left` bytes from `pos` on, or all there are; `last` is where the last
/// opcode stood.
pub open spec fn decoded_from(input: Seq<u8>, pos: int, last: int, m: Marks, left: nat) -> Seq<u8>
    decreases left,
{
    if left == 0 || pos >= input.len() {
        seq![]
    } else if !is_opcode(input[pos]) {
        seq![input[pos]] + decoded_from(input, pos + 1, last, m, (left - 1) as nat)
    } else {
        match action_at(input, pos, aged(m, pos - last)) {
            Action::Keep(m1) => seq![input[pos]] + decoded_from(input, pos + 1, pos, m1, (left - 1) as nat),
            Action::Convert(rel) => {
                let bytes = seq![input[pos]] + le_bytes(rel);
                if left <= 5 {
                    bytes.subrange(0, left as int)
                } else {
                    bytes + decoded_from(input, pos + 5, pos, no_marks(), (left - 5) as nat)
                }
            },
        }
    }
}

/// At most `length` bytes of the decoded form of `input`.
pub open spec fn decoded(input: Seq<u8>, length: nat) -> Seq<u8> {
    decoded_from(input, 0, -6, no_marks(), length)
}

// === what decoding keeps ======================================================

proof fn le_bytes_len(v: u32)
    ensures
        le_bytes(v).len() == 4,
{
    reveal(le_bytes);
}

proof fn decoded_from_len(input: Seq<u8>, pos: int, last: int, m: Marks, left: nat)
    requires
        0 <= pos,
    ensures
        decoded_from(input, pos, last, m, left).len() == (if pos >= input.len() {
            0
        } else if left < input.len() - pos {
            left as int
        } else {
            input.len() - pos
        }),
    decreases left,
{
    if left > 0 && pos < input.len() {
        decoded_from_len(input, pos + 1, last, m, (left - 1) as nat);
        match action_at(input, pos, aged(m, pos - last)) {
            Action::Keep(m1) => {
                decoded_from_len(input, pos + 1, pos, m1, (left - 1) as nat);
            },
            Action::Convert(rel) => {
                le_bytes_len(rel);
                if left > 5 {
                    decoded_from_len(input, pos + 5, pos, no_marks(), (left - 5) as nat);
                }
            },
        }
    }
}

/// Decoding changes no lengths: as many bytes come out as go in, up to the
/// number asked for.
pub proof fn decoding_keeps_length(input: Seq<u8>, length: nat)
    ensures
        decoded(input, length).len() == (if length < input.len() {
            length
        } else {
            input.len()
        }),
{
    decoded_from_len(input, 0, -6, no_marks(), length);
}

proof fn plain_from(input: Seq<u8>, pos: int, last: int, m: Marks, left: nat)
    requires
        0 <= pos <= input.len(),
        left == input.len() - pos,
        forall|i: int| 0 <= i < input.len() ==> !is_opcode(#[trigger] input[i]),
    ensures
        decoded_from(input, pos, last, m, left) == input.skip(pos),
    decreases left,
{
    if left > 0 {
        plain_from(input, pos + 1, last, m, (left - 1) as nat);
        assert(seq![input[pos]] + input.skip(pos + 1) =~= input.skip(pos));
    } else {
        assert(input.skip(pos) =~= seq![]);
    }
}

/// Bytes without an opcode stay as they are.
pub proof fn plain_bytes_stay(input: Seq<u8>)
    requires
        forall|i: int| 0 <= i < input.len() ==> !is_opcode(#[trigger] input[i]),
    ensures
        decoded(input, input.len()) == input,
{
    plain_from(input, 0, -6, no_marks(), input.len());
    assert(input.skip(0) =~= input);
}

/// With nothing near, the address that was stored for a 25-digit relative address
/// is turned back into it.
pub proof fn clean_address_is_restored(rel: u32, pos: int)
    requires
        0 <= pos,
        rel < 0x100_0000 || rel >= 0xff00_0000,
    ensures
        restored(rel.wrapping_add(base(pos)), pos, nothing_near()) == rel,
{
    reveal(restored);
    let k = base(pos);
    let abs = rel.wrapping_add(k);
    assert(abs.wrapping_sub(k) == rel);
    if rel >= 0xff00_0000 {
        assert(rel as int % 0x200_0000 == rel - 0xfe00_0000);
    } else {
        assert(rel as int % 0x200_0000 == rel);
    }
}

/// A branch to a relative address, and the bytes up to the next one.
pub struct Branch {
    pub opcode: u8,
    pub rel: u32,
    pub filler: Seq<u8>,
}

/// The branch can be stored at `pos`: its address has 25 digits and a sign, the
/// stored one looks like an address, and there is no opcode in what follows.
pub open spec fn branch_ok(pos: int, b: Branch) -> bool {
    &&& is_opcode(b.opcode)
    &&& b.rel < 0x100_0000 || b.rel >= 0xff00_0000
    &&& is_edge(b.rel.wrapping_add(base(pos)) as int / 0x100_0000)
    &&& forall|i: int| 0 <= i < b.filler.len() ==> !is_opcode(#[trigger] b.filler[i])
}

/// How the branches are stored from `pos` on.
pub open spec fn stored_branches(pos: int, bs: Seq<Branch>) -> Seq<u8>
    decreases bs.len(),
{
    if bs.len() == 0 {
        seq![]
    } else {
        let b = bs[0];
        seq![b.opcode] + le_bytes(b.rel.wrapping_add(base(pos))) + b.filler + stored_branches(
            pos + 5 + b.filler.len(),
            bs.drop_first(),
        )
    }
}

/// The code that they stand for.
pub open spec fn plain_branches(bs: Seq<Branch>) -> Seq<u8>
    decreases bs.len(),
{
    if bs.len() == 0 {
        seq![]
    } else {
        seq![bs[0].opcode] + le_bytes(bs[0].rel) + bs[0].filler + plain_branches(bs.drop_first())
    }
}

pub open spec fn branches_ok(pos: int, bs: Seq<Branch>) -> bool
    decreases bs.len(),
{
    bs.len() > 0 ==> branch_ok(pos, bs[0]) && branches_ok(pos + 5 + bs[0].filler.len(), bs.drop_first())
}

proof fn split_le(v: u32)
    by (bit_vector)
    ensures
        v == (v % 0x100u32) + 0x100u32 * ((v / 0x100u32) % 0x100u32) + 0x1_0000u32 * ((v / 0x1_0000u32) % 0x100u32)
            + 0x100_0000u32 * (v / 0x100_0000u32),
        v / 0x100_0000u32 < 0x100u32,
{
}

proof fn le32_of_bytes(s: Seq<u8>, at: int, v: u32)
    requires
        forall|i: int| 0 <= i < 4 ==> s[at + i] == #[trigger] le_bytes(v)[i],
    ensures
        le32(s, at) == v,
        s[at + 3] == v / 0x100_0000,
{
    reveal(le32);
    reveal(le_bytes);
    split_le(v);
    let b = le_bytes(v);
    assert(s[at + 0] == b[0] && s[at + 1] == b[1] && s[at + 2] == b[2] && s[at + 3] == b[3]);
}

proof fn filler_stays(input: Seq<u8>, pos: int, last: int, m: Marks, n: int, left: nat)
    requires
        0 <= pos,
        0 <= n <= left,
        pos + n <= input.len(),
        forall|i: int| pos <= i < pos + n ==> !is_opcode(#[trigger] input[i]),
    ensures
        decoded_from(input, pos, last, m, left) == input.subrange(pos, pos + n) + decoded_from(
            input,
            pos + n,
            last,
            m,
            (left - n) as nat,
        ),
    decreases n,
{
    let rest = decoded_from(input, pos + n, last, m, (left - n) as nat);
    if n == 0 {
        assert(input.subrange(pos, pos) + rest =~= rest);
    } else {
        assert(!is_opcode(input[pos]));
        filler_stays(input, pos + 1, last, m, n - 1, (left - 1) as nat);
        assert(seq![input[pos]] + (input.subrange(pos + 1, pos + n) + rest) =~= input.subrange(pos, pos + n) + rest);
    }
}

proof fn branches_from(input: Seq<u8>, pos: int, last: int, bs: Seq<Branch>)
    requires
        0 <= pos <= input.len(),
        input.skip(pos) == stored_branches(pos, bs),
        branches_ok(pos, bs),
    ensures
        decoded_from(input, pos, last, no_marks(), (input.len() - pos) as nat) == plain_branches(bs),
    decreases bs.len(),
{
    let left = (input.len() - pos) as nat;
    assert(input.skip(pos).len() == left);
    if bs.len() == 0 {
        assert(decoded_from(input, pos, last, no_marks(), left) =~= plain_branches(bs));
    } else {
        let b = bs[0];
        let abs = b.rel.wrapping_add(base(pos));
        let n = b.filler.len() as int;
        let all = stored_branches(pos, bs);
        let rest = stored_branches(pos + 5 + n, bs.drop_first());
        le_bytes_len(abs);
        le_bytes_len(b.rel);
        assert(all.len() == 5 + n + rest.len());
        assert forall|i: int| 0 <= i < left implies #[trigger] input[pos + i] == all[i] by {
            assert(input.skip(pos)[i] == all[i]);
        }
        assert(input[pos + 0] == b.opcode);
        assert forall|i: int| 0 <= i < 4 implies input[pos + 1 + i] == #[trigger] le_bytes(abs)[i] by {
            assert(input[pos + (1 + i)] == all[1 + i]);
        }
        le32_of_bytes(input, pos + 1, abs);
        assert(aged(no_marks(), pos - last) == nothing_near());
        clean_address_is_restored(b.rel, pos);
        assert(input.subrange(pos + 5, pos + 5 + n) =~= b.filler) by {
            assert forall|i: int| 0 <= i < n implies input[pos + 5 + i] == b.filler[i] by {
                assert(input[pos + (5 + i)] == all[5 + i]);
            }
        }
        assert forall|i: int| pos + 5 <= i < pos + 5 + n implies !is_opcode(#[trigger] input[i]) by {
            assert(input.subrange(pos + 5, pos + 5 + n)[i - pos - 5] == b.filler[i - pos - 5]);
        }
        assert(input.skip(pos + 5 + n) =~= rest) by {
            assert forall|i: int| 0 <= i < rest.len() implies input[pos + 5 + n + i] == rest[i] by {
                assert(input[pos + (5 + n + i)] == all[5 + n + i]);
            }
        }
        let bytes = seq![b.opcode] + le_bytes(b.rel);
        if left > 5 {
            filler_stays(input, pos + 5, pos, no_marks(), n, (left - 5) as nat);
            branches_from(input, pos + 5 + n, pos, bs.drop_first());
            assert(bytes + (b.filler + plain_branches(bs.drop_first())) =~= plain_branches(bs));
        } else {
            branches_from(input, pos + 5 + n, pos, bs.drop_first());
            assert(bytes.subrange(0, 5) =~= bytes);
            assert(b.filler.len() == 0 && input.skip(pos + 5).len() == 0);
            assert(decoded_from(input, pos + 5 + n, pos, no_marks(), 0) == plain_branches(bs.drop_first()));
            assert(plain_branches(bs) =~= bytes);
        }
    }
}

/// Code whose branches were all stored with absolute addresses is restored, whatever
/// stands before the first of them.
pub proof fn stored_branches_are_restored(lead: Seq<u8>, bs: Seq<Branch>)
    requires
        forall|i: int| 0 <= i < lead.len() ==> !is_opcode(#[trigger] lead[i]),
        branches_ok(lead.len() as int, bs),
    ensures
        ({
            let input = lead + stored_branches(lead.len() as int, bs);
            decoded(input, input.len()) == lead + plain_branches(bs)
        }),
{
    let n = lead.len() as int;
    let input = lead + stored_branches(n, bs);
    assert forall|i: int| 0 <= i < n implies !is_opcode(#[trigger] input[i]) by {
        assert(input[i] == lead[i]);
    }
    filler_stays(input, 0, -6, no_marks(), n, input.len());
    assert(input.subrange(0, n) =~= lead);
    assert(input.skip(n) =~= stored_branches(n, bs));
    branches_from(input, n, -6, bs);
}

/// The marks tell the truth: an opcode left alone and not odd points to a byte
/// that is no edge.
pub open spec fn marks_hold(input: Seq<u8>, last: int, m: Marks) -> bool {
    &&& m.left0 ==> 0 <= last && last + 4 < input.len() && (m.odd0 || !is_edge(input[last + 4] as int))
    &&& m.left1 ==> 0 <= last - 1 && last + 3 < input.len() && (m.odd1 || !is_edge(input[last + 3] as int))
    &&& m.left2 ==> 0 <= last - 2 && last + 2 < input.len() && (m.odd2 || !is_edge(input[last + 2] as int))
}

/// Dealing with an opcode keeps the marks true.
pub proof fn marks_stay_true(input: Seq<u8>, pos: int, last: int, m: Marks)
    requires
        marks_hold(input, last, m),
        last < pos,
        0 <= pos,
    ensures
        marks_hold(input, pos, marked(aged(m, pos - last), false, false)),
        pos + 5 <= input.len() && !is_edge(input[pos + 4] as int) ==> marks_hold(
            input,
            pos,
            marked(aged(m, pos - last), true, false),
        ),
        pos + 5 <= input.len() ==> marks_hold(input, pos, marked(aged(m, pos - last), true, true)),
        marks_hold(input, pos, no_marks()),
{
}

/// One look suffices: where the marks are true, the corrected address shows no
/// edge at the byte in question, so correcting it again would change nothing.
pub proof fn one_correction_suffices(abs: u32, k: u32, unit: int)
    requires
        unit == 1 || unit == 0x100 || unit == 0x1_0000,
        !is_edge((abs as int / unit) % 0x100),
    ensures
        !is_edge((corrected(abs, k, unit) as int / unit) % 0x100),
{
    let r = abs.wrapping_sub(k);
    if is_edge((r as int / unit) % 0x100) {
        let u = 0x100 * unit;
        let t = turned(r, u);
        let c = t.wrapping_sub(k);
        let m = if unit == 1 {
            0x100_0000int
        } else if unit == 0x100 {
            0x1_0000int
        } else {
            0x100int
        };
        turned_value(r, u, m);
        low_digits_turn(abs, k, r, t, c, u, m);
        middle_digit(c as int, abs as int, unit);
    }
}

proof fn turned_value(r: u32, u: int, m: int)
    requires
        u > 0,
        u * m == 0x1_0000_0000,
    ensures
        turned(r, u) == r - r as int % u + (u - 1 - r as int % u),
{
    let q = r as int / u;
    let l = r as int % u;
    lemma_fundamental_div_mod(r as int, u);
    assert(0 <= l < u) by (nonlinear_arith)
        requires l == r as int % u, u > 0;
    assert(0 <= u * q <= 0x1_0000_0000 - u) by (nonlinear_arith)
        requires r == u * q + l, 0 <= r < 0x1_0000_0000, u * m == 0x1_0000_0000, 0 <= l < u, u > 0;
}

/// Where the low digits of `c` are those of `a` turned over, so is each of them.
proof fn middle_digit(c: int, a: int, unit: int)
    requires
        unit == 1 || unit == 0x100 || unit == 0x1_0000,
        0 <= c,
        0 <= a,
        c % (0x100 * unit) == 0x100 * unit - 1 - a % (0x100 * unit),
    ensures
        (c / unit) % 0x100 == 0xff - (a / unit) % 0x100,
{
    lemma_mod_breakdown(c, unit, 0x100);
    lemma_mod_breakdown(a, unit, 0x100);
    let d = (c / unit) % 0x100;
    let e = (a / unit) % 0x100;
    if unit == 1 {
        assert(d + c % 1 == 0xff - (e + a % 1));
    } else if unit == 0x100 {
        assert(0x100 * d + c % 0x100 == 0xffff - (0x100 * e + a % 0x100));
    } else {
        assert(0x1_0000 * d + c % 0x1_0000 == 0xff_ffff - (0x1_0000 * e + a % 0x1_0000));
    }
}

proof fn low_digits_turn(abs: u32, k: u32, r: u32, t: u32, c: u32, u: int, m: int)
    requires
        u > 0,
        u * m == 0x1_0000_0000,
        r == abs.wrapping_sub(k),
        t == turned(r, u),
        t == r - r as int % u + (u - 1 - r as int % u),
        c == t.wrapping_sub(k),
    ensures
        c as int % u == u - 1 - abs as int % u,
{
    let l = r as int % u;
    let q = r as int / u;
    let a = abs as int % u;
    let qa = abs as int / u;
    lemma_fundamental_div_mod(r as int, u);
    lemma_fundamental_div_mod(abs as int, u);
    // r and c are differences up to a multiple of u.
    let w1 = if abs >= k {
        0int
    } else {
        m
    };
    assert(u * w1 == (if abs >= k { 0int } else { 0x1_0000_0000int })) by (nonlinear_arith)
        requires u * m == 0x1_0000_0000, w1 == (if abs >= k { 0int } else { m });
    let w2 = if t >= k {
        0int
    } else {
        m
    };
    assert(u * w2 == (if t >= k { 0int } else { 0x1_0000_0000int })) by (nonlinear_arith)
        requires u * m == 0x1_0000_0000, w2 == (if t >= k { 0int } else { m });
    assert(r == abs - k + u * w1);
    assert(c == t - k + u * w2);
    assert(c == (u - 1 - a) + u * (2 * q - qa - w1 + w2)) by (nonlinear_arith)
        requires
            r == u * q + l,
            abs == u * qa + a,
            r == abs - k + u * w1,
            t == r - l + (u - 1 - l),
            c == t - k + u * w2,
    ;
    lemma_mod_add_multiples_vanish_any(u - 1 - a, u, 2 * q - qa - w1 + w2);
    assert(0 <= a < u) by (nonlinear_arith)
        requires a == abs as int % u, u > 0;
    lemma_small_mod((u - 1 - a) as nat, u as nat);
}

// === decoding =================================================================

fn age(m: Marks, dist: usize) -> (r: Near)
    ensures
        r == aged(m, dist as int),
{
    Near {
        left1: dist == 1 && m.left0,
        left2: (dist == 1 && m.left1) || (dist == 2 && m.left0),
        left3: (dist == 1 && m.left2) || (dist == 2 && m.left1) || (dist == 3 && m.left0),
        odd1: dist == 1 && m.odd0,
        odd2: (dist == 1 && m.odd1) || (dist == 2 && m.odd0),
        odd3: (dist == 1 && m.odd2) || (dist == 2 && m.odd1) || (dist == 3 && m.odd0),
    }
}

fn mark(near: Near, left: bool, odd: bool) -> (r: Marks)
    ensures
        r == marked(near, left, odd),
{
    Marks { left0: left, left1: near.left1, left2: near.left2, odd0: odd, odd1: near.odd1, odd2: near.odd2 }
}

fn correct(abs: u32, k: u32, unit: u32) -> (r: u32)
    requires
        unit == 1 || unit == 0x100 || unit == 0x1_0000,
    ensures
        r == corrected(abs, k, unit as int),
{
    let rel: u32 = abs.wrapping_sub(k);
    let (byte, low, whole): (u32, u32, u32) = if unit == 1 {
        (rel % 0x100, rel % 0x100, 0x100)
    } else if unit == 0x100 {
        ((rel / 0x100) % 0x100, rel % 0x1_0000, 0x1_0000)
    } else {
        ((rel / 0x1_0000) % 0x100, rel % 0x100_0000, 0x100_0000)
    };
    if byte == 0 || byte == 0xff {
        proof {
            assert(unit == 1 ==> rel - rel % 0x100 <= 0xffff_ff00);
            assert(unit == 0x100 ==> rel - rel % 0x1_0000 <= 0xffff_0000);
            assert(unit == 0x1_0000 ==> rel - rel % 0x100_0000 <= 0xff00_0000);
        }
        let flipped: u32 = rel - low + (whole - 1 - low);
        flipped.wrapping_sub(k)
    } else {
        rel
    }
}

fn read_le32(s: &[u8], at: usize) -> (r: u32)
    requires
        at + 4 <= s@.len(),
    ensures
        r == le32(s@, at as int),
{
    reveal(le32);
    s[at] as u32 + 0x100 * s[at + 1] as u32 + 0x1_0000 * s[at + 2] as u32 + 0x100_0000 * s[at + 3] as u32
}

fn split_le32(v: u32) -> (r: (u8, u8, u8, u8))
    ensures
        le_bytes(v) == seq![r.0, r.1, r.2, r.3],
{
    reveal(le_bytes);
    ((v % 0x100) as u8, ((v / 0x100) % 0x100) as u8, ((v / 0x1_0000) % 0x100) as u8, (v / 0x100_0000) as u8)
}

fn restore(abs: u32, pos: usize, near: Near) -> (r: u32)
    ensures
        r == restored(abs, pos as int, near),
{
    reveal(restored);
    let k: u32 = ((pos as u64 % 0x1_0000_0000) as u32).wrapping_add(6);
    let rel: u32 = if near.left1 {
        correct(abs, k, 0x1_0000)
    } else if near.left2 {
        correct(abs, k, 0x100)
    } else if near.left3 {
        correct(abs, k, 1)
    } else {
        abs.wrapping_sub(k)
    };
    let v: u32 = rel % 0x200_0000;
    if v >= 0x100_0000 {
        v + 0xfe00_0000
    } else {
        v
    }
}

/// Decide what happens to the opcode at `pos`.
fn decide(input: &[u8], pos: usize, near: Near) -> (r: Action)
    requires
        pos < input@.len(),
    ensures
        r == action_at(input@, pos as int, near),
{
    if input.len() - pos < 5 {
        return Action::Keep(mark(near, false, false));
    }
    let top: u8 = input[pos + 4];
    if top != 0 && top != 0xff {
        return Action::Keep(mark(near, true, false));
    }
    let odd: bool = near.odd1 || near.odd2 || near.odd3;
    let crowded: bool = (near.left1 && near.left2) || (near.left1 && near.left3) || (near.left2 && near.left3);
    if odd || crowded {
        return Action::Keep(mark(near, true, true));
    }
    Action::Convert(restore(read_le32(input, pos + 1), pos, near))
}

/// Append an opcode and its address, or as much of them as there is room for.
fn push_converted(out: &mut Vec<u8>, b: u8, rel: u32, room: usize)
    requires
        room > 0,
    ensures
        final(out)@ == old(out)@ + (if room <= 5 {
            (seq![b] + le_bytes(rel)).subrange(0, room as int)
        } else {
            seq![b] + le_bytes(rel)
        }),
        final(out)@.len() == old(out)@.len() + (if room <= 5 {
            room as int
        } else {
            5
        }),
{
    let (b0, b1, b2, b3) = split_le32(rel);
    let bytes: [u8; 5] = [b, b0, b1, b2, b3];
    let ghost all = seq![b] + le_bytes(rel);
    assert(bytes@ =~= all);
    let n: usize = if room <= 5 {
        room
    } else {
        5
    };
    append(out, slice_subrange(bytes.as_slice(), 0, n));
    assert(all.subrange(0, 5) =~= all);
}

/// Decode at most `length` bytes of `input`.
pub fn decode(input: &[u8], length: usize) -> (r: Vec<u8>)
    ensures
        r@ == decoded(input@, length as nat),
{
    let mut out: Vec<u8> = Vec::new();
    // How far back the last opcode is; more than 3 is as good as none.
    let mut dist: usize = 6;
    let mut marks = Marks { left0: false, left1: false, left2: false, odd0: false, odd1: false, odd2: false };
    let ghost mut last: int = -6;
    let ghost goal = decoded(input@, length as nat);
    assert(out@ + goal =~= goal);
    while out.len() < length && out.len() < input.len()
        invariant
            out@.len() <= length,
            out@.len() <= input@.len(),
            out@.len() < length ==> (dist == out@.len() - last || (dist >= 6 && out@.len() - last >= 6)),
            dist <= 7,
            goal == decoded(input@, length as nat),
            out@ + decoded_from(input@, out@.len() as int, last, marks, (length - out@.len()) as nat) == goal,
        decreases length - out@.len(),
    {
        let pos: usize = out.len();
        let ghost before = out@;
        let ghost left = (length - pos) as nat;
        let b: u8 = input[pos];
        if b == 0xe8 || b == 0xe9 {
            let near = age(marks, dist);
            assert(near == aged(marks, pos - last));
            match decide(input, pos, near) {
                Action::Keep(m1) => {
                    marks = m1;
                    dist = 1;
                    out.push(b);
                    proof {
                        last = pos as int;
                        let rest = decoded_from(input@, pos + 1, last, marks, (left - 1) as nat);
                        assert(out@ + rest =~= before + (seq![b] + rest));
                    }
                },
                Action::Convert(rel) => {
                    marks = Marks { left0: false, left1: false, left2: false, odd0: false, odd1: false, odd2: false };
                    dist = 5;
                    push_converted(&mut out, b, rel, length - pos);
                    proof {
                        last = pos as int;
                        let bytes = seq![b] + le_bytes(rel);
                        if left <= 5 {
                            assert(out@ + seq![] =~= out@);
                        } else {
                            let rest = decoded_from(input@, pos + 5, last, no_marks(), (left - 5) as nat);
                            assert(out@ + rest =~= before + (bytes + rest));
                        }
                    }
                },
            }
        } else {
            if dist < 6 {
                dist = dist + 1;
            }
            out.push(b);
            proof {
                let rest = decoded_from(input@, pos + 1, last, marks, (left - 1) as nat);
                assert(out@ + rest =~= before + (seq![b] + rest));
            }
        }
    }
    assert(out@ + seq![] =~= out@);
    out
}

} // verus!
