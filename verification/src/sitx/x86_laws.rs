use vstd::prelude::*;
use crate::sitx::x86::{
    action_at, aged, base, convertible, corrected, decoded, decoded_from, decoding_keeps_length, is_opcode, le32, le_bytes, marked, no_marks,
    restored, turned, Action, Marks, Near,
};

verus! {

// What happens to each byte, told by what happened to the three before it.

/// What happens to the byte at a place.
pub enum Fate {
    /// It is no opcode.
    Plain,
    /// It is part of an address that is converted.
    Operand,
    /// It is an opcode too near to the end to have an address.
    Short,
    /// It is an opcode whose address does not look like one, and is left alone.
    Left,
    /// It is an opcode whose address looks like one, and is left alone nevertheless.
    Odd,
    /// It is an opcode whose address is converted.
    Converted,
}

/// An opcode at `p` was left alone.
pub open spec fn stays(fates: Seq<Fate>, p: int) -> bool {
    0 <= p < fates.len() && (fates[p] is Left || fates[p] is Odd)
}

pub open spec fn is_odd(fates: Seq<Fate>, p: int) -> bool {
    0 <= p < fates.len() && fates[p] is Odd
}

pub open spec fn converts(fates: Seq<Fate>, p: int) -> bool {
    0 <= p < fates.len() && fates[p] is Converted
}

/// The place is within an address that is converted.
pub open spec fn within(fates: Seq<Fate>, p: int) -> bool {
    converts(fates, p - 1) || converts(fates, p - 2) || converts(fates, p - 3) || converts(fates, p - 4)
}

/// None of the three places before is that of an odd opcode, and at most one that of an
/// opcode left alone.
pub open spec fn undisturbed(fates: Seq<Fate>, p: int) -> bool {
    &&& !is_odd(fates, p - 1) && !is_odd(fates, p - 2) && !is_odd(fates, p - 3)
    &&& !(stays(fates, p - 1) && stays(fates, p - 2))
    &&& !(stays(fates, p - 1) && stays(fates, p - 3))
    &&& !(stays(fates, p - 2) && stays(fates, p - 3))
}

/// What happens at `p`: only near calls (0xe8) and jumps (0xe9) are opcodes, an address looks
/// like one if its highest byte is 0 or 255, and it is converted if it is undisturbed.
pub open spec fn fate_at(input: Seq<u8>, fates: Seq<Fate>, p: int) -> Fate {
    if within(fates, p) {
        Fate::Operand
    } else if input[p] != 0xe8 && input[p] != 0xe9 {
        Fate::Plain
    } else if p + 5 > input.len() {
        Fate::Short
    } else if input[p + 4] != 0 && input[p + 4] != 255 {
        Fate::Left
    } else if undisturbed(fates, p) {
        Fate::Converted
    } else {
        Fate::Odd
    }
}

/// Every place has the fate that those before it give it.
pub open spec fn fates_hold(input: Seq<u8>, fates: Seq<Fate>) -> bool {
    fates.len() == input.len() && forall|p: int| 0 <= p < input.len() ==> fates[p] == #[trigger] fate_at(input, fates, p)
}

/// The address is told from its four bytes, the lowest first.
pub open spec fn stored_address(input: Seq<u8>, p: int) -> int {
    input[p + 1] + 0x100 * input[p + 2] + 0x1_0000 * input[p + 3] + 0x100_0000 * input[p + 4]
}

/// `x` as a number of 32 bits.
pub open spec fn bits32(x: int) -> int {
    x % 0x1_0000_0000
}

/// `x` looked at once more because of an opcode that was left alone and points to its byte of
/// the given worth: if that byte is 0 or 255, it and those below it are turned over and the
/// place is taken off again.
pub open spec fn looked_at_again(x: int, place: int, worth: int) -> int {
    let byte = (x / worth) % 0x100;
    if byte == 0 || byte == 255 {
        let low = x % (0x100 * worth);
        bits32(x - low + (0x100 * worth - 1 - low) - place)
    } else {
        x
    }
}

/// What the address at `p` is relative to the place behind the instruction and one more,
/// before it is cut to 25 bits.
pub open spec fn relative(input: Seq<u8>, fates: Seq<Fate>, p: int) -> int {
    let place = p + 6;
    let x = bits32(stored_address(input, p) - place);
    if stays(fates, p - 1) {
        looked_at_again(x, place, 0x1_0000)
    } else if stays(fates, p - 2) {
        looked_at_again(x, place, 0x100)
    } else if stays(fates, p - 3) {
        looked_at_again(x, place, 1)
    } else {
        x
    }
}

/// The low 25 bits of `x` as a signed number, in 32 bits.
pub open spec fn cut_to_25(x: int) -> int {
    let v = x % 0x200_0000;
    if v < 0x100_0000 {
        v
    } else {
        v + 0x1_0000_0000 - 0x200_0000
    }
}

/// The byte that comes out at `p`.
pub open spec fn byte_out(input: Seq<u8>, fates: Seq<Fate>, p: int) -> u8 {
    if converts(fates, p - 1) {
        (cut_to_25(relative(input, fates, p - 1)) % 0x100) as u8
    } else if converts(fates, p - 2) {
        ((cut_to_25(relative(input, fates, p - 2)) / 0x100) % 0x100) as u8
    } else if converts(fates, p - 3) {
        ((cut_to_25(relative(input, fates, p - 3)) / 0x1_0000) % 0x100) as u8
    } else if converts(fates, p - 4) {
        (cut_to_25(relative(input, fates, p - 4)) / 0x100_0000) as u8
    } else {
        input[p]
    }
}

/// The marks tell of the opcodes that were left alone at the last one and before it, as far
/// as they are near enough to `pos`.
spec fn marks_tell(fates: Seq<Fate>, pos: int, last: int, m: Marks) -> bool {
    &&& last >= pos - 3 ==> m.left0 == stays(fates, last) && m.odd0 == is_odd(fates, last)
    &&& last - 1 >= pos - 3 ==> m.left1 == stays(fates, last - 1) && m.odd1 == is_odd(fates, last - 1)
    &&& last - 2 >= pos - 3 ==> m.left2 == stays(fates, last - 2) && m.odd2 == is_odd(fates, last - 2)
}

/// No opcode stands between `last` and `pos`.
spec fn quiet_between(fates: Seq<Fate>, last: int, pos: int) -> bool {
    forall|q: int| last < q < pos && 0 <= q ==> (#[trigger] fates[q]) is Plain || fates[q] is Operand
}

proof fn near_is_told(fates: Seq<Fate>, last: int, pos: int, m: Marks)
    requires
        last < pos <= fates.len(),
        0 <= pos,
        marks_tell(fates, pos, last, m),
        quiet_between(fates, last, pos),
    ensures
        ({
            let near = aged(m, pos - last);
            &&& near.left1 == stays(fates, pos - 1)
            &&& near.left2 == stays(fates, pos - 2)
            &&& near.left3 == stays(fates, pos - 3)
            &&& near.odd1 == is_odd(fates, pos - 1)
            &&& near.odd2 == is_odd(fates, pos - 2)
            &&& near.odd3 == is_odd(fates, pos - 3)
        }),
{
}

proof fn address_is_told(input: Seq<u8>, p: int)
    requires
        0 <= p,
        p + 5 <= input.len(),
    ensures
        le32(input, p + 1) == stored_address(input, p),
{
    reveal(le32);
}

proof fn difference(a: u32, p: int)
    requires
        0 <= p,
    ensures
        a.wrapping_sub(base(p)) == bits32(a - (p + 6)),
{
    let q = p % 0x1_0000_0000;
    assert(p == q + 0x1_0000_0000 * (p / 0x1_0000_0000));
}

proof fn again(r: u32, p: int, worth: int)
    requires
        0 <= p,
        worth == 1 || worth == 0x100 || worth == 0x1_0000,
    ensures
        ({
            let abs = r.wrapping_add(base(p));
            corrected(abs, base(p), worth) == looked_at_again(r as int, p + 6, worth)
        }),
{
    let abs = r.wrapping_add(base(p));
    assert(abs.wrapping_sub(base(p)) == r);
    turned_fits(r, 0x100 * worth);
    difference(turned(r, 0x100 * worth), p);
}

proof fn turned_fits(r: u32, u: int)
    requires
        u == 0x100 || u == 0x1_0000 || u == 0x100_0000,
    ensures
        turned(r, u) == r - r as int % u + (u - 1 - r as int % u),
{
    if u == 0x100 {
        assert(r as int - r as int % 0x100 == 0x100 * (r as int / 0x100));
        assert(r as int / 0x100 <= 0xff_ffff);
    } else if u == 0x1_0000 {
        assert(r as int - r as int % 0x1_0000 == 0x1_0000 * (r as int / 0x1_0000));
        assert(r as int / 0x1_0000 <= 0xffff);
    } else {
        assert(r as int - r as int % 0x100_0000 == 0x100_0000 * (r as int / 0x100_0000));
        assert(r as int / 0x100_0000 <= 0xff);
    }
}

proof fn conversion_is_told(input: Seq<u8>, fates: Seq<Fate>, p: int, near: Near)
    requires
        0 <= p,
        p + 5 <= input.len(),
        near.left1 == stays(fates, p - 1),
        near.left2 == stays(fates, p - 2),
        near.left3 == stays(fates, p - 3),
    ensures
        restored(le32(input, p + 1), p, near) == cut_to_25(relative(input, fates, p)),
{
    reveal(restored);
    address_is_told(input, p);
    let abs = le32(input, p + 1);
    let k = base(p);
    let r = abs.wrapping_sub(k);
    difference(abs, p);
    assert(r.wrapping_add(k) == abs);
    again(r, p, 0x1_0000);
    again(r, p, 0x100);
    again(r, p, 1);
}

proof fn bytes_are_told(v: u32)
    ensures
        le_bytes(v).len() == 4,
        le_bytes(v)[0] == v as int % 0x100,
        le_bytes(v)[1] == (v as int / 0x100) % 0x100,
        le_bytes(v)[2] == (v as int / 0x1_0000) % 0x100,
        le_bytes(v)[3] == v as int / 0x100_0000,
{
    reveal(le_bytes);
}

spec fn out_from(input: Seq<u8>, fates: Seq<Fate>, pos: int) -> Seq<u8> {
    Seq::new((input.len() - pos) as nat, |i: int| byte_out(input, fates, pos + i))
}

/// The four places behind an opcode that is converted are its address, and no others are.
proof fn operands_follow(input: Seq<u8>, fates: Seq<Fate>, pos: int)
    requires
        fates_hold(input, fates),
        0 <= pos,
        pos + 5 <= input.len(),
        fates[pos] is Converted,
        !within(fates, pos),
    ensures
        fates[pos + 1] is Operand,
        fates[pos + 2] is Operand,
        fates[pos + 3] is Operand,
        fates[pos + 4] is Operand,
        !within(fates, pos + 5),
{
    assert(fates[pos + 1] == fate_at(input, fates, pos + 1));
    assert(fates[pos + 2] == fate_at(input, fates, pos + 2));
    assert(fates[pos + 3] == fate_at(input, fates, pos + 3));
    assert(fates[pos + 4] == fate_at(input, fates, pos + 4));
    assert(converts(fates, pos));
}

/// One byte comes out where no address is converted.
proof fn one_follows(input: Seq<u8>, fates: Seq<Fate>, pos: int)
    requires
        fates_hold(input, fates),
        0 <= pos < input.len(),
        !within(fates, pos),
        !(fates[pos] is Converted),
    ensures
        !within(fates, pos + 1),
        seq![input[pos]] + out_from(input, fates, pos + 1) == out_from(input, fates, pos),
{
    assert(!converts(fates, pos));
    let all = out_from(input, fates, pos);
    let rest = out_from(input, fates, pos + 1);
    assert forall|i: int| 0 <= i < all.len() implies (seq![input[pos]] + rest)[i] == all[i] by {
        if i > 0 {
            assert(rest[i - 1] == byte_out(input, fates, pos + 1 + (i - 1)));
        }
    }
    assert(seq![input[pos]] + rest =~= all);
}

/// Five bytes come out where an address is converted.
proof fn five_follow(input: Seq<u8>, fates: Seq<Fate>, pos: int, rel: u32)
    requires
        fates_hold(input, fates),
        0 <= pos,
        pos + 5 <= input.len(),
        !within(fates, pos),
        fates[pos] is Converted,
        rel == cut_to_25(relative(input, fates, pos)),
    ensures
        seq![input[pos]] + le_bytes(rel) + out_from(input, fates, pos + 5) == out_from(input, fates, pos),
        (seq![input[pos]] + le_bytes(rel)).len() == 5,
{
    bytes_are_told(rel);
    operands_follow(input, fates, pos);
    let bytes = seq![input[pos]] + le_bytes(rel);
    assert(converts(fates, pos));
    assert(!converts(fates, pos + 1) && !converts(fates, pos + 2) && !converts(fates, pos + 3));
    assert(!converts(fates, pos - 1) && !converts(fates, pos - 2) && !converts(fates, pos - 3) && !converts(
        fates,
        pos - 4,
    ));
    assert(byte_out(input, fates, pos) == bytes[0]);
    assert(byte_out(input, fates, pos + 1) == bytes[1]);
    assert(byte_out(input, fates, pos + 2) == bytes[2]);
    assert(byte_out(input, fates, pos + 3) == bytes[3]);
    assert(byte_out(input, fates, pos + 4) == bytes[4]);
    let all = out_from(input, fates, pos);
    let rest = out_from(input, fates, pos + 5);
    assert forall|i: int| 0 <= i < all.len() implies (bytes + rest)[i] == all[i] by {
        if i < 5 {
            assert(i == 0 || i == 1 || i == 2 || i == 3 || i == 4);
        } else {
            assert(rest[i - 5] == byte_out(input, fates, pos + 5 + (i - 5)));
        }
    }
    assert(bytes + rest =~= all);
}

/// What is done with an opcode is what its fate says.
proof fn fate_is_met(input: Seq<u8>, fates: Seq<Fate>, pos: int, near: Near)
    requires
        fates_hold(input, fates),
        0 <= pos < input.len(),
        !within(fates, pos),
        is_opcode(input[pos]),
        near.left1 == stays(fates, pos - 1),
        near.left2 == stays(fates, pos - 2),
        near.left3 == stays(fates, pos - 3),
        near.odd1 == is_odd(fates, pos - 1),
        near.odd2 == is_odd(fates, pos - 2),
        near.odd3 == is_odd(fates, pos - 3),
    ensures
        action_at(input, pos, near) == (if fates[pos] is Converted {
            Action::Convert(restored(le32(input, pos + 1), pos, near))
        } else {
            Action::Keep(marked(near, stays(fates, pos), is_odd(fates, pos)))
        }),
        fates[pos] is Converted ==> pos + 5 <= input.len(),
{
    assert(fates[pos] == fate_at(input, fates, pos));
    assert(convertible(near) == undisturbed(fates, pos));
}

proof fn fates_are_followed(input: Seq<u8>, fates: Seq<Fate>, pos: int, last: int, m: Marks, left: nat)
    requires
        fates_hold(input, fates),
        0 <= pos <= input.len(),
        left == input.len() - pos,
        last < pos,
        marks_tell(fates, pos, last, m),
        quiet_between(fates, last, pos),
        !within(fates, pos),
    ensures
        decoded_from(input, pos, last, m, left) == out_from(input, fates, pos),
    decreases left,
{
    if left == 0 {
        assert(out_from(input, fates, pos) =~= Seq::<u8>::empty());
    } else if !is_opcode(input[pos]) {
        assert(fates[pos] == fate_at(input, fates, pos));
        one_follows(input, fates, pos);
        fates_are_followed(input, fates, pos + 1, last, m, (left - 1) as nat);
    } else {
        near_is_told(fates, last, pos, m);
        let near = aged(m, pos - last);
        fate_is_met(input, fates, pos, near);
        if !(fates[pos] is Converted) {
            one_follows(input, fates, pos);
            let m1 = marked(near, stays(fates, pos), is_odd(fates, pos));
            fates_are_followed(input, fates, pos + 1, pos, m1, (left - 1) as nat);
        } else {
            conversion_is_told(input, fates, pos, near);
            let rel = restored(le32(input, pos + 1), pos, near);
            operands_follow(input, fates, pos);
            five_follow(input, fates, pos, rel);
            let bytes = seq![input[pos]] + le_bytes(rel);
            if left > 5 {
                fates_are_followed(input, fates, pos + 5, pos, no_marks(), (left - 5) as nat);
            } else {
                assert(bytes + out_from(input, fates, pos + 5) =~= bytes);
                assert(bytes.subrange(0, 5) =~= bytes);
            }
        }
    }
}

proof fn less_is_a_beginning(input: Seq<u8>, pos: int, last: int, m: Marks, left: nat, more: nat)
    requires
        0 <= pos,
        left <= more,
    ensures
        left <= decoded_from(input, pos, last, m, more).len() ==> decoded_from(input, pos, last, m, left)
            == decoded_from(input, pos, last, m, more).subrange(0, left as int),
    decreases left,
{
    let all = decoded_from(input, pos, last, m, more);
    if left == 0 {
        assert(all.subrange(0, 0) =~= Seq::<u8>::empty());
    } else if pos < input.len() {
        let l = (left - 1) as nat;
        if !is_opcode(input[pos]) {
            less_is_a_beginning(input, pos + 1, last, m, l, (more - 1) as nat);
            let rest = decoded_from(input, pos + 1, last, m, (more - 1) as nat);
            if left <= all.len() {
                assert(seq![input[pos]] + rest.subrange(0, l as int) =~= all.subrange(0, left as int));
            }
        } else {
            match action_at(input, pos, aged(m, pos - last)) {
                Action::Keep(m1) => {
                    less_is_a_beginning(input, pos + 1, pos, m1, l, (more - 1) as nat);
                    let rest = decoded_from(input, pos + 1, pos, m1, (more - 1) as nat);
                    if left <= all.len() {
                        assert(seq![input[pos]] + rest.subrange(0, l as int) =~= all.subrange(0, left as int));
                    }
                },
                Action::Convert(rel) => {
                    bytes_are_told(rel);
                    let bytes = seq![input[pos]] + le_bytes(rel);
                    if left > 5 {
                        less_is_a_beginning(input, pos + 5, pos, no_marks(), (left - 5) as nat, (more - 5) as nat);
                        let rest = decoded_from(input, pos + 5, pos, no_marks(), (more - 5) as nat);
                        if left <= all.len() {
                            assert(bytes + rest.subrange(0, left - 5) =~= all.subrange(0, left as int));
                        }
                    } else {
                        assert(bytes.subrange(0, left as int) =~= all.subrange(0, left as int));
                    }
                },
            }
        }
    }
}

/// Where fewer bytes are asked for, the first ones come.
pub proof fn fewer_bytes_are_the_first(input: Seq<u8>, length: nat)
    requires
        length <= input.len(),
    ensures
        decoded(input, length) == decoded(input, input.len()).subrange(0, length as int),
{
    decoding_keeps_length(input, input.len());
    less_is_a_beginning(input, 0, -6, no_marks(), length, input.len());
}

/// Code is restored byte by byte as the fates of its bytes say.
pub proof fn code_is_restored_by_its_fates(input: Seq<u8>, fates: Seq<Fate>, p: int)
    requires
        fates_hold(input, fates),
        0 <= p < input.len(),
    ensures
        decoded(input, input.len()).len() == input.len(),
        decoded(input, input.len())[p] == byte_out(input, fates, p),
{
    fates_are_followed(input, fates, 0, -6, no_marks(), input.len());
}

} // verus!
