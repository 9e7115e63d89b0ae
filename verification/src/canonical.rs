use vstd::prelude::*;
use vstd::arithmetic::power2::{
    lemma2_to64, lemma_pow2_adds, lemma_pow2_pos, lemma_pow2_strictly_increases, lemma_pow2_unfold, pow2,
};
use vstd::bits::lemma_u32_shr_is_div;
use crate::error::ErrorKind;
use crate::prefix_code::{
    canonical, canonical_from, code_after_length, leading, lengths_ok, prefix_free, starts, symbol_at, word_stands,
    words_of_length, written_word_is_read, BitOrder, CodeWord,
};

verus! {

// In a canonical code the words, seen as stretches of the numbers below 2 to the
// `max`, lie one behind the other. As long as there is room for all, no word is the
// start of another.

/// How many symbols from `i` on have words of length `length`.
pub open spec fn count_from(lengths: Seq<u32>, length: u32, i: int) -> nat
    decreases lengths.len() - i,
{
    if i < 0 || i >= lengths.len() {
        0
    } else if lengths[i] == length {
        1 + count_from(lengths, length, i + 1)
    } else {
        count_from(lengths, length, i + 1)
    }
}

/// The room that the words of the lengths from `length` to `max` take.
pub open spec fn room_from(lengths: Seq<u32>, length: u32, max: u32) -> nat
    decreases max + 1 - length,
{
    if length > max || max > 32 {
        0
    } else {
        count_from(lengths, length, 0) * pow2((max - length) as nat) + room_from(lengths, (length + 1) as u32, max)
    }
}

/// There is room for all words.
pub open spec fn has_room(lengths: Seq<u32>, max: u32) -> bool {
    room_from(lengths, 1, max) <= pow2(max as nat)
}

/// Where the stretch of a word begins.
spec fn begins(w: CodeWord, max: u32) -> int {
    w.bits * pow2((max - w.len) as nat)
}

/// Where it ends.
spec fn ends(w: CodeWord, max: u32) -> int {
    (w.bits + 1) * pow2((max - w.len) as nat)
}

/// The stretches lie one behind the other, none before `from`.
spec fn in_line(words: Seq<CodeWord>, max: u32, from: int) -> bool {
    &&& forall|i: int|
        0 <= i < words.len() ==> {
            &&& 1 <= (#[trigger] words[i]).len <= max
            &&& from <= begins(words[i], max)
            &&& ends(words[i], max) <= pow2(max as nat)
        }
    &&& forall|i: int, j: int|
        0 <= i < j < words.len() ==> #[trigger] ends(words[i], max) <= #[trigger] begins(words[j], max)
}

proof fn words_in_line(lengths: Seq<u32>, length: u32, i: int, code: u32, max: u32)
    requires
        1 <= length <= max <= 32,
        0 <= i <= lengths.len(),
        (code + count_from(lengths, length, i)) * pow2((max - length) as nat) <= pow2(max as nat),
    ensures
        in_line(words_of_length(lengths, length, i, code), max, code * pow2((max - length) as nat)),
        forall|k: int|
            0 <= k < words_of_length(lengths, length, i, code).len() ==> ends(
                #[trigger] words_of_length(lengths, length, i, code)[k],
                max,
            ) <= (code + count_from(lengths, length, i)) * pow2((max - length) as nat),
    decreases lengths.len() - i,
{
    let p = pow2((max - length) as nat) as int;
    let n = count_from(lengths, length, i) as int;
    let words = words_of_length(lengths, length, i, code);
    lemma_pow2_pos((max - length) as nat);
    if i < lengths.len() {
        if lengths[i] == length {
            let w = CodeWord { len: length, bits: code, value: i as i32 };
            let rest = words_of_length(lengths, length, i + 1, code.wrapping_add(1));
            assert(words == seq![w] + rest);
            let n1 = count_from(lengths, length, i + 1) as int;
            assert(n == n1 + 1);
            assert((code + 1) * p <= (code + n) * p) by (nonlinear_arith)
                requires n >= 1, p >= 1;
            if n1 == 0 {
                nothing_left(lengths, length, i + 1, code.wrapping_add(1));
                assert(words =~= seq![w]);
                assert(code * p <= (code + 1) * p) by (nonlinear_arith)
                    requires p >= 1;
            } else {
                room_keeps_code_small(code as int + 1, n1, length, max);
                assert(code.wrapping_add(1) == code + 1);
                assert((code + 1) + n1 == code + n);
                words_in_line(lengths, length, i + 1, (code + 1) as u32, max);
                assert(code * p <= (code + 1) * p) by (nonlinear_arith)
                    requires p >= 1;
                assert forall|k: int| 0 <= k < words.len() implies {
                    &&& 1 <= (#[trigger] words[k]).len <= max
                    &&& code * p <= begins(words[k], max)
                    &&& ends(words[k], max) <= pow2(max as nat)
                    &&& ends(words[k], max) <= (code + n) * p
                } by {
                    if k > 0 {
                        assert(words[k] == rest[k - 1]);
                    }
                }
                assert forall|a: int, b: int| 0 <= a < b < words.len() implies #[trigger] ends(words[a], max)
                    <= #[trigger] begins(words[b], max) by {
                    assert(words[b] == rest[b - 1]);
                    if a > 0 {
                        assert(words[a] == rest[a - 1]);
                        assert(ends(rest[a - 1], max) <= begins(rest[b - 1], max));
                    }
                }
            }
        } else {
            words_in_line(lengths, length, i + 1, code, max);
        }
    }
}

proof fn nothing_left(lengths: Seq<u32>, length: u32, i: int, code: u32)
    requires
        0 <= i,
        count_from(lengths, length, i) == 0,
    ensures
        words_of_length(lengths, length, i, code).len() == 0,
    decreases lengths.len() - i,
{
    if i < lengths.len() {
        nothing_left(lengths, length, i + 1, code);
    }
}

/// Where there is room for one more word, the code has not run over.
proof fn room_keeps_code_small(code: int, n: int, length: u32, max: u32)
    requires
        1 <= length <= max <= 32,
        n >= 1,
        code >= 0,
        (code + n) * pow2((max - length) as nat) <= pow2(max as nat),
    ensures
        code < pow2(length as nat),
        pow2(length as nat) <= 0x1_0000_0000,
{
    let p = pow2((max - length) as nat) as int;
    let q = pow2(length as nat) as int;
    lemma2_to64();
    lemma_pow2_pos((max - length) as nat);
    lemma_pow2_adds((max - length) as nat, length as nat);
    if length < 32 {
        lemma_pow2_strictly_increases(length as nat, 32);
    }
    assert(code < q) by (nonlinear_arith)
        requires (code + n) * p <= p * q, n >= 1, p >= 1;
}

proof fn code_after_is_counted(lengths: Seq<u32>, length: u32, i: int, code: u32)
    requires
        0 <= i <= lengths.len(),
    ensures
        code_after_length(lengths, length, i, code) == (code + count_from(lengths, length, i)) % 0x1_0000_0000,
    decreases lengths.len() - i,
{
    if i < lengths.len() {
        if lengths[i] == length {
            code_after_is_counted(lengths, length, i + 1, code.wrapping_add(1));
        } else {
            code_after_is_counted(lengths, length, i + 1, code);
        }
    }
}

proof fn doubled(a: u32)
    by (bit_vector)
    ensures
        a < 0x8000_0000u32 ==> (a << 1u32) == 2 * a,
        a == 0x8000_0000u32 ==> (a << 1u32) == 0u32,
{
}

/// `code` is the number `c`, without what goes beyond 32 bits.
proof fn canonical_in_line(lengths: Seq<u32>, length: u32, max: u32, code: u32, c: nat)
    requires
        1 <= length,
        max <= 32,
        length <= max + 1,
        code == c % 0x1_0000_0000,
        length <= max ==> c * pow2((max - length) as nat) + room_from(lengths, length, max) <= pow2(max as nat),
    ensures
        length <= max ==> in_line(
            canonical_from(lengths, length, max, code),
            max,
            (c * pow2((max - length) as nat)) as int,
        ),
    decreases max + 1 - length,
{
    if length <= max {
        let words = canonical_from(lengths, length, max, code);
        let first = words_of_length(lengths, length, 0, code);
        let n = count_from(lengths, length, 0);
        let p = pow2((max - length) as nat) as int;
        let code1 = code_after_length(lengths, length, 0, code) << 1u32;
        let rest = canonical_from(lengths, (length + 1) as u32, max, code1);
        let more = room_from(lengths, (length + 1) as u32, max) as int;
        assert(words == first + rest);
        lemma2_to64();
        lemma_pow2_pos((max - length) as nat);
        assert((c + n) * p == c * p + n * p) by (nonlinear_arith);
        assert((c + n) * p + more <= pow2(max as nat));
        // The words of this length.
        if n > 0 {
            room_keeps_code_small(c as int, n as int, length, max);
            assert(code == c);
            words_in_line(lengths, length, 0, code, max);
        } else {
            nothing_left(lengths, length, 0, code);
        }
        // Those of greater lengths.
        if length < max {
            code_after_is_counted(lengths, length, 0, code);
            lemma_pow2_unfold((max - length) as nat);
            let q = pow2((max - length - 1) as nat) as int;
            assert((2 * (c + n)) * q == (c + n) * p) by (nonlinear_arith)
                requires p == 2 * q;
            assert(c + n <= 0x8000_0000) by {
                lemma_pow2_adds((max - length) as nat, length as nat);
                let t = pow2(length as nat) as int;
                assert(c + n <= t) by (nonlinear_arith)
                    requires (c + n) * p <= p * t, p >= 1;
                if length < 31 {
                    lemma_pow2_strictly_increases(length as nat, 31);
                }
            }
            doubled((c + n) as u32);
            canonical_in_line(lengths, (length + 1) as u32, max, code1, 2 * (c + n));
        } else {
            assert(rest.len() == 0);
        }
        assert(c * p <= (c + n) * p) by (nonlinear_arith)
            requires n >= 0, p >= 1;
        assert forall|k: int| 0 <= k < words.len() implies {
            &&& 1 <= (#[trigger] words[k]).len <= max
            &&& c * p <= begins(words[k], max)
            &&& ends(words[k], max) <= pow2(max as nat)
        } by {
            if k < first.len() {
                assert(words[k] == first[k]);
            } else {
                assert(words[k] == rest[k - first.len()]);
            }
        }
        assert forall|a: int, b: int| 0 <= a < b < words.len() implies #[trigger] ends(words[a], max)
            <= #[trigger] begins(words[b], max) by {
            if b < first.len() {
                assert(words[a] == first[a] && words[b] == first[b]);
                assert(ends(first[a], max) <= begins(first[b], max));
            } else if a < first.len() {
                assert(words[a] == first[a]);
                assert(words[b] == rest[b - first.len()]);
            } else {
                assert(words[a] == rest[a - first.len()]);
                assert(words[b] == rest[b - first.len()]);
                assert(ends(rest[a - first.len()], max) <= begins(rest[b - first.len()], max));
            }
        }
    }
}

/// A word that is the start of another contains its stretch.
proof fn start_contains(a: CodeWord, b: CodeWord, max: u32)
    requires
        1 <= a.len <= max,
        1 <= b.len <= max,
        max <= 32,
        starts(a, b),
    ensures
        begins(a, max) <= begins(b, max),
        ends(b, max) <= ends(a, max),
        begins(b, max) < ends(b, max),
{
    let d = (b.len - a.len) as u32;
    let p = pow2((max - b.len) as nat) as int;
    let e = pow2(d as nat) as int;
    lemma_pow2_pos((max - b.len) as nat);
    lemma_pow2_pos(d as nat);
    lemma_pow2_adds(d as nat, (max - b.len) as nat);
    assert(pow2((max - a.len) as nat) == e * p);
    assert(d < 32);
    lemma_u32_shr_is_div(b.bits, d);
    let x = a.bits as int;
    let y = b.bits as int;
    assert(leading(b.bits, b.len, a.len) == b.bits >> d);
    assert(x == y / e);
    assert(x * e <= y && y < (x + 1) * e) by (nonlinear_arith)
        requires x == y / e, e >= 1, y >= 0;
    assert(x * (e * p) <= y * p) by (nonlinear_arith)
        requires x * e <= y, p >= 1;
    assert((y + 1) * p <= (x + 1) * (e * p)) by (nonlinear_arith)
        requires y + 1 <= (x + 1) * e, p >= 1;
    assert(y * p < (y + 1) * p) by (nonlinear_arith)
        requires p >= 1;
}

/// A canonical code with room for all its words is free of words that start others,
/// and its words have no bits beyond their lengths.
pub proof fn canonical_is_prefix_free(lengths: Seq<u32>, max: u32)
    requires
        1 <= max <= 32,
        has_room(lengths, max),
    ensures
        lengths_ok(canonical(lengths, max)),
        prefix_free(canonical(lengths, max)),
        forall|k: int|
            0 <= k < canonical(lengths, max).len() && (#[trigger] canonical(lengths, max)[k]).len < 32 ==> canonical(
                lengths,
                max,
            )[k].bits >> canonical(lengths, max)[k].len == 0,
{
    let words = canonical(lengths, max);
    lemma2_to64();
    assert(0 * pow2((max - 1) as nat) == 0) by (nonlinear_arith);
    canonical_in_line(lengths, 1, max, 0, 0);
    assert forall|i: int, j: int| 0 <= i < words.len() && 0 <= j < words.len() && i != j implies !#[trigger] starts(
        words[i],
        words[j],
    ) by {
        assert(1 <= words[i].len <= max);
        assert(1 <= words[j].len <= max);
        if starts(words[i], words[j]) {
            start_contains(words[i], words[j], max);
            if i < j {
                assert(ends(words[i], max) <= begins(words[j], max));
            } else {
                assert(ends(words[j], max) <= begins(words[i], max));
            }
        }
    }
    assert forall|k: int| 0 <= k < words.len() && (#[trigger] words[k]).len < 32 implies words[k].bits >> words[k].len
        == 0 by {
        let w = words[k];
        let p = pow2((max - w.len) as nat) as int;
        let q = pow2(w.len as nat) as int;
        lemma_pow2_pos((max - w.len) as nat);
        lemma_pow2_pos(w.len as nat);
        lemma_pow2_adds((max - w.len) as nat, w.len as nat);
        let x = w.bits as int;
        assert(x < q) by (nonlinear_arith)
            requires (x + 1) * p <= p * q, p >= 1;
        lemma_u32_shr_is_div(w.bits, w.len);
        assert(x / q == 0) by (nonlinear_arith)
            requires 0 <= x < q;
    }
}

/// A word of a canonical code that stands at some position is read there.
pub proof fn canonical_word_is_read(lengths: Seq<u32>, max: u32, k: int, order: BitOrder, data: Seq<u8>, pos: int)
    requires
        1 <= max <= 32,
        has_room(lengths, max),
        0 <= k < canonical(lengths, max).len(),
        word_stands(canonical(lengths, max)[k], order, data, pos),
    ensures
        symbol_at(canonical(lengths, max), order, data, pos) == Ok::<(i32, int), ErrorKind>(
            (canonical(lengths, max)[k].value, pos + canonical(lengths, max)[k].len),
        ),
{
    canonical_is_prefix_free(lengths, max);
    written_word_is_read(canonical(lengths, max), k, order, data, pos);
}

} // verus!
