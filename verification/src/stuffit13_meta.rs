use vstd::prelude::*;
use crate::prefix_code::{
    lengths_ok, prefix_free, reversed, reversed_bit, start_has_same_bits, starts, CodeWord,
};
use crate::stuffit13_tables::{
    codes_stand_alone, low_part, meta_code, meta_length, meta_lengths_are_small, meta_words,
};

verus! {

// The code in which word lengths are spelled can be read.

proof fn masks(a: u32)
    by (bit_vector)
    ensures
        a & 3u32 == a % 4u32 && (1u32 << 2u32) == 4u32,
        a & 7u32 == a % 8u32 && (1u32 << 3u32) == 8u32,
        a & 15u32 == a % 16u32 && (1u32 << 4u32) == 16u32,
        a & 31u32 == a % 32u32 && (1u32 << 5u32) == 32u32,
        a & 63u32 == a % 64u32 && (1u32 << 6u32) == 64u32,
        a & 127u32 == a % 128u32 && (1u32 << 7u32) == 128u32,
        a & 255u32 == a % 256u32 && (1u32 << 8u32) == 256u32,
        a & 511u32 == a % 512u32 && (1u32 << 9u32) == 512u32,
        a & 1023u32 == a % 1024u32 && (1u32 << 10u32) == 1024u32,
        a & 2047u32 == a % 2048u32 && (1u32 << 11u32) == 2048u32,
        a & 4095u32 == a % 4096u32 && (1u32 << 12u32) == 4096u32,
{
}

proof fn one_more_equal(a: u32, b: u32, n: u32)
    by (bit_vector)
    requires
        n < 31u32,
        a & (((1u32 << n) - 1u32) as u32) == b & (((1u32 << n) - 1u32) as u32),
        (a >> n) & 1u32 == (b >> n) & 1u32,
    ensures
        a & (((1u32 << ((n + 1u32) as u32)) - 1u32) as u32) == b & (((1u32 << ((n + 1u32) as u32)) - 1u32) as u32),
{
}

proof fn none_equal(a: u32, b: u32)
    by (bit_vector)
    ensures
        a & (((1u32 << 0u32) - 1u32) as u32) == b & (((1u32 << 0u32) - 1u32) as u32),
{
}

/// Codes that agree on their low bits are worth the same there.
proof fn low_bits_equal(a: u32, b: u32, n: u32)
    requires
        n <= 12,
        forall|t: u32| #![trigger a >> t] t < n ==> (a >> t) & 1u32 == (b >> t) & 1u32,
    ensures
        a & (((1u32 << n) - 1u32) as u32) == b & (((1u32 << n) - 1u32) as u32),
    decreases n,
{
    if n == 0 {
        none_equal(a, b);
    } else {
        let m = (n - 1) as u32;
        low_bits_equal(a, b, m);
        assert((a >> m) & 1u32 == (b >> m) & 1u32);
        one_more_equal(a, b, m);
    }
}

proof fn low_parts_equal(a: u32, b: u32, n: u32)
    requires
        2 <= n <= 12,
        forall|t: u32| #![trigger a >> t] t < n ==> (a >> t) & 1u32 == (b >> t) & 1u32,
    ensures
        low_part(a, n) == low_part(b, n),
{
    low_bits_equal(a, b, n);
    masks(a);
    masks(b);
}

proof fn meta_word(n: nat, i: int)
    requires
        0 <= i < n,
    ensures
        meta_words(n).len() == n,
        meta_words(n)[i] == (CodeWord {
            len: meta_length(i),
            bits: reversed(meta_code(i), meta_length(i) as nat, 0),
            value: i as i32,
        }),
    decreases n,
{
    if n > 1 {
        meta_word(
            (n - 1) as nat,
            if i < n - 1 {
                i
            } else {
                0
            },
        );
    } else {
        assert(meta_words(0) =~= seq![]);
    }
}

/// Word `i` is that of symbol `i` and has no bits but its own.
proof fn meta_word_is_small(i: int)
    requires
        0 <= i < 37,
    ensures
        meta_words(37).len() == 37,
        meta_words(37)[i].value == i,
        meta_words(37)[i].bits >> meta_words(37)[i].len == 0,
        2 <= meta_words(37)[i].len <= 12,
{
    meta_word(37, i);
    meta_lengths_are_small(i);
    reversed_bit(meta_code(i), meta_length(i), 0);
}

proof fn meta_words_differ(i: int, j: int)
    requires
        0 <= i < 37,
        0 <= j < 37,
        i != j,
    ensures
        !starts(meta_words(37)[i], meta_words(37)[j]),
{
    let x = meta_words(37)[i];
    let y = meta_words(37)[j];
    meta_word(37, i);
    meta_word(37, j);
    meta_lengths_are_small(i);
    meta_lengths_are_small(j);
    if starts(x, y) {
        let a = meta_code(i);
        let b = meta_code(j);
        assert forall|t: u32| #![trigger a >> t] t < x.len implies (a >> t) & 1u32 == (b >> t) & 1u32 by {
            reversed_bit(a, x.len, t);
            reversed_bit(b, y.len, t);
            start_has_same_bits(x, y, t);
        }
        low_parts_equal(a, b, x.len);
        codes_stand_alone(i, j);
    }
}

/// No word of the code in which word lengths are spelled is the start of another.
pub proof fn meta_code_is_prefix_free()
    ensures
        meta_words(37).len() == 37,
        prefix_free(meta_words(37)),
        lengths_ok(meta_words(37)),
        forall|i: int|
            0 <= i < 37 ==> (#[trigger] meta_words(37)[i]).value == i && meta_words(37)[i].bits >> meta_words(37)[i].len
                == 0,
{
    let words = meta_words(37);
    meta_word_is_small(0);
    assert forall|i: int| 0 <= i < 37 implies (#[trigger] words[i]).value == i && words[i].bits >> words[i].len == 0 && 2
        <= words[i].len <= 12 by {
        meta_word_is_small(i);
    }
    assert forall|i: int, j: int| 0 <= i < words.len() && 0 <= j < words.len() && i != j implies !#[trigger] starts(
        words[i],
        words[j],
    ) by {
        meta_words_differ(i, j);
    }
}

} // verus!
