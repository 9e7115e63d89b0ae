use vstd::prelude::*;
use vstd::arithmetic::power2::{lemma2_to64, lemma_pow2_unfold, pow2};
use crate::sitx::cyanide::{counted, ranked_freqs, ranked_symbol, Triple, MARKOV_GROUPS};
use crate::sitx::darkhorse::{self, class_base, class_bits, guess_distance, remembered, window_size};
use crate::sitx::iron::{self, faded, fading, fancy_next, sunk, traded, FancyState};
use crate::sitx::names::{decimal, digit, digits, name_of};
use crate::sitx::stream_laws::{method_number, Packed};

verus! {

// The fixed parts of the methods: classes of distances, windows, sets of weights, groups
// of contexts, and names.

// === distances ================================================================

/// From 4 on each class of distances starts where the one before it ends: a class tells
/// apart 2 to as many distances as it has bits, and every second class has a bit more.
pub proof fn classes_follow_each_other(class: int)
    requires
        4 <= class < 59,
    ensures
        class_base(4) == 4,
        class_bits(4) == 1,
        class_base(class + 1) == class_base(class) + pow2(class_bits(class)),
        class_bits(class + 1) == class_bits(class) + (if class % 2 == 1 {
            1int
        } else {
            0
        }),
{
    lemma2_to64();
    assert(pow2(1) == 2);
    assert(class_base(4) == (2 + 4int % 2) * pow2((4int / 2 - 1) as nat));
    assert(2 * 2 == 4) by (nonlinear_arith);
    let k = (class / 2 - 1) as nat;
    let p = pow2(k) as int;
    lemma_pow2_unfold(k + 1);
    if class % 2 == 1 {
        assert((class + 1) / 2 - 1 == k + 1);
        assert((class + 1) % 2 == 0);
        assert(2 * (2 * p) == 3 * p + p) by (nonlinear_arith);
    } else {
        assert((class + 1) / 2 - 1 == k);
        assert((class + 1) % 2 == 1);
        assert(3 * p == 2 * p + p) by (nonlinear_arith);
    }
}

/// A window has 2 to as many bytes as the header says, but 2 to the 20 at least.
pub proof fn windows_are_powers_of_two(b: u8)
    ensures
        window_size(b) == pow2(if b < 20 {
            20
        } else {
            b as nat
        }),
{
    lemma2_to64();
}

/// The byte that is guessed to come behind a match is the one that would come next if the
/// match went on, counted from where the match ends.
pub proof fn guess_goes_on_with_the_match(offs: int, len: int)
    requires
        offs >= 0,
        len >= 0,
    ensures
        1 <= guess_distance(offs, len) <= offs + 1,
        (guess_distance(offs, len) + len) % (offs + 1) == 0,
{
    let d = offs + 1;
    let q = len / d;
    let r = len % d;
    assert(len == d * q + r && 0 <= r < d) by (nonlinear_arith)
        requires q == len / d, r == len % d, d > 0;
    assert((d - r + len) % d == 0) by (nonlinear_arith)
        requires len == d * q + r, d > 0;
}

/// A distance that is used again comes before the others, which keep their order; a new one
/// comes before all, and the last is forgotten.
pub proof fn distances_come_to_the_front(table: Seq<u64>, k: int, distance: u64)
    requires
        table.len() == 4,
        0 <= k < 4,
    ensures
        remembered(table, k, table[k]) == seq![table[k]] + table.remove(k),
        remembered(table, 3, distance) == seq![distance, table[0], table[1], table[2]],
{
    assert(remembered(table, k, table[k]) =~= seq![table[k]] + table.remove(k));
    assert(remembered(table, 3, distance) =~= seq![distance, table[0], table[1], table[2]]);
}

/// No two sets of weights share one: four for what comes by place, one for each step of
/// picking a distance, four and one more, sixteen for low bits, four times sixteen for short
/// lengths, 256 for long ones, four times 64 for classes, ten times 32 for middle distances,
/// and sixteen times 256 for literals, once and twice more by the guess.
pub proof fn weights_are_not_shared()
    ensures
        darkhorse::FLAG + 4 <= darkhorse::FLAG2,
        darkhorse::FLAG2 < darkhorse::RECENCY1 < darkhorse::RECENCY2 < darkhorse::RECENCY3 < darkhorse::RECENCY,
        darkhorse::RECENCY + 4 <= darkhorse::LEN,
        darkhorse::LEN < darkhorse::DISTLOW,
        darkhorse::DISTLOW + 16 <= darkhorse::SHORT,
        darkhorse::SHORT + 4 * 16 <= darkhorse::LONG,
        darkhorse::LONG + 256 <= darkhorse::DISTLEN,
        darkhorse::DISTLEN + 4 * 64 <= darkhorse::DIST,
        darkhorse::DIST + 10 * 32 <= darkhorse::LIT,
        darkhorse::LIT + 16 * 256 <= darkhorse::LIT2,
        darkhorse::LIT2 + 2 * 16 * 256 <= darkhorse::NUM_WEIGHTS,
        2 * darkhorse::INITIAL_WEIGHT == 0x1000,
        iron::BYTELEN + 8 <= iron::BYTELEN2,
        iron::BYTELEN2 + 8 * 8 <= iron::BYTEBIT,
        iron::BYTEBIT + 8 * 128 <= iron::COUNTLEN,
        iron::COUNTLEN + 4 * 16 * 24 <= iron::COUNTLEN2,
        iron::COUNTLEN2 + 256 * 24 <= iron::COUNTBIT,
        iron::COUNTBIT + 24 * 24 <= iron::NUM_WEIGHTS,
        iron::MAIN + 4 <= iron::LAST,
        iron::LAST + 4 * 256 <= iron::PAST,
        iron::PAST + 4 * 4 * 256 <= iron::NUM_FREQS,
{
}

// === ranks ====================================================================

/// What a byte loses when it lies 2 to the `j` bytes back.
pub open spec fn loses(j: int) -> int {
    if j == 0 {
        0x3801
    } else {
        pow2((11 - j) as nat) as int
    }
}

/// In all a byte loses as much as it gained, once it lies 2 to the 11 bytes back.
pub proof fn gain_is_lost_again()
    ensures
        loses(0) + loses(1) + loses(2) + loses(3) + loses(4) + loses(5) + loses(6) + loses(7) + loses(8) + loses(9)
            + loses(10) + loses(11) == 0x4000,
        forall|j: int| 0 <= j < 12 ==> #[trigger] fading(j) == loses(j),
{
    lemma2_to64();
    assert forall|j: int| 0 <= j < 12 implies #[trigger] fading(j) == loses(j) by {
        shifted_right();
        assert(j == 0 || j == 1 || j == 2 || j == 3 || j == 4 || j == 5 || j == 6 || j == 7 || j == 8 || j == 9 || j
            == 10 || j == 11);
    }
}

proof fn shifted_right()
    by (bit_vector)
    ensures
        0x800u32 >> 1u32 == 1024u32,
        0x800u32 >> 2u32 == 512u32,
        0x800u32 >> 3u32 == 256u32,
        0x800u32 >> 4u32 == 128u32,
        0x800u32 >> 5u32 == 64u32,
        0x800u32 >> 6u32 == 32u32,
        0x800u32 >> 7u32 == 16u32,
        0x800u32 >> 8u32 == 8u32,
        0x800u32 >> 9u32 == 4u32,
        0x800u32 >> 10u32 == 2u32,
        0x800u32 >> 11u32 == 1u32,
{
}

/// What byte `b` loses because of the places 2 to the `j` and more back.
pub open spec fn lost_from(history: Seq<u8>, b: u8, j: int) -> int
    decreases 12 - j,
{
    if j >= 12 {
        0
    } else {
        (if pow2(j as nat) <= history.len() && history[history.len() - pow2(j as nat)] == b {
            loses(j)
        } else {
            0
        }) + lost_from(history, b, j + 1)
    }
}

proof fn fading_takes_weight(f: FancyState, byte: u8, j: int, b: u8)
    requires
        f.weights.len() == 257,
        0 <= j,
    ensures
        faded(f, byte, j).weights.len() == 257,
        (f.weights[b as int] - faded(f, byte, j).weights[b as int] - lost_from(f.history, b, j)) % 0x1_0000_0000 == 0,
        faded(f, byte, j).history == f.history,
    decreases 12 - j,
{
    if j < 12 {
        gain_is_lost_again();
        let n = pow2(j as nat) as int;
        if n > f.history.len() {
            fading_takes_weight(f, byte, j + 1, b);
        } else {
            assert(fading(j) == loses(j));
            let x = f.history[f.history.len() - n];
            let weights = f.weights.update(x as int, f.weights[x as int].wrapping_sub(fading(j)));
            let ranks = if x != byte {
                sunk(f.ranks, f.ranks.index_of(x as u32), weights)
            } else {
                f.ranks
            };
            fading_takes_weight(FancyState { ranks, weights, ..f }, byte, j + 1, b);
        }
    }
}

/// A byte that comes gains 0x4000. At the same time those that lie 1, 2, 4 and so on up to
/// 2048 bytes back lose what belongs to their distance. Weights are numbers of 32 bits.
pub proof fn weights_fade(f: FancyState, value: int, b: u8)
    requires
        f.weights.len() == 257,
    ensures
        ({
            let (byte, g) = fancy_next(f, value);
            let gain = if b == byte {
                0x4000int
            } else {
                0
            };
            &&& (f.weights[b as int] + gain - lost_from(f.history, b, 0) - g.weights[b as int]) % 0x1_0000_0000 == 0
            &&& g.history == f.history.push(byte)
        }),
{
    let byte = (f.ranks[(value + 1) % 256] as int % 256) as u8;
    let f1 = FancyState {
        ranks: iron::lifted(f.ranks, f.ranks.index_of(byte as u32)),
        weights: f.weights.update(byte as int, f.weights[byte as int].wrapping_add(0x4000)),
        history: f.history,
    };
    fading_takes_weight(f1, byte, 0, b);
    let w = f.weights[b as int] as int;
    let w1 = f1.weights[b as int] as int;
    let x = faded(f1, byte, 0).weights[b as int] as int;
    let l = lost_from(f.history, b, 0);
    let gain = if b == byte {
        0x4000int
    } else {
        0
    };
    assert((w1 - (w + gain)) % 0x1_0000_0000 == 0);
    assert((w + gain - l - x) % 0x1_0000_0000 == 0) by {
        assert((w1 - x - l) % 0x1_0000_0000 == 0);
    }
}

/// The bytes 1, 2, 4 and so on up to 2048 back fade one after the other, the nearest first.
/// Each sinks as soon as it has lost weight, unless it is the byte that has just come.
pub proof fn fading_bytes_sink(f: FancyState, byte: u8, j: int)
    requires
        0 <= j < 12,
    ensures
        ({
            let n = pow2(j as nat) as int;
            let b = f.history[f.history.len() - n];
            let weights = f.weights.update(b as int, f.weights[b as int].wrapping_sub(loses(j) as u32));
            let ranks = if b == byte {
                f.ranks
            } else {
                sunk(f.ranks, f.ranks.index_of(b as u32), weights)
            };
            let g = FancyState { ranks, weights, history: f.history };
            faded(f, byte, j) == if n <= f.history.len() {
                if j == 11 {
                    g
                } else {
                    faded(g, byte, j + 1)
                }
            } else {
                if j == 11 {
                    f
                } else {
                    faded(f, byte, j + 1)
                }
            }
        }),
{
    gain_is_lost_again();
    assert(fading(j) == loses(j));
    reveal_with_fuel(faded, 3);
}

/// A byte that comes is put before all others, which keep their order, and gains weight before
/// any fades.
pub proof fn coming_byte_is_lifted_first(f: FancyState, value: int)
    requires
        f.ranks.len() == 257,
        0 <= value < 256,
        f.ranks[(value + 1) % 256] < 256,
        f.ranks.no_duplicates(),
        f.weights.len() == 257,
    ensures
        ({
            let k = (value + 1) % 256;
            let byte = f.ranks[k] as u8;
            let g = FancyState {
                ranks: seq![f.ranks[k]] + f.ranks.remove(k),
                weights: f.weights.update(byte as int, f.weights[byte as int].wrapping_add(0x4000)),
                history: f.history,
            };
            &&& fancy_next(f, value).0 == byte
            &&& fancy_next(f, value).1.ranks == faded(g, byte, 0).ranks
            &&& fancy_next(f, value).1.weights == faded(g, byte, 0).weights
        }),
{
    let k = (value + 1) % 256;
    assert(f.ranks.contains(f.ranks[k]));
    assert(f.ranks.index_of(f.ranks[k]) == k);
    lifting_moves_one(f.ranks, k);
}

proof fn lifting_moves_one(ranks: Seq<u32>, k: int)
    requires
        0 <= k < ranks.len(),
    ensures
        iron::lifted(ranks, k) == seq![ranks[k]] + ranks.remove(k),
    decreases k,
{
    if k == 0 {
        assert(ranks =~= seq![ranks[0]] + ranks.remove(0));
    } else {
        let t = traded(ranks, k - 1);
        lifting_moves_one(t, k - 1);
        assert(seq![t[k - 1]] + t.remove(k - 1) =~= seq![ranks[k]] + ranks.remove(k));
    }
}

/// A value sinks behind those that weigh more than it, one after the other, and stops before
/// the first that does not.
pub proof fn values_sink(ranks: Seq<u32>, k: int, weights: Seq<u32>) -> (to: int)
    requires
        ranks.len() == 257,
        0 <= k < 257,
    ensures
        k <= to < 257,
        sunk(ranks, k, weights).len() == 257,
        sunk(ranks, k, weights)[to] == ranks[k],
        forall|i: int| k <= i < to ==> #[trigger] sunk(ranks, k, weights)[i] == ranks[i + 1],
        forall|i: int| k <= i < to ==> weights[#[trigger] sunk(ranks, k, weights)[i] as int] > weights[ranks[k] as int],
        to < 256 ==> sunk(ranks, k, weights)[to + 1] == ranks[to + 1] && weights[ranks[to + 1] as int]
            <= weights[ranks[k] as int],
        forall|i: int| 0 <= i < k || to < i < 257 ==> #[trigger] sunk(ranks, k, weights)[i] == ranks[i],
    decreases 257 - k,
{
    if k + 1 >= 257 || weights[ranks[k + 1] as int] <= weights[ranks[k] as int] {
        k
    } else {
        let t = traded(ranks, k);
        assert(t[k + 1] == ranks[k] && t[k] == ranks[k + 1]);
        let to = values_sink(t, k + 1, weights);
        let s = sunk(ranks, k, weights);
        assert(s[k] == t[k]);
        assert forall|i: int| k <= i < to implies #[trigger] s[i] == ranks[i + 1] by {
            if i > k {
                assert(s[i] == t[i + 1]);
            }
        }
        to
    }
}

// === three symbols ============================================================

/// The group of counts for a symbol goes by the three before it, the nearest last. After a
/// zero three back, each pair has its own; the others share some of these, and some among
/// themselves.
pub proof fn contexts_have_groups(a: int, b: int, c: int)
    requires
        0 <= a <= 2,
        0 <= b <= 2,
        0 <= c <= 2,
    ensures
        ({
            let group = MARKOV_GROUPS@[9 * a + 3 * b + c] as int;
            &&& a == 0 ==> group == 3 * b + c
            &&& a > 0 && b == 1 ==> group == 3 * a + c
            &&& a == 1 && b == 0 ==> group == (if c == 0 {
                3int
            } else {
                8 + c
            })
            &&& a == 2 && b == 0 ==> group == (if c == 0 {
                6int
            } else {
                3 * c - 1
            })
            &&& a > 0 && b == 2 && c < 2 ==> group == 10 + a
            &&& a == 1 && b == 2 && c == 2 ==> group == 8
            &&& a == 2 && b == 2 && c == 2 ==> group == 13
        }),
{
    assert(a == 0 || a == 1 || a == 2);
    assert(b == 0 || b == 1 || b == 2);
    assert(c == 0 || c == 1 || c == 2);
}

/// The three symbols are coded by rising counts, each one above its count, and none is left
/// out.
pub proof fn symbols_are_ranked_by_count(t: Triple)
    requires
        t.a < u32::MAX,
        t.b < u32::MAX,
        t.c < u32::MAX,
    ensures
        ({
            let x = ranked_symbol(t, 0);
            let y = ranked_symbol(t, 1);
            let z = ranked_symbol(t, 2);
            &&& t.at(x) <= t.at(y) <= t.at(z)
            &&& x != y && y != z && x != z
            &&& 0 <= x <= 2 && 0 <= y <= 2 && 0 <= z <= 2
            &&& ranked_freqs(t) == seq![(t.at(x) + 1) as u32, (t.at(y) + 1) as u32, (t.at(z) + 1) as u32]
        }),
{
}

/// A symbol that comes gains 2. Before that all counts are halved if they and 3 come to more
/// than 128, or to more than 4096 as long as nothing but zeros has come. The first zero behind
/// something else, where there were zeros before, halves all and gains 3.
pub proof fn counts_of_three_grow(g: Triple, t: int, group: int, quiet: bool, i: int)
    requires
        0 <= t <= 2,
        0 <= i <= 2,
        g.a + g.b + g.c < 0x1000_0000,
    ensures
        ({
            let comes_back = t == 0 && !quiet && group == 0;
            let calm = quiet && t == 0;
            let limit = if calm {
                4096int
            } else {
                128
            };
            let halve = comes_back || g.a + g.b + g.c + 3 > limit;
            let n = if halve {
                g.at(i) as int / 2
            } else {
                g.at(i) as int
            };
            let (g1, quiet1) = counted(g, t, group, quiet);
            &&& g1.at(i) == n + (if i != t {
                0int
            } else if comes_back {
                3
            } else {
                2
            })
            &&& quiet1 == (comes_back || calm)
        }),
{
}

// === names ====================================================================

/// What a preprocessor is listed under behind the method.
pub open spec fn listed_preprocessor(n: i64) -> Seq<char> {
    match n {
        0 => "+English"@,
        1 => "+Biff"@,
        2 => "+x86"@,
        3 => "+PEFF"@,
        4 => "+M68k"@,
        5 => "+Sparc"@,
        6 => "+TIFF"@,
        7 => "+WAV"@,
        8 => "+WRT"@,
        _ => Seq::<char>::empty(),
    }
}

/// Each method is listed under its name, with that of the preprocessor if it has one, and
/// one without a name under its number.
pub proof fn methods_have_names(p: Packed, preprocess: i64, other: i64)
    requires
        other < 0 || other > 6,
    ensures
        name_of(method_number(p), preprocess) == (match p {
            Packed::Stored(_) => "Method "@ + decimal(-1),
            Packed::Brimstone { .. } => "Brimstone/PPMd"@,
            Packed::Cyanide(_) => "Cyanide"@,
            Packed::Darkhorse { .. } => "Darkhorse"@,
            Packed::Blend(_) => "Blend"@,
            Packed::Scrambled { .. } => "None"@,
            Packed::Iron { .. } => "Iron"@,
        }) + listed_preprocessor(preprocess),
        name_of(3, preprocess) == "Deflate"@ + listed_preprocessor(preprocess),
        name_of(other, preprocess) == "Method "@ + decimal(other as int) + listed_preprocessor(preprocess),
{
}

/// The number that decimal digits stand for.
pub open spec fn read_digits(s: Seq<char>) -> int
    decreases s.len(),
{
    if s.len() == 0 {
        0
    } else {
        10 * read_digits(s.drop_last()) + (s.last() as int - '0' as int)
    }
}

/// A number is written in its decimal digits, and a negative one with a sign in front.
pub proof fn numbers_are_decimal(n: nat)
    ensures
        read_digits(digits(n)) == n,
        digits(n).len() > 0,
        n > 0 ==> digits(n)[0] != '0' && decimal(-n) == "-"@ + digits(n),
        decimal(n as int) == digits(n),
    decreases n,
{
    let d = (n % 10) as int;
    let one = digit(d);
    reveal_strlit("0");
    reveal_strlit("1");
    reveal_strlit("2");
    reveal_strlit("3");
    reveal_strlit("4");
    reveal_strlit("5");
    reveal_strlit("6");
    reveal_strlit("7");
    reveal_strlit("8");
    reveal_strlit("9");
    assert(one.len() == 1 && one[0] as int - '0' as int == d);
    assert(one.drop_last() =~= Seq::<char>::empty());
    assert(read_digits(one) == d) by {
        reveal_with_fuel(read_digits, 2);
    }
    if n >= 10 {
        numbers_are_decimal(n / 10);
        let s = digits(n);
        assert(s.drop_last() =~= digits(n / 10));
        assert(s.last() == one[0]);
    }
}

} // verus!
