use vstd::prelude::*;
use vstd::arithmetic::power2::{lemma2_to64, lemma_pow2_pos, lemma_pow2_strictly_increases, lemma_pow2_unfold, pow2};
use crate::error::ErrorKind;
use crate::lzss::{zero_ring, Ring};
use crate::sitx::darkhorse::{
    bits_behind, class_base, class_bits, dark_start, distance_next, framed, guess_distance, length_next,
    literal_guided, literal_next, literal_rest, number_next, plain_bits, recency_next, remembered, token_next,
    tokens_from, weigh, window_size, DarkState, Dec, Token, DIST, DISTLEN, DISTLOW, FLAG, FLAG2, INITIAL_WEIGHT,
    LEN, LIT, LIT2, LONG, NUM_WEIGHTS, RECENCY, RECENCY1, RECENCY2, RECENCY3, SHORT,
};
use crate::sitx::range_encoding::{
    after_item, after_items, all_easy, easy_items_fit, is_easy, items_written, reading_in_parts, reads_items,
    sent_items_are_read, Item,
};
use crate::sitx::rangecoder::{adapted, RangeState};
use crate::sitx::sending::{digit, low_bits, send_nothing, then_send, Plan};

verus! {

// What a writer of the format sends, item by item under the same weights, is read
// back.

/// A bit under weight `i`, which adapts.
pub open spec fn send_bit(w: Seq<u32>, i: int, bit: int) -> Plan {
    Plan {
        items: seq![Item::Bit { bit: bit as u32, weight: w[i], shift: 12 }],
        w: w.update(i, adapted(w[i], bit as u32, 5)),
    }
}

/// The `num` low bits of `v` behind those in `val`, from the set at `base`.
pub open spec fn send_bits(w: Seq<u32>, base: int, num: nat, val: int, v: int) -> Plan
    decreases num,
{
    if num == 0 {
        send_nothing(w)
    } else {
        let bit = digit(v, (num - 1) as nat);
        let first = send_bit(w, base + val, bit);
        then_send(first, send_bits(first.w, base, (num - 1) as nat, 2 * val + bit, v))
    }
}

pub open spec fn send_number(w: Seq<u32>, base: int, num: nat, v: int) -> Plan {
    send_bits(w, base, num, 1, v)
}

/// The `k` low bits of `b`, behind those in `val`.
pub open spec fn send_literal_rest(w: Seq<u32>, row: int, val: int, b: int, k: nat) -> Plan
    decreases k,
{
    if k == 0 {
        send_nothing(w)
    } else {
        let bit = digit(b, (k - 1) as nat);
        let first = send_bit(w, LIT + row * 0x100 + val, bit);
        then_send(first, send_literal_rest(first.w, row, 2 * val + bit, b, (k - 1) as nat))
    }
}

/// The same while the bits agree with those of the guess.
pub open spec fn send_literal_guided(w: Seq<u32>, row: int, val: int, g: int, b: int, k: nat) -> Plan
    decreases k,
{
    if k == 0 {
        send_nothing(w)
    } else {
        let gbit = (g / 0x80) % 2;
        let bit = digit(b, (k - 1) as nat);
        let first = send_bit(w, LIT2 + (row * 0x100 + val) * 2 + gbit, bit);
        then_send(
            first,
            if bit != gbit {
                send_literal_rest(first.w, row, 2 * val + bit, b, (k - 1) as nat)
            } else {
                send_literal_guided(first.w, row, 2 * val + bit, 2 * g, b, (k - 1) as nat)
            },
        )
    }
}

pub open spec fn send_literal(w: Seq<u32>, prev: u8, guess: Option<u8>, b: u8) -> Plan {
    let row = prev as int / 16;
    match guess {
        None => send_literal_rest(w, row, 1, b as int, 8),
        Some(g) => send_literal_guided(w, row, 1, g as int, b as int, 8),
    }
}

/// A length, less 2.
pub open spec fn send_length(w: Seq<u32>, idx: int, l: int) -> Plan {
    if l < 16 {
        let first = send_bit(w, LEN as int, 0);
        then_send(first, send_number(first.w, SHORT + 16 * idx, 4, l))
    } else {
        let first = send_bit(w, LEN as int, 1);
        then_send(first, send_number(first.w, LONG as int, 8, l - 16))
    }
}

/// The bits of `v` at the places from `i - 1` down to 4, sent as they are.
pub open spec fn plain_items(i: nat, v: u64) -> Seq<Item>
    decreases i,
{
    if i <= 4 {
        seq![]
    } else {
        seq![Item::Plain { bit: ((v >> ((i - 1) as u64)) & 1u64) as u32 }] + plain_items((i - 1) as nat, v)
    }
}

/// The set for the class of a distance.
pub open spec fn class_set(len: int) -> int {
    DISTLEN + 64 * (if len - 2 > 3 {
        3
    } else {
        len - 2
    })
}

/// A distance, less 1, of the given class.
pub open spec fn send_distance(w: Seq<u32>, len: int, class: int, offs: int) -> Plan {
    let first = send_number(w, class_set(len), 6, class);
    if class < 4 {
        first
    } else if class < 14 {
        then_send(
            first,
            send_number(first.w, DIST + 32 * (class - 4), class_bits(class), offs - class_base(class)),
        )
    } else {
        let v = (offs - class_base(class)) as u64;
        let high = Plan { items: plain_items(class_bits(class), v), w: first.w };
        then_send(first, then_send(high, send_number(first.w, DISTLOW as int, 4, (v % 16) as int)))
    }
}

/// The distance is one of the class.
pub open spec fn in_class(class: int, offs: int) -> bool {
    if 0 <= class < 4 {
        offs == class
    } else {
        class < 60 && class_base(class) <= offs < class_base(class) + pow2(class_bits(class))
    }
}

/// Which distance is repeated; -1 for the last one and a single byte.
pub open spec fn send_recency(w: Seq<u32>, idx: int, k: int) -> Plan {
    if k <= 0 {
        let first = send_bit(w, RECENCY1 as int, 0);
        then_send(first, send_bit(first.w, RECENCY + idx, k + 1))
    } else {
        let first = send_bit(w, RECENCY1 as int, 1);
        if k == 1 {
            then_send(first, send_bit(first.w, RECENCY2 as int, 0))
        } else {
            let second = send_bit(first.w, RECENCY2 as int, 1);
            then_send(first, then_send(second, send_bit(second.w, RECENCY3 as int, k - 2)))
        }
    }
}

/// What a writer has to say: a literal, a match at a new distance, a match at one of
/// the last distances, or a single byte at the last one.
pub enum Message {
    Literal(u8),
    New { class: int, offs: int, len: int },
    Again { k: int, len: int },
    Once,
}

pub open spec fn message_ok(m: Message) -> bool {
    match m {
        Message::Literal(b) => true,
        Message::New { class, offs, len } => 0 <= class && in_class(class, offs) && 2 <= len <= 272,
        Message::Again { k, len } => 0 <= k <= 3 && 2 <= len <= 273,
        Message::Once => true,
    }
}

/// The writer between two messages.
pub struct Writer {
    pub w: Seq<u32>,
    pub guess: Option<u8>,
    pub table: Seq<u64>,
    pub ring: Ring,
}

#[verifier::opaque]
pub open spec fn send_message(s: Writer, pos: int, m: Message) -> Plan {
    let idx = pos % 4;
    match m {
        Message::Literal(b) => {
            let first = send_bit(s.w, FLAG + idx, 0);
            then_send(first, send_literal(first.w, s.ring.back(1), s.guess, b))
        },
        Message::New { class, offs, len } => {
            let first = send_bit(s.w, FLAG + idx, 1);
            let second = send_bit(first.w, FLAG2 as int, 0);
            let third = send_length(second.w, idx, len - 2);
            then_send(first, then_send(second, then_send(third, send_distance(third.w, len, class, offs))))
        },
        Message::Again { k, len } => {
            let first = send_bit(s.w, FLAG + idx, 1);
            let second = send_bit(first.w, FLAG2 as int, 1);
            let third = send_recency(second.w, idx, k);
            then_send(first, then_send(second, then_send(third, send_length(third.w, idx, len - 2))))
        },
        Message::Once => {
            let first = send_bit(s.w, FLAG + idx, 1);
            let second = send_bit(first.w, FLAG2 as int, 1);
            then_send(first, then_send(second, send_recency(second.w, idx, -1)))
        },
    }
}

/// The distance, less 1, and length of a match.
pub open spec fn match_of(s: Writer, m: Message) -> (int, int) {
    match m {
        Message::Literal(b) => (0, 0),
        Message::New { class, offs, len } => (offs, len),
        Message::Again { k, len } => (s.table[k] as int, len),
        Message::Once => (s.table[0] as int, 1),
    }
}

/// The bytes that a message stands for.
pub open spec fn message_text(s: Writer, m: Message) -> Seq<u8> {
    match m {
        Message::Literal(b) => seq![b],
        _ => s.ring.copied(match_of(s, m).0 + 1, match_of(s, m).1 as nat),
    }
}

/// The writer after a message.
pub open spec fn after_message(s: Writer, pos: int, m: Message) -> Writer {
    let w = send_message(s, pos, m).w;
    let (offs, len) = match_of(s, m);
    match m {
        Message::Literal(b) => Writer { w, guess: None, table: s.table, ring: s.ring.feed(b) },
        _ => Writer {
            w,
            guess: Some(s.ring.back(guess_distance(offs, len))),
            table: match m {
                Message::New { class, offs, len } => remembered(s.table, 3, offs as u64),
                Message::Again { k, len } => remembered(s.table, k, s.table[k]),
                _ => s.table,
            },
            ring: s.ring.after_copy(offs + 1, len as nat),
        },
    }
}

/// The mark of the end: a length that no new match has.
pub open spec fn send_end(s: Writer, pos: int) -> Plan {
    let first = send_bit(s.w, FLAG + pos % 4, 1);
    let second = send_bit(first.w, FLAG2 as int, 0);
    then_send(first, then_send(second, send_length(second.w, pos % 4, 0x10f)))
}

/// The items for some messages and, if `ended`, for the mark of the end.
pub open spec fn all_items(s: Writer, pos: int, ms: Seq<Message>, ended: bool) -> Seq<Item>
    decreases ms.len(),
{
    if ms.len() == 0 {
        if ended {
            send_end(s, pos).items
        } else {
            seq![]
        }
    } else {
        send_message(s, pos, ms[0]).items + all_items(
            after_message(s, pos, ms[0]),
            pos + message_text(s, ms[0]).len(),
            ms.drop_first(),
            ended,
        )
    }
}

pub open spec fn all_text(s: Writer, pos: int, ms: Seq<Message>) -> Seq<u8>
    decreases ms.len(),
{
    if ms.len() == 0 {
        seq![]
    } else {
        message_text(s, ms[0]) + all_text(
            after_message(s, pos, ms[0]),
            pos + message_text(s, ms[0]).len(),
            ms.drop_first(),
        )
    }
}

pub open spec fn writer_start(window: nat) -> Writer {
    Writer {
        w: Seq::new(NUM_WEIGHTS as nat, |i: int| INITIAL_WEIGHT),
        guess: None,
        table: Seq::new(4, |i: int| 0u64),
        ring: zero_ring(window),
    }
}

// === weights stay within bounds ===============================================

/// No weight rules a value out.
spec fn good(w: Seq<u32>) -> bool {
    w.len() == NUM_WEIGHTS && forall|i: int| 0 <= i < w.len() ==> 1 <= (#[trigger] w[i]) < 0x1000
}

/// The plan can be sent, and leaves good weights.
spec fn sound(p: Plan) -> bool {
    good(p.w) && all_easy(p.items)
}

proof fn adapting_keeps(weight: u32)
    by (bit_vector)
    requires
        1u32 <= weight < 0x1000u32,
    ensures
        1u32 <= weight + (((0x1000u32 - weight) as u32) >> 5u32) < 0x1000u32,
        1u32 <= weight - (weight >> 5u32) < 0x1000u32,
{
}

proof fn bit_is_sound(w: Seq<u32>, i: int, bit: int)
    requires
        good(w),
        0 <= i < NUM_WEIGHTS,
        0 <= bit <= 1,
    ensures
        sound(send_bit(w, i, bit)),
{
    assert(1 <= w[i] < 0x1000);
    adapting_keeps(w[i]);
}

proof fn joining_is_sound(a: Plan, b: Plan)
    requires
        all_easy(a.items),
        sound(b),
    ensures
        sound(then_send(a, b)),
{
    let items = a.items + b.items;
    assert forall|i: int| 0 <= i < items.len() implies is_easy(#[trigger] items[i]) by {
        if i < a.items.len() {
            assert(items[i] == a.items[i]);
        } else {
            assert(items[i] == b.items[i - a.items.len()]);
        }
    }
}

proof fn bits_are_sound(w: Seq<u32>, base: int, num: nat, val: int, v: int)
    requires
        good(w),
        0 <= base,
        1 <= val,
        num > 0 ==> base + (val + 1) * pow2((num - 1) as nat) <= NUM_WEIGHTS,
    ensures
        sound(send_bits(w, base, num, val, v)),
    decreases num,
{
    if num > 0 {
        let bit = digit(v, (num - 1) as nat);
        let p = pow2((num - 1) as nat) as int;
        lemma_pow2_pos((num - 1) as nat);
        assert(val + 1 <= (val + 1) * p) by (nonlinear_arith)
            requires val >= 1, p >= 1;
        bit_is_sound(w, base + val, bit);
        let first = send_bit(w, base + val, bit);
        if num > 1 {
            lemma_pow2_unfold((num - 1) as nat);
            let q = pow2((num - 2) as nat) as int;
            let next = 2 * val + bit;
            assert((next + 1) * q <= (val + 1) * p) by (nonlinear_arith)
                requires p == 2 * q, next + 1 <= 2 * (val + 1), q >= 0;
        }
        bits_are_sound(first.w, base, (num - 1) as nat, 2 * val + bit, v);
        joining_is_sound(first, send_bits(first.w, base, (num - 1) as nat, 2 * val + bit, v));
    }
}

proof fn number_is_sound(w: Seq<u32>, base: int, num: nat, v: int)
    requires
        good(w),
        0 <= base,
        num <= 8,
        base + pow2(num) <= NUM_WEIGHTS,
    ensures
        sound(send_number(w, base, num, v)),
{
    lemma2_to64();
    if num > 0 {
        lemma_pow2_unfold(num);
    }
    bits_are_sound(w, base, num, 1, v);
}

proof fn literal_rest_is_sound(w: Seq<u32>, row: int, val: int, b: int, k: nat)
    requires
        good(w),
        0 <= row < 16,
        k <= 8,
        pow2((8 - k) as nat) <= val < 2 * pow2((8 - k) as nat),
    ensures
        sound(send_literal_rest(w, row, val, b, k)),
    decreases k,
{
    lemma2_to64();
    if k > 0 {
        let bit = digit(b, (k - 1) as nat);
        lemma_pow2_unfold((9 - k) as nat);
        if k > 1 {
            lemma_pow2_strictly_increases((8 - k) as nat, 7);
        }
        bit_is_sound(w, LIT + row * 0x100 + val, bit);
        let first = send_bit(w, LIT + row * 0x100 + val, bit);
        literal_rest_is_sound(first.w, row, 2 * val + bit, b, (k - 1) as nat);
        joining_is_sound(first, send_literal_rest(first.w, row, 2 * val + bit, b, (k - 1) as nat));
    }
}

proof fn literal_guided_is_sound(w: Seq<u32>, row: int, val: int, g: int, b: int, k: nat)
    requires
        good(w),
        0 <= row < 16,
        k <= 8,
        pow2((8 - k) as nat) <= val < 2 * pow2((8 - k) as nat),
    ensures
        sound(send_literal_guided(w, row, val, g, b, k)),
    decreases k,
{
    lemma2_to64();
    if k > 0 {
        let gbit = (g / 0x80) % 2;
        let bit = digit(b, (k - 1) as nat);
        lemma_pow2_unfold((9 - k) as nat);
        if k > 1 {
            lemma_pow2_strictly_increases((8 - k) as nat, 7);
        }
        bit_is_sound(w, LIT2 + (row * 0x100 + val) * 2 + gbit, bit);
        let first = send_bit(w, LIT2 + (row * 0x100 + val) * 2 + gbit, bit);
        literal_rest_is_sound(first.w, row, 2 * val + bit, b, (k - 1) as nat);
        literal_guided_is_sound(first.w, row, 2 * val + bit, 2 * g, b, (k - 1) as nat);
        if bit != gbit {
            joining_is_sound(first, send_literal_rest(first.w, row, 2 * val + bit, b, (k - 1) as nat));
        } else {
            joining_is_sound(first, send_literal_guided(first.w, row, 2 * val + bit, 2 * g, b, (k - 1) as nat));
        }
    }
}

proof fn length_is_sound(w: Seq<u32>, idx: int, l: int)
    requires
        good(w),
        0 <= idx < 4,
    ensures
        sound(send_length(w, idx, l)),
{
    lemma2_to64();
    bit_is_sound(w, LEN as int, 0);
    bit_is_sound(w, LEN as int, 1);
    if l < 16 {
        let first = send_bit(w, LEN as int, 0);
        number_is_sound(first.w, SHORT + 16 * idx, 4, l);
        joining_is_sound(first, send_number(first.w, SHORT + 16 * idx, 4, l));
    } else {
        let first = send_bit(w, LEN as int, 1);
        number_is_sound(first.w, LONG as int, 8, l - 16);
        joining_is_sound(first, send_number(first.w, LONG as int, 8, l - 16));
    }
}

proof fn one_bit_is_small(v: u64, k: u64)
    by (bit_vector)
    requires
        k < 64u64,
    ensures
        (v >> k) & 1u64 <= 1u64,
{
}

proof fn plain_items_are_easy(i: nat, v: u64)
    requires
        i <= 64,
    ensures
        all_easy(plain_items(i, v)),
    decreases i,
{
    if i > 4 {
        one_bit_is_small(v, (i - 1) as u64);
        plain_items_are_easy((i - 1) as nat, v);
        let items = plain_items(i, v);
        assert forall|j: int| 0 <= j < items.len() implies is_easy(#[trigger] items[j]) by {
            if j > 0 {
                assert(items[j] == plain_items((i - 1) as nat, v)[j - 1]);
            }
        }
    }
}

proof fn distance_is_sound(w: Seq<u32>, len: int, class: int, offs: int)
    requires
        good(w),
        2 <= len,
        0 <= class < 60,
    ensures
        sound(send_distance(w, len, class, offs)),
{
    lemma2_to64();
    number_is_sound(w, class_set(len), 6, class);
    let first = send_number(w, class_set(len), 6, class);
    if class >= 4 && class < 14 {
        if class_bits(class) < 5 {
            lemma_pow2_strictly_increases(class_bits(class), 5);
        }
        number_is_sound(first.w, DIST + 32 * (class - 4), class_bits(class), offs - class_base(class));
        joining_is_sound(
            first,
            send_number(first.w, DIST + 32 * (class - 4), class_bits(class), offs - class_base(class)),
        );
    } else if class >= 14 {
        let v = (offs - class_base(class)) as u64;
        let high = Plan { items: plain_items(class_bits(class), v), w: first.w };
        let low = send_number(first.w, DISTLOW as int, 4, (v % 16) as int);
        plain_items_are_easy(class_bits(class), v);
        number_is_sound(first.w, DISTLOW as int, 4, (v % 16) as int);
        joining_is_sound(high, low);
        joining_is_sound(first, then_send(high, low));
    }
}

proof fn recency_is_sound(w: Seq<u32>, idx: int, k: int)
    requires
        good(w),
        0 <= idx < 4,
        -1 <= k <= 3,
    ensures
        sound(send_recency(w, idx, k)),
{
    if k <= 0 {
        bit_is_sound(w, RECENCY1 as int, 0);
        let first = send_bit(w, RECENCY1 as int, 0);
        bit_is_sound(first.w, RECENCY + idx, k + 1);
        joining_is_sound(first, send_bit(first.w, RECENCY + idx, k + 1));
    } else {
        bit_is_sound(w, RECENCY1 as int, 1);
        let first = send_bit(w, RECENCY1 as int, 1);
        bit_is_sound(first.w, RECENCY2 as int, 0);
        bit_is_sound(first.w, RECENCY2 as int, 1);
        let second = send_bit(first.w, RECENCY2 as int, 1);
        if k == 1 {
            joining_is_sound(first, send_bit(first.w, RECENCY2 as int, 0));
        } else {
            bit_is_sound(second.w, RECENCY3 as int, k - 2);
            joining_is_sound(second, send_bit(second.w, RECENCY3 as int, k - 2));
            joining_is_sound(first, then_send(second, send_bit(second.w, RECENCY3 as int, k - 2)));
        }
    }
}

proof fn message_is_sound(s: Writer, pos: int, m: Message)
    requires
        good(s.w),
        message_ok(m),
    ensures
        sound(send_message(s, pos, m)),
{
    reveal(send_message);
    let idx = pos % 4;
    bit_is_sound(s.w, FLAG + idx, 0);
    bit_is_sound(s.w, FLAG + idx, 1);
    match m {
        Message::Literal(b) => {
            let first = send_bit(s.w, FLAG + idx, 0);
            let row = s.ring.back(1) as int / 16;
            lemma2_to64();
            literal_rest_is_sound(first.w, row, 1, b as int, 8);
            if let Some(g) = s.guess {
                literal_guided_is_sound(first.w, row, 1, g as int, b as int, 8);
            }
            joining_is_sound(first, send_literal(first.w, s.ring.back(1), s.guess, b));
        },
        Message::New { class, offs, len } => {
            let first = send_bit(s.w, FLAG + idx, 1);
            let second = send_bit(first.w, FLAG2 as int, 0);
            bit_is_sound(first.w, FLAG2 as int, 0);
            let third = send_length(second.w, idx, len - 2);
            length_is_sound(second.w, idx, len - 2);
            let fourth = send_distance(third.w, len, class, offs);
            distance_is_sound(third.w, len, class, offs);
            joining_is_sound(third, fourth);
            joining_is_sound(second, then_send(third, fourth));
            joining_is_sound(first, then_send(second, then_send(third, fourth)));
        },
        Message::Again { k, len } => {
            let first = send_bit(s.w, FLAG + idx, 1);
            let second = send_bit(first.w, FLAG2 as int, 1);
            bit_is_sound(first.w, FLAG2 as int, 1);
            let third = send_recency(second.w, idx, k);
            recency_is_sound(second.w, idx, k);
            let fourth = send_length(third.w, idx, len - 2);
            length_is_sound(third.w, idx, len - 2);
            joining_is_sound(third, fourth);
            joining_is_sound(second, then_send(third, fourth));
            joining_is_sound(first, then_send(second, then_send(third, fourth)));
        },
        Message::Once => {
            let first = send_bit(s.w, FLAG + idx, 1);
            let second = send_bit(first.w, FLAG2 as int, 1);
            bit_is_sound(first.w, FLAG2 as int, 1);
            let third = send_recency(second.w, idx, -1);
            recency_is_sound(second.w, idx, -1);
            joining_is_sound(second, third);
            joining_is_sound(first, then_send(second, third));
        },
    }
}

proof fn end_is_sound(s: Writer, pos: int)
    requires
        good(s.w),
    ensures
        sound(send_end(s, pos)),
{
    let idx = pos % 4;
    let first = send_bit(s.w, FLAG + idx, 1);
    bit_is_sound(s.w, FLAG + idx, 1);
    let second = send_bit(first.w, FLAG2 as int, 0);
    bit_is_sound(first.w, FLAG2 as int, 0);
    length_is_sound(second.w, idx, 0x10f);
    joining_is_sound(second, send_length(second.w, idx, 0x10f));
    joining_is_sound(first, then_send(second, send_length(second.w, idx, 0x10f)));
}

proof fn all_items_are_easy(s: Writer, pos: int, ms: Seq<Message>, ended: bool)
    requires
        good(s.w),
        forall|i: int| 0 <= i < ms.len() ==> message_ok(#[trigger] ms[i]),
    ensures
        all_easy(all_items(s, pos, ms, ended)),
    decreases ms.len(),
{
    if ms.len() > 0 {
        let next = after_message(s, pos, ms[0]);
        let pos1 = pos + message_text(s, ms[0]).len();
        message_is_sound(s, pos, ms[0]);
        all_items_are_easy(next, pos1, ms.drop_first(), ended);
        let rest = Plan { items: all_items(next, pos1, ms.drop_first(), ended), w: next.w };
        joining_is_sound(send_message(s, pos, ms[0]), rest);
    } else if ended {
        end_is_sound(s, pos);
    }
}

// === reading ==================================================================

/// The decoder after a plan has been read.
spec fn behind(input: Seq<u8>, s: RangeState, p: Plan) -> Dec {
    Dec { s: after_items(input, s, p.items), w: p.w }
}

/// The plan comes next.
spec fn comes(input: Seq<u8>, d: Dec, p: Plan) -> bool {
    reads_items(input, d.s, p.items)
}

proof fn parts_come(input: Seq<u8>, d: Dec, a: Plan, b: Plan)
    requires
        comes(input, d, then_send(a, b)),
    ensures
        comes(input, d, a),
        comes(input, behind(input, d.s, a), b),
        behind(input, d.s, then_send(a, b)) == behind(input, behind(input, d.s, a).s, b),
{
    reading_in_parts(input, d.s, a.items, b.items);
}

proof fn bit_is_read(input: Seq<u8>, d: Dec, i: int, bit: int)
    requires
        0 <= bit <= 1,
        comes(input, d, send_bit(d.w, i, bit)),
    ensures
        weigh(input, d, i) == (bit as u32, behind(input, d.s, send_bit(d.w, i, bit))),
{
    let items = send_bit(d.w, i, bit).items;
    assert(items.drop_first() =~= seq![]);
    assert(after_items(input, d.s, items) == after_items(
        input,
        after_item(input, d.s, items[0]),
        items.drop_first(),
    ));
}

proof fn bits_are_read(input: Seq<u8>, d: Dec, base: int, num: nat, val: int, v: int)
    requires
        comes(input, d, send_bits(d.w, base, num, val, v)),
    ensures
        bits_behind(input, d, base, num, val) == (
            val * pow2(num) + v % (pow2(num) as int),
            behind(input, d.s, send_bits(d.w, base, num, val, v)),
        ),
    decreases num,
{
    lemma2_to64();
    if num == 0 {
        assert(val * 1 == val) by (nonlinear_arith);
        assert(v % 1 == 0);
    } else {
        low_bits(v, num);
        let bit = digit(v, (num - 1) as nat);
        let first = send_bit(d.w, base + val, bit);
        let rest = send_bits(first.w, base, (num - 1) as nat, 2 * val + bit, v);
        parts_come(input, d, first, rest);
        bit_is_read(input, d, base + val, bit);
        bits_are_read(input, behind(input, d.s, first), base, (num - 1) as nat, 2 * val + bit, v);
        lemma_pow2_unfold(num);
        let p = pow2((num - 1) as nat) as int;
        assert((2 * val + bit) * p == val * (2 * p) + bit * p) by (nonlinear_arith);
    }
}

proof fn number_is_read(input: Seq<u8>, d: Dec, base: int, num: nat, v: int)
    requires
        comes(input, d, send_number(d.w, base, num, v)),
        0 <= v < pow2(num),
    ensures
        number_next(input, d, base, num) == (v, behind(input, d.s, send_number(d.w, base, num, v))),
{
    bits_are_read(input, d, base, num, 1, v);
    let p = pow2(num) as int;
    assert(v % p == v) by (nonlinear_arith)
        requires 0 <= v < p;
}

proof fn literal_rest_is_read(input: Seq<u8>, d: Dec, row: int, val: int, b: int, k: nat)
    requires
        comes(input, d, send_literal_rest(d.w, row, val, b, k)),
        k <= 8,
        pow2((8 - k) as nat) <= val < 2 * pow2((8 - k) as nat),
    ensures
        literal_rest(input, d, row, val) == (
            val * pow2(k) + b % (pow2(k) as int),
            behind(input, d.s, send_literal_rest(d.w, row, val, b, k)),
        ),
    decreases k,
{
    lemma2_to64();
    if k == 0 {
        assert(val * 1 == val) by (nonlinear_arith);
        assert(b % 1 == 0);
    } else {
        low_bits(b, k);
        let bit = digit(b, (k - 1) as nat);
        lemma_pow2_unfold((9 - k) as nat);
        if k > 1 {
            lemma_pow2_strictly_increases((8 - k) as nat, 7);
        }
        let first = send_bit(d.w, LIT + row * 0x100 + val, bit);
        let rest = send_literal_rest(first.w, row, 2 * val + bit, b, (k - 1) as nat);
        lemma_pow2_pos((8 - k) as nat);
        parts_come(input, d, first, rest);
        bit_is_read(input, d, LIT + row * 0x100 + val, bit);
        literal_rest_is_read(input, behind(input, d.s, first), row, 2 * val + bit, b, (k - 1) as nat);
        lemma_pow2_unfold(k);
        let p = pow2((k - 1) as nat) as int;
        assert((2 * val + bit) * p == val * (2 * p) + bit * p) by (nonlinear_arith);
    }
}

proof fn literal_guided_is_read(input: Seq<u8>, d: Dec, row: int, val: int, g: int, b: int, k: nat)
    requires
        comes(input, d, send_literal_guided(d.w, row, val, g, b, k)),
        k <= 8,
        pow2((8 - k) as nat) <= val < 2 * pow2((8 - k) as nat),
    ensures
        literal_guided(input, d, row, val, g) == (
            val * pow2(k) + b % (pow2(k) as int),
            behind(input, d.s, send_literal_guided(d.w, row, val, g, b, k)),
        ),
    decreases k,
{
    lemma2_to64();
    if k == 0 {
        assert(val * 1 == val) by (nonlinear_arith);
        assert(b % 1 == 0);
    } else {
        low_bits(b, k);
        let gbit = (g / 0x80) % 2;
        let bit = digit(b, (k - 1) as nat);
        let i = LIT2 + (row * 0x100 + val) * 2 + gbit;
        lemma_pow2_unfold((9 - k) as nat);
        if k > 1 {
            lemma_pow2_strictly_increases((8 - k) as nat, 7);
        }
        lemma_pow2_pos((8 - k) as nat);
        let first = send_bit(d.w, i, bit);
        let d1 = behind(input, d.s, first);
        if bit != gbit {
            let rest = send_literal_rest(first.w, row, 2 * val + bit, b, (k - 1) as nat);
            parts_come(input, d, first, rest);
            bit_is_read(input, d, i, bit);
            literal_rest_is_read(input, d1, row, 2 * val + bit, b, (k - 1) as nat);
        } else {
            let rest = send_literal_guided(first.w, row, 2 * val + bit, 2 * g, b, (k - 1) as nat);
            parts_come(input, d, first, rest);
            bit_is_read(input, d, i, bit);
            literal_guided_is_read(input, d1, row, 2 * val + bit, 2 * g, b, (k - 1) as nat);
        }
        lemma_pow2_unfold(k);
        let p = pow2((k - 1) as nat) as int;
        assert((2 * val + bit) * p == val * (2 * p) + bit * p) by (nonlinear_arith);
    }
}

proof fn literal_is_read(input: Seq<u8>, d: Dec, prev: u8, guess: Option<u8>, b: u8)
    requires
        comes(input, d, send_literal(d.w, prev, guess, b)),
    ensures
        literal_next(input, d, prev, guess) == (b, behind(input, d.s, send_literal(d.w, prev, guess, b))),
{
    lemma2_to64();
    let row = prev as int / 16;
    match guess {
        None => {
            literal_rest_is_read(input, d, row, 1, b as int, 8);
        },
        Some(g) => {
            literal_guided_is_read(input, d, row, 1, g as int, b as int, 8);
        },
    }
}

proof fn length_is_read(input: Seq<u8>, d: Dec, idx: int, l: int)
    requires
        comes(input, d, send_length(d.w, idx, l)),
        0 <= l < 272,
    ensures
        length_next(input, d, idx) == (l, behind(input, d.s, send_length(d.w, idx, l))),
{
    lemma2_to64();
    if l < 16 {
        let first = send_bit(d.w, LEN as int, 0);
        let rest = send_number(first.w, SHORT + 16 * idx, 4, l);
        parts_come(input, d, first, rest);
        bit_is_read(input, d, LEN as int, 0);
        number_is_read(input, behind(input, d.s, first), SHORT + 16 * idx, 4, l);
    } else {
        let first = send_bit(d.w, LEN as int, 1);
        let rest = send_number(first.w, LONG as int, 8, l - 16);
        parts_come(input, d, first, rest);
        bit_is_read(input, d, LEN as int, 1);
        number_is_read(input, behind(input, d.s, first), LONG as int, 8, l - 16);
    }
}

proof fn one_more_place(v: u64, i: u64)
    by (bit_vector)
    requires
        1u64 <= i < 64u64,
    ensures
        ((v >> i) << i) | (((((v >> ((i - 1u64) as u64)) & 1u64) as u32) as u64) << ((i - 1u64) as u64)) == (v >> ((i
            - 1u64) as u64)) << ((i - 1u64) as u64),
{
}

proof fn plain_bits_are_read(input: Seq<u8>, s: RangeState, i: nat, v: u64)
    requires
        reads_items(input, s, plain_items(i, v)),
        4 <= i < 64,
    ensures
        plain_bits(input, s, i, (v >> (i as u64)) << (i as u64)) == (
            (v >> 4u64) << 4u64,
            after_items(input, s, plain_items(i, v)),
        ),
    decreases i,
{
    if i > 4 {
        one_more_place(v, i as u64);
        one_bit_is_small(v, (i - 1) as u64);
        let items = plain_items(i, v);
        assert(items.drop_first() =~= plain_items((i - 1) as nat, v));
        plain_bits_are_read(input, after_item(input, s, items[0]), (i - 1) as nat, v);
    }
}

proof fn small_has_no_high_bits(v: u64, i: u64)
    by (bit_vector)
    requires
        i < 64u64,
        v < (1u64 << i),
    ensures
        (v >> i) << i == 0u64,
{
}

proof fn high_and_low(v: u64)
    by (bit_vector)
    ensures
        ((v >> 4u64) << 4u64) + v % 16u64 == v,
{
}

proof fn distance_is_read(input: Seq<u8>, d: Dec, len: int, class: int, offs: int)
    requires
        comes(input, d, send_distance(d.w, len, class, offs)),
        0 <= class,
        in_class(class, offs),
    ensures
        distance_next(input, d, len) == (offs, behind(input, d.s, send_distance(d.w, len, class, offs))),
{
    lemma2_to64();
    let set = class_set(len);
    let first = send_number(d.w, set, 6, class);
    let d1 = behind(input, d.s, first);
    if class < 4 {
        number_is_read(input, d, set, 6, class);
    } else if class < 14 {
        let v = offs - class_base(class);
        let rest = send_number(first.w, DIST + 32 * (class - 4), class_bits(class), v);
        parts_come(input, d, first, rest);
        number_is_read(input, d, set, 6, class);
        number_is_read(input, d1, DIST + 32 * (class - 4), class_bits(class), v);
    } else {
        let n = class_bits(class);
        if n < 29 {
            lemma_pow2_strictly_increases(n, 29);
        }
        let v = (offs - class_base(class)) as u64;
        let high = Plan { items: plain_items(n, v), w: first.w };
        let low = send_number(first.w, DISTLOW as int, 4, (v % 16) as int);
        parts_come(input, d, first, then_send(high, low));
        parts_come(input, d1, high, low);
        number_is_read(input, d, set, 6, class);
        vstd::bits::lemma_u64_shl_is_mul(1, n as u64);
        small_has_no_high_bits(v, n as u64);
        plain_bits_are_read(input, d1.s, n, v);
        high_and_low(v);
        number_is_read(input, behind(input, d1.s, high), DISTLOW as int, 4, (v % 16) as int);
    }
}

proof fn recency_is_read(input: Seq<u8>, d: Dec, idx: int, k: int)
    requires
        comes(input, d, send_recency(d.w, idx, k)),
        -1 <= k <= 3,
    ensures
        recency_next(input, d, idx) == (k, behind(input, d.s, send_recency(d.w, idx, k))),
{
    if k <= 0 {
        let first = send_bit(d.w, RECENCY1 as int, 0);
        let second = send_bit(first.w, RECENCY + idx, k + 1);
        parts_come(input, d, first, second);
        bit_is_read(input, d, RECENCY1 as int, 0);
        bit_is_read(input, behind(input, d.s, first), RECENCY + idx, k + 1);
    } else {
        let first = send_bit(d.w, RECENCY1 as int, 1);
        let d1 = behind(input, d.s, first);
        if k == 1 {
            let second = send_bit(first.w, RECENCY2 as int, 0);
            parts_come(input, d, first, second);
            bit_is_read(input, d, RECENCY1 as int, 1);
            bit_is_read(input, d1, RECENCY2 as int, 0);
        } else {
            let second = send_bit(first.w, RECENCY2 as int, 1);
            let third = send_bit(second.w, RECENCY3 as int, k - 2);
            parts_come(input, d, first, then_send(second, third));
            parts_come(input, d1, second, third);
            bit_is_read(input, d, RECENCY1 as int, 1);
            bit_is_read(input, d1, RECENCY2 as int, 1);
            bit_is_read(input, behind(input, d1.s, second), RECENCY3 as int, k - 2);
        }
    }
}

/// What a message looks like to the reader.
spec fn token_of(s: Writer, m: Message) -> Token {
    match m {
        Message::Literal(b) => Token::Literal(b),
        _ => Token::Match(match_of(s, m).0 + 1, match_of(s, m).1),
    }
}

/// The reader is where the writer is.
spec fn in_step(st: DarkState, s: Writer) -> bool {
    &&& st.d.w == s.w
    &&& st.guess == s.guess
    &&& st.table == s.table
    &&& st.ring == s.ring
}

proof fn message_is_read(input: Seq<u8>, st: DarkState, s: Writer, pos: int, m: Message)
    requires
        in_step(st, s),
        message_ok(m),
        comes(input, st.d, send_message(s, pos, m)),
    ensures
        ({
            let (t, st1) = token_next(input, st, pos);
            let next = after_message(s, pos, m);
            &&& t == token_of(s, m)
            &&& st1.d == behind(input, st.d.s, send_message(s, pos, m))
            &&& st1.guess == next.guess
            &&& st1.table == next.table
            &&& st1.ring == s.ring
        }),
{
    reveal(send_message);
    reveal(token_next);
    let idx = pos % 4;
    let d = st.d;
    match m {
        Message::Literal(b) => {
            let first = send_bit(s.w, FLAG + idx, 0);
            let second = send_literal(first.w, s.ring.back(1), s.guess, b);
            parts_come(input, d, first, second);
            bit_is_read(input, d, FLAG + idx, 0);
            literal_is_read(input, behind(input, d.s, first), s.ring.back(1), s.guess, b);
        },
        Message::New { class, offs, len } => {
            let first = send_bit(s.w, FLAG + idx, 1);
            let second = send_bit(first.w, FLAG2 as int, 0);
            let third = send_length(second.w, idx, len - 2);
            let fourth = send_distance(third.w, len, class, offs);
            parts_come(input, d, first, then_send(second, then_send(third, fourth)));
            let d1 = behind(input, d.s, first);
            parts_come(input, d1, second, then_send(third, fourth));
            let d2 = behind(input, d1.s, second);
            parts_come(input, d2, third, fourth);
            let d3 = behind(input, d2.s, third);
            bit_is_read(input, d, FLAG + idx, 1);
            bit_is_read(input, d1, FLAG2 as int, 0);
            length_is_read(input, d2, idx, len - 2);
            distance_is_read(input, d3, len, class, offs);
        },
        Message::Again { k, len } => {
            let first = send_bit(s.w, FLAG + idx, 1);
            let second = send_bit(first.w, FLAG2 as int, 1);
            let third = send_recency(second.w, idx, k);
            let fourth = send_length(third.w, idx, len - 2);
            parts_come(input, d, first, then_send(second, then_send(third, fourth)));
            let d1 = behind(input, d.s, first);
            parts_come(input, d1, second, then_send(third, fourth));
            let d2 = behind(input, d1.s, second);
            parts_come(input, d2, third, fourth);
            let d3 = behind(input, d2.s, third);
            bit_is_read(input, d, FLAG + idx, 1);
            bit_is_read(input, d1, FLAG2 as int, 1);
            recency_is_read(input, d2, idx, k);
            length_is_read(input, d3, idx, len - 2);
        },
        Message::Once => {
            let first = send_bit(s.w, FLAG + idx, 1);
            let second = send_bit(first.w, FLAG2 as int, 1);
            let third = send_recency(second.w, idx, -1);
            parts_come(input, d, first, then_send(second, third));
            let d1 = behind(input, d.s, first);
            parts_come(input, d1, second, third);
            let d2 = behind(input, d1.s, second);
            bit_is_read(input, d, FLAG + idx, 1);
            bit_is_read(input, d1, FLAG2 as int, 1);
            recency_is_read(input, d2, idx, -1);
        },
    }
}

proof fn copied_len(r: Ring, distance: int, n: nat)
    ensures
        r.copied(distance, n).len() == n,
    decreases n,
{
    if n > 0 {
        copied_len(r.feed(r.back(distance)), distance, (n - 1) as nat);
    }
}

proof fn end_is_read(input: Seq<u8>, st: DarkState, s: Writer, pos: int)
    requires
        in_step(st, s),
        comes(input, st.d, send_end(s, pos)),
    ensures
        ({
            let (t, st1) = token_next(input, st, pos);
            t is End && st1.d == behind(input, st.d.s, send_end(s, pos))
        }),
{
    reveal(token_next);
    let idx = pos % 4;
    let d = st.d;
    let first = send_bit(s.w, FLAG + idx, 1);
    let second = send_bit(first.w, FLAG2 as int, 0);
    let third = send_length(second.w, idx, 0x10f);
    parts_come(input, d, first, then_send(second, third));
    let d1 = behind(input, d.s, first);
    parts_come(input, d1, second, third);
    let d2 = behind(input, d1.s, second);
    bit_is_read(input, d, FLAG + idx, 1);
    bit_is_read(input, d1, FLAG2 as int, 0);
    length_is_read(input, d2, idx, 0x10f);
}

proof fn messages_are_read(
    input: Seq<u8>,
    st: DarkState,
    s: Writer,
    pos: int,
    ms: Seq<Message>,
    found: Seq<u8>,
    size: int,
)
    requires
        in_step(st, s),
        forall|i: int| 0 <= i < ms.len() ==> message_ok(#[trigger] ms[i]),
        size >= pos + all_text(s, pos, ms).len(),
        reads_items(input, st.d.s, all_items(s, pos, ms, size > pos + all_text(s, pos, ms).len())),
    ensures
        tokens_from(input, st, pos, found, size) == (
            found + all_text(s, pos, ms),
            after_items(input, st.d.s, all_items(s, pos, ms, size > pos + all_text(s, pos, ms).len())).pos,
        ),
    decreases ms.len(),
{
    let all = all_text(s, pos, ms);
    let ended = size > pos + all.len();
    if ms.len() == 0 {
        assert(found + all =~= found);
        if ended {
            end_is_read(input, st, s, pos);
        }
    } else {
        let m = ms[0];
        let next = after_message(s, pos, m);
        let text = message_text(s, m);
        let pos1 = pos + text.len();
        let plan = send_message(s, pos, m);
        let rest = all_text(next, pos1, ms.drop_first());
        copied_len(s.ring, match_of(s, m).0 + 1, match_of(s, m).1 as nat);
        assert(message_ok(m));
        assert(pos1 + rest.len() == pos + all.len());
        reading_in_parts(input, st.d.s, plan.items, all_items(next, pos1, ms.drop_first(), ended));
        message_is_read(input, st, s, pos, m);
        let (t, st1) = token_next(input, st, pos);
        let st2 = DarkState { ring: next.ring, ..st1 };
        messages_are_read(input, st2, next, pos1, ms.drop_first(), found + text, size);
        assert((found + text) + rest =~= found + all);
        if let Message::Literal(b) = m {
            assert(found + text =~= found.push(b));
        }
    }
}

/// What a writer sends for some messages is read back as their text, and nothing is
/// taken of what stands behind. The end is marked if more bytes than these are asked
/// for.
pub proof fn written_messages_are_read_back(
    window_byte: u8,
    second: u8,
    ms: Seq<Message>,
    rest: Seq<u8>,
    size: nat,
)
    requires
        window_byte < 31,
        forall|i: int| 0 <= i < ms.len() ==> message_ok(#[trigger] ms[i]),
        ({
            let start = writer_start(window_size(window_byte));
            let text = all_text(start, 0, ms);
            size >= text.len() && items_written(all_items(start, 0, ms, size > text.len())).len() < u64::MAX
        }),
    ensures
        ({
            let start = writer_start(window_size(window_byte));
            let text = all_text(start, 0, ms);
            let bytes = seq![window_byte, second] + items_written(all_items(start, 0, ms, size > text.len()));
            framed(bytes + rest, size) == Ok::<(Seq<u8>, nat), ErrorKind>((text, bytes.len()))
        }),
{
    let start = writer_start(window_size(window_byte));
    let text = all_text(start, 0, ms);
    let items = all_items(start, 0, ms, size > text.len());
    let input = items_written(items) + rest;
    let data = seq![window_byte, second] + items_written(items) + rest;
    all_items_are_easy(start, 0, ms, size > text.len());
    easy_items_fit(0xffff_ffff, items);
    sent_items_are_read(items, rest);
    assert(data.skip(2) =~= input);
    messages_are_read(input, dark_start(input, window_size(window_byte)), start, 0, ms, seq![], size as int);
    assert(Seq::<u8>::empty() + text =~= text);
}

} // verus!
