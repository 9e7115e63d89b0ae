use vstd::prelude::*;
use vstd::arithmetic::power2::{lemma2_to64, lemma_pow2_pos, lemma_pow2_unfold, pow2};
use crate::sitx::ppmd::context::{
    bin_learnt, counted1, counted2, first_learnt, freq, freq_set, halved_from, last_index, nth, num_states, plus, rescaled,
    saw_context, see_mean, see_updated, single_freq, state_copied, states, successor, suffix, summ_freq, summ_set, symbol, trimmed, zeros_from,
    Core, See2Context, EXP_ESCAPE, MAX_FREQ,
};
use crate::sitx::ppmd::suballoc::{allocated, get16, get32, get8, put16, put32, put8, put_is_got_back};
use crate::sitx::ppmd::variant_g::{
    first_bins, first_estimates, first_freq, room_made, state_added, state_for, suffix_counted, suggested,
    INIT_BIN_ESC,
};

verus! {

// How the model learns: what each count is at first, and by how much it grows.

// === what is known at first ===================================================

/// The probability with which a symbol comes in a context where it is the only one, by its
/// count and by the kind of the context: 0x4000 less a part of a number that belongs to the
/// kind, a half of it for the count 1, a third for the count 2, and so on.
pub proof fn lone_symbols_are_likely_at_first(count: int, kind: int)
    requires
        1 <= count <= 128,
        0 <= kind < 16,
    ensures
        ({
            let parts = seq![
                0x3cddint, 0x1f3f, 0x59bf, 0x48f3, 0x5ffb, 0x5545, 0x63d1, 0x5d9d, 0x64a1, 0x5abc, 0x6632, 0x6051,
                0x68f6, 0x549b, 0x6bca, 0x3ab0,
            ];
            first_bins()[16 * (count - 1) + kind] == 0x4000 - parts[kind] / (count + 1)
        }),
        first_bins().len() == 2048,
{
    let i = 16 * (count - 1) + kind;
    assert(i % 16 == kind && i / 16 == count - 1);
    assert(kind == 0 || kind == 1 || kind == 2 || kind == 3 || kind == 4 || kind == 5 || kind == 6 || kind == 7 || kind
        == 8 || kind == 9 || kind == 10 || kind == 11 || kind == 12 || kind == 13 || kind == 14 || kind == 15);
    let v = INIT_BIN_ESC@[kind] as int;
    assert(0 <= v / (count + 1) <= v / 2) by (nonlinear_arith)
        requires v >= 0, count >= 1;
}

/// The share of an escape is estimated at first by the class of how many symbols are still
/// open, and looked at again after three hits.
pub proof fn escapes_are_estimated_at_first(class: int, kind: int)
    requires
        0 <= class < 43,
        0 <= kind < 8,
    ensures
        first_estimates().len() == 344,
        ({
            let e = first_estimates()[8 * class + kind];
            &&& e.summ == 8 * (4 * class + 10)
            &&& e.shift == 3
            &&& e.count == 3
            &&& see_mean(e).0 == 4 * class + 10
        }),
{
    let i = 8 * class + kind;
    assert(i / 8 == class);
    let v = (4 * class + 10) as u32;
    shifts((8 * v) as u32);
}

/// What is expected of an escape from a lone symbol falls as the symbol gets likelier.
pub proof fn escapes_get_rarer(i: int)
    requires
        0 <= i < 16,
    ensures
        EXP_ESCAPE@[i] == (if i == 0 {
            25int
        } else if i == 1 {
            14
        } else if i == 2 {
            9
        } else if i == 3 {
            7
        } else if i < 6 {
            5
        } else if i < 9 {
            4
        } else if i < 12 {
            3
        } else {
            2
        }),
        MAX_FREQ == 124,
{
    assert(i == 0 || i == 1 || i == 2 || i == 3 || i == 4 || i == 5 || i == 6 || i == 7 || i == 8 || i == 9 || i == 10
        || i == 11 || i == 12 || i == 13 || i == 14 || i == 15);
}

// === estimates ================================================================

/// A hit counts down; when the count comes to nothing the estimate is taken over twice as
/// many, up to 2 to the 7th, and the next count is three times what it was taken over.
pub proof fn estimates_settle(e: See2Context)
    requires
        e.shift < 7,
        e.count >= 1,
    ensures
        e.count > 1 ==> see_updated(e) == (See2Context { count: (e.count - 1) as u8, ..e }),
        e.count == 1 ==> {
            let u = see_updated(e);
            &&& u.summ == (2 * e.summ) % 0x1_0000
            &&& u.shift == e.shift + 1
            &&& u.count == 3 * pow2(e.shift as nat)
        },
        see_updated(See2Context { shift: 7, ..e }) == (See2Context { shift: 7, ..e }),
{
    lemma2_to64();
    let s = e.shift as u32;
    assert(s == 0 || s == 1 || s == 2 || s == 3 || s == 4 || s == 5 || s == 6);
    shifts(0);
}

proof fn shifts(v: u32)
    by (bit_vector)
    ensures
        v >> 3u32 == v / 8u32,
        3u32 << 0u32 == 3u32,
        3u32 << 1u32 == 6u32,
        3u32 << 2u32 == 12u32,
        3u32 << 3u32 == 24u32,
        3u32 << 4u32 == 48u32,
        3u32 << 5u32 == 96u32,
        3u32 << 6u32 == 192u32,
{
}

// === lone symbols =============================================================

/// A probability moves by a 128th towards what has come, rounded: towards all if the symbol
/// came, towards nothing if it did not.
pub proof fn probabilities_adapt(c: Core, rs: u32, bs: u16, limit: int)
    requires
        bs < 0x4000,
    ensures
        bin_learnt(c, rs, bs, 0, limit).1 == bs + 128 - (bs + 32) / 128,
        bin_learnt(c, rs, bs, 1, limit).1 == bs - (bs + 32) / 128,
        bin_learnt(c, rs, bs, 0, limit).0.prev_success == 1,
        bin_learnt(c, rs, bs, 0, limit).0.found == rs,
        bin_learnt(c, rs, bs, 1, limit).0.prev_success == 0,
        bin_learnt(c, rs, bs, 1, limit).0.found == 0,
        bin_learnt(c, rs, bs, 1, limit).0.init_esc == EXP_ESCAPE@[(bs - (bs + 32) / 128) / 1024],
        bin_learnt(c, rs, bs, 1, limit).0.mask == c.mask.update(symbol(c.h.bytes, rs) as int, c.esc_count),
{
}

// === the frequency of new symbols =============================================

/// A symbol that is added to a context starts with 1, and one more for each of these bounds
/// that its weight reaches: more than 1, and 4, 6, 9, 12 and 15 times that of the others.
pub proof fn new_symbols_start_by_their_weight(weight: int, others: int)
    requires
        others > 0,
    ensures
        first_freq(weight, others) == 1 + (if weight > others {
            1int
        } else {
            0
        }) + (if weight >= 4 * others {
            1int
        } else {
            0
        }) + (if weight >= 6 * others {
            1int
        } else {
            0
        }) + (if weight >= 9 * others {
            1int
        } else {
            0
        }) + (if weight >= 12 * others {
            1int
        } else {
            0
        }) + (if weight >= 15 * others {
            1int
        } else {
            0
        }),
{
}

/// A new context starts its only symbol with 1 if its count, less one, is at most a fifth of
/// the rest, with 2 if it is at most half of it, and otherwise with 2 and as often more as
/// the rest is contained, rounded, in twice what is beyond.
pub proof fn new_contexts_start_by_the_share(count: int, rest: int)
    requires
        count >= 0,
        rest > 0,
    ensures
        5 * count <= rest ==> suggested(count, rest) == 1,
        rest < 5 * count && 2 * count <= rest ==> suggested(count, rest) == 2,
        2 * count > rest ==> suggested(count, rest) == 1 + (2 * count + 3 * rest - 1) / (2 * rest),
{
}

// === rescaling ================================================================

/// A count halved `k` times, rounding up each time.
pub open spec fn halves(f: int, k: nat) -> int {
    (f + pow2(k) - 1) / (pow2(k) as int)
}

proof fn halves_add_up(f: int, k: nat)
    requires
        f >= 0,
    ensures
        halves((f + 1) / 2, k) == halves(f, k + 1),
{
    lemma_pow2_unfold(k + 1);
    lemma_pow2_pos(k);
    let p = pow2(k) as int;
    let g = (f + 1) / 2;
    let x = g + p - 1;
    let y = f + 2 * p - 1;
    // Both are the same number of whole units of p.
    let q = x / p;
    let r = x % p;
    assert(x == p * q + r) by (nonlinear_arith)
        requires q == x / p, r == x % p, p > 0;
    assert(y == 2 * x || y == 2 * x + 1);
    assert(0 <= r < p) by (nonlinear_arith)
        requires r == x % p, p > 0;
    assert(y / (2 * p) == q) by (nonlinear_arith)
        requires y == 2 * (p * q + r) || y == 2 * (p * q + r) + 1, 0 <= r < p, p > 0;
}

/// The count of the only symbol that is left is halved, rounding up, as often as the escapes
/// can be until no more than one is left, and once at least.
pub proof fn lone_symbol_is_halved(f: int, esc: int, k: nat)
    requires
        f >= 0,
        k >= 1,
        esc < pow2(k + 1),
        k > 1 ==> pow2(k) <= esc,
    ensures
        single_freq(f, esc) == halves(f, k),
    decreases k,
{
    lemma2_to64();
    lemma_pow2_unfold(k + 1);
    lemma_pow2_unfold(k);
    if k == 1 {
        assert(pow2(1) == 2);
        assert(esc / 2 <= 1);
    } else {
        lemma_pow2_pos((k - 1) as nat);
        if k > 2 {
            lemma_pow2_unfold((k - 1) as nat);
        } else {
            assert(pow2(1) == 2);
        }
        assert(esc / 2 >= 2) by {
            if k > 2 {
                lemma_pow2_pos((k - 2) as nat);
                lemma_pow2_unfold((k - 1) as nat);
            }
        }
        lone_symbol_is_halved((f + 1) / 2, esc / 2, (k - 1) as nat);
        halves_add_up(f, (k - 1) as nat);
    }
}

// === counting =================================================================

/// What reading and writing single bytes of the heap have to do with each other.
proof fn heap_facts()
    ensures
        forall|b: Seq<u8>, o: u32, v: u8, p: u32|
            #[trigger] get8(put8(b, o, v), p) == (if p == o && o < b.len() {
                v
            } else {
                get8(b, p)
            }),
        forall|b: Seq<u8>, o: u32, v: u8| (#[trigger] put8(b, o, v)).len() == b.len(),
{
    reveal(get8);
    reveal(put8);
}

/// The bytes from `x` on, 6 of them, and those from `c` on, 12 of them, lie in the heap, and
/// not one within the other.
pub open spec fn apart(len: nat, x: u32, c: u32) -> bool {
    &&& len <= 0xffff_ff00
    &&& x + 6 <= len
    &&& c + 12 <= len
    &&& x + 6 <= c || c + 12 <= x
}

/// A symbol that is found below an escape gains 4, and so does the sum of its context, as
/// long as it stays within 124.
pub proof fn found_symbol_gains_4(c: Core, ctx: u32, state: u32)
    requires
        apart(c.h.bytes.len(), state, ctx),
        freq(c.h.bytes, state) + 4 <= 124,
        summ_freq(c.h.bytes, ctx) < 0xfff0,
    ensures
        ({
            let d = counted2(c, ctx, state);
            &&& freq(d.h.bytes, state) == freq(c.h.bytes, state) + 4
            &&& summ_freq(d.h.bytes, ctx) == summ_freq(c.h.bytes, ctx) + 4
            &&& symbol(d.h.bytes, state) == symbol(c.h.bytes, state)
            &&& d.found == state
            &&& d.esc_count == c.esc_count.wrapping_add(1)
        }),
{
    reveal(counted2);
    heap_facts();
    reveal(get16);
    reveal(put16);
}

/// A symbol that comes gains 4, and so does the sum of its context. One that has come to
/// more than the one before it changes places with it.
pub proof fn coming_symbol_gains_4(c: Core, ctx: u32, state: u32)
    requires
        state >= 6,
        apart(c.h.bytes.len(), state, ctx),
        apart(c.h.bytes.len(), (state - 6) as u32, ctx),
        freq(c.h.bytes, state) + 4 <= 124,
        summ_freq(c.h.bytes, ctx) < 0xfff0,
    ensures
        ({
            let d = counted1(c, ctx, state);
            let prev = (state - 6) as u32;
            let f = freq(c.h.bytes, state) + 4;
            let passes = f > freq(c.h.bytes, prev);
            let at = if passes {
                prev
            } else {
                state
            };
            &&& d.found == at
            &&& freq(d.h.bytes, at) == f
            &&& symbol(d.h.bytes, at) == symbol(c.h.bytes, state)
            &&& summ_freq(d.h.bytes, ctx) == summ_freq(c.h.bytes, ctx) + 4
            &&& passes ==> freq(d.h.bytes, state) == freq(c.h.bytes, prev) && symbol(d.h.bytes, state) == symbol(
                c.h.bytes,
                prev,
            )
        }),
{
    reveal(counted1);
    heap_facts();
    reveal(get16);
    reveal(put16);
    reveal(put32);
    assert(nth(state, -1) == state - 6);
}

/// The first symbol of a context gains 4 when it comes; it counts as the likely one if it
/// had more than half.
pub proof fn first_symbol_gains_4(c: Core, ctx: u32, base: u32)
    requires
        apart(c.h.bytes.len(), base, ctx),
        freq(c.h.bytes, base) + 4 <= 124,
        c.scale < 0xfff0,
    ensures
        ({
            let f = freq(c.h.bytes, base);
            let d = first_learnt(c, ctx, base, f, false);
            &&& freq(d.h.bytes, base) == f + 4
            &&& summ_freq(d.h.bytes, ctx) == c.scale + 4
            &&& d.found == base
            &&& d.prev_success == (if 2 * f > c.scale {
                1int
            } else {
                0
            })
        }),
{
    heap_facts();
    reveal(get16);
    reveal(put16);
}

/// A symbol that is added to a context of `num` stands behind the others, with a count that
/// goes by its weight, and the sum gains that count, or 3 if the count is less.
pub proof fn added_symbol_joins_the_sum(c: Core, ctx: u32, num: int, sym: u8, f: u8, next: u32, s0: int)
    requires
        1 <= num < 256,
        0 <= s0 < 0x1_0000,
        states(c.h.bytes, ctx) + 6 * num + 6 <= c.h.bytes.len(),
        apart(c.h.bytes.len(), (states(c.h.bytes, ctx) + 6 * num) as u32, ctx),
        0 < summ_freq(c.h.bytes, ctx) < 0xfff0,
    ensures
        ({
            let v = summ_freq(c.h.bytes, ctx) as int;
            let st = (states(c.h.bytes, ctx) + 6 * num) as u32;
            let d = state_added(c, ctx, num, sym, f, next, s0);
            let n = first_freq(2 * f * (v + 6), s0 + v);
            &&& symbol(d.h.bytes, st) == sym
            &&& freq(d.h.bytes, st) == n
            &&& successor(d.h.bytes, st) == next
            &&& last_index(d.h.bytes, ctx) == num
            &&& summ_freq(d.h.bytes, ctx) == v + (if n < 3 {
                3
            } else {
                n
            })
        }),
{
    reveal(state_added);
    heap_facts();
    reveal(get16);
    reveal(put16);
    reveal(get32);
    reveal(put32);
}

/// The symbol is counted in the next shorter context too, as long as its own count is below
/// 31: by 1 up to 32 where it is alone there, and otherwise by 2 up to 108, with the sum, and
/// in place of the one before it if that has no more.
pub proof fn shorter_context_counts_too(c: Core, min: u32, sym: u8, f: u8)
    requires
        c.h.bytes.len() <= 0xffff_ff00,
        min + 12 <= c.h.bytes.len(),
        f < 31,
        suffix(c.h.bytes, min) > 0,
        suffix(c.h.bytes, min) + 12 <= c.h.bytes.len(),
    ensures
        ({
            let ctx = suffix(c.h.bytes, min);
            let c1 = saw_context(saw_context(c, min), ctx);
            let (st, d) = suffix_counted(c, min, sym, f);
            let b = c.h.bytes;
            if num_states(b, ctx) == 1 {
                &&& st == Some(plus(ctx, 2))
                &&& freq(d.h.bytes, plus(ctx, 2)) == freq(b, plus(ctx, 2)) + (if freq(b, plus(ctx, 2)) < 32 {
                    1int
                } else {
                    0
                })
            } else {
                let (at, c2) = state_for(c1, states(b, ctx), sym);
                let moves = at != states(b, ctx) && freq(b, at) >= freq(b, (at - 6) as u32);
                let to = if moves {
                    (at - 6) as u32
                } else {
                    at
                };
                c2.h.bytes == b && apart(b.len(), at, ctx) && 6 <= at && apart(b.len(), (at - 6) as u32, ctx)
                    && summ_freq(b, ctx) < 0xfff0 ==> {
                    &&& st == Some(to)
                    &&& freq(d.h.bytes, to) == freq(b, at) + (if freq(b, at) < 108 {
                        2int
                    } else {
                        0
                    })
                    &&& symbol(d.h.bytes, to) == symbol(b, at)
                    &&& summ_freq(d.h.bytes, ctx) == summ_freq(b, ctx) + (if freq(b, at) < 108 {
                        2int
                    } else {
                        0
                    })
                }
            }
        }),
        suffix_counted(c, min, sym, 31).0 is None,
        suffix_counted(c, min, sym, 31).1.h.bytes == c.h.bytes,
{
    reveal(suffix_counted);
    heap_facts();
    reveal(get16);
    reveal(put16);
    reveal(put32);
    let ctx = suffix(c.h.bytes, min);
    let c1 = saw_context(saw_context(c, min), ctx);
    if num_states(c.h.bytes, ctx) != 1 {
        let (at, c2) = state_for(c1, states(c.h.bytes, ctx), sym);
        if at >= 6 {
            assert(nth(at, -1) == at - 6);
        }
    }
}

/// A number of four bytes is got back, and other bytes stay.
proof fn put32_facts(b: Seq<u8>, o: u32, v: u32)
    requires
        o + 4 <= b.len() <= 0xffff_ff00,
    ensures
        get32(put32(b, o, v), o) == v,
        put32(b, o, v).len() == b.len(),
        forall|q: u32| q < o || q >= o + 4 ==> #[trigger] get8(put32(b, o, v), q) == get8(b, q),
{
    put_is_got_back(b, o, v);
    heap_facts();
    reveal(put32);
}

/// The same for two bytes.
proof fn put16_facts(b: Seq<u8>, o: u32, v: u16)
    requires
        o + 2 <= b.len() <= 0xffff_ff00,
    ensures
        get16(put16(b, o, v), o) == v,
        put16(b, o, v).len() == b.len(),
        forall|q: u32| q < o || q >= o + 2 ==> #[trigger] get8(put16(b, o, v), q) == get8(b, q),
{
    heap_facts();
    reveal(get16);
    reveal(put16);
}

/// Where a context gets its second symbol, the count of the first is doubled, up to 120, and
/// the sum starts with it, with what is expected of an escape, and with 1 more if the context
/// that the new symbol was found in has more than three.
pub proof fn second_symbol_doubles_the_first(c: Core, ctx: u32, minnum: int)
    requires
        ({
            let (p, h) = allocated(c.h, 1);
            &&& p != 0
            &&& apart(h.bytes.len(), p, ctx)
            &&& h.bytes == c.h.bytes
        }),
        c.init_esc < 0x1000,
    ensures
        ({
            let p = allocated(c.h, 1).0;
            let f = freq(c.h.bytes, plus(ctx, 2)) as int;
            let (ok, d) = room_made(c, ctx, 1, minnum);
            let n = if f < 30 {
                2 * f
            } else {
                120
            };
            &&& ok
            &&& states(d.h.bytes, ctx) == p
            &&& freq(d.h.bytes, p) == n
            &&& symbol(d.h.bytes, p) == symbol(c.h.bytes, plus(ctx, 2))
            &&& summ_freq(d.h.bytes, ctx) == n + c.init_esc + (if minnum > 3 {
                1int
            } else {
                0
            })
        }),
{
    reveal(room_made);
    heap_facts();
    let (p, h1) = allocated(c.h, 1);
    let b = h1.bytes;
    let x = plus(ctx, 2);
    let f = freq(b, x);
    let s1 = put8(put8(b, p, symbol(b, x)), plus(p, 1), f);
    put32_facts(s1, plus(p, 2), successor(b, x));
    let s2 = state_copied(b, x, p);
    assert(s2 == put32(s1, plus(p, 2), successor(b, x)));
    assert(freq(s2, p) == f && symbol(s2, p) == symbol(b, x));
    put32_facts(s2, plus(ctx, 4), p);
    let b1 = put32(s2, plus(ctx, 4), p);
    assert(freq(b1, p) == f && symbol(b1, p) == symbol(b, x));
    let n = if f < 30 {
        2 * f
    } else {
        120
    };
    let b2 = freq_set(b1, p, n as u8);
    assert(states(b2, ctx) == p) by {
        reveal(get32);
    }
    let v = n + c.init_esc + (if minnum > 3 {
        1int
    } else {
        0
    });
    put16_facts(b2, plus(ctx, 2), (v % 0x1_0000) as u16);
    assert(states(summ_set(b2, ctx, v), ctx) == p) by {
        reveal(get32);
    }
}

/// Where a context of an odd number of symbols, more than one, gets another, its sum gains 2
/// if it has no more than a quarter of the symbols of the context where the new one was found
/// and no more than 8 for each of its own, and 1 if it has less than half of them.
pub proof fn sums_grow_with_the_gap(c: Core, ctx: u32, num: int, minnum: int)
    requires
        3 <= num < 256,
        num % 2 == 1,
        ctx + 12 <= c.h.bytes.len() <= 0xffff_ff00,
        summ_freq(c.h.bytes, ctx) < 0xfff0,
    ensures
        ({
            let v = summ_freq(c.h.bytes, ctx) as int;
            let (ok, d) = room_made(c, ctx, num, minnum);
            &&& ok
            &&& summ_freq(d.h.bytes, ctx) == v + (if 4 * num <= minnum && v <= 8 * num {
                2int
            } else {
                0
            }) + (if 2 * num < minnum {
                1int
            } else {
                0
            })
        }),
{
    reveal(room_made);
    heap_facts();
    reveal(get16);
    reveal(put16);
}

/// A context is rescaled: the symbol that was found gains 4 and so do the escapes, then all
/// counts are halved, rounding up unless no order has been fallen through, and so are the
/// escapes, which are what the sum has beyond the counts. Here for a context of one count.
pub proof fn rescaling_halves(c: Core, ctx: u32, base: u32)
    requires
        apart(c.h.bytes.len(), base, ctx),
        states(c.h.bytes, ctx) == base,
        last_index(c.h.bytes, ctx) == 0,
        c.found == base,
        4 <= freq(c.h.bytes, base) <= 200,
        freq(c.h.bytes, base) <= summ_freq(c.h.bytes, ctx) < 0xfff0,
    ensures
        ({
            let f = freq(c.h.bytes, base) + 4;
            let esc = summ_freq(c.h.bytes, ctx) + 4 - f;
            let half = (f + (if c.order_fall == 0 {
                0int
            } else {
                1
            })) / 2;
            let d = rescaled(c, ctx);
            &&& d.found == base
            &&& freq(d.h.bytes, base) == half
            &&& summ_freq(d.h.bytes, ctx) == half + (esc + 1) / 2
        }),
{
    reveal(rescaled);
    reveal(trimmed);
    heap_facts();
    reveal(get16);
    reveal(put16);
    reveal(get32);
    reveal_with_fuel(halved_from, 2);
    reveal_with_fuel(zeros_from, 2);
    assert(nth(base, 0) == base);
}

} // verus!
