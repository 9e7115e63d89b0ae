use vstd::prelude::*;
use crate::sitx::ppmd::context::{
    child_made, flags, freq, freq_set, halved_from, last_index, mask_cleared, nth, num_states, one_state, place_for, plus, rescaled,
    saw_context, saw_state, single_freq, states, successor, suffix, summ_freq, symbol, trimmed, zeros_from, Core,
};
use crate::sitx::ppmd::learning_laws::apart;
use crate::sitx::ppmd::suballoc::{get16, get32, get8, index_for, moved, put16, put32, put8, put_is_got_back, Heap};
use crate::sitx::ppmd::variant_g::{moved_on, state_for, suggested, upstate_set, ModelState};

verus! {

// What becomes of the contexts of the model.

pub(crate) proof fn byte_facts()
    ensures
        forall|b: Seq<u8>, o: u32, v: u8, p: u32|
            #[trigger] get8(put8(b, o, v), p) == (if p == o && o < b.len() {
                v
            } else {
                get8(b, p)
            }),
        forall|b: Seq<u8>, o: u32, v: u8| (#[trigger] put8(b, o, v)).len() == b.len(),
{
    reveal(get8);
    reveal(put8);
}

// === rescaling ================================================================

/// The sum of what `f` says of the numbers from `i` up to `n`.
pub open spec fn sum_of(f: spec_fn(int) -> int, i: int, n: int) -> int
    decreases n - i,
{
    if i >= n {
        0
    } else {
        f(i) + sum_of(f, i + 1, n)
    }
}

/// The `n` states at `base` and the context at `ctx` lie in the heap, one beside the other.
pub open spec fn side_by_side(len: nat, base: u32, n: int, ctx: u32) -> bool {
    &&& len <= 0xffff_ff00
    &&& base + 6 * n <= len
    &&& ctx + 12 <= len
    &&& base + 6 * n <= ctx || ctx + 12 <= base
}

proof fn in_order_halved(
    h: Heap,
    base: u32,
    i: int,
    n: int,
    adder: int,
    esc: int,
    sum: int,
    count: spec_fn(int) -> int,
)
    requires
        0 <= i <= n <= 256,
        adder == 0 || adder == 1,
        h.bytes.len() <= 0xffff_ff00,
        base + 6 * n <= h.bytes.len(),
        forall|k: int| 0 <= k < n ==> 0 <= #[trigger] count(k) <= 255,
        forall|k: int, l: int| 0 <= k < l < n ==> #[trigger] count(k) >= #[trigger] count(l),
        forall|k: int| i <= k < n ==> get8(h.bytes, (base + 6 * k + 1) as u32) == #[trigger] count(k),
        i > 0 ==> get8(h.bytes, (base + 6 * (i - 1) + 1) as u32) == (count(i - 1) + adder) / 2,
    ensures
        ({
            let (h1, esc1, sum1) = halved_from(h, base, i, n, adder, esc, sum);
            &&& esc1 == esc - sum_of(count, i, n)
            &&& sum1 == sum + sum_of(|k: int| (count(k) + adder) / 2, i, n)
            &&& h1.bytes.len() == h.bytes.len()
            &&& forall|k: int| i <= k < n ==> get8(h1.bytes, (base + 6 * k + 1) as u32) == (#[trigger] count(k) + adder) / 2
            &&& forall|k: int|
                0 <= k < n ==> get8(h1.bytes, (base + 6 * k) as u32) == #[trigger] get8(h.bytes, (base + 6 * k) as u32)
            &&& forall|p: u32| (p < base + 6 * i || p >= base + 6 * n) ==> #[trigger] get8(h1.bytes, p) == get8(h.bytes, p)
        }),
    decreases n - i,
{
    if i < n {
        let f1 = (count(i) + adder) / 2;
        let t = one_halved(h, base, i, f1);
        byte_facts();
        first_is_halved(h, base, i, n, adder, esc, sum, count(i));
        if i > 0 {
            assert(count(i - 1) >= count(i));
        }
        assert forall|k: int| i + 1 <= k < n implies get8(t.bytes, (base + 6 * k + 1) as u32) == #[trigger] count(k) by {
            assert(get8(h.bytes, (base + 6 * k + 1) as u32) == count(k));
        }
        in_order_halved(t, base, i + 1, n, adder, esc - count(i), sum + f1, count);
        let h1 = halved_from(h, base, i, n, adder, esc, sum).0;
        assert forall|k: int| i <= k < n implies get8(h1.bytes, (base + 6 * k + 1) as u32) == (#[trigger] count(k) + adder)
            / 2 by {
            if k == i {
                assert(get8(h1.bytes, (base + 6 * i + 1) as u32) == get8(t.bytes, (base + 6 * i + 1) as u32));
            }
        }
        assert forall|k: int| 0 <= k < n implies get8(h1.bytes, (base + 6 * k) as u32) == #[trigger] get8(
            h.bytes,
            (base + 6 * k) as u32,
        ) by {
            assert(get8(t.bytes, (base + 6 * k) as u32) == get8(h.bytes, (base + 6 * k) as u32));
        }
        assert forall|p: u32| (p < base + 6 * i || p >= base + 6 * n) implies #[trigger] get8(h1.bytes, p) == get8(h.bytes, p) by {
            assert(get8(h1.bytes, p) == get8(t.bytes, p));
        }
    }
}

/// The heap with one count changed in place.
spec fn one_halved(h: Heap, base: u32, i: int, f1: int) -> Heap {
    Heap {
        bytes: put8(h.bytes, (base + 6 * i + 1) as u32, f1 as u8),
        lost: h.lost || base + 6 * i + 6 > h.bytes.len(),
        ..h
    }
}

/// A state that does not pass the one before it stays where it is.
proof fn first_is_halved(h: Heap, base: u32, i: int, n: int, adder: int, esc: int, sum: int, f: int)
    requires
        0 <= i < n <= 256,
        adder == 0 || adder == 1,
        h.bytes.len() <= 0xffff_ff00,
        base + 6 * n <= h.bytes.len(),
        get8(h.bytes, (base + 6 * i + 1) as u32) == f,
        i > 0 ==> get8(h.bytes, (base + 6 * (i - 1) + 1) as u32) >= (f + adder) / 2,
    ensures
        halved_from(h, base, i, n, adder, esc, sum) == halved_from(
            one_halved(h, base, i, (f + adder) / 2),
            base,
            i + 1,
            n,
            adder,
            esc - f,
            sum + (f + adder) / 2,
        ),
{
    byte_facts();
    assert(nth(base, i) == base + 6 * i);
    if i > 0 {
        assert(nth(base, i - 1) == base + 6 * (i - 1));
    }
}

/// Where the states stand by their counts and the first one was found, a context is rescaled in
/// place: that one gains 4 first, then all counts are halved, rounding up unless no order has
/// been fallen through, and so is what the sum has beyond them. The symbols stay where they
/// are.
pub proof fn counts_in_order_are_halved(c: Core, ctx: u32, base: u32, n: int, count: spec_fn(int) -> int)
    requires
        1 <= n <= 256,
        side_by_side(c.h.bytes.len(), base, n, ctx),
        states(c.h.bytes, ctx) == base,
        last_index(c.h.bytes, ctx) == n - 1,
        c.found == base,
        count(0) == freq(c.h.bytes, base) + 4,
        forall|k: int| 1 <= k < n ==> freq(c.h.bytes, (base + 6 * k) as u32) == #[trigger] count(k),
        forall|k: int| 0 <= k < n ==> 2 <= #[trigger] count(k) <= 255,
        forall|k: int, l: int| 0 <= k < l < n ==> #[trigger] count(k) >= #[trigger] count(l),
        0 <= summ_freq(c.h.bytes, ctx) + 4 - sum_of(count, 0, n),
        summ_freq(c.h.bytes, ctx) < 0xfff0,
    ensures
        ({
            let d = rescaled(c, ctx);
            let up = if c.order_fall == 0 {
                0int
            } else {
                1
            };
            let half = |k: int| (count(k) + up) / 2;
            let beyond = summ_freq(c.h.bytes, ctx) + 4 - sum_of(count, 0, n);
            &&& d.found == base
            &&& forall|k: int| 0 <= k < n ==> freq(d.h.bytes, (base + 6 * k) as u32) == (#[trigger] count(k) + up) / 2
            &&& forall|k: int|
                0 <= k < n ==> #[trigger] symbol(d.h.bytes, (base + 6 * k) as u32) == symbol(
                    c.h.bytes,
                    (base + 6 * k) as u32,
                )
            &&& summ_freq(d.h.bytes, ctx) == (sum_of(half, 0, n) + (beyond + 1) / 2) % 0x1_0000
            &&& last_index(d.h.bytes, ctx) == n - 1
        }),
{
    reveal(rescaled);
    reveal(trimmed);
    byte_facts();
    let up = if c.order_fall == 0 {
        0int
    } else {
        1
    };
    let c0 = saw_state(saw_context(c, ctx), c.found);
    let b = freq_set(c.h.bytes, base, (freq(c.h.bytes, base) + 4) as u8);
    assert(summ_freq(b, ctx) == summ_freq(c.h.bytes, ctx)) by {
        reveal(get16);
    }
    assert forall|k: int| 0 <= k < n implies get8(b, (base + 6 * k + 1) as u32) == #[trigger] count(k) by {
        if k > 0 {
            assert(freq(c.h.bytes, (base + 6 * k) as u32) == count(k));
        }
    }
    let h = Heap { bytes: b, ..c0.h };
    let total = summ_freq(b, ctx) + 4;
    in_order_halved(h, base, 0, n, up, total, 0, count);
    let (h1, esc, sum) = halved_from(h, base, 0, n, up, total, 0);
    let half = |k: int| (count(k) + up) / 2;
    assert(sum == sum_of(half, 0, n));
    assert(nth(base, n - 1) == base + 6 * (n - 1));
    assert(count(n - 1) >= 2);
    assert(get8(h1.bytes, (base + 6 * (n - 1) + 1) as u32) == (count(n - 1) + up) / 2);
    assert(zeros_from(h1.bytes, base, n, 0) == 0);
    assert(states(h1.bytes, ctx) == base) by {
        reveal(get32);
    }
    let v = sum + (esc + 1) / 2;
    let d = rescaled(c, ctx);
    let out = put16(h1.bytes, plus(ctx, 2), (v % 0x1_0000) as u16);
    assert(d.h.bytes == out);
    assert(get16(out, plus(ctx, 2)) == v % 0x1_0000 && states(out, ctx) == base && forall|p: u32|
        p != ctx + 2 && p != ctx + 3 ==> #[trigger] get8(out, p) == get8(h1.bytes, p)) by {
        reveal(get16);
        reveal(put16);
        reveal(get32);
    }
    assert forall|k: int| 0 <= k < n implies freq(d.h.bytes, (base + 6 * k) as u32) == (#[trigger] count(k) + up) / 2 by {
        assert(get8(out, (base + 6 * k + 1) as u32) == get8(h1.bytes, (base + 6 * k + 1) as u32));
    }
    assert forall|k: int| 0 <= k < n implies #[trigger] symbol(d.h.bytes, (base + 6 * k) as u32) == symbol(
        c.h.bytes,
        (base + 6 * k) as u32,
    ) by {
        let p = (base + 6 * k) as u32;
        assert(get8(out, p) == get8(h1.bytes, p));
        assert(get8(h1.bytes, p) == get8(b, p));
    }
}

/// A state that was found and has passed the one before it comes before it when the two are
/// rescaled.
pub proof fn found_state_passes_the_other(c: Core, ctx: u32, base: u32)
    requires
        side_by_side(c.h.bytes.len(), base, 2, ctx),
        states(c.h.bytes, ctx) == base,
        last_index(c.h.bytes, ctx) == 1,
        c.found == base + 6,
        2 <= freq(c.h.bytes, base) <= 200,
        freq(c.h.bytes, base) + 2 <= freq(c.h.bytes, (base + 6) as u32) + 4 <= 200,
        freq(c.h.bytes, base) + freq(c.h.bytes, (base + 6) as u32) <= summ_freq(c.h.bytes, ctx) < 0xfff0,
    ensures
        ({
            let b = c.h.bytes;
            let d = rescaled(c, ctx);
            let up = if c.order_fall == 0 {
                0int
            } else {
                1
            };
            let s = (base + 6) as u32;
            &&& d.found == base
            &&& symbol(d.h.bytes, base) == symbol(b, s)
            &&& freq(d.h.bytes, base) == (freq(b, s) + 4 + up) / 2
            &&& symbol(d.h.bytes, s) == symbol(b, base)
            &&& freq(d.h.bytes, s) == (freq(b, base) + up) / 2
        }),
{
    reveal(rescaled);
    reveal(trimmed);
    byte_facts();
    let b = c.h.bytes;
    let s = (base + 6) as u32;
    let up = if c.order_fall == 0 {
        0int
    } else {
        1
    };
    assert(nth(base, 0) == base && nth(base, 1) == s);
    let c0 = saw_state(saw_context(c, ctx), c.found);
    let b0 = freq_set(b, s, (freq(b, s) + 4) as u8);
    let total = summ_freq(b, ctx) + 4;
    assert(summ_freq(b0, ctx) == summ_freq(b, ctx)) by {
        reveal(get16);
    }
    let h = Heap { bytes: b0, ..c0.h };
    let f0 = (freq(b, base) + up) / 2;
    let f1 = (freq(b, s) + 4 + up) / 2;
    first_is_halved(h, base, 0, 2, up, total, 0, freq(b, base) as int);
    let h0 = one_halved(h, base, 0, f0);
    let e0 = total - freq(b, base);
    let b1 = freq_set(h0.bytes, s, f1 as u8);
    let m = moved(b1, base, s, 6);
    assert(m.len() == b1.len() && get8(m, s) == get8(b1, base) && get8(m, plus(s, 1)) == get8(b1, plus(base, 1))
        && forall|p: u32| p < s || p >= s + 6 ==> #[trigger] get8(m, p) == get8(b1, p)) by {
        reveal(get8);
        reveal(put8);
        reveal(moved);
    }
    let succ = successor(b1, s);
    let a = put8(put8(m, base, symbol(b1, s)), plus(base, 1), f1 as u8);
    word_facts(a, plus(base, 2), succ);
    let out = put32(a, plus(base, 2), succ);
    assert(place_for(b1, base, 0, f1) == 0);
    let (h2, esc, sum) = halved_from(h0, base, 1, 2, up, e0, f0);
    assert(h2.bytes == out) by {
        reveal_with_fuel(halved_from, 2);
    }
    assert((h2, esc, sum) == halved_from(h, base, 0, 2, up, total, 0));
    assert(zeros_from(out, base, 2, 0) == 0);
    assert(states(out, ctx) == base) by {
        reveal(get32);
    }
    let v = sum + (esc + 1) / 2;
    let d = rescaled(c, ctx);
    let last = put16(out, plus(ctx, 2), (v % 0x1_0000) as u16);
    assert(d.h.bytes == last);
    assert(states(last, ctx) == base && forall|p: u32| p != ctx + 2 && p != ctx + 3 ==> #[trigger] get8(last, p) == get8(out, p)) by {
        reveal(put16);
        reveal(get32);
    }
}

/// A state whose count comes to nothing is dropped, and counts as one more escape; the only one
/// that is left moves into the context itself.
pub proof fn last_state_left_moves_into_its_context(c: Core, ctx: u32, base: u32)
    requires
        side_by_side(c.h.bytes.len(), base, 2, ctx),
        states(c.h.bytes, ctx) == base,
        last_index(c.h.bytes, ctx) == 1,
        c.found == base,
        c.order_fall == 0,
        2 <= freq(c.h.bytes, base) <= 200,
        freq(c.h.bytes, (base + 6) as u32) == 1,
        freq(c.h.bytes, base) + 1 <= summ_freq(c.h.bytes, ctx) < 0xfff0,
    ensures
        ({
            let b = c.h.bytes;
            let d = rescaled(c, ctx);
            let f = freq(b, base) + 4;
            let escapes = summ_freq(b, ctx) + 4 - f;
            let o = plus(ctx, 2);
            &&& d.found == o
            &&& last_index(d.h.bytes, ctx) == 0
            &&& symbol(d.h.bytes, o) == symbol(b, base)
            &&& freq(d.h.bytes, o) == single_freq(f / 2, escapes) % 0x100
            &&& successor(d.h.bytes, o) == successor(b, base)
        }),
{
    reveal(rescaled);
    reveal(trimmed);
    byte_facts();
    let b = c.h.bytes;
    let s = (base + 6) as u32;
    let count = |k: int| if k == 0 {
        freq(b, base) + 4
    } else {
        1int
    };
    assert(nth(base, 0) == base && nth(base, 1) == s);
    let c0 = saw_state(saw_context(c, ctx), c.found);
    let b0 = freq_set(b, base, (freq(b, base) + 4) as u8);
    let total = summ_freq(b, ctx) + 4;
    assert(summ_freq(b0, ctx) == summ_freq(b, ctx)) by {
        reveal(get16);
    }
    let h = Heap { bytes: b0, ..c0.h };
    assert forall|k: int| 0 <= k < 2 implies get8(h.bytes, (base + 6 * k + 1) as u32) == #[trigger] count(k) by {
        if k == 1 {
            assert((base + 6 * k + 1) as u32 == plus(s, 1));
        }
    }
    in_order_halved(h, base, 0, 2, 0, total, 0, count);
    let (h1, esc, sum) = halved_from(h, base, 0, 2, 0, total, 0);
    assert(sum_of(count, 0, 2) == freq(b, base) + 5) by {
        reveal_with_fuel(sum_of, 3);
    }
    assert(count(0) == freq(b, base) + 4 && count(1) == 1);
    assert(get8(h1.bytes, (base + 6 * 0 + 1) as u32) == (count(0) + 0) / 2);
    assert(get8(h1.bytes, (base + 6 * 1 + 1) as u32) == (count(1) + 0) / 2);
    assert(get8(h.bytes, (base + 6 * 0) as u32) == get8(b, base));
    assert(zeros_from(h1.bytes, base, 2, 0) == 1) by {
        reveal_with_fuel(zeros_from, 3);
    }
    assert(last_index(h1.bytes, ctx) == 1);
    let b1 = put8(h1.bytes, ctx, 0);
    assert(successor(b1, base) == successor(b, base)) by {
        successor_stays(h, base, total);
        reveal(get32);
    }
    let i = index_for(1);
    let b2 = put32(b1, base, h1.free[i]);
    word_facts(b1, base, h1.free[i]);
    let o = plus(ctx, 2);
    let f = (single_freq(freq(b1, base) as int, esc + 1) % 0x100) as u8;
    let a = put8(put8(b2, o, symbol(b1, base)), plus(o, 1), f);
    word_facts(a, plus(o, 2), successor(b1, base));
    let d = rescaled(c, ctx);
    assert(d.h.bytes == put32(a, plus(o, 2), successor(b1, base)));
}

/// Halving two states that stay in place leaves where the first leads.
proof fn successor_stays(h: Heap, base: u32, esc: int)
    requires
        h.bytes.len() <= 0xffff_ff00,
        base + 12 <= h.bytes.len(),
        get8(h.bytes, (base + 7) as u32) == 1,
        2 <= get8(h.bytes, (base + 1) as u32),
    ensures
        forall|p: u32|
            base + 2 <= p < base + 6 ==> #[trigger] get8(halved_from(h, base, 0, 2, 0, esc, 0).0.bytes, p) == get8(h.bytes, p),
{
    byte_facts();
    let f = get8(h.bytes, (base + 1) as u32) as int;
    first_is_halved(h, base, 0, 2, 0, esc, 0, f);
    let t = one_halved(h, base, 0, f / 2);
    first_is_halved(t, base, 1, 2, 0, esc - f, f / 2, 1);
    let u = one_halved(t, base, 1, 0);
    assert(halved_from(u, base, 2, 2, 0, esc - f - 1, f / 2).0 == u);
    assert(halved_from(h, base, 0, 2, 0, esc, 0).0.bytes == u.bytes);
}

// === new contexts =============================================================

/// A new context lies below another and is led to by a state; it has one state, which is a copy
/// of the given one, and is whole.
pub proof fn new_context_hangs_below(c: Core, parent: u32, state: u32, first: u32)
    requires
        c.h.low < c.h.high,
        12 <= c.h.high <= c.h.bytes.len() <= 0xffff_ff00,
        apart(c.h.bytes.len(), state, (c.h.high - 12) as u32),
        apart(c.h.bytes.len(), first, (c.h.high - 12) as u32),
        first != state,
        first + 6 <= state || state + 6 <= first,
        c.h.high > 12,
    ensures
        ({
            let (x, d) = child_made(c, parent, state, Some(first));
            let b = d.h.bytes;
            &&& x == c.h.high - 12
            &&& d.h.high == c.h.high - 12
            &&& num_states(b, x) == 1
            &&& flags(b, x) == 0
            &&& suffix(b, x) == parent
            &&& successor(b, state) == x
            &&& symbol(b, one_state(x)) == symbol(c.h.bytes, first)
            &&& freq(b, one_state(x)) == freq(c.h.bytes, first)
            &&& successor(b, one_state(x)) == successor(c.h.bytes, first)
            &&& b.len() == c.h.bytes.len()
            &&& d.h.low == c.h.low
            &&& forall|p: u32|
                !(x <= p < x + 12) && !(state + 2 <= p < state + 6) ==> #[trigger] get8(b, p) == get8(c.h.bytes, p)
        }),
{
    reveal(child_made);
    byte_facts();
    let x = (c.h.high - 12) as u32;
    let b0 = c.h.bytes;
    let a = put8(put8(b0, x, 0), plus(x, 1), 0);
    word_facts(a, plus(x, 8), parent);
    let b1 = put32(a, plus(x, 8), parent);
    word_facts(b1, plus(state, 2), x);
    let b2 = put32(b1, plus(state, 2), x);
    assert(forall|p: u32| first <= p < first + 6 ==> #[trigger] get8(b2, p) == get8(b0, p));
    assert(successor(b2, first) == successor(b0, first)) by {
        reveal(get32);
    }
    let o = one_state(x);
    let b3 = put8(put8(b2, o, symbol(b2, first)), plus(o, 1), freq(b2, first));
    word_facts(b3, plus(o, 2), successor(b2, first));
    let b = put32(b3, plus(o, 2), successor(b2, first));
    assert(forall|p: u32| state + 2 <= p < state + 6 ==> #[trigger] get8(b, p) == get8(b2, p));
    assert(successor(b, state) == x) by {
        reveal(get32);
    }
    assert(forall|p: u32| x + 8 <= p < x + 12 ==> #[trigger] get8(b, p) == get8(b1, p));
    assert(suffix(b, x) == parent) by {
        reveal(get32);
    }
    assert(child_made(c, parent, state, Some(first)).1.h.bytes == b);
}

pub(crate) proof fn word_facts(b: Seq<u8>, o: u32, v: u32)
    requires
        o + 4 <= b.len() <= 0xffff_ff00,
    ensures
        get32(put32(b, o, v), o) == v,
        put32(b, o, v).len() == b.len(),
        forall|q: u32| q < o || q >= o + 4 ==> #[trigger] get8(put32(b, o, v), q) == get8(b, q),
{
    put_is_got_back(b, o, v);
    byte_facts();
    reveal(put32);
}

/// The state that new contexts get has the count of the only state of the context above, or
/// what the share of the symbol there suggests.
pub proof fn new_states_go_by_the_context_above(c: Core, ctx: u32, up: u32)
    requires
        apart(c.h.bytes.len(), up, ctx),
    ensures
        ({
            let b = c.h.bytes;
            let d = upstate_set(c, ctx, up);
            if num_states(b, ctx) == 1 {
                freq(d.h.bytes, up) == freq(b, plus(ctx, 2))
            } else {
                let (at, c1) = state_for(saw_state(saw_context(c, ctx), up), states(b, ctx), symbol(b, up));
                let cf = freq(b, at) - 1;
                let others = summ_freq(b, ctx) - (last_index(b, ctx) + 1) - cf;
                c1.h.bytes == b && others > 0 && cf >= 0 ==> freq(d.h.bytes, up) == suggested(cf, others) % 0x100
            }
        }),
{
    reveal(upstate_set);
    byte_facts();
}

// === moving on ================================================================

/// Where the state that was found led nowhere, it leads to the new context from now on, the
/// model falls one order less far, and the contexts below the shortest are done.
pub proof fn state_that_led_nowhere_leads_on(m: ModelState, next: u32, skip: int, state: Option<u32>)
    requires
        m.core.found + 6 <= m.core.h.bytes.len() <= 0xffff_ff00,
        m.core.order_fall < 0x7fff_ffff,
    ensures
        ({
            let d = moved_on(m, next, 0, skip, state);
            &&& successor(d.core.h.bytes, m.core.found) == next
            &&& d.core.found == m.core.found
            &&& d.core.order_fall == m.core.order_fall + 1
            &&& d.min == m.min
            &&& d.med == m.min
            &&& d.max == next
        }),
{
    reveal(moved_on);
    word_facts(m.core.h.bytes, plus(m.core.found, 2), next);
}

/// Where it led to a whole context, the model goes on there.
pub proof fn state_that_led_to_a_context_is_followed(m: ModelState, next: u32, succ: u32, skip: int, state: Option<u32>)
    requires
        succ != 0,
        flags(m.core.h.bytes, succ) != 1,
    ensures
        ({
            let d = moved_on(m, next, succ, skip, state);
            let to = successor(m.core.h.bytes, m.core.found);
            &&& d.min == to
            &&& d.med == to
            &&& d.max == next
            &&& d.core.h.bytes == m.core.h.bytes
            &&& d.core.order_fall == m.core.order_fall
        }),
{
    reveal(moved_on);
}

/// Where the mask is cleared, no symbol is masked and the marks start again.
pub proof fn cleared_mask_masks_nothing(c: Core)
    ensures
        mask_cleared(c).esc_count == 1,
        mask_cleared(c).mask.len() == 256,
        forall|i: int| 0 <= i < 256 ==> #[trigger] mask_cleared(c).mask[i] == 0,
{
}

} // verus!
