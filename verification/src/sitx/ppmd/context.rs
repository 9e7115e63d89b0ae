use vstd::prelude::*;
use crate::sitx::ppmd::suballoc::{
    context_allocated, copied, freed, get16, get32, get8, index_for, put16, put32, put8, shrunk, touched, BrimstoneAlloc,
    Heap,
};
use crate::sitx::rangecoder::{count_of, narrowed, share_leaves_room, weighted2_next, weighted_next, Kind, RangeCoder, RangeState};

verus! {

/// The highest frequency a state may have before its context is rescaled.
pub const MAX_FREQ: u32 = 124;

/// The bytes of one state.
pub const STATE_SIZE: u32 = 6;

/// The bytes of one context.
pub const CONTEXT_SIZE: u32 = 12;

// A state is a symbol, a frequency and the offset of a following context. A context
// is the number of its last state, flags, the sum of its frequencies, the offset of
// its states and the offset of its suffix. A context with a single state holds the
// state itself in place of the sum and the offset.

/// The offset `n` bytes after `off`.
pub open spec fn plus(off: u32, n: u32) -> u32 {
    off.wrapping_add(n)
}

/// State number `i` of those at `base`.
pub open spec fn nth(base: u32, i: int) -> u32 {
    ((base + 6 * i) % 0x1_0000_0000) as u32
}

pub open spec fn symbol(b: Seq<u8>, s: u32) -> u8 {
    get8(b, s)
}

pub open spec fn freq(b: Seq<u8>, s: u32) -> u8 {
    get8(b, plus(s, 1))
}

pub open spec fn successor(b: Seq<u8>, s: u32) -> u32 {
    get32(b, plus(s, 2))
}

pub open spec fn last_index(b: Seq<u8>, c: u32) -> u8 {
    get8(b, c)
}

pub open spec fn flags(b: Seq<u8>, c: u32) -> u8 {
    get8(b, plus(c, 1))
}

pub open spec fn summ_freq(b: Seq<u8>, c: u32) -> u16 {
    get16(b, plus(c, 2))
}

pub open spec fn states(b: Seq<u8>, c: u32) -> u32 {
    get32(b, plus(c, 4))
}

pub open spec fn suffix(b: Seq<u8>, c: u32) -> u32 {
    get32(b, plus(c, 8))
}

/// The state that a single-state context holds.
pub open spec fn one_state(c: u32) -> u32 {
    plus(c, 2)
}

pub open spec fn num_states(b: Seq<u8>, c: u32) -> int {
    if flags(b, c) != 0 {
        0
    } else {
        last_index(b, c) + 1
    }
}

pub open spec fn with_bytes(h: Heap, b: Seq<u8>) -> Heap {
    Heap { bytes: b, ..h }
}

/// State `s` made to hold the given fields.
pub open spec fn state_set(b: Seq<u8>, s: u32, sym: u8, f: u8, succ: u32) -> Seq<u8> {
    put32(put8(put8(b, s, sym), plus(s, 1), f), plus(s, 2), succ)
}

pub open spec fn freq_set(b: Seq<u8>, s: u32, f: u8) -> Seq<u8> {
    put8(b, plus(s, 1), f)
}

pub open spec fn summ_set(b: Seq<u8>, c: u32, v: int) -> Seq<u8> {
    put16(b, plus(c, 2), (v % 0x1_0000) as u16)
}

/// State `src` copied over state `dst`.
pub open spec fn state_copied(b: Seq<u8>, src: u32, dst: u32) -> Seq<u8> {
    state_set(b, dst, symbol(b, src), freq(b, src), successor(b, src))
}

/// States `x` and `y` exchanged.
pub open spec fn states_swapped(b: Seq<u8>, x: u32, y: u32) -> Seq<u8> {
    state_set(state_copied(b, y, x), y, symbol(b, x), freq(b, x), successor(b, x))
}

// === executable access ========================================================

pub fn state_at(base: u32, i: u32) -> (r: u32)
    requires
        i <= 0x1000,
    ensures
        r == nth(base, i as int),
{
    ((base as u64 + 6 * i as u64) % 0x1_0000_0000) as u32
}

/// The state before `s`.
pub fn state_before(s: u32) -> (r: u32)
    ensures
        r == nth(s, -1),
{
    if s >= 6 {
        s - 6
    } else {
        (s as u64 + 0xffff_fffa) as u32
    }
}

pub fn state_symbol(a: &BrimstoneAlloc, s: u32) -> (r: u8)
    ensures
        r == symbol(a.view().bytes, s),
{
    a.get_u8(s)
}

pub fn state_freq(a: &BrimstoneAlloc, s: u32) -> (r: u8)
    ensures
        r == freq(a.view().bytes, s),
{
    a.get_u8(s.wrapping_add(1))
}

pub fn state_successor(a: &BrimstoneAlloc, s: u32) -> (r: u32)
    ensures
        r == successor(a.view().bytes, s),
{
    a.get_u32(s.wrapping_add(2))
}

pub fn set_state_symbol(a: &mut BrimstoneAlloc, s: u32, v: u8)
    ensures
        final(a).tables_same(old(a)),
        final(a).view() == with_bytes(old(a).view(), put8(old(a).view().bytes, s, v)),
{
    a.put_u8(s, v);
}

pub fn set_state_freq(a: &mut BrimstoneAlloc, s: u32, v: u8)
    ensures
        final(a).tables_same(old(a)),
        final(a).view() == with_bytes(old(a).view(), freq_set(old(a).view().bytes, s, v)),
{
    a.put_u8(s.wrapping_add(1), v);
}

pub fn set_state_successor(a: &mut BrimstoneAlloc, s: u32, v: u32)
    ensures
        final(a).tables_same(old(a)),
        final(a).view() == with_bytes(old(a).view(), put32(old(a).view().bytes, plus(s, 2), v)),
{
    a.put_u32(s.wrapping_add(2), v);
}

/// Make state `s` hold the given fields.
pub fn set_state(a: &mut BrimstoneAlloc, s: u32, sym: u8, f: u8, succ: u32)
    ensures
        final(a).tables_same(old(a)),
        final(a).view() == with_bytes(old(a).view(), state_set(old(a).view().bytes, s, sym, f, succ)),
{
    a.put_u8(s, sym);
    a.put_u8(s.wrapping_add(1), f);
    a.put_u32(s.wrapping_add(2), succ);
}

pub fn copy_state(a: &mut BrimstoneAlloc, src: u32, dst: u32)
    ensures
        final(a).tables_same(old(a)),
        final(a).view() == with_bytes(old(a).view(), state_copied(old(a).view().bytes, src, dst)),
{
    let sym: u8 = state_symbol(a, src);
    let f: u8 = state_freq(a, src);
    let succ: u32 = state_successor(a, src);
    set_state(a, dst, sym, f, succ);
}

pub fn swap_states(a: &mut BrimstoneAlloc, x: u32, y: u32)
    ensures
        final(a).tables_same(old(a)),
        final(a).view() == with_bytes(old(a).view(), states_swapped(old(a).view().bytes, x, y)),
{
    let sym: u8 = state_symbol(a, x);
    let f: u8 = state_freq(a, x);
    let succ: u32 = state_successor(a, x);
    copy_state(a, y, x);
    set_state(a, y, sym, f, succ);
}

pub fn ctx_last_state_index(a: &BrimstoneAlloc, c: u32) -> (r: u8)
    ensures
        r == last_index(a.view().bytes, c),
{
    a.get_u8(c)
}

pub fn set_ctx_last_state_index(a: &mut BrimstoneAlloc, c: u32, v: u8)
    ensures
        final(a).tables_same(old(a)),
        final(a).view() == with_bytes(old(a).view(), put8(old(a).view().bytes, c, v)),
{
    a.put_u8(c, v);
}

pub fn ctx_flags(a: &BrimstoneAlloc, c: u32) -> (r: u8)
    ensures
        r == flags(a.view().bytes, c),
{
    a.get_u8(c.wrapping_add(1))
}

pub fn set_ctx_flags(a: &mut BrimstoneAlloc, c: u32, v: u8)
    ensures
        final(a).tables_same(old(a)),
        final(a).view() == with_bytes(old(a).view(), put8(old(a).view().bytes, plus(c, 1), v)),
{
    a.put_u8(c.wrapping_add(1), v);
}

pub fn ctx_summ_freq(a: &BrimstoneAlloc, c: u32) -> (r: u16)
    ensures
        r == summ_freq(a.view().bytes, c),
{
    a.get_u16(c.wrapping_add(2))
}

pub fn set_ctx_summ_freq(a: &mut BrimstoneAlloc, c: u32, v: i32)
    ensures
        final(a).tables_same(old(a)),
        final(a).view() == with_bytes(old(a).view(), summ_set(old(a).view().bytes, c, v as int)),
{
    let m: i64 = v as i64 + 0x1_0000_0000;
    assert(m % 0x1_0000 == v as int % 0x1_0000);
    a.put_u16(c.wrapping_add(2), (m % 0x1_0000) as u16);
}

pub fn ctx_states(a: &BrimstoneAlloc, c: u32) -> (r: u32)
    ensures
        r == states(a.view().bytes, c),
{
    a.get_u32(c.wrapping_add(4))
}

pub fn set_ctx_states(a: &mut BrimstoneAlloc, c: u32, s: u32)
    ensures
        final(a).tables_same(old(a)),
        final(a).view() == with_bytes(old(a).view(), put32(old(a).view().bytes, plus(c, 4), s)),
{
    a.put_u32(c.wrapping_add(4), s);
}

pub fn ctx_suffix(a: &BrimstoneAlloc, c: u32) -> (r: u32)
    ensures
        r == suffix(a.view().bytes, c),
{
    a.get_u32(c.wrapping_add(8))
}

pub fn set_ctx_suffix(a: &mut BrimstoneAlloc, c: u32, s: u32)
    ensures
        final(a).tables_same(old(a)),
        final(a).view() == with_bytes(old(a).view(), put32(old(a).view().bytes, plus(c, 8), s)),
{
    a.put_u32(c.wrapping_add(8), s);
}

pub fn ctx_one_state(c: u32) -> (r: u32)
    ensures
        r == one_state(c),
{
    c.wrapping_add(2)
}

pub fn number_of_states(a: &BrimstoneAlloc, c: u32) -> (r: u32)
    ensures
        r == num_states(a.view().bytes, c),
        r <= 256,
{
    if ctx_flags(a, c) != 0 {
        0
    } else {
        ctx_last_state_index(a, c) as u32 + 1
    }
}

// === escape estimates =========================================================

/// An adaptive estimate of how often a set of states is escaped from.
#[derive(Clone, Copy, PartialEq, Eq, Structural)]
pub struct See2Context {
    pub summ: u16,
    pub shift: u8,
    pub count: u8,
}

pub open spec fn see_make(initval: int, count: u8) -> See2Context {
    See2Context { summ: ((initval * 8) % 0x1_0000) as u16, shift: 3, count }
}

/// The estimate, 1 at least, and what is left after it has been used.
pub open spec fn see_full_mean(see: See2Context) -> (u32, See2Context) {
    let v = (see.summ as u32 >> (see.shift as u32)) as u16;
    (
        if v == 0 {
            1u32
        } else {
            v as u32
        },
        See2Context { summ: see.summ.wrapping_sub(v), ..see },
    )
}

/// The same with no more than ten digits of the estimate.
pub open spec fn see_mean(see: See2Context) -> (u32, See2Context) {
    let v = (see.summ as u32 >> (see.shift as u32)) as u16;
    let m = v % 0x400;
    (
        if m == 0 {
            1u32
        } else {
            m as u32
        },
        See2Context { summ: see.summ.wrapping_sub(v), ..see },
    )
}

pub open spec fn see_updated(see: See2Context) -> See2Context {
    if see.shift >= 7 {
        see
    } else {
        let count = see.count.wrapping_sub(1);
        if count == 0 {
            See2Context {
                summ: see.summ.wrapping_mul(2),
                shift: (see.shift + 1) as u8,
                count: ((3u32 << (see.shift as u32)) % 0x100) as u8,
            }
        } else {
            See2Context { count, ..see }
        }
    }
}

impl See2Context {
    pub fn make(initval: u32, count: u8) -> (r: Self)
        ensures
            r == see_make(initval as int, count),
    {
        See2Context { summ: ((initval % 0x2000) * 8) as u16, shift: 3, count }
    }

    pub fn mean_masked(&mut self) -> (r: u32)
        requires
            old(self).shift < 32,
        ensures
            (r, *final(self)) == see_mean(*old(self)),
            1 <= r <= 0x3ff,
            final(self).shift == old(self).shift,
    {
        let v: u16 = (self.summ as u32 >> (self.shift as u32)) as u16;
        self.summ = self.summ.wrapping_sub(v);
        let m: u16 = v % 0x400;
        if m == 0 {
            1
        } else {
            m as u32
        }
    }

    pub fn mean(&mut self) -> (r: u32)
        requires
            old(self).shift < 32,
        ensures
            (r, *final(self)) == see_full_mean(*old(self)),
    {
        let v: u16 = (self.summ as u32 >> (self.shift as u32)) as u16;
        self.summ = self.summ.wrapping_sub(v);
        if v == 0 {
            1
        } else {
            v as u32
        }
    }

    pub fn update(&mut self)
        ensures
            *final(self) == see_updated(*old(self)),
            final(self).shift <= 7 || final(self).shift == old(self).shift,
    {
        if self.shift >= 7 {
            return;
        }
        self.count = self.count.wrapping_sub(1);
        if self.count == 0 {
            self.summ = self.summ.wrapping_mul(2);
            let c: u32 = 3u32 << (self.shift as u32);
            self.count = (c % 0x100) as u8;
            self.shift = self.shift + 1;
        }
    }
}

// === the core of the model ====================================================

/// The model's working set: the heap, the scale of the last range, the state found
/// last, how many orders have been fallen through, the escape estimate for a new
/// context, the symbols already ruled out (those marked with `esc_count`), and
/// whether the last symbol was the likely one.
pub struct Core {
    pub h: Heap,
    pub scale: u32,
    pub found: u32,
    pub order_fall: i32,
    pub init_esc: u32,
    pub mask: Seq<u8>,
    pub last_mask: u8,
    pub esc_count: u8,
    pub prev_success: u8,
}

/// The escape estimates for the rising quality of a binary context.
pub const EXP_ESCAPE: [u32; 16] = [25, 14, 9, 7, 5, 5, 4, 4, 4, 3, 3, 3, 2, 2, 2, 2];

pub open spec fn with_heap(c: Core, h: Heap) -> Core {
    Core { h, ..c }
}

/// The core once something has turned out not to fit.
pub open spec fn gone_lost(c: Core) -> Core {
    Core { h: Heap { lost: true, ..c.h }, ..c }
}

/// The core with context `x` looked at.
pub open spec fn saw_context(c: Core, x: u32) -> Core {
    Core { h: touched(c.h, x, 12), ..c }
}

/// The core with state `x` looked at.
pub open spec fn saw_state(c: Core, x: u32) -> Core {
    Core { h: touched(c.h, x, 6), ..c }
}

/// A new context without states; 0 if there is no room.
#[verifier::opaque]
pub open spec fn context_made(c: Core) -> (u32, Core) {
    let (x, h) = context_allocated(c.h);
    if x == 0 {
        (x, with_heap(c, h))
    } else {
        let t = touched(h, x, 12);
        (x, with_heap(c, with_bytes(t, put32(put8(put8(t.bytes, x, 0), plus(x, 1), 0), plus(x, 8), 0))))
    }
}

/// A new context below `parent`, to which `state` leads and which holds a copy of
/// the state `first`, if there is one; 0 if there is no room.
#[verifier::opaque]
pub open spec fn child_made(c: Core, parent: u32, state: u32, first: Option<u32>) -> (u32, Core) {
    let (x, h) = context_allocated(c.h);
    if x == 0 {
        (x, with_heap(c, h))
    } else {
        let t = touched(touched(h, x, 12), state, 6);
        let b1 = put32(put8(put8(t.bytes, x, 0), plus(x, 1), 0), plus(x, 8), parent);
        let b2 = put32(b1, plus(state, 2), x);
        match first {
            None => (x, with_heap(c, with_bytes(t, b2))),
            Some(f) => (x, with_heap(c, with_bytes(touched(t, f, 6), state_copied(b2, f, one_state(x))))),
        }
    }
}

// === rescaling ================================================================

/// Where a state of frequency `f` belongs among the `j + 1` before it.
pub open spec fn place_for(b: Seq<u8>, base: u32, j: int, f: int) -> int
    decreases j,
{
    if j > 0 && f > freq(b, nth(base, j - 1)) {
        place_for(b, base, j - 1, f)
    } else {
        j
    }
}

/// The states from number `i` on halved and moved to where they belong; `esc` loses
/// what they had and `sum` gains what they have.
pub open spec fn halved_from(h: Heap, base: u32, i: int, n: int, adder: int, esc: int, sum: int) -> (Heap, int, int)
    decreases n - i,
{
    if i >= n {
        (h, esc, sum)
    } else {
        let si = nth(base, i);
        let t = touched(h, si, 6);
        let f = freq(t.bytes, si) as int;
        let f1 = (f + adder) / 2;
        let b1 = freq_set(t.bytes, si, f1 as u8);
        let h1 = if i > 0 && f1 > freq(b1, nth(base, i - 1)) {
            let sym = symbol(b1, si);
            let succ = successor(b1, si);
            let j = place_for(b1, base, i - 1, f1);
            let m = copied(with_bytes(t, b1), nth(base, j), nth(base, j + 1), (6 * (i - j)) as u32);
            with_bytes(m, state_set(m.bytes, nth(base, j), sym, f1 as u8, succ))
        } else {
            with_bytes(t, b1)
        };
        halved_from(h1, base, i + 1, n, adder, esc - f, sum + f1)
    }
}

/// How many of the last states, `k` being known, have frequency 0.
pub open spec fn zeros_from(b: Seq<u8>, base: u32, n: int, k: int) -> int
    decreases n - k,
{
    if k < n && freq(b, nth(base, n - 1 - k)) == 0 {
        zeros_from(b, base, n, k + 1)
    } else {
        k
    }
}

/// The frequency of a single state that is left, halved as often as the escapes
/// can be.
pub open spec fn single_freq(f: int, esc: int) -> int
    decreases
        (if esc > 0 {
            esc
        } else {
            0
        }),
{
    let f1 = (f + 1) / 2;
    let esc1 = esc / 2;
    if esc1 <= 1 {
        f1
    } else {
        single_freq(f1, esc1)
    }
}

/// A context whose states have been halved, `esc` and `sum` being its escapes and
/// its sum: states of frequency 0 are dropped, and the found state becomes the first.
#[verifier::opaque]
pub open spec fn trimmed(c: Core, ctx: u32, base: u32, n: int, esc: int, sum: int) -> Core {
    let zeros = zeros_from(c.h.bytes, base, n, 0);
    let last1 = last_index(c.h.bytes, ctx) - zeros;
    if zeros > 0 && last1 == 0 {
        let b = put8(c.h.bytes, ctx, 0);
        let f = single_freq(freq(b, base) as int, esc + zeros);
        let sym = symbol(b, base);
        let succ = successor(b, base);
        let h1 = freed(with_bytes(c.h, b), base, index_for((n + 1) / 2));
        Core {
            h: with_bytes(h1, state_set(h1.bytes, one_state(ctx), sym, (f % 0x100) as u8, succ)),
            found: one_state(ctx),
            ..c
        }
    } else if zeros > 0 && (last1 < 0 || (last1 + 2) / 2 > (n + 1) / 2) {
        gone_lost(c)
    } else {
        let h1 = if zeros > 0 {
            let h0 = with_bytes(c.h, put8(c.h.bytes, ctx, last1 as u8));
            let n0 = (n + 1) / 2;
            let n1 = (last1 + 2) / 2;
            if n0 != n1 {
                let (p, hs) = shrunk(h0, base, n0, n1);
                with_bytes(hs, put32(hs.bytes, plus(ctx, 4), p))
            } else {
                h0
            }
        } else {
            c.h
        };
        let b = summ_set(h1.bytes, ctx, sum + (esc + zeros + 1) / 2);
        Core { h: with_bytes(h1, b), found: states(b, ctx), ..c }
    }
}

/// A context with all its frequencies halved.
#[verifier::opaque]
pub open spec fn rescaled(c: Core, ctx: u32) -> Core {
    let c0 = saw_state(saw_context(c, ctx), c.found);
    let base = states(c0.h.bytes, ctx);
    let n = last_index(c0.h.bytes, ctx) + 1;
    let b = freq_set(c0.h.bytes, c.found, freq(c0.h.bytes, c.found).wrapping_add(4));
    let adder = if c.order_fall == 0 {
        0int
    } else {
        1int
    };
    let (h1, esc, sum) = halved_from(with_bytes(c0.h, b), base, 0, n, adder, summ_freq(b, ctx) + 4, 0);
    trimmed(with_heap(c0, h1), ctx, base, n, esc, sum)
}

/// A state of a context counted again, moved before its neighbour if it has passed
/// it.
#[verifier::opaque]
pub open spec fn counted1(c: Core, ctx: u32, state: u32) -> Core {
    let prev = nth(state, -1);
    let c0 = saw_state(saw_state(c, state), prev);
    let f = freq(c0.h.bytes, state).wrapping_add(4);
    let b0 = freq_set(c0.h.bytes, state, f);
    let b = summ_set(b0, ctx, summ_freq(b0, ctx) + 4);
    if f > freq(b, prev) {
        let c1 = Core { h: with_bytes(c0.h, states_swapped(b, state, prev)), found: prev, ..c0 };
        if f > MAX_FREQ {
            rescaled(c1, ctx)
        } else {
            c1
        }
    } else {
        Core { h: with_bytes(c0.h, b), found: state, ..c0 }
    }
}

/// A state that was found below an escape counted again.
#[verifier::opaque]
pub open spec fn counted2(c: Core, ctx: u32, state: u32) -> Core {
    let c0 = saw_state(c, state);
    let f = freq(c0.h.bytes, state).wrapping_add(4);
    let b0 = freq_set(c0.h.bytes, state, f);
    let b = summ_set(b0, ctx, summ_freq(b0, ctx) + 4);
    let c1 = Core { h: with_bytes(c0.h, b), found: state, ..c0 };
    let c2 = if f > MAX_FREQ {
        rescaled(c1, ctx)
    } else {
        c1
    };
    Core { esc_count: c2.esc_count.wrapping_add(1), ..c2 }
}

// === decoding =================================================================

/// The rounded mean of a probability out of 0x4000.
pub open spec fn mean_of(bs: u16) -> u16 {
    ((bs + 32) / 128) as u16
}

/// The core and the probability `bs` once it is known whether the single state at `rs`
/// came: it did if `bit` is 0. Its frequency grows up to `limit`.
pub open spec fn bin_learnt(c: Core, rs: u32, bs: u16, bit: u32, limit: int) -> (Core, u16) {
    if bit == 0 {
        let f = freq(c.h.bytes, rs);
        (
            Core {
                h: if f < limit {
                    with_bytes(c.h, freq_set(c.h.bytes, rs, (f + 1) as u8))
                } else {
                    c.h
                },
                prev_success: 1,
                found: rs,
                ..c
            },
            bs.wrapping_add(128).wrapping_sub(mean_of(bs)),
        )
    } else {
        let bs1 = bs.wrapping_sub(mean_of(bs));
        let c1 = Core {
            mask: c.mask.update(symbol(c.h.bytes, rs) as int, c.esc_count),
            prev_success: 0,
            found: 0,
            last_mask: 0,
            ..c
        };
        (
            if bs1 < 0x4000 {
                Core { init_esc: EXP_ESCAPE@[bs1 as int / 0x400], ..c1 }
            } else {
                gone_lost(c1)
            },
            bs1,
        )
    }
}

/// A bit of which 0 has probability `bs`, by either rule of the range decoder.
pub open spec fn bin_bit(input: Seq<u8>, s: RangeState, k: Kind, bs: u16, alt: bool) -> Option<(u32, RangeState)> {
    if !alt {
        weighted_next(input, s, k, bs as u32, 0x4000)
    } else if bs < 0x4000 {
        Some(weighted2_next(input, s, k, bs as u32, 14))
    } else {
        None
    }
}

/// Decode whether the single state of `ctx` comes, with probability `bs`, which
/// adapts.
#[verifier::opaque]
pub open spec fn bin_next(
    input: Seq<u8>,
    s: RangeState,
    k: Kind,
    c: Core,
    ctx: u32,
    bs: u16,
    limit: int,
    alt: bool,
) -> (RangeState, Core, u16) {
    let c0 = saw_context(c, ctx);
    match bin_bit(input, s, k, bs, alt) {
        None => (s, gone_lost(c0), bs),
        Some((bit, s1)) => {
            let (c1, bs1) = bin_learnt(c0, one_state(ctx), bs, bit, limit);
            (s1, c1, bs1)
        },
    }
}

/// The symbols of the states from `i` up to `last` ruled out.
pub open spec fn masked_from(c: Core, base: u32, i: int, last: int) -> Core
    decreases last + 1 - i,
{
    if i > last {
        c
    } else {
        let c0 = saw_state(c, nth(base, i));
        masked_from(
            Core { mask: c0.mask.update(symbol(c0.h.bytes, nth(base, i)) as int, c0.esc_count), ..c0 },
            base,
            i + 1,
            last,
        )
    }
}

/// Narrow the range to a share, or go lost if there is no such share.
#[verifier::opaque]
pub open spec fn share(input: Seq<u8>, s: RangeState, k: Kind, c: Core, lo: int, hi: int) -> (RangeState, Core) {
    if lo < hi <= c.scale <= s.range {
        (narrowed(input, s, k, lo, hi, c.scale as int), c)
    } else {
        (s, gone_lost(c))
    }
}

/// A count as a signed number of 32 bits.
pub open spec fn signed(count: int) -> int {
    if count > 0x7fff_ffff {
        count - 0x1_0000_0000
    } else {
        count
    }
}

/// Decode among the states of `ctx` from number `i` on, the shares before ending at
/// `high`; past the last of them comes the escape.
pub open spec fn symbol1_from(
    input: Seq<u8>,
    s: RangeState,
    k: Kind,
    c: Core,
    ctx: u32,
    base: u32,
    count: int,
    i: int,
    last: int,
    high: int,
) -> (RangeState, Core)
    decreases last + 1 - i,
{
    if i > last {
        if c.found == 0 {
            (s, c)
        } else {
            let (s1, c1) = share(input, s, k, c, high, c.scale as int);
            (s1, masked_from(Core { last_mask: last as u8, found: 0, ..c1 }, base, 0, last))
        }
    } else {
        let c0 = saw_state(c, nth(base, i));
        let f = freq(c0.h.bytes, nth(base, i)) as int;
        if high + f > count {
            let (s1, c1) = share(input, s, k, c0, high, high + f);
            (s1, counted1(c1, ctx, nth(base, i)))
        } else {
            symbol1_from(input, s, k, c0, ctx, base, count, i + 1, last, high + f)
        }
    }
}

/// The core once the first state of a context, which had frequency `first`, has come.
/// It counts as the likely one with more than half of all, or with half if `half`.
pub open spec fn first_learnt(c: Core, ctx: u32, base: u32, first: u8, half: bool) -> Core {
    let b = freq_set(c.h.bytes, base, first.wrapping_add(4));
    let c1 = Core {
        h: with_bytes(c.h, summ_set(b, ctx, c.scale + 4)),
        prev_success: if 2 * first > c.scale || half && 2 * first == c.scale {
            1
        } else {
            0
        },
        found: base,
        ..c
    };
    if first + 4 > MAX_FREQ {
        rescaled(c1, ctx)
    } else {
        c1
    }
}

/// Decode among the states of `ctx`, none being ruled out.
#[verifier::opaque]
pub open spec fn symbol1_next(input: Seq<u8>, s: RangeState, k: Kind, c: Core, ctx: u32, half: bool) -> (
    RangeState,
    Core,
) {
    let c0 = saw_context(c, ctx);
    let c1 = Core { scale: summ_freq(c0.h.bytes, ctx) as u32, ..c0 };
    let base = states(c1.h.bytes, ctx);
    let c2 = saw_state(c1, base);
    let first = freq(c2.h.bytes, base);
    if c2.scale == 0 || c2.scale > s.range {
        (s, gone_lost(c2))
    } else {
        let count = signed(count_of(s, c2.scale as int));
        if count < first {
            let (s1, c3) = share(input, s, k, c2, 0, first as int);
            (s1, first_learnt(c3, ctx, base, first, half))
        } else {
            symbol1_from(
                input,
                s,
                k,
                Core { prev_success: 0, ..c2 },
                ctx,
                base,
                count,
                1,
                last_index(c2.h.bytes, ctx) as int,
                first as int,
            )
        }
    }
}

/// The first state from `st` on that is not ruled out; the core goes lost if there
/// is none in the heap.
pub open spec fn unmasked_from(c: Core, st: u32) -> (u32, Core)
    decreases c.h.bytes.len() - st,
{
    let c0 = saw_state(c, st);
    if st + 6 > c.h.bytes.len() || st > 0xffff_ff00 || c.mask[symbol(c.h.bytes, st) as int] != c.esc_count {
        (st, c0)
    } else {
        unmasked_from(c0, (st + 6) as u32)
    }
}

/// `n` more states that are not ruled out behind those in `found`, and their
/// frequencies added up.
pub open spec fn open_states(c: Core, st: u32, n: nat, found: Seq<u32>, total: int) -> (Seq<u32>, int, Core)
    decreases n,
{
    if n == 0 {
        (found, total, c)
    } else {
        let (x, c0) = unmasked_from(c, st);
        open_states(c0, nth(x, 1), (n - 1) as nat, found.push(x), total + freq(c0.h.bytes, x))
    }
}

/// The state whose share holds `count`, from number `i` on, the shares up to and with
/// its own ending at `high`.
pub open spec fn open_pick(b: Seq<u8>, ps: Seq<u32>, count: int, i: int, high: int) -> (int, int)
    decreases ps.len() - i,
{
    if high <= count && i + 1 < ps.len() {
        open_pick(b, ps, count, i + 1, high + freq(b, ps[i + 1]))
    } else {
        (i, high)
    }
}

/// The symbols of the states in `ps` from number `i` on ruled out.
pub open spec fn masked_all(c: Core, ps: Seq<u32>, i: int) -> Core
    decreases ps.len() - i,
{
    if i >= ps.len() {
        c
    } else {
        masked_all(Core { mask: c.mask.update(symbol(c.h.bytes, ps[i]) as int, c.esc_count), ..c }, ps, i + 1)
    }
}

/// Decode among the states of `ctx` that are not ruled out; `c.scale` is the share of
/// the escape, which `see` estimates.
#[verifier::opaque]
pub open spec fn symbol2_next(input: Seq<u8>, s: RangeState, k: Kind, c: Core, ctx: u32, see: See2Context) -> (
    RangeState,
    Core,
    See2Context,
) {
    let c0 = saw_context(c, ctx);
    let last = last_index(c0.h.bytes, ctx);
    if last <= c0.last_mask {
        (s, gone_lost(c0), see)
    } else {
        let n = (last - c0.last_mask) as nat;
        let (ps, total, c1) = open_states(c0, states(c0.h.bytes, ctx), n, seq![], 0);
        let c2 = Core { scale: (c1.scale + total) as u32, ..c1 };
        if c2.scale == 0 || c2.scale > s.range {
            (s, gone_lost(c2), see)
        } else {
            let count = signed(count_of(s, c2.scale as int));
            if count < total {
                let (i, high) = open_pick(c2.h.bytes, ps, count, 0, freq(c2.h.bytes, ps[0]) as int);
                let (s1, c3) = share(input, s, k, c2, high - freq(c2.h.bytes, ps[i]), high);
                (s1, counted2(c3, ctx, ps[i]), see_updated(see))
            } else {
                let (s1, c3) = share(input, s, k, c2, total, c2.scale as int);
                (
                    s1,
                    masked_all(Core { last_mask: last, ..c3 }, ps, 0),
                    See2Context { summ: see.summ.wrapping_add((c2.scale % 0x1_0000) as u16), ..see },
                )
            }
        }
    }
}

/// No symbol ruled out.
pub open spec fn mask_cleared(c: Core) -> Core {
    Core { esc_count: 1, mask: Seq::new(256, |i: int| 0u8), ..c }
}

/// The model's working set.
pub struct PpmdCore {
    pub heap: BrimstoneAlloc,
    pub scale: u32,
    pub found_state: u32,
    pub order_fall: i32,
    pub init_esc: u32,
    pub char_mask: Vec<u8>,
    pub last_mask_index: u8,
    pub esc_count: u8,
    pub prev_success: u8,
}

impl PpmdCore {
    pub open spec fn view(&self) -> Core {
        Core {
            h: self.heap.view(),
            scale: self.scale,
            found: self.found_state,
            order_fall: self.order_fall,
            init_esc: self.init_esc,
            mask: self.char_mask@,
            last_mask: self.last_mask_index,
            esc_count: self.esc_count,
            prev_success: self.prev_success,
        }
    }

    pub open spec fn wf(&self) -> bool {
        self.heap.wf() && self.char_mask@.len() == 256
    }

    /// Nothing but the contents has changed.
    pub open spec fn kept(&self, before: &Self) -> bool {
        self.wf() && self.heap.tables_same(&before.heap)
    }

    fn see_context(&mut self, x: u32)
        requires
            old(self).wf(),
        ensures
            final(self).kept(old(self)),
            final(self).view() == saw_context(old(self).view(), x),
    {
        self.heap.touch(x, 12);
    }

    fn see_state(&mut self, x: u32)
        requires
            old(self).wf(),
        ensures
            final(self).kept(old(self)),
            final(self).view() == saw_state(old(self).view(), x),
    {
        self.heap.touch(x, 6);
    }

    /// Note that something does not fit.
    pub fn lose(&mut self)
        requires
            old(self).wf(),
        ensures
            final(self).kept(old(self)),
            final(self).view() == gone_lost(old(self).view()),
    {
        self.heap.lost = true;
    }

    fn mark(&mut self, sym: u8)
        requires
            old(self).wf(),
        ensures
            final(self).kept(old(self)),
            final(self).view() == (Core {
                mask: old(self).view().mask.update(sym as int, old(self).esc_count),
                ..old(self).view()
            }),
    {
        let mark: u8 = self.esc_count;
        self.char_mask.set(sym as usize, mark);
    }
}

/// Make a context without states; 0 if there is no room.
pub fn new_context(core: &mut PpmdCore) -> (x: u32)
    requires
        old(core).wf(),
    ensures
        final(core).kept(old(core)),
        (x, final(core).view()) == context_made(old(core).view()),
{
    reveal(context_made);
    let x: u32 = core.heap.alloc_context();
    if x != 0 {
        core.see_context(x);
        set_ctx_last_state_index(&mut core.heap, x, 0);
        set_ctx_flags(&mut core.heap, x, 0);
        set_ctx_suffix(&mut core.heap, x, 0);
    }
    x
}

/// Make a context below `parent`, to which `state` leads and which holds a copy of
/// the state `first`, if there is one; 0 if there is no room.
pub fn new_context_as_child_of(core: &mut PpmdCore, parent: u32, state: u32, first: Option<u32>) -> (x: u32)
    requires
        old(core).wf(),
    ensures
        final(core).kept(old(core)),
        (x, final(core).view()) == child_made(old(core).view(), parent, state, first),
{
    reveal(child_made);
    let x: u32 = core.heap.alloc_context();
    if x != 0 {
        core.see_context(x);
        core.see_state(state);
        if let Some(f) = first {
            core.see_state(f);
        }
        set_ctx_last_state_index(&mut core.heap, x, 0);
        set_ctx_flags(&mut core.heap, x, 0);
        set_ctx_suffix(&mut core.heap, x, parent);
        set_state_successor(&mut core.heap, state, x);
        if let Some(f) = first {
            copy_state(&mut core.heap, f, ctx_one_state(x));
        }
    }
    x
}

fn find_place(a: &BrimstoneAlloc, base: u32, from: u32, f: u8) -> (r: u32)
    requires
        from <= 0x1000,
    ensures
        r == place_for(a.view().bytes, base, from as int, f as int),
        r <= from,
{
    let mut j: u32 = from;
    while j > 0 && f > state_freq(a, state_at(base, j - 1))
        invariant
            j <= from <= 0x1000,
            place_for(a.view().bytes, base, j as int, f as int) == place_for(
                a.view().bytes,
                base,
                from as int,
                f as int,
            ),
        decreases j,
    {
        j = j - 1;
    }
    j
}

/// Halve the states and keep them in order; the escapes left and the sum.
fn halve_states(a: &mut BrimstoneAlloc, base: u32, n: u32, adder: u32, summ: u16) -> (r: (i32, i32))
    requires
        old(a).wf(),
        1 <= n <= 256,
        adder <= 1,
    ensures
        final(a).wf(),
        final(a).tables_same(old(a)),
        (final(a).view(), r.0 as int, r.1 as int) == halved_from(
            old(a).view(),
            base,
            0,
            n as int,
            adder as int,
            summ + 4,
            0,
        ),
        -0x1_0000 <= r.0 <= 0x1_0004,
        0 <= r.1 <= 0x8000,
{
    let mut esc: i32 = summ as i32 + 4;
    let mut sum: i32 = 0;
    let mut i: u32 = 0;
    while i < n
        invariant
            i <= n <= 256,
            adder <= 1,
            a.wf(),
            a.tables_same(old(a)),
            -255 * i <= esc <= 0x1_0004,
            0 <= sum <= 128 * i,
            halved_from(a.view(), base, i as int, n as int, adder as int, esc as int, sum as int) == halved_from(
                old(a).view(),
                base,
                0,
                n as int,
                adder as int,
                summ + 4,
                0,
            ),
        decreases n - i,
    {
        let si: u32 = state_at(base, i);
        a.touch(si, 6);
        let f: u8 = state_freq(a, si);
        let f1: u8 = ((f as u32 + adder) / 2) as u8;
        set_state_freq(a, si, f1);
        esc = esc - f as i32;
        sum = sum + f1 as i32;
        if i > 0 && f1 > state_freq(a, state_at(base, i - 1)) {
            let sym: u8 = state_symbol(a, si);
            let succ: u32 = state_successor(a, si);
            let j: u32 = find_place(a, base, i - 1, f1);
            a.copy_within(state_at(base, j), state_at(base, j + 1), 6 * (i - j));
            set_state(a, state_at(base, j), sym, f1, succ);
        }
        i = i + 1;
    }
    (esc, sum)
}

fn count_zeros(a: &BrimstoneAlloc, base: u32, n: u32) -> (r: u32)
    requires
        n <= 256,
    ensures
        r == zeros_from(a.view().bytes, base, n as int, 0),
        r <= n,
{
    let mut k: u32 = 0;
    while k < n && state_freq(a, state_at(base, n - 1 - k)) == 0
        invariant
            k <= n <= 256,
            zeros_from(a.view().bytes, base, n as int, k as int) == zeros_from(a.view().bytes, base, n as int, 0),
        decreases n - k,
    {
        k = k + 1;
    }
    k
}

/// Half of a number, rounded down.
fn half(v: i32) -> (r: i32)
    requires
        -0x10_0000 <= v <= 0x10_0000,
    ensures
        r == v as int / 2,
{
    ((v as i64 + 0x10_0000) / 2) as i32 - 0x8_0000
}

fn halve_single(f: u8, esc: i32) -> (r: u8)
    requires
        -0x10_0000 <= esc <= 0x10_0000,
    ensures
        r == single_freq(f as int, esc as int) % 0x100,
{
    let mut g: u32 = f as u32;
    let mut e: i32 = esc;
    loop
        invariant
            -0x10_0000 <= e <= 0x10_0000,
            g <= 255,
            single_freq(g as int, e as int) == single_freq(f as int, esc as int),
        decreases
            (if e > 0 {
                e as int
            } else {
                0
            }),
    {
        g = (g + 1) / 2;
        e = half(e);
        if e <= 1 {
            return g as u8;
        }
    }
}

/// Drop the states whose frequency has become 0, and set the context's sum.
fn trim_states(core: &mut PpmdCore, ctx: u32, base: u32, n: u32, esc: i32, sum: i32)
    requires
        old(core).wf(),
        1 <= n <= 256,
        -0x1_0000 <= esc <= 0x1_0004,
        0 <= sum <= 0x8000,
    ensures
        final(core).kept(old(core)),
        final(core).view() == trimmed(old(core).view(), ctx, base, n as int, esc as int, sum as int),
{
    reveal(trimmed);
    let zeros: u32 = count_zeros(&core.heap, base, n);
    let last: u32 = ctx_last_state_index(&core.heap, ctx) as u32;
    let esc: i32 = esc + zeros as i32;
    if zeros > 0 {
        if last == zeros {
            set_ctx_last_state_index(&mut core.heap, ctx, 0);
            let sym: u8 = state_symbol(&core.heap, base);
            let succ: u32 = state_successor(&core.heap, base);
            let f: u8 = halve_single(state_freq(&core.heap, base), esc);
            core.heap.free_units(base, (n + 1) / 2);
            let one: u32 = ctx_one_state(ctx);
            set_state(&mut core.heap, one, sym, f, succ);
            core.found_state = one;
            return;
        }
        let n0: u32 = (n + 1) / 2;
        if last < zeros || (last - zeros + 2) / 2 > n0 {
            core.lose();
            return;
        }
        let last1: u32 = last - zeros;
        set_ctx_last_state_index(&mut core.heap, ctx, last1 as u8);
        let n1: u32 = (last1 + 2) / 2;
        if n0 != n1 {
            let p: u32 = core.heap.shrink_units(base, n0, n1);
            set_ctx_states(&mut core.heap, ctx, p);
        }
    }
    set_ctx_summ_freq(&mut core.heap, ctx, sum + half(esc + 1));
    core.found_state = ctx_states(&core.heap, ctx);
}

/// Halve the frequencies of a context.
pub fn rescale_context(core: &mut PpmdCore, ctx: u32)
    requires
        old(core).wf(),
    ensures
        final(core).kept(old(core)),
        final(core).view() == rescaled(old(core).view(), ctx),
{
    reveal(rescaled);
    let fs: u32 = core.found_state;
    core.see_context(ctx);
    core.see_state(fs);
    let base: u32 = ctx_states(&core.heap, ctx);
    let n: u32 = ctx_last_state_index(&core.heap, ctx) as u32 + 1;
    let f: u8 = state_freq(&core.heap, fs);
    set_state_freq(&mut core.heap, fs, f.wrapping_add(4));
    let adder: u32 = if core.order_fall == 0 {
        0
    } else {
        1
    };
    let summ: u16 = ctx_summ_freq(&core.heap, ctx);
    let (esc, sum): (i32, i32) = halve_states(&mut core.heap, base, n, adder, summ);
    trim_states(core, ctx, base, n, esc, sum);
}

/// Count a state of a context again.
pub fn update_context1(core: &mut PpmdCore, ctx: u32, state: u32)
    requires
        old(core).wf(),
    ensures
        final(core).kept(old(core)),
        final(core).view() == counted1(old(core).view(), ctx, state),
{
    reveal(counted1);
    let prev: u32 = state_before(state);
    core.see_state(state);
    core.see_state(prev);
    let f: u8 = state_freq(&core.heap, state).wrapping_add(4);
    set_state_freq(&mut core.heap, state, f);
    let summ: u16 = ctx_summ_freq(&core.heap, ctx);
    set_ctx_summ_freq(&mut core.heap, ctx, summ as i32 + 4);
    if f > state_freq(&core.heap, prev) {
        swap_states(&mut core.heap, state, prev);
        core.found_state = prev;
        if f as u32 > MAX_FREQ {
            rescale_context(core, ctx);
        }
    } else {
        core.found_state = state;
    }
}

/// Count a state again that was found below an escape.
pub fn update_context2(core: &mut PpmdCore, ctx: u32, state: u32)
    requires
        old(core).wf(),
    ensures
        final(core).kept(old(core)),
        final(core).view() == counted2(old(core).view(), ctx, state),
{
    reveal(counted2);
    core.see_state(state);
    core.found_state = state;
    let f: u8 = state_freq(&core.heap, state).wrapping_add(4);
    set_state_freq(&mut core.heap, state, f);
    let summ: u16 = ctx_summ_freq(&core.heap, ctx);
    set_ctx_summ_freq(&mut core.heap, ctx, summ as i32 + 4);
    if f as u32 > MAX_FREQ {
        rescale_context(core, ctx);
    }
    core.esc_count = core.esc_count.wrapping_add(1);
}

/// Rule no symbol out.
pub fn clear_mask(core: &mut PpmdCore)
    requires
        old(core).wf(),
    ensures
        final(core).kept(old(core)),
        final(core).view() == mask_cleared(old(core).view()),
{
    core.esc_count = 1;
    core.char_mask = no_marks();
    assert(core.char_mask@ =~= mask_cleared(old(core).view()).mask);
}

/// A mask that rules no symbol out.
pub fn no_marks() -> (r: Vec<u8>)
    ensures
        r@ == Seq::new(256, |i: int| 0u8),
{
    let mut mask: Vec<u8> = Vec::new();
    let mut i: usize = 0;
    while i < 256
        invariant
            i <= 256,
            mask@.len() == i,
            forall|k: int| 0 <= k < i ==> mask@[k] == 0,
        decreases 256 - i,
    {
        mask.push(0);
        i = i + 1;
    }
    assert(mask@ =~= Seq::new(256, |i: int| 0u8));
    mask
}

impl PpmdCore {
    /// Narrow the coder to a share.
    fn take_share(&mut self, coder: &mut RangeCoder<'_>, lo: u32, hi: u32)
        requires
            old(self).wf(),
            old(coder).wf(),
        ensures
            final(self).kept(old(self)),
            final(coder).wf(),
            final(coder).input() == old(coder).input(),
            final(coder).kind() == old(coder).kind(),
            (final(coder).state(), final(self).view()) == share(
                old(coder).input(),
                old(coder).state(),
                old(coder).kind(),
                old(self).view(),
                lo as int,
                hi as int,
            ),
    {
        reveal(share);
        let scale: u32 = self.scale;
        if !coder.narrow(lo, hi, scale) {
            self.lose();
        }
    }
}

/// Decode whether the single state of a context comes, with probability `bs`, which
/// adapts. Its frequency grows up to `freqlimit`; `altnextbit` picks the second of the
/// rules by which the range decoder reads a weighted bit.
pub fn decode_bin_symbol(
    coder: &mut RangeCoder<'_>,
    core: &mut PpmdCore,
    ctx: u32,
    bs: &mut u16,
    freqlimit: i32,
    altnextbit: bool,
)
    requires
        old(core).wf(),
        old(coder).wf(),
        freqlimit <= 255,
    ensures
        final(core).kept(old(core)),
        final(coder).wf(),
        final(coder).input() == old(coder).input(),
        final(coder).kind() == old(coder).kind(),
        (final(coder).state(), final(core).view(), *final(bs)) == bin_next(
            old(coder).input(),
            old(coder).state(),
            old(coder).kind(),
            old(core).view(),
            ctx,
            *old(bs),
            freqlimit as int,
            altnextbit,
        ),
{
    reveal(bin_next);
    let rs: u32 = ctx_one_state(ctx);
    core.see_context(ctx);
    let weight: u16 = *bs;
    let mean: u16 = ((weight as u32 + 32) / 128) as u16;
    let bit: u32 = if altnextbit {
        if weight >= 0x4000 {
            core.lose();
            return;
        }
        assert(1u32 << 14u32 == 0x4000u32) by (bit_vector);
        proof {
            share_leaves_room(coder.state(), weight as u32, 14);
        }
        coder.next_weighted_bit2(weight as u32, 14)
    } else {
        match coder.next_weighted_bit(weight as u32, 0x4000) {
            Some(bit) => bit,
            None => {
                core.lose();
                return;
            },
        }
    };
    if bit == 0 {
        let f: u8 = state_freq(&core.heap, rs);
        if (f as i32) < freqlimit {
            set_state_freq(&mut core.heap, rs, f + 1);
        }
        core.prev_success = 1;
        core.found_state = rs;
        *bs = weight.wrapping_add(128).wrapping_sub(mean);
    } else {
        let adapted: u16 = weight.wrapping_sub(mean);
        let sym: u8 = state_symbol(&core.heap, rs);
        core.mark(sym);
        core.prev_success = 0;
        core.found_state = 0;
        core.last_mask_index = 0;
        *bs = adapted;
        if adapted < 0x4000 {
            core.init_esc = EXP_ESCAPE[adapted as usize / 0x400];
        } else {
            core.lose();
        }
    }
}

/// Rule out the symbols of all states of a context.
fn mask_states(core: &mut PpmdCore, base: u32, last: u32)
    requires
        old(core).wf(),
        last <= 255,
    ensures
        final(core).kept(old(core)),
        final(core).view() == masked_from(old(core).view(), base, 0, last as int),
{
    let mut i: u32 = 0;
    while i <= last
        invariant
            i <= last + 1 <= 256,
            core.kept(old(core)),
            masked_from(core.view(), base, i as int, last as int) == masked_from(
                old(core).view(),
                base,
                0,
                last as int,
            ),
        decreases last + 1 - i,
    {
        let si: u32 = state_at(base, i);
        core.see_state(si);
        let sym: u8 = state_symbol(&core.heap, si);
        core.mark(sym);
        i = i + 1;
    }
}

/// A count as a signed number of 32 bits.
fn signed_count(count: u32) -> (r: i64)
    ensures
        r == signed(count as int),
{
    if count > 0x7fff_ffff {
        count as i64 - 0x1_0000_0000
    } else {
        count as i64
    }
}

/// Decode among the states of a context, none being ruled out; `greaterorequal` says
/// whether half of all makes the first of them the likely one.
pub fn decode_symbol1(coder: &mut RangeCoder<'_>, core: &mut PpmdCore, ctx: u32, greaterorequal: bool)
    requires
        old(core).wf(),
        old(coder).wf(),
    ensures
        final(core).kept(old(core)),
        final(coder).wf(),
        final(coder).input() == old(coder).input(),
        final(coder).kind() == old(coder).kind(),
        (final(coder).state(), final(core).view()) == symbol1_next(
            old(coder).input(),
            old(coder).state(),
            old(coder).kind(),
            old(core).view(),
            ctx,
            greaterorequal,
        ),
{
    reveal(symbol1_next);
    core.see_context(ctx);
    let scale: u32 = ctx_summ_freq(&core.heap, ctx) as u32;
    core.scale = scale;
    let base: u32 = ctx_states(&core.heap, ctx);
    core.see_state(base);
    let first: u8 = state_freq(&core.heap, base);
    let count: i64 = match coder.current_count(scale) {
        Some(n) => signed_count(n),
        None => {
            core.lose();
            return;
        },
    };
    if count < first as i64 {
        core.take_share(coder, 0, first as u32);
        let scale: u32 = core.scale;
        set_state_freq(&mut core.heap, base, first.wrapping_add(4));
        proof {
            reveal(share);
        }
        set_ctx_summ_freq(&mut core.heap, ctx, scale as i32 + 4);
        let adder: u32 = if greaterorequal {
            1
        } else {
            0
        };
        core.prev_success = if 2 * first as u32 + adder > scale {
            1
        } else {
            0
        };
        core.found_state = base;
        if first as u32 + 4 > MAX_FREQ {
            rescale_context(core, ctx);
        }
        return;
    }
    core.prev_success = 0;
    let last: u32 = ctx_last_state_index(&core.heap, ctx) as u32;
    let ghost c2 = core.view();
    let ghost s0 = coder.state();
    let mut high: u32 = first as u32;
    let mut i: u32 = 1;
    while i <= last
        invariant
            1 <= i,
            i <= last + 1 || last == 0,
            last <= 255,
            high <= 255 * i,
            core.kept(old(core)),
            coder.wf(),
            coder.input() == old(coder).input(),
            coder.kind() == old(coder).kind(),
            symbol1_from(
                coder.input(),
                coder.state(),
                coder.kind(),
                core.view(),
                ctx,
                base,
                count as int,
                i as int,
                last as int,
                high as int,
            ) == symbol1_next(
                old(coder).input(),
                old(coder).state(),
                old(coder).kind(),
                old(core).view(),
                ctx,
                greaterorequal,
            ),
        decreases last + 1 - i,
    {
        let si: u32 = state_at(base, i);
        core.see_state(si);
        let f: u32 = state_freq(&core.heap, si) as u32;
        if (high + f) as i64 > count {
            core.take_share(coder, high, high + f);
            update_context1(core, ctx, si);
            return;
        }
        high = high + f;
        i = i + 1;
    }
    if core.found_state != 0 {
        let scale: u32 = core.scale;
        core.take_share(coder, high, scale);
        core.last_mask_index = last as u8;
        core.found_state = 0;
        mask_states(core, base, last);
    }
}

/// Find the first state from `st` on that is not ruled out.
fn next_unmasked(core: &mut PpmdCore, st: u32) -> (r: u32)
    requires
        old(core).wf(),
    ensures
        final(core).kept(old(core)),
        (r, final(core).view()) == unmasked_from(old(core).view(), st),
{
    let mut x: u32 = st;
    loop
        invariant
            core.kept(old(core)),
            unmasked_from(core.view(), x) == unmasked_from(old(core).view(), st),
        decreases 0x1_0000_0000 - x,
    {
        let sym: u8 = state_symbol(&core.heap, x);
        core.see_state(x);
        if x > 0xffff_ff00 || x as usize + 6 > core.heap.arena.len() || core.char_mask[sym as usize] != core.esc_count {
            return x;
        }
        x = x + 6;
    }
}

/// Collect the `n` states from `st` on that are not ruled out, and add up their
/// frequencies.
fn collect_states(core: &mut PpmdCore, st: u32, n: u32) -> (r: (Vec<u32>, u32))
    requires
        old(core).wf(),
        n <= 255,
    ensures
        final(core).kept(old(core)),
        (r.0@, r.1 as int, final(core).view()) == open_states(old(core).view(), st, n as nat, seq![], 0),
        r.0@.len() == n,
        r.1 <= 255 * n,
{
    let mut ps: Vec<u32> = Vec::new();
    let mut total: u32 = 0;
    let mut x: u32 = st;
    let mut i: u32 = 0;
    assert(ps@ =~= seq![]);
    while i < n
        invariant
            i <= n <= 255,
            core.kept(old(core)),
            ps@.len() == i,
            total <= 255 * i,
            open_states(core.view(), x, (n - i) as nat, ps@, total as int) == open_states(
                old(core).view(),
                st,
                n as nat,
                seq![],
                0,
            ),
        decreases n - i,
    {
        let s: u32 = next_unmasked(core, x);
        ps.push(s);
        total = total + state_freq(&core.heap, s) as u32;
        x = state_at(s, 1);
        i = i + 1;
    }
    (ps, total)
}

/// Decode among the states of a context that are not ruled out; `core.scale` is the
/// share of the escape, which `see` estimates.
pub fn decode_symbol2(coder: &mut RangeCoder<'_>, core: &mut PpmdCore, ctx: u32, see: &mut See2Context)
    requires
        old(core).wf(),
        old(coder).wf(),
        old(core).scale <= 0xfff0_0000,
    ensures
        final(core).kept(old(core)),
        final(coder).wf(),
        final(coder).input() == old(coder).input(),
        final(coder).kind() == old(coder).kind(),
        (final(coder).state(), final(core).view(), *final(see)) == symbol2_next(
            old(coder).input(),
            old(coder).state(),
            old(coder).kind(),
            old(core).view(),
            ctx,
            *old(see),
        ),
        final(see).shift <= 7 || final(see).shift == old(see).shift,
{
    reveal(symbol2_next);
    core.see_context(ctx);
    let last: u8 = ctx_last_state_index(&core.heap, ctx);
    if last <= core.last_mask_index {
        core.lose();
        return;
    }
    let n: u32 = (last - core.last_mask_index) as u32;
    let base: u32 = ctx_states(&core.heap, ctx);
    let (ps, total): (Vec<u32>, u32) = collect_states(core, base, n);
    proof {
        open_states_keep(saw_context(old(core).view(), ctx), base, n as nat, seq![], 0);
    }
    let scale: u32 = core.scale + total;
    core.scale = scale;
    let count: i64 = match coder.current_count(scale) {
        Some(c) => signed_count(c),
        None => {
            core.lose();
            return;
        },
    };
    if count < total as i64 {
        let mut i: usize = 0;
        let mut high: u32 = state_freq(&core.heap, ps[0]) as u32;
        let ghost first = high as int;
        while high as i64 <= count && i + 1 < ps.len()
            invariant
                i < ps@.len() <= 255,
                high <= 255 * (i + 1),
                high >= freq(core.view().h.bytes, ps@[i as int]),
                open_pick(core.view().h.bytes, ps@, count as int, i as int, high as int) == open_pick(
                    core.view().h.bytes,
                    ps@,
                    count as int,
                    0,
                    first,
                ),
            decreases ps@.len() - i,
        {
            i = i + 1;
            high = high + state_freq(&core.heap, ps[i]) as u32;
        }
        let f: u32 = state_freq(&core.heap, ps[i]) as u32;
        core.take_share(coder, high - f, high);
        see.update();
        update_context2(core, ctx, ps[i]);
    } else {
        core.take_share(coder, total, scale);
        core.last_mask_index = last;
        see.summ = see.summ.wrapping_add((scale % 0x1_0000) as u16);
        mask_all(core, &ps);
    }
}

fn mask_all(core: &mut PpmdCore, ps: &Vec<u32>)
    requires
        old(core).wf(),
    ensures
        final(core).kept(old(core)),
        final(core).view() == masked_all(old(core).view(), ps@, 0),
{
    let mut i: usize = 0;
    while i < ps.len()
        invariant
            i <= ps@.len(),
            core.kept(old(core)),
            masked_all(core.view(), ps@, i as int) == masked_all(old(core).view(), ps@, 0),
        decreases ps@.len() - i,
    {
        let sym: u8 = state_symbol(&core.heap, ps[i]);
        core.mark(sym);
        i = i + 1;
    }
}

pub(crate) proof fn unmasked_keeps(c: Core, st: u32)
    ensures
        unmasked_from(c, st).1 == (Core { h: Heap { lost: unmasked_from(c, st).1.h.lost, ..c.h }, ..c }),
    decreases c.h.bytes.len() - st,
{
    if st + 6 > c.h.bytes.len() || st > 0xffff_ff00 || c.mask[symbol(c.h.bytes, st) as int] != c.esc_count {
    } else {
        unmasked_keeps(saw_state(c, st), (st + 6) as u32);
    }
}

/// Looking for states that are not ruled out changes nothing.
pub(crate) proof fn open_states_keep(c: Core, st: u32, n: nat, found: Seq<u32>, total: int)
    ensures
        open_states(c, st, n, found, total).2 == (Core {
            h: Heap { lost: open_states(c, st, n, found, total).2.h.lost, ..c.h },
            ..c
        }),
    decreases n,
{
    if n > 0 {
        unmasked_keeps(c, st);
        let (x, c0) = unmasked_from(c, st);
        open_states_keep(c0, nth(x, 1), (n - 1) as nat, found.push(x), total + freq(c0.h.bytes, x));
    }
}

} // verus!
