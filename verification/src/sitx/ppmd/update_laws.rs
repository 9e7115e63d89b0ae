use vstd::prelude::*;
use crate::sitx::ppmd::context::{
    child_made, context_made, flags, freq, freq_set, last_index, nth, num_states, one_state, plus, saw_context, saw_state,
    state_set, states, successor, suffix, summ_freq, symbol, with_bytes, with_heap, Core,
};
use crate::sitx::ppmd::context_laws::{byte_facts, new_context_hangs_below, word_facts};
use crate::sitx::ppmd::learning_laws::apart;
use crate::sitx::ppmd::suballoc::{empty_heap, get32, get8, put32, put8};
use crate::sitx::ppmd::variant_g::{
    branch_from, branch_made, branch_of, chained, extended, first_bins, first_estimates, hung, learnt, learnt_from, moved_on,
    overflowed, restarted, root_filled, root_made, state_in, suffix_counted, upstate_set, ModelState,
};

verus! {

// How the model goes from one symbol to the next.

// === starting over ============================================================

/// The count of a symbol at first.
pub open spec fn count_at_first(brimstone: bool, k: int) -> int {
    if brimstone && k < 128 {
        2
    } else {
        1
    }
}

proof fn states_are_filled(b: Seq<u8>, base: u32, brimstone: bool, i: int)
    requires
        0 <= i <= 256,
        base + 1536 <= b.len() <= 0xffff_ff00,
    ensures
        ({
            let r = root_filled(b, base, brimstone, i);
            &&& r.len() == b.len()
            &&& forall|p: u32| p < base + 6 * i || p >= base + 1536 ==> #[trigger] get8(r, p) == get8(b, p)
            &&& forall|k: int|
                i <= k < 256 ==> {
                    &&& #[trigger] symbol(r, (base + 6 * k) as u32) == k
                    &&& freq(r, (base + 6 * k) as u32) == count_at_first(brimstone, k)
                    &&& successor(r, (base + 6 * k) as u32) == 0
                }
        }),
    decreases 256 - i,
{
    if i < 256 {
        byte_facts();
        let s = (base + 6 * i) as u32;
        assert(nth(base, i) == s);
        let f = count_at_first(brimstone, i) as u8;
        let a = put8(put8(b, s, i as u8), plus(s, 1), f);
        word_facts(a, plus(s, 2), 0);
        let b1 = state_set(b, s, i as u8, f, 0);
        assert(b1 == put32(a, plus(s, 2), 0));
        states_are_filled(b1, base, brimstone, i + 1);
        let r = root_filled(b, base, brimstone, i);
        assert(r == root_filled(b1, base, brimstone, i + 1));
        assert forall|p: u32| p < base + 6 * i || p >= base + 1536 implies #[trigger] get8(r, p) == get8(b, p) by {
            assert(get8(r, p) == get8(b1, p));
            assert(get8(b1, p) == get8(a, p));
        }
        assert(symbol(r, s) == i && freq(r, s) == f && successor(r, s) == 0) by {
            assert(get8(r, s) == get8(b1, s));
            assert(get8(r, plus(s, 1)) == get8(b1, plus(s, 1)));
            assert(get8(b1, s) == get8(a, s) && get8(b1, plus(s, 1)) == get8(a, plus(s, 1)));
            assert(forall|p: u32| s + 2 <= p < s + 6 ==> #[trigger] get8(r, p) == get8(b1, p));
            reveal(get32);
        }
    }
}

/// At first every symbol may come, in their order: each has the count 1, but in one variant
/// those below 128 have the count 2. None leads anywhere.
pub proof fn every_symbol_may_come_at_first(b: Seq<u8>, base: u32, brimstone: bool, k: int)
    requires
        base + 1536 <= b.len() <= 0xffff_ff00,
        0 <= k < 256,
    ensures
        ({
            let r = root_filled(b, base, brimstone, 0);
            let s = (base + 6 * k) as u32;
            &&& symbol(r, s) == k
            &&& freq(r, s) == count_at_first(brimstone, k)
            &&& successor(r, s) == 0
        }),
{
    states_are_filled(b, base, brimstone, 0);
}

/// A model that starts over knows nothing: all estimates are what they were at first, no
/// symbol is masked, one order has been fallen through, and the longest context, below which
/// it starts, is unfinished. Where it does so because the heap is full, the marks are to be
/// cleared.
pub proof fn starting_over_forgets(m: ModelState)
    ensures
        ({
            let r = restarted(m);
            let o = overflowed(m);
            &&& r.bins == first_bins()
            &&& r.see == first_estimates()
            &&& r.core.order_fall == 1
            &&& r.core.prev_success == 0
            &&& r.med == r.min
            &&& r.order == m.order && r.size == m.size && r.brimstone == m.brimstone
            &&& r.max + 12 <= r.core.h.bytes.len() <= 0xffff_ff00 ==> flags(r.core.h.bytes, r.max) == 1 && r.min == suffix(
                r.core.h.bytes,
                r.max,
            )
            &&& o.core.esc_count == 0
            &&& o.bins == r.bins && o.see == r.see && o.min == r.min && o.med == r.med && o.max == r.max
            &&& o.core.h == r.core.h && o.core.order_fall == 1
        }),
{
    reveal(restarted);
    restart_keeps_orders(m);
    byte_facts();
}

proof fn restart_keeps_orders(m: ModelState)
    ensures
        restarted(m).core.order_fall == 1,
        restarted(m).core.prev_success == 0,
{
    reveal(restarted);
    let c0 = Core {
        h: empty_heap(m.size, m.core.h.lost),
        mask: Seq::new(256, |i: int| 0u8),
        prev_success: 0,
        order_fall: 1,
        ..m.core
    };
    reveal(root_made);
    reveal(context_made);
    let (root, c1) = root_made(c0, m.brimstone);
    chain_keeps_orders(c1, root, states(c1.h.bytes, root), 1, m.order as int);
}

proof fn chain_keeps_orders(c: Core, parent: u32, state: u32, i: int, order: int)
    ensures
        chained(c, parent, state, i, order).1.order_fall == c.order_fall,
        chained(c, parent, state, i, order).1.prev_success == c.prev_success,
    decreases order - i,
{
    reveal(child_made);
    let (x, c1) = child_made(c, parent, state, None);
    if i < order {
        let s = one_state(x);
        let b = freq_set(put8(c1.h.bytes, s, 0), s, 1);
        let c2 = with_heap(c1, with_bytes(c1.h, b));
        chain_keeps_orders(c2, x, s, i + 1, order);
    }
}

// === learning =================================================================

/// What the symbol adds to the contexts between goes by the context where it was found: by its
/// symbols, and by its sum without the count of this symbol and one for each.
pub proof fn learning_goes_by_the_context_of_the_symbol(
    m: ModelState,
    next: u32,
    sym: u8,
    f: u8,
    succ: u32,
    skip: int,
    state: Option<u32>,
)
    requires
        flags(m.core.h.bytes, m.max) != 1,
    ensures
        ({
            let b = m.core.h.bytes;
            let n = num_states(b, m.min);
            let others = summ_freq(b, m.min) - n - (f - 1);
            let c = saw_context(saw_context(m.core, m.max), m.min);
            let (ok, c2) = extended(c, m.med, m.min, sym, f, next, n, others, b.len());
            let after = ModelState { core: c2, ..m };
            learnt_from(m, next, sym, f, succ, skip, state) == if ok {
                moved_on(after, next, succ, skip, state)
            } else {
                overflowed(after)
            }
        }),
{
    reveal(learnt_from);
}

/// An unfinished context gets the symbol, and leads where it leads.
pub proof fn unfinished_context_gets_the_symbol(
    m: ModelState,
    next: u32,
    sym: u8,
    f: u8,
    succ: u32,
    skip: int,
    state: Option<u32>,
)
    requires
        m.med == m.min,
        m.max + 12 <= m.core.h.bytes.len() <= 0xffff_ff00,
        flags(m.core.h.bytes, m.max) == 1,
        succ != 0,
        succ + 12 <= m.max || m.max + 12 <= succ,
        flags(m.core.h.bytes, succ) != 1,
    ensures
        ({
            let d = learnt_from(m, next, sym, f, succ, skip, state);
            let s = plus(m.max, 2);
            &&& symbol(d.core.h.bytes, s) == sym
            &&& freq(d.core.h.bytes, s) == freq(m.core.h.bytes, s)
            &&& successor(d.core.h.bytes, s) == next
            &&& d.max == next
        }),
{
    reveal(learnt_from);
    reveal(moved_on);
    byte_facts();
    let b = m.core.h.bytes;
    let s = plus(m.max, 2);
    word_facts(put8(b, s, sym), plus(s, 2), next);
}

/// Where no order has been fallen through but one, the model goes on in the context that the
/// symbol led to, and that is the longest then.
pub proof fn nearest_context_is_gone_to(m: ModelState)
    requires
        m.core.order_fall == 1,
        m.med == m.min,
        flags(m.core.h.bytes, m.max) != 1,
        freq(m.core.h.bytes, m.core.found) >= 31,
        successor(m.core.h.bytes, m.core.found) != 0,
        flags(m.core.h.bytes, successor(m.core.h.bytes, m.core.found)) != 1,
    ensures
        ({
            let d = learnt(m);
            let succ = successor(m.core.h.bytes, m.core.found);
            &&& d.min == succ
            &&& d.med == succ
            &&& d.max == succ
            &&& d.core.order_fall == 0
            &&& d.core.h.bytes == m.core.h.bytes
        }),
{
    reveal(learnt);
    reveal(learnt_from);
    reveal(moved_on);
    reveal(suffix_counted);
}

/// Where more orders have been fallen through and the symbol led nowhere, it leads to a new
/// unfinished context from then on, which is the longest; the model stays where it is.
pub proof fn new_context_is_the_longest(m: ModelState)
    requires
        2 <= m.core.order_fall,
        m.med == m.min,
        m.core.h.low < m.core.h.high,
        12 < m.core.h.high <= m.core.h.bytes.len() <= 0xffff_ff00,
        apart(m.core.h.bytes.len(), m.core.found, (m.core.h.high - 12) as u32),
        m.max + 12 <= m.core.h.high - 12 || m.core.h.high <= m.max,
        m.max <= 0xffff_ff00,
        flags(m.core.h.bytes, m.max) != 1,
        freq(m.core.h.bytes, m.core.found) >= 31,
        successor(m.core.h.bytes, m.core.found) == 0,
    ensures
        ({
            let d = learnt(m);
            let x = (m.core.h.high - 12) as u32;
            let b = d.core.h.bytes;
            &&& d.max == x
            &&& flags(b, x) == 1
            &&& last_index(b, x) == 0
            &&& successor(b, m.core.found) == x
            &&& d.min == m.min
            &&& d.med == m.min
            &&& d.core.order_fall == m.core.order_fall
            &&& d.core.h.high == x
        }),
{
    reveal(learnt);
    reveal(learnt_from);
    reveal(moved_on);
    reveal(suffix_counted);
    reveal(context_made);
    byte_facts();
    let b = m.core.h.bytes;
    let x = (m.core.h.high - 12) as u32;
    let a = put8(put8(b, x, 0), plus(x, 1), 0);
    word_facts(a, plus(x, 8), 0);
    let b1 = put32(a, plus(x, 8), 0);
    let b2 = put8(b1, plus(x, 1), 1);
    word_facts(b2, plus(m.core.found, 2), x);
    assert(flags(b2, m.max) == flags(b, m.max));
}

/// Where one order has been fallen through, the state that was found is passed over when the
/// contexts that it leads to are made; where more have been, it is the first of those that are
/// to lead to new ones.
pub proof fn found_state_is_passed_over_near_the_longest(m: ModelState)
    requires
        1 <= m.core.order_fall,
        m.med == m.min,
        flags(m.core.h.bytes, m.max) != 1,
        freq(m.core.h.bytes, m.core.found) >= 31,
        m.core.order_fall > 1 ==> {
            let seen = saw_context(saw_state(m.core, m.core.found), m.min);
            let (x, c) = context_made(Core { order_fall: (m.core.order_fall - 1) as i32, ..seen });
            &&& x != 0
            &&& x + 12 <= c.h.bytes.len() <= 0xffff_ff00
            &&& flags(put8(c.h.bytes, plus(x, 1), 1), m.max) != 1
        },
    ensures
        ({
            let succ = successor(m.core.h.bytes, m.core.found);
            let seen = saw_context(saw_state(m.core, m.core.found), m.min);
            let near = Core { order_fall: (m.core.order_fall - 1) as i32, ..seen };
            if m.core.order_fall == 1 {
                let c = saw_context(saw_context(near, m.max), m.min);
                learnt(m) == moved_on(ModelState { core: c, ..m }, succ, succ, 1, None)
            } else {
                let (x, c2) = context_made(near);
                let c3 = with_heap(c2, with_bytes(c2.h, put8(c2.h.bytes, plus(x, 1), 1)));
                let c = saw_context(saw_context(c3, m.max), m.min);
                learnt(m) == moved_on(ModelState { core: c, ..m }, x, succ, 0, None)
            }
        }),
{
    reveal(learnt);
    reveal(learnt_from);
    reveal(suffix_counted);
}

/// Where no order has been fallen through, the context that the symbol led to is made whole:
/// below it comes the one where the shorter contexts lead; the model goes on there.
pub proof fn context_is_made_whole(m: ModelState)
    requires
        m.core.order_fall == 0,
        freq(m.core.h.bytes, m.core.found) >= 31,
        ({
            let c = saw_context(saw_state(m.core, m.core.found), m.min);
            let up = successor(m.core.h.bytes, m.core.found);
            let (ctx, list, c1) = branch_of(c, m.min, up, 2, None);
            &&& list.len() == 0
            &&& c1.order_fall == 0
            &&& up + 12 <= upstate_set(c1, ctx, one_state(up)).h.bytes.len() <= 0xffff_ff00
            &&& upstate_set(c1, ctx, one_state(up)).order_fall == 0
        }),
    ensures
        ({
            let c = saw_context(saw_state(m.core, m.core.found), m.min);
            let up = successor(m.core.h.bytes, m.core.found);
            let ctx = branch_of(c, m.min, up, 2, None).0;
            let d = learnt(m);
            &&& d.min == up
            &&& d.med == up
            &&& d.max == m.max
            &&& num_states(d.core.h.bytes, up) == 1
            &&& suffix(d.core.h.bytes, up) == ctx
        }),
{
    reveal(learnt);
    reveal(branch_made);
    reveal(suffix_counted);
    byte_facts();
    let c = saw_context(saw_state(m.core, m.core.found), m.min);
    let up = successor(m.core.h.bytes, m.core.found);
    let (ctx, list, c1) = branch_of(c, m.min, up, 2, None);
    let c2 = upstate_set(c1, ctx, one_state(up));
    let a = put8(put8(c2.h.bytes, up, 0), plus(up, 1), 0);
    word_facts(a, plus(up, 8), ctx);
    assert(hung(c2, ctx, list, 0, one_state(up)) == (Some(ctx), c2));
}

/// The states that are to lead to new contexts: the one that was found, unless it is passed
/// over, and those for the same symbol in shorter contexts as long as they lead to the same
/// place. The new contexts hang from where the first other one leads, or from the shortest
/// context.
pub proof fn branch_ends_where_another_context_is_known(c: Core, min: u32, up: u32, st: u32)
    requires
        suffix(c.h.bytes, min) != 0,
    ensures
        successor(c.h.bytes, st) != up ==> {
            &&& branch_of(c, min, up, 0, Some(st)).0 == successor(c.h.bytes, st)
            &&& branch_of(c, min, up, 0, Some(st)).1 == seq![c.found]
            &&& branch_of(c, min, up, 1, Some(st)).0 == successor(c.h.bytes, st)
            &&& branch_of(c, min, up, 1, Some(st)).1 == Seq::<u32>::empty()
        },
        successor(c.h.bytes, st) == up && suffix(c.h.bytes, suffix(c.h.bytes, min)) == 0 ==> {
            &&& branch_of(c, min, up, 0, Some(st)).0 == suffix(c.h.bytes, min)
            &&& branch_of(c, min, up, 0, Some(st)).1 == seq![c.found, st]
            &&& branch_of(c, min, up, 1, Some(st)).0 == suffix(c.h.bytes, min)
            &&& branch_of(c, min, up, 1, Some(st)).1 == seq![st]
        },
{
    reveal(branch_of);
    assert(seq![c.found].push(st) =~= seq![c.found, st]);
    assert(Seq::<u32>::empty().push(st) =~= seq![st]);
}

/// In the shortest context the state that was found is the only one.
pub proof fn branch_of_the_shortest_context(c: Core, min: u32, up: u32, state: Option<u32>)
    requires
        suffix(c.h.bytes, min) == 0,
    ensures
        branch_of(c, min, up, 0, state).0 == min,
        branch_of(c, min, up, 0, state).1 == seq![c.found],
{
    reveal(branch_of);
}

/// From one context to the next shorter one: the state for the symbol there ends the branch if
/// it leads elsewhere, and otherwise belongs to it; the shortest context ends it too.
pub proof fn branch_goes_on_in_shorter_contexts(c: Core, ctx: u32, up: u32, want: u8, list: Seq<u32>)
    requires
        list.len() < 255,
    ensures
        ({
            let below = suffix(c.h.bytes, ctx);
            let (st, c1) = state_in(saw_context(c, ctx), below, want);
            let (end, all, c2) = branch_from(c, ctx, up, want, list);
            if successor(c1.h.bytes, st) != up {
                end == successor(c1.h.bytes, st) && all == list
            } else if suffix(c1.h.bytes, below) == 0 {
                end == below && all == list.push(st)
            } else {
                (end, all, c2) == branch_from(c1, below, up, want, list.push(st))
            }
        }),
{
}

// === chains of new contexts ===================================================

/// The byte at `p` tells where one of the first `n` states leads.
pub open spec fn leads_there(list: Seq<u32>, n: int, p: u32) -> bool {
    exists|i: int| 0 <= i < n && #[trigger] list[i] + 2 <= p < list[i] + 6
}

/// There is room for `n` contexts at the top of the heap, and the states lie below, one beside
/// the other.
pub open spec fn room_for(c: Core, list: Seq<u32>, n: int, up: u32) -> bool {
    let top = c.h.high - 12 * n;
    &&& 0 <= n <= list.len()
    &&& c.h.low <= top
    &&& 12 <= top
    &&& c.h.high <= c.h.bytes.len() <= 0xffff_ff00
    &&& up + 6 <= top
    &&& forall|i: int|
        0 <= i < n ==> (#[trigger] list[i]) + 6 <= top && (list[i] + 6 <= up || up + 6 <= list[i])
    &&& forall|i: int, j: int|
        0 <= i < j < n ==> (#[trigger] list[i]) + 6 <= (#[trigger] list[j]) || list[j] + 6 <= list[i]
}

/// New contexts are made for the states from the last to the first. Each state leads to its
/// own, each has the given state as its only one, and each lies below the one before, the
/// first below the context where the chain starts.
pub proof fn new_contexts_are_a_chain(c: Core, ctx: u32, list: Seq<u32>, n: int, up: u32)
    requires
        room_for(c, list, n, up),
    ensures
        ({
            let (x, d) = hung(c, ctx, list, n, up);
            let b = d.h.bytes;
            &&& x == Some(if n == 0 {
                ctx
            } else {
                (c.h.high - 12 * n) as u32
            })
            &&& d.h.high == c.h.high - 12 * n
            &&& b.len() == c.h.bytes.len()
            &&& forall|i: int|
                0 <= i < n ==> {
                    &&& successor(b, #[trigger] list[i]) == c.h.high - 12 * (n - i)
                    &&& num_states(b, (c.h.high - 12 * (n - i)) as u32) == 1
                    &&& suffix(b, (c.h.high - 12 * (n - i)) as u32) == if i == n - 1 {
                        ctx as int
                    } else {
                        c.h.high - 12 * (n - i - 1)
                    }
                    &&& symbol(b, (c.h.high - 12 * (n - i) + 2) as u32) == symbol(c.h.bytes, up)
                    &&& freq(b, (c.h.high - 12 * (n - i) + 2) as u32) == freq(c.h.bytes, up)
                }
            &&& forall|p: u32|
                p >= c.h.high || (p < c.h.high - 12 * n && !leads_there(list, n, p)) ==> #[trigger] get8(b, p) == get8(
                    c.h.bytes,
                    p,
                )
        }),
    decreases n,
{
    if n > 0 {
        let state = list[n - 1];
        let h = c.h.high;
        new_context_hangs_below(c, ctx, state, up);
        let (y, c1) = child_made(c, ctx, state, Some(up));
        let b1 = c1.h.bytes;
        assert(y == h - 12);
        assert(symbol(b1, up) == symbol(c.h.bytes, up) && freq(b1, up) == freq(c.h.bytes, up));
        new_contexts_are_a_chain(c1, y, list, n - 1, up);
        let (x, d) = hung(c, ctx, list, n, up);
        let b = d.h.bytes;
        assert((x, d) == hung(c1, y, list, n - 1, up));
        assert forall|p: u32| state + 2 <= p < state + 6 implies #[trigger] get8(b, p) == get8(b1, p) by {
            if leads_there(list, n - 1, p) {
                let i = choose|i: int| 0 <= i < n - 1 && #[trigger] list[i] + 2 <= p < list[i] + 6;
                assert(list[i] + 6 <= list[n - 1] || list[n - 1] + 6 <= list[i]);
            }
        }
        assert(forall|p: u32| y <= p < y + 12 ==> #[trigger] get8(b, p) == get8(b1, p));
        assert(successor(b, state) == y && suffix(b, y) == ctx && num_states(b, y) == 1) by {
            reveal(get32);
        }
        assert(symbol(b, one_state(y)) == symbol(c.h.bytes, up) && freq(b, one_state(y)) == freq(c.h.bytes, up));
        assert forall|i: int| 0 <= i < n implies {
            &&& successor(b, #[trigger] list[i]) == h - 12 * (n - i)
            &&& num_states(b, (h - 12 * (n - i)) as u32) == 1
            &&& suffix(b, (h - 12 * (n - i)) as u32) == if i == n - 1 {
                ctx as int
            } else {
                h - 12 * (n - i - 1)
            }
            &&& symbol(b, (h - 12 * (n - i) + 2) as u32) == symbol(c.h.bytes, up)
            &&& freq(b, (h - 12 * (n - i) + 2) as u32) == freq(c.h.bytes, up)
        } by {
            if i < n - 1 {
                assert(successor(b, list[i]) == c1.h.high - 12 * (n - 1 - i));
            }
        }
        assert forall|p: u32|
            p >= h || (p < h - 12 * n && !leads_there(list, n, p)) implies #[trigger] get8(b, p) == get8(c.h.bytes, p) by {
            if p < h - 12 * n {
                if leads_there(list, n - 1, p) {
                    let i = choose|i: int| 0 <= i < n - 1 && #[trigger] list[i] + 2 <= p < list[i] + 6;
                    assert(0 <= i < n && list[i] + 2 <= p < list[i] + 6);
                }
                assert(!(list[n - 1] + 2 <= p < list[n - 1] + 6));
            }
            assert(get8(b, p) == get8(b1, p));
        }
    }
}

} // verus!
