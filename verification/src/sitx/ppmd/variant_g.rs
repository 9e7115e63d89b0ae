use vstd::prelude::*;
use crate::sitx::ppmd::context::{
    bin_next, child_made, clear_mask, context_made, copy_state, ctx_flags, ctx_last_state_index, ctx_one_state,
    ctx_states, ctx_suffix, ctx_summ_freq, decode_bin_symbol, decode_symbol1, decode_symbol2, flags, freq, freq_set,
    gone_lost, last_index, mask_cleared, new_context, new_context_as_child_of, no_marks, nth, num_states,
    number_of_states, one_state, plus, saw_context, saw_state, see_make, see_mean, set_ctx_flags,
    set_ctx_last_state_index, set_ctx_states, set_ctx_suffix, set_ctx_summ_freq, set_state, set_state_freq,
    set_state_successor, set_state_symbol, state_at, state_before, state_copied, state_freq, state_set,
    state_successor, state_symbol, states, states_swapped, successor, suffix, summ_freq, summ_set, swap_states, symbol,
    symbol1_next, symbol2_next, with_bytes, with_heap, Core, PpmdCore, See2Context,
};
use crate::sitx::ppmd::suballoc::{allocated, empty_heap, expanded, put32, put8, touched, BrimstoneAlloc, Heap};
use crate::sitx::rangecoder::{range_start, Kind, RangeCoder, RangeState};

verus! {

/// The first escape probabilities of a binary context.
pub const INIT_BIN_ESC: [u16; 16] = [
    0x3cdd,
    0x1f3f,
    0x59bf,
    0x48f3,
    0x5ffb,
    0x5545,
    0x63d1,
    0x5d9d,
    0x64a1,
    0x5abc,
    0x6632,
    0x6051,
    0x68f6,
    0x549b,
    0x6bca,
    0x3ab0,
];

/// The most states that lead to new contexts at once.
pub const MAX_O: usize = 255;

// === the model as a value =====================================================

/// The model between two symbols: the working set, the context to decode in, the
/// longest contexts to be extended, the order, the form of the model and the heap
/// size, the escape estimates, eight for each number of open states, and the
/// probabilities of binary contexts, sixteen for each frequency.
pub struct ModelState {
    pub core: Core,
    pub min: u32,
    pub med: u32,
    pub max: u32,
    pub order: i32,
    pub brimstone: bool,
    pub size: u32,
    pub see: Seq<See2Context>,
    pub dummy: See2Context,
    pub bins: Seq<u16>,
}

/// The class of a binary context by the last index of its suffix.
pub open spec fn bin_class(i: int) -> int {
    if i < 6 {
        2 * i
    } else if i < 50 {
        12
    } else {
        14
    }
}

/// The class of a number of open states less one.
pub open spec fn see_class(i: int) -> int {
    if i < 4 {
        i
    } else if i < 12 {
        4 + (i - 4) / 2
    } else if i < 44 {
        8 + (i - 12) / 4
    } else {
        16 + (i - 44) / 8
    }
}

// === starting =================================================================

/// The states of the root from number `i` on: one for each symbol.
pub open spec fn root_filled(b: Seq<u8>, base: u32, brimstone: bool, i: int) -> Seq<u8>
    decreases 256 - i,
{
    if i >= 256 {
        b
    } else {
        root_filled(
            state_set(
                b,
                nth(base, i),
                i as u8,
                if brimstone && i < 0x80 {
                    2
                } else {
                    1
                },
                0,
            ),
            base,
            brimstone,
            i + 1,
        )
    }
}

/// The root: a context in which every symbol may come.
#[verifier::opaque]
pub open spec fn root_made(c: Core, brimstone: bool) -> (u32, Core) {
    let (x, c1) = context_made(c);
    let b1 = summ_set(
        put8(c1.h.bytes, x, 255),
        x,
        if brimstone {
            385
        } else {
            257
        },
    );
    let (p, h2) = allocated(with_bytes(c1.h, b1), 128);
    let b2 = put32(h2.bytes, plus(x, 4), p);
    let base = states(b2, x);
    let h3 = touched(with_bytes(h2, b2), base, 1536);
    (x, with_heap(c1, with_bytes(h3, root_filled(b2, base, brimstone, 0))))
}

/// A chain of contexts from `parent` down to order `order`, each holding symbol 0.
pub open spec fn chained(c: Core, parent: u32, state: u32, i: int, order: int) -> (u32, Core)
    decreases order - i,
{
    let (x, c1) = child_made(c, parent, state, None);
    if i >= order {
        (x, c1)
    } else {
        let s = one_state(x);
        chained(with_heap(c1, with_bytes(c1.h, freq_set(put8(c1.h.bytes, s, 0), s, 1))), x, s, i + 1, order)
    }
}

pub open spec fn first_bins() -> Seq<u16> {
    Seq::new(2048, |i: int| (0x4000 - INIT_BIN_ESC@[i % 16] / ((i / 16 + 2) as u16)) as u16)
}

pub open spec fn first_estimates() -> Seq<See2Context> {
    Seq::new(344, |i: int| see_make(4 * (i / 8) + 10, 3))
}

/// The model with all that it has learnt forgotten.
#[verifier::opaque]
pub open spec fn restarted(m: ModelState) -> ModelState {
    let c0 = Core {
        h: empty_heap(m.size, m.core.h.lost),
        mask: Seq::new(256, |i: int| 0u8),
        prev_success: 0,
        order_fall: 1,
        ..m.core
    };
    let (root, c1) = root_made(c0, m.brimstone);
    let (x, c2) = chained(c1, root, states(c1.h.bytes, root), 1, m.order as int);
    let c3 = saw_context(c2, x);
    let c4 = with_heap(c3, with_bytes(c3.h, put8(c3.h.bytes, plus(x, 1), 1)));
    let below = suffix(c4.h.bytes, x);
    ModelState {
        core: c4,
        min: below,
        med: below,
        max: x,
        see: first_estimates(),
        bins: first_bins(),
        ..m
    }
}

/// The model started over because the heap is full.
pub open spec fn overflowed(m: ModelState) -> ModelState {
    let r = restarted(m);
    ModelState { core: Core { esc_count: 0, ..r.core }, ..r }
}

/// A model that has seen nothing.
pub open spec fn model_start(size: u32, order: i32, brimstone: bool) -> ModelState {
    restarted(
        ModelState {
            core: Core {
                h: Heap {
                    bytes: seq![],
                    low: 0,
                    high: 0,
                    free: Seq::new(38, |i: int| 0u32),
                    lost: false,
                },
                scale: 0,
                found: 0,
                order_fall: 0,
                init_esc: 0,
                mask: Seq::new(256, |i: int| 0u8),
                last_mask: 0,
                esc_count: 1,
                prev_success: 0,
            },
            min: 0,
            med: 0,
            max: 0,
            order,
            brimstone,
            size,
            see: seq![],
            dummy: See2Context { summ: 0, shift: 7, count: 0 },
            bins: seq![],
        },
    )
}

/// The form of range coder that goes with the model.
pub open spec fn coder_kind(brimstone: bool) -> Kind {
    Kind {
        uselow: true,
        bottom: if brimstone {
            0x1_0000
        } else {
            0x8000
        },
    }
}

// === the model ================================================================

/// The model.
pub struct PpmdModelVariantG {
    pub core: PpmdCore,
    pub min_context: u32,
    pub med_context: u32,
    pub max_context: u32,
    pub max_order: i32,
    pub brimstone: bool,
    pub see2_cont: Vec<See2Context>,
    pub dummy_see2_cont: See2Context,
    pub bin_summ: Vec<u16>,
}

impl PpmdModelVariantG {
    pub open spec fn view(&self) -> ModelState {
        ModelState {
            core: self.core.view(),
            min: self.min_context,
            med: self.med_context,
            max: self.max_context,
            order: self.max_order,
            brimstone: self.brimstone,
            size: self.core.heap.sub_alloc_size,
            see: self.see2_cont@,
            dummy: self.dummy_see2_cont,
            bins: self.bin_summ@,
        }
    }

    /// The working set is well formed, and the order is one that a chain can have.
    pub open spec fn sound(&self) -> bool {
        self.core.wf() && self.max_order >= 1
    }

    pub open spec fn wf(&self) -> bool {
        &&& self.sound()
        &&& self.see2_cont@.len() == 344
        &&& forall|i: int| 0 <= i < 344 ==> (#[trigger] self.see2_cont@[i]).shift <= 7
        &&& self.dummy_see2_cont.shift <= 7
        &&& self.bin_summ@.len() == 2048
    }
}

fn fill_root(a: &mut BrimstoneAlloc, base: u32, brimstone: bool)
    requires
        old(a).wf(),
    ensures
        final(a).wf(),
        final(a).tables_same(old(a)),
        final(a).view() == with_bytes(old(a).view(), root_filled(old(a).view().bytes, base, brimstone, 0)),
{
    let mut i: u32 = 0;
    while i < 256
        invariant
            i <= 256,
            a.wf(),
            a.tables_same(old(a)),
            a.view() == with_bytes(old(a).view(), a.view().bytes),
            root_filled(a.view().bytes, base, brimstone, i as int) == root_filled(
                old(a).view().bytes,
                base,
                brimstone,
                0,
            ),
        decreases 256 - i,
    {
        let f: u8 = if brimstone && i < 0x80 {
            2
        } else {
            1
        };
        set_state(a, state_at(base, i), i as u8, f, 0);
        i = i + 1;
    }
}

fn make_root_context(core: &mut PpmdCore, brimstone: bool) -> (x: u32)
    requires
        old(core).wf(),
    ensures
        final(core).kept(old(core)),
        (x, final(core).view()) == root_made(old(core).view(), brimstone),
{
    reveal(root_made);
    let x: u32 = new_context(core);
    set_ctx_last_state_index(&mut core.heap, x, 255);
    let summ: i32 = if brimstone {
        385
    } else {
        257
    };
    set_ctx_summ_freq(&mut core.heap, x, summ);
    let p: u32 = core.heap.alloc_units(128);
    set_ctx_states(&mut core.heap, x, p);
    let base: u32 = ctx_states(&core.heap, x);
    core.heap.touch(base, 1536);
    fill_root(&mut core.heap, base, brimstone);
    x
}

fn make_chain(core: &mut PpmdCore, root: u32, state: u32, order: i32) -> (x: u32)
    requires
        old(core).wf(),
        order >= 1,
    ensures
        final(core).kept(old(core)),
        (x, final(core).view()) == chained(old(core).view(), root, state, 1, order as int),
{
    let mut parent: u32 = root;
    let mut s: u32 = state;
    let mut i: i32 = 1;
    loop
        invariant
            1 <= i <= order,
            core.kept(old(core)),
            chained(core.view(), parent, s, i as int, order as int) == chained(
                old(core).view(),
                root,
                state,
                1,
                order as int,
            ),
        decreases order - i,
    {
        parent = new_context_as_child_of(core, parent, s, None);
        if i == order {
            return parent;
        }
        s = ctx_one_state(parent);
        set_state_symbol(&mut core.heap, s, 0);
        set_state_freq(&mut core.heap, s, 1);
        i = i + 1;
    }
}

fn make_bins() -> (r: Vec<u16>)
    ensures
        r@ == first_bins(),
{
    let mut bins: Vec<u16> = Vec::new();
    let mut i: usize = 0;
    while i < 2048
        invariant
            i <= 2048,
            bins@.len() == i,
            forall|k: int| 0 <= k < i ==> #[trigger] bins@[k] == first_bins()[k],
        decreases 2048 - i,
    {
        let e: u16 = INIT_BIN_ESC[i % 16] / ((i / 16 + 2) as u16);
        assert(e <= 0x4000) by {
            let d = (i / 16 + 2) as u16;
            let v = INIT_BIN_ESC@[i as int % 16];
            assert(v <= 0x6bca) by {
                let k = i as int % 16;
                assert(k == 0 || k == 1 || k == 2 || k == 3 || k == 4 || k == 5 || k == 6 || k == 7 || k == 8 || k == 9
                    || k == 10 || k == 11 || k == 12 || k == 13 || k == 14 || k == 15);
            }
            assert(v / d <= v / 2) by (nonlinear_arith)
                requires v >= 0, d >= 2;
        }
        bins.push(0x4000 - e);
        i = i + 1;
    }
    assert(bins@ =~= first_bins());
    bins
}

fn make_estimates() -> (r: Vec<See2Context>)
    ensures
        r@ == first_estimates(),
        forall|i: int| 0 <= i < 344 ==> (#[trigger] r@[i]).shift <= 7,
{
    let mut see: Vec<See2Context> = Vec::new();
    let mut i: u32 = 0;
    while i < 344
        invariant
            i <= 344,
            see@.len() == i,
            forall|k: int| 0 <= k < i ==> #[trigger] see@[k] == first_estimates()[k],
        decreases 344 - i,
    {
        see.push(See2Context::make(4 * (i / 8) + 10, 3));
        i = i + 1;
    }
    assert(see@ =~= first_estimates());
    see
}

/// Forget all that the model has learnt.
pub fn restart_model(model: &mut PpmdModelVariantG)
    requires
        old(model).sound(),
        old(model).dummy_see2_cont.shift <= 7,
    ensures
        final(model).wf(),
        final(model).view() == restarted(old(model).view()),
{
    reveal(restarted);
    let core: &mut PpmdCore = &mut model.core;
    core.heap.init();
    core.char_mask = no_marks();
    core.prev_success = 0;
    core.order_fall = 1;
    let root: u32 = make_root_context(core, model.brimstone);
    let base: u32 = ctx_states(&core.heap, root);
    let x: u32 = make_chain(core, root, base, model.max_order);
    core.heap.touch(x, 12);
    set_ctx_flags(&mut core.heap, x, 1);
    let below: u32 = ctx_suffix(&core.heap, x);
    model.max_context = x;
    model.med_context = below;
    model.min_context = below;
    model.bin_summ = make_bins();
    model.see2_cont = make_estimates();
}

/// Make a model over the working set `core`.
pub fn new_model(core: PpmdCore, maxorder: i32, brimstone: bool) -> (model: PpmdModelVariantG)
    requires
        core.wf(),
        maxorder >= 1,
    ensures
        model.wf(),
        model.view() == restarted(
            (ModelState {
                core: core.view(),
                min: 0,
                med: 0,
                max: 0,
                order: maxorder,
                brimstone,
                size: core.heap.sub_alloc_size,
                see: seq![],
                dummy: See2Context { summ: 0, shift: 7, count: 0 },
                bins: seq![],
            }),
        ),
{
    let mut model = PpmdModelVariantG {
        core,
        min_context: 0,
        med_context: 0,
        max_context: 0,
        max_order: maxorder,
        brimstone,
        see2_cont: Vec::new(),
        dummy_see2_cont: See2Context { summ: 0, shift: 7, count: 0 },
        bin_summ: Vec::new(),
    };
    assert(model.see2_cont@ =~= seq![]);
    assert(model.bin_summ@ =~= seq![]);
    restart_model(&mut model);
    model
}

/// Start a model and the range coder that goes with it.
pub fn start<'a>(input: &'a [u8], alloc_size: u32, maxorder: i32, brimstone: bool) -> (r: (
    RangeCoder<'a>,
    PpmdModelVariantG,
))
    requires
        alloc_size < 0xffff_ff00,
        maxorder >= 1,
    ensures
        r.0.wf(),
        r.0.input() == input@,
        r.0.kind() == coder_kind(brimstone),
        r.0.state() == range_start(input@),
        r.1.wf(),
        r.1.view() == model_start(alloc_size, maxorder, brimstone),
{
    let bottom: u32 = if brimstone {
        0x1_0000
    } else {
        0x8000
    };
    let coder = RangeCoder::new(input, true, bottom);
    let core = PpmdCore {
        heap: BrimstoneAlloc::new(alloc_size),
        scale: 0,
        found_state: 0,
        order_fall: 0,
        init_esc: 0,
        char_mask: no_marks(),
        last_mask_index: 0,
        esc_count: 1,
        prev_success: 0,
    };
    (coder, new_model(core, maxorder, brimstone))
}

// === new contexts =============================================================

/// The first state from `st` on with symbol `want`; the core goes lost if there is
/// none in the heap.
pub open spec fn state_for(c: Core, st: u32, want: u8) -> (u32, Core)
    decreases c.h.bytes.len() - st,
{
    let c0 = saw_state(c, st);
    if st + 6 > c.h.bytes.len() || st > 0xffff_ff00 || symbol(c.h.bytes, st) == want {
        (st, c0)
    } else {
        state_for(c0, (st + 6) as u32, want)
    }
}

/// The state with symbol `want` in a context: its only one, or the one that is
/// found.
#[verifier::opaque]
pub open spec fn state_in(c: Core, ctx: u32, want: u8) -> (u32, Core) {
    let c0 = saw_context(c, ctx);
    if num_states(c0.h.bytes, ctx) != 1 {
        state_for(c0, states(c0.h.bytes, ctx), want)
    } else {
        (one_state(ctx), c0)
    }
}

/// Collect the states for `want` in ever shorter contexts, as long as they lead to
/// `up`; the context at which that ends.
pub open spec fn branch_from(c: Core, ctx: u32, up: u32, want: u8, list: Seq<u32>) -> (u32, Seq<u32>, Core)
    decreases 256 - list.len(),
{
    let c0 = saw_context(c, ctx);
    let below = suffix(c0.h.bytes, ctx);
    let (st, c1) = state_in(c0, below, want);
    if successor(c1.h.bytes, st) != up {
        (successor(c1.h.bytes, st), list, c1)
    } else if list.len() >= MAX_O {
        (below, list, gone_lost(c1))
    } else if suffix(c1.h.bytes, below) == 0 {
        (below, list.push(st), c1)
    } else {
        branch_from(c1, below, up, want, list.push(st))
    }
}

/// The states that are to lead to new contexts, and the context that these are to
/// hang from. With `skip` 0 the state found last is one of them; with `skip` 2 the
/// shortest context is passed over; `state` is the one for the suffix, if it is
/// known.
#[verifier::opaque]
pub open spec fn branch_of(c: Core, min: u32, up: u32, skip: int, state: Option<u32>) -> (u32, Seq<u32>, Core) {
    let c0 = saw_state(saw_context(c, min), c.found);
    let b = c0.h.bytes;
    let want = symbol(b, c.found);
    let list = if skip == 0 {
        seq![c.found]
    } else {
        seq![]
    };
    if skip == 0 && suffix(b, min) == 0 {
        (min, list, c0)
    } else {
        let ctx = if skip == 2 {
            suffix(b, min)
        } else {
            min
        };
        match state {
            None => branch_from(c0, ctx, up, want, list),
            Some(st) => {
                let c1 = saw_state(saw_context(c0, ctx), st);
                let below = suffix(b, ctx);
                if successor(b, st) != up {
                    (successor(b, st), list, c1)
                } else {
                    let c2 = saw_context(c1, below);
                    if suffix(b, below) == 0 {
                        (below, list.push(st), c2)
                    } else {
                        branch_from(c2, below, up, want, list.push(st))
                    }
                }
            },
        }
    }
}

/// The frequency a new context starts with: what the share of the symbol in the
/// context above suggests, `cf` being its frequency less one and `s0` the rest.
pub open spec fn suggested(cf: int, s0: int) -> int {
    if 2 * cf <= s0 {
        if 5 * cf > s0 {
            2
        } else {
            1
        }
    } else {
        1 + toward_zero(2 * cf + 3 * s0 - 1, 2 * s0)
    }
}

/// A quotient rounded toward zero.
pub open spec fn toward_zero(a: int, b: int) -> int {
    if a >= 0 && b > 0 {
        a / b
    } else if a >= 0 {
        -(a / -b)
    } else if b > 0 {
        -(-a / b)
    } else {
        -a / -b
    }
}

fn divide_toward_zero(a: i32, b: i32) -> (r: i32)
    requires
        b != 0,
        -0x100_0000 < a < 0x100_0000,
        -0x100_0000 < b < 0x100_0000,
    ensures
        r == toward_zero(a as int, b as int),
        -0x100_0000 < r < 0x100_0000,
{
    let x: u32 = if a >= 0 {
        a as u32
    } else {
        (-a) as u32
    };
    let y: u32 = if b > 0 {
        b as u32
    } else {
        (-b) as u32
    };
    let q: u32 = x / y;
    assert(x as int / y as int <= x) by (nonlinear_arith)
        requires x >= 0, y >= 1;
    if (a >= 0) == (b > 0) {
        q as i32
    } else {
        -(q as i32)
    }
}

/// The state that new contexts are to hold, made ready from that of context `ctx`.
#[verifier::opaque]
pub open spec fn upstate_set(c: Core, ctx: u32, upstate: u32) -> Core {
    let c0 = saw_state(saw_context(c, ctx), upstate);
    if num_states(c0.h.bytes, ctx) != 1 {
        let (st, c1) = state_for(c0, states(c0.h.bytes, ctx), symbol(c0.h.bytes, upstate));
        let b = c1.h.bytes;
        let cf = freq(b, st) - 1;
        let s0 = summ_freq(b, ctx) - last_index(b, ctx) - 1 - cf;
        if 2 * cf > s0 && s0 == 0 {
            gone_lost(c1)
        } else {
            with_heap(c1, with_bytes(c1.h, freq_set(b, upstate, (suggested(cf, s0) % 0x100) as u8)))
        }
    } else {
        with_heap(c0, with_bytes(c0.h, freq_set(c0.h.bytes, upstate, freq(c0.h.bytes, one_state(ctx)))))
    }
}

/// New contexts for the first `n` states of `list`, the last of them first, each
/// below the one before; `None` if there is no room.
pub open spec fn hung(c: Core, ctx: u32, list: Seq<u32>, n: int, upstate: u32) -> (Option<u32>, Core)
    decreases n,
{
    if n <= 0 {
        (Some(ctx), c)
    } else {
        let (x, c1) = child_made(c, ctx, list[n - 1], Some(upstate));
        if x == 0 {
            (None, c1)
        } else {
            hung(c1, x, list, n - 1, upstate)
        }
    }
}

/// The contexts that the state found last leads to made real; whether there was
/// room.
#[verifier::opaque]
pub open spec fn branch_made(c: Core, min: u32, skip: int, state: Option<u32>) -> (bool, Core) {
    let up = successor(c.h.bytes, c.found);
    let (ctx, list, c1) = branch_of(c, min, up, skip, state);
    let c2 = upstate_set(c1, ctx, one_state(up));
    match hung(c2, ctx, list, list.len() as int, one_state(up)) {
        (None, c3) => (false, c3),
        (Some(x), c3) => (
            true,
            if c3.order_fall == 0 {
                let c4 = saw_context(c3, up);
                with_heap(
                    c4,
                    with_bytes(c4.h, put32(put8(put8(c4.h.bytes, up, 0), plus(up, 1), 0), plus(up, 8), x)),
                )
            } else {
                c3
            },
        ),
    }
}

fn find_state(core: &mut PpmdCore, st: u32, want: u8) -> (r: u32)
    requires
        old(core).wf(),
    ensures
        final(core).kept(old(core)),
        (r, final(core).view()) == state_for(old(core).view(), st, want),
{
    let mut x: u32 = st;
    loop
        invariant
            core.kept(old(core)),
            state_for(core.view(), x, want) == state_for(old(core).view(), st, want),
        decreases 0x1_0000_0000 - x,
    {
        let sym: u8 = state_symbol(&core.heap, x);
        core.heap.touch(x, 6);
        if x > 0xffff_ff00 || x as usize + 6 > core.heap.arena.len() || sym == want {
            return x;
        }
        x = x + 6;
    }
}

fn find_state_in(core: &mut PpmdCore, ctx: u32, want: u8) -> (r: u32)
    requires
        old(core).wf(),
    ensures
        final(core).kept(old(core)),
        (r, final(core).view()) == state_in(old(core).view(), ctx, want),
{
    reveal(state_in);
    core.heap.touch(ctx, 12);
    if number_of_states(&core.heap, ctx) != 1 {
        let base: u32 = ctx_states(&core.heap, ctx);
        find_state(core, base, want)
    } else {
        ctx_one_state(ctx)
    }
}

fn follow_branch(core: &mut PpmdCore, from: u32, up: u32, want: u8, list: &mut Vec<u32>) -> (r: u32)
    requires
        old(core).wf(),
        old(list)@.len() <= 255,
    ensures
        final(core).kept(old(core)),
        final(list)@.len() <= 255,
        (r, final(list)@, final(core).view()) == branch_from(old(core).view(), from, up, want, old(list)@),
{
    let mut ctx: u32 = from;
    loop
        invariant
            core.kept(old(core)),
            list@.len() <= 255,
            branch_from(core.view(), ctx, up, want, list@) == branch_from(
                old(core).view(),
                from,
                up,
                want,
                old(list)@,
            ),
        decreases 256 - list@.len(),
    {
        core.heap.touch(ctx, 12);
        let below: u32 = ctx_suffix(&core.heap, ctx);
        let st: u32 = find_state_in(core, below, want);
        let next: u32 = state_successor(&core.heap, st);
        if next != up {
            return next;
        }
        if list.len() >= MAX_O {
            core.lose();
            return below;
        }
        list.push(st);
        if ctx_suffix(&core.heap, below) == 0 {
            return below;
        }
        ctx = below;
    }
}

fn find_branch(core: &mut PpmdCore, min: u32, up: u32, skip: u32, state: Option<u32>, list: &mut Vec<u32>) -> (r: u32)
    requires
        old(core).wf(),
        old(list)@.len() == 0,
    ensures
        final(core).kept(old(core)),
        final(list)@.len() <= 255,
        (r, final(list)@, final(core).view()) == branch_of(old(core).view(), min, up, skip as int, state),
{
    reveal(branch_of);
    let found: u32 = core.found_state;
    core.heap.touch(min, 12);
    core.heap.touch(found, 6);
    let want: u8 = state_symbol(&core.heap, found);
    assert(list@ =~= seq![]);
    if skip == 0 {
        list.push(found);
        assert(list@ =~= seq![found]);
        if ctx_suffix(&core.heap, min) == 0 {
            return min;
        }
    }
    let ctx: u32 = if skip == 2 {
        ctx_suffix(&core.heap, min)
    } else {
        min
    };
    if let Some(st) = state {
        core.heap.touch(ctx, 12);
        core.heap.touch(st, 6);
        let below: u32 = ctx_suffix(&core.heap, ctx);
        let next: u32 = state_successor(&core.heap, st);
        if next != up {
            return next;
        }
        list.push(st);
        core.heap.touch(below, 12);
        if ctx_suffix(&core.heap, below) == 0 {
            return below;
        }
        follow_branch(core, below, up, want, list)
    } else {
        follow_branch(core, ctx, up, want, list)
    }
}

/// The frequency a new context starts with; there is none if there is no rest.
fn suggest(cf: i32, s0: i32) -> (r: Option<u8>)
    requires
        -1 <= cf <= 0x1_0000,
        -0x1_0000 <= s0 <= 0x1_0000,
    ensures
        match r {
            Some(f) => !(2 * cf > s0 && s0 == 0) && f == (suggested(cf as int, s0 as int) % 0x100) as u8,
            None => 2 * cf > s0 && s0 == 0,
        },
{
    let f: i32 = if 2 * cf <= s0 {
        if 5 * cf > s0 {
            2
        } else {
            1
        }
    } else {
        if s0 == 0 {
            return None;
        }
        1 + divide_toward_zero(2 * cf + 3 * s0 - 1, 2 * s0)
    };
    Some(((f + 0x100_0000) as u32 % 0x100) as u8)
}

fn prepare_upstate(core: &mut PpmdCore, ctx: u32, upstate: u32)
    requires
        old(core).wf(),
    ensures
        final(core).kept(old(core)),
        final(core).view() == upstate_set(old(core).view(), ctx, upstate),
{
    reveal(upstate_set);
    core.heap.touch(ctx, 12);
    core.heap.touch(upstate, 6);
    if number_of_states(&core.heap, ctx) != 1 {
        let base: u32 = ctx_states(&core.heap, ctx);
        let want: u8 = state_symbol(&core.heap, upstate);
        let st: u32 = find_state(core, base, want);
        let cf: i32 = state_freq(&core.heap, st) as i32 - 1;
        let s0: i32 = ctx_summ_freq(&core.heap, ctx) as i32 - ctx_last_state_index(&core.heap, ctx) as i32 - 1 - cf;
        match suggest(cf, s0) {
            Some(f) => {
                set_state_freq(&mut core.heap, upstate, f);
            },
            None => {
                core.lose();
            },
        }
    } else {
        let f: u8 = state_freq(&core.heap, ctx_one_state(ctx));
        set_state_freq(&mut core.heap, upstate, f);
    }
}

fn hang_contexts(core: &mut PpmdCore, from: u32, list: &Vec<u32>, upstate: u32) -> (r: Option<u32>)
    requires
        old(core).wf(),
    ensures
        final(core).kept(old(core)),
        (r, final(core).view()) == hung(old(core).view(), from, list@, list@.len() as int, upstate),
{
    let mut ctx: u32 = from;
    let mut n: usize = list.len();
    while n > 0
        invariant
            n <= list@.len(),
            core.kept(old(core)),
            hung(core.view(), ctx, list@, n as int, upstate) == hung(
                old(core).view(),
                from,
                list@,
                list@.len() as int,
                upstate,
            ),
        decreases n,
    {
        ctx = new_context_as_child_of(core, ctx, list[n - 1], Some(upstate));
        if ctx == 0 {
            return None;
        }
        n = n - 1;
    }
    Some(ctx)
}

/// Make the contexts real that the state found last leads to; whether there was
/// room.
pub fn make_root(core: &mut PpmdCore, min: u32, skip: u32, state: Option<u32>) -> (r: bool)
    requires
        old(core).wf(),
    ensures
        final(core).kept(old(core)),
        (r, final(core).view()) == branch_made(old(core).view(), min, skip as int, state),
{
    reveal(branch_made);
    let up: u32 = state_successor(&core.heap, core.found_state);
    let upstate: u32 = ctx_one_state(up);
    let mut list: Vec<u32> = Vec::new();
    let ctx: u32 = find_branch(core, min, up, skip, state, &mut list);
    prepare_upstate(core, ctx, upstate);
    match hang_contexts(core, ctx, &list, upstate) {
        None => false,
        Some(x) => {
            if core.order_fall == 0 {
                core.heap.touch(up, 12);
                set_ctx_last_state_index(&mut core.heap, up, 0);
                set_ctx_flags(&mut core.heap, up, 0);
                set_ctx_suffix(&mut core.heap, up, x);
            }
            true
        },
    }
}

// === learning =================================================================

/// The state for `sym` in the suffix of the shortest context counted again, if `f`,
/// the frequency of the state found last, is still low.
#[verifier::opaque]
pub open spec fn suffix_counted(c: Core, min: u32, sym: u8, f: u8) -> (Option<u32>, Core) {
    let c0 = saw_context(c, min);
    let ctx = suffix(c0.h.bytes, min);
    if f >= 31 || ctx == 0 {
        (None, c0)
    } else {
        let c1 = saw_context(c0, ctx);
        if num_states(c1.h.bytes, ctx) != 1 {
            let base = states(c1.h.bytes, ctx);
            let (found, c2) = state_for(c1, base, sym);
            let before = nth(found, -1);
            let b = c2.h.bytes;
            let (st, b1) = if found != base && freq(b, found) >= freq(b, before) {
                (before, states_swapped(b, found, before))
            } else {
                (found, b)
            };
            let b2 = if freq(b1, st) < 108 {
                let b3 = freq_set(b1, st, (freq(b1, st) + 2) as u8);
                summ_set(b3, ctx, summ_freq(b3, ctx) + 2)
            } else {
                b1
            };
            (Some(st), with_heap(c2, with_bytes(c2.h, b2)))
        } else {
            let st = one_state(ctx);
            let b = c1.h.bytes;
            (
                Some(st),
                if freq(b, st) < 32 {
                    with_heap(c1, with_bytes(c1.h, freq_set(b, st, (freq(b, st) + 1) as u8)))
                } else {
                    c1
                },
            )
        }
    }
}

/// The frequency a symbol starts with in a context that it is added to.
pub open spec fn first_freq(cf: int, sf: int) -> int {
    if cf < 6 * sf {
        if cf >= 4 * sf {
            3
        } else if cf > sf {
            2
        } else {
            1
        }
    } else {
        if cf >= 15 * sf {
            7
        } else if cf >= 12 * sf {
            6
        } else if cf >= 9 * sf {
            5
        } else {
            4
        }
    }
}

/// Room for one more state in a context; `None` if the heap has none.
#[verifier::opaque]
pub open spec fn room_made(c: Core, ctx: u32, num: int, minnum: int) -> (bool, Core) {
    if num != 1 {
        let (ok, h0) = if num % 2 == 0 {
            let (p, h1) = expanded(c.h, states(c.h.bytes, ctx), num / 2);
            (p != 0, if p == 0 {
                h1
            } else {
                with_bytes(h1, put32(h1.bytes, plus(ctx, 4), p))
            })
        } else {
            (true, c.h)
        };
        if !ok {
            (false, with_heap(c, h0))
        } else {
            let v = summ_freq(h0.bytes, ctx);
            let b1 = if 4 * num <= minnum && v <= 8 * num {
                summ_set(h0.bytes, ctx, v + 2)
            } else {
                h0.bytes
            };
            let b2 = if 2 * num < minnum {
                summ_set(b1, ctx, summ_freq(b1, ctx) + 1)
            } else {
                b1
            };
            (true, with_heap(c, with_bytes(h0, b2)))
        }
    } else {
        let (p, h1) = allocated(c.h, 1);
        if p == 0 {
            (false, with_heap(c, h1))
        } else {
            let t = touched(h1, p, 6);
            let b1 = put32(state_copied(t.bytes, one_state(ctx), p), plus(ctx, 4), p);
            let f = freq(b1, p) as int;
            let f1 = if f < 30 {
                2 * f
            } else {
                120
            };
            let b2 = freq_set(b1, p, f1 as u8);
            let b3 = summ_set(
                b2,
                ctx,
                f1 + c.init_esc + if minnum > 3 {
                    1int
                } else {
                    0
                },
            );
            (true, with_heap(c, with_bytes(t, b3)))
        }
    }
}

/// A state for `sym` added to a context that has `num` states and room; it leads
/// to `next`.
#[verifier::opaque]
pub open spec fn state_added(c: Core, ctx: u32, num: int, sym: u8, f: u8, next: u32, s0: int) -> Core {
    let v = summ_freq(c.h.bytes, ctx);
    let cf = 2 * f * (v + 6);
    let sf = s0 + v;
    let b = summ_set(
        c.h.bytes,
        ctx,
        v + if cf < 6 * sf {
            3
        } else {
            first_freq(cf, sf)
        },
    );
    let st = nth(states(b, ctx), num);
    let t = touched(with_bytes(c.h, b), st, 6);
    let b1 = freq_set(put8(put32(b, plus(st, 2), next), st, sym), st, first_freq(cf, sf) as u8);
    with_heap(c, with_bytes(t, put8(b1, ctx, num as u8)))
}

/// The symbol added to the contexts from `ctx` on up to the shortest; whether there
/// was room.
pub open spec fn extended(
    c: Core,
    ctx: u32,
    min: u32,
    sym: u8,
    f: u8,
    next: u32,
    minnum: int,
    s0: int,
    fuel: nat,
) -> (bool, Core)
    decreases fuel,
{
    let c0 = saw_context(c, ctx);
    let num = num_states(c0.h.bytes, ctx);
    if ctx == min {
        (true, c)
    } else if fuel == 0 || num == 0 || num == 256 {
        (true, gone_lost(c0))
    } else {
        let (ok, c1) = room_made(c0, ctx, num, minnum);
        if !ok {
            (false, c1)
        } else {
            let c2 = state_added(c1, ctx, num, sym, f, next, s0);
            extended(c2, suffix(c2.h.bytes, ctx), min, sym, f, next, minnum, s0, (fuel - 1) as nat)
        }
    }
}

/// The model once the symbol has been added to the contexts, `next` being where it
/// leads, `succ` where the state found last led, and `state` the one of the suffix.
#[verifier::opaque]
pub open spec fn moved_on(m: ModelState, next: u32, succ: u32, skip: int, state: Option<u32>) -> ModelState {
    let c = m.core;
    if succ != 0 {
        let c0 = saw_context(c, succ);
        let (ok, c1) = if flags(c0.h.bytes, succ) == 1 {
            branch_made(c0, m.min, skip, state)
        } else {
            (true, c0)
        };
        if !ok {
            overflowed(ModelState { core: c1, ..m })
        } else {
            let to = successor(c1.h.bytes, c1.found);
            ModelState { core: c1, min: to, med: to, max: next, ..m }
        }
    } else {
        let c1 = Core {
            h: with_bytes(c.h, put32(c.h.bytes, plus(c.found, 2), next)),
            order_fall: c.order_fall.wrapping_add(1),
            ..c
        };
        ModelState { core: c1, med: m.min, max: next, ..m }
    }
}

/// The model once it has learnt the symbol, from where it is known to what context
/// the symbol leads.
#[verifier::opaque]
pub open spec fn learnt_from(
    m: ModelState,
    next: u32,
    sym: u8,
    f: u8,
    succ: u32,
    skip: int,
    state: Option<u32>,
) -> ModelState {
    let c0 = saw_context(saw_context(m.core, m.max), m.min);
    let b = if flags(c0.h.bytes, m.max) == 1 {
        put32(put8(c0.h.bytes, one_state(m.max), sym), plus(one_state(m.max), 2), next)
    } else {
        c0.h.bytes
    };
    let c1 = with_heap(c0, with_bytes(c0.h, b));
    let minnum = num_states(b, m.min);
    let s0 = summ_freq(b, m.min) - minnum - (f - 1);
    let (ok, c2) = extended(c1, m.med, m.min, sym, f, next, minnum, s0, c1.h.bytes.len());
    if ok {
        moved_on(ModelState { core: c2, ..m }, next, succ, skip, state)
    } else {
        overflowed(ModelState { core: c2, ..m })
    }
}

/// The model once it has learnt the symbol of the state found last.
#[verifier::opaque]
pub open spec fn learnt(m: ModelState) -> ModelState {
    let c = saw_state(m.core, m.core.found);
    let sym = symbol(c.h.bytes, c.found);
    let f = freq(c.h.bytes, c.found);
    let succ = successor(c.h.bytes, c.found);
    let (state, c0) = suffix_counted(c, m.min, sym, f);
    if c0.order_fall == 0 {
        let (ok, c1) = branch_made(c0, m.min, 2, None);
        if ok {
            ModelState { core: c1, min: succ, med: succ, ..m }
        } else {
            overflowed(ModelState { core: c1, ..m })
        }
    } else {
        let c1 = Core { order_fall: c0.order_fall.wrapping_sub(1), ..c0 };
        if c1.order_fall == 0 {
            learnt_from(ModelState { core: c1, ..m }, succ, sym, f, succ, 1, state)
        } else {
            let (x, c2) = context_made(c1);
            if x == 0 {
                overflowed(ModelState { core: c2, ..m })
            } else {
                let c3 = with_heap(c2, with_bytes(c2.h, put8(c2.h.bytes, plus(x, 1), 1)));
                learnt_from(ModelState { core: c3, ..m }, x, sym, f, succ, 0, state)
            }
        }
    }
}

fn count_suffix(core: &mut PpmdCore, min: u32, sym: u8, f: u8) -> (r: Option<u32>)
    requires
        old(core).wf(),
    ensures
        final(core).kept(old(core)),
        (r, final(core).view()) == suffix_counted(old(core).view(), min, sym, f),
{
    reveal(suffix_counted);
    core.heap.touch(min, 12);
    let ctx: u32 = ctx_suffix(&core.heap, min);
    if f >= 31 || ctx == 0 {
        return None;
    }
    core.heap.touch(ctx, 12);
    if number_of_states(&core.heap, ctx) != 1 {
        let base: u32 = ctx_states(&core.heap, ctx);
        let mut st: u32 = find_state(core, base, sym);
        let before: u32 = state_before(st);
        if st != base && state_freq(&core.heap, st) >= state_freq(&core.heap, before) {
            swap_states(&mut core.heap, st, before);
            st = before;
        }
        let g: u8 = state_freq(&core.heap, st);
        if g < 108 {
            set_state_freq(&mut core.heap, st, g + 2);
            let summ: u16 = ctx_summ_freq(&core.heap, ctx);
            set_ctx_summ_freq(&mut core.heap, ctx, summ as i32 + 2);
        }
        Some(st)
    } else {
        let st: u32 = ctx_one_state(ctx);
        let g: u8 = state_freq(&core.heap, st);
        if g < 32 {
            set_state_freq(&mut core.heap, st, g + 1);
        }
        Some(st)
    }
}

fn make_room(core: &mut PpmdCore, ctx: u32, num: u32, minnum: u32) -> (r: bool)
    requires
        old(core).wf(),
        1 <= num < 256,
        minnum <= 256,
    ensures
        final(core).kept(old(core)),
        (r, final(core).view()) == room_made(old(core).view(), ctx, num as int, minnum as int),
{
    reveal(room_made);
    if num != 1 {
        if num % 2 == 0 {
            let base: u32 = ctx_states(&core.heap, ctx);
            let p: u32 = core.heap.expand_units(base, num / 2);
            if p == 0 {
                return false;
            }
            set_ctx_states(&mut core.heap, ctx, p);
        }
        let v: u32 = ctx_summ_freq(&core.heap, ctx) as u32;
        if 4 * num <= minnum && v <= 8 * num {
            set_ctx_summ_freq(&mut core.heap, ctx, v as i32 + 2);
        }
        let v: u32 = ctx_summ_freq(&core.heap, ctx) as u32;
        if 2 * num < minnum {
            set_ctx_summ_freq(&mut core.heap, ctx, v as i32 + 1);
        }
    } else {
        let p: u32 = core.heap.alloc_units(1);
        if p == 0 {
            return false;
        }
        core.heap.touch(p, 6);
        copy_state(&mut core.heap, ctx_one_state(ctx), p);
        set_ctx_states(&mut core.heap, ctx, p);
        let f: u32 = state_freq(&core.heap, p) as u32;
        let f1: u32 = if f < 30 {
            2 * f
        } else {
            120
        };
        set_state_freq(&mut core.heap, p, f1 as u8);
        let more: u32 = if minnum > 3 {
            1
        } else {
            0
        };
        let esc: u32 = core.init_esc;
        assert((f1 + esc % 0x1_0000 + more) as int % 0x1_0000 == (f1 + esc + more) as int % 0x1_0000);
        set_ctx_summ_freq(&mut core.heap, ctx, (f1 + esc % 0x1_0000 + more) as i32);
    }
    true
}

fn first_freq_of(cf: i64, sf: i64) -> (r: u8)
    requires
        0 <= cf <= 0x1000_0000,
        -0x10_0000 <= sf <= 0x10_0000,
    ensures
        r == first_freq(cf as int, sf as int),
        1 <= r <= 7,
{
    if cf < 6 * sf {
        if cf >= 4 * sf {
            3
        } else if cf > sf {
            2
        } else {
            1
        }
    } else {
        if cf >= 15 * sf {
            7
        } else if cf >= 12 * sf {
            6
        } else if cf >= 9 * sf {
            5
        } else {
            4
        }
    }
}

fn add_state(core: &mut PpmdCore, ctx: u32, num: u32, sym: u8, f: u8, next: u32, s0: i64)
    requires
        old(core).wf(),
        1 <= num < 256,
        -0x1_0000 <= s0 <= 0x1_0000,
    ensures
        final(core).kept(old(core)),
        final(core).view() == state_added(old(core).view(), ctx, num as int, sym, f, next, s0 as int),
{
    reveal(state_added);
    let v: i64 = ctx_summ_freq(&core.heap, ctx) as i64;
    let twice: i64 = 2 * f as i64;
    assert(0 <= twice * (v + 6) <= 0x1000_0000) by (nonlinear_arith)
        requires 0 <= v < 0x1_0000, 0 <= twice <= 510;
    let cf: i64 = twice * (v + 6);
    assert(cf == 2 * f * (v + 6));
    let sf: i64 = s0 + v;
    let g: u8 = first_freq_of(cf, sf);
    let gain: i64 = if cf < 6 * sf {
        3
    } else {
        g as i64
    };
    set_ctx_summ_freq(&mut core.heap, ctx, (v + gain) as i32);
    let base: u32 = ctx_states(&core.heap, ctx);
    let st: u32 = state_at(base, num);
    core.heap.touch(st, 6);
    set_state_successor(&mut core.heap, st, next);
    set_state_symbol(&mut core.heap, st, sym);
    set_state_freq(&mut core.heap, st, g);
    set_ctx_last_state_index(&mut core.heap, ctx, num as u8);
}

/// Add the symbol to the contexts from `from` on up to the shortest; whether there
/// was room.
fn extend_contexts(
    core: &mut PpmdCore,
    from: u32,
    min: u32,
    sym: u8,
    f: u8,
    next: u32,
    minnum: u32,
    s0: i64,
) -> (r: bool)
    requires
        old(core).wf(),
        minnum <= 256,
        -0x1_0000 <= s0 <= 0x1_0000,
    ensures
        final(core).kept(old(core)),
        (r, final(core).view()) == extended(
            old(core).view(),
            from,
            min,
            sym,
            f,
            next,
            minnum as int,
            s0 as int,
            old(core).view().h.bytes.len(),
        ),
{
    let mut ctx: u32 = from;
    let mut fuel: usize = core.heap.arena.len();
    while ctx != min
        invariant
            core.kept(old(core)),
            minnum <= 256,
            -0x1_0000 <= s0 <= 0x1_0000,
            extended(
                core.view(),
                ctx,
                min,
                sym,
                f,
                next,
                minnum as int,
                s0 as int,
                fuel as nat,
            ) == extended(
                old(core).view(),
                from,
                min,
                sym,
                f,
                next,
                minnum as int,
                s0 as int,
                old(core).view().h.bytes.len(),
            ),
        decreases fuel,
    {
        core.heap.touch(ctx, 12);
        let num: u32 = number_of_states(&core.heap, ctx);
        if fuel == 0 || num == 0 || num == 256 {
            core.lose();
            return true;
        }
        if !make_room(core, ctx, num, minnum) {
            return false;
        }
        add_state(core, ctx, num, sym, f, next, s0);
        ctx = ctx_suffix(&core.heap, ctx);
        fuel = fuel - 1;
    }
    true
}

/// Start over because the heap is full.
fn overflow(model: &mut PpmdModelVariantG)
    requires
        old(model).wf(),
    ensures
        final(model).wf(),
        final(model).view() == overflowed(old(model).view()),
{
    restart_model(model);
    model.core.esc_count = 0;
}

fn move_on(model: &mut PpmdModelVariantG, next: u32, succ: u32, skip: u32, state: Option<u32>)
    requires
        old(model).wf(),
    ensures
        final(model).wf(),
        final(model).view() == moved_on(old(model).view(), next, succ, skip as int, state),
{
    reveal(moved_on);
    if succ != 0 {
        model.core.heap.touch(succ, 12);
        if ctx_flags(&model.core.heap, succ) == 1 {
            if !make_root(&mut model.core, model.min_context, skip, state) {
                overflow(model);
                return;
            }
        }
        model.min_context = state_successor(&model.core.heap, model.core.found_state);
    } else {
        let found: u32 = model.core.found_state;
        set_state_successor(&mut model.core.heap, found, next);
        model.core.order_fall = model.core.order_fall.wrapping_add(1);
    }
    model.med_context = model.min_context;
    model.max_context = next;
}

fn learn_from(
    model: &mut PpmdModelVariantG,
    next: u32,
    sym: u8,
    f: u8,
    succ: u32,
    skip: u32,
    state: Option<u32>,
)
    requires
        old(model).wf(),
    ensures
        final(model).wf(),
        final(model).view() == learnt_from(old(model).view(), next, sym, f, succ, skip as int, state),
{
    reveal(learnt_from);
    let max: u32 = model.max_context;
    let min: u32 = model.min_context;
    let med: u32 = model.med_context;
    model.core.heap.touch(max, 12);
    model.core.heap.touch(min, 12);
    if ctx_flags(&model.core.heap, max) == 1 {
        let one: u32 = ctx_one_state(max);
        set_state_symbol(&mut model.core.heap, one, sym);
        set_state_successor(&mut model.core.heap, one, next);
    }
    let minnum: u32 = number_of_states(&model.core.heap, min);
    let s0: i64 = ctx_summ_freq(&model.core.heap, min) as i64 - minnum as i64 - (f as i64 - 1);
    if extend_contexts(&mut model.core, med, min, sym, f, next, minnum, s0) {
        move_on(model, next, succ, skip, state);
    } else {
        overflow(model);
    }
}

/// Learn the symbol of the state found last.
pub fn update_model(model: &mut PpmdModelVariantG)
    requires
        old(model).wf(),
    ensures
        final(model).wf(),
        final(model).view() == learnt(old(model).view()),
{
    reveal(learnt);
    let found: u32 = model.core.found_state;
    let min: u32 = model.min_context;
    model.core.heap.touch(found, 6);
    let sym: u8 = state_symbol(&model.core.heap, found);
    let f: u8 = state_freq(&model.core.heap, found);
    let succ: u32 = state_successor(&model.core.heap, found);
    let state: Option<u32> = count_suffix(&mut model.core, min, sym, f);
    if model.core.order_fall == 0 {
        if make_root(&mut model.core, min, 2, None) {
            model.min_context = succ;
            model.med_context = succ;
        } else {
            overflow(model);
        }
        return;
    }
    model.core.order_fall = model.core.order_fall.wrapping_sub(1);
    if model.core.order_fall == 0 {
        learn_from(model, succ, sym, f, succ, 1, state);
    } else {
        let x: u32 = new_context(&mut model.core);
        if x == 0 {
            overflow(model);
            return;
        }
        set_ctx_flags(&mut model.core.heap, x, 1);
        learn_from(model, x, sym, f, succ, 0, state);
    }
}

// === decoding =================================================================

/// Decode in a context with a single state.
#[verifier::opaque]
pub open spec fn bin_decoded(input: Seq<u8>, s: RangeState, k: Kind, m: ModelState) -> (RangeState, ModelState) {
    let c = saw_context(m.core, m.min);
    let b = c.h.bytes;
    let below = suffix(b, m.min);
    let c0 = saw_context(c, below);
    let row = freq(b, one_state(m.min)) - 1;
    let col = c.prev_success + bin_class(last_index(b, below) as int);
    if 0 <= row < 128 && col < 16 {
        let (s1, c1, bs) = bin_next(input, s, k, c0, m.min, m.bins[16 * row + col], 128, false);
        (s1, ModelState { core: c1, bins: m.bins.update(16 * row + col, bs), ..m })
    } else {
        (s, ModelState { core: gone_lost(c0), ..m })
    }
}

/// Decode among the states of the context that are still open.
#[verifier::opaque]
pub open spec fn open_decoded(input: Seq<u8>, s: RangeState, k: Kind, m: ModelState) -> (RangeState, ModelState) {
    let c = saw_context(m.core, m.min);
    let b = c.h.bytes;
    let last = last_index(b, m.min) as int;
    let diff = last - c.last_mask;
    if last == 255 {
        let (s1, c1, see) = symbol2_next(input, s, k, (Core { scale: 1, ..c }), m.min, m.dummy);
        (s1, ModelState { core: c1, dummy: see, ..m })
    } else if diff < 1 {
        (s, ModelState { core: gone_lost(c), ..m })
    } else {
        let below = suffix(b, m.min);
        let c0 = saw_context(c, below);
        let i = 8 * see_class(diff - 1) + (if diff < last_index(b, below) - last {
            1int
        } else {
            0
        }) + (if summ_freq(b, m.min) < 11 * num_states(b, m.min) {
            2int
        } else {
            0
        }) + (if c.last_mask + 1 > diff {
            4int
        } else {
            0
        });
        let (scale, see0) = see_mean(m.see[i]);
        let (s1, c1, see) = symbol2_next(input, s, k, (Core { scale, ..c0 }), m.min, see0);
        (s1, ModelState { core: c1, see: m.see.update(i, see), ..m })
    }
}

/// Fall to shorter contexts until a symbol is found; false if there is none left.
pub open spec fn fallen(input: Seq<u8>, s: RangeState, k: Kind, m: ModelState, fuel: nat) -> (
    bool,
    RangeState,
    ModelState,
)
    decreases fuel,
{
    if m.core.found != 0 || m.core.h.lost {
        (true, s, m)
    } else if fuel == 0 {
        (true, s, ModelState { core: gone_lost(m.core), ..m })
    } else {
        let c = saw_context(m.core, m.min);
        let below = suffix(c.h.bytes, m.min);
        let c0 = saw_context(Core { order_fall: c.order_fall.wrapping_add(1), ..c }, below);
        let m0 = ModelState { core: c0, min: below, ..m };
        if below == 0 {
            (false, s, m0)
        } else if last_index(c0.h.bytes, below) == c0.last_mask {
            fallen(input, s, k, m0, (fuel - 1) as nat)
        } else {
            let (s1, m1) = open_decoded(input, s, k, m0);
            fallen(input, s1, k, m1, (fuel - 1) as nat)
        }
    }
}

/// The model once it has moved past the state found last.
#[verifier::opaque]
pub open spec fn advanced(m: ModelState) -> ModelState {
    let c = saw_state(m.core, m.core.found);
    let succ = successor(c.h.bytes, c.found);
    if c.order_fall == 0 && flags(c.h.bytes, succ) == 0 {
        ModelState { core: saw_context(c, succ), min: succ, med: succ, ..m }
    } else {
        let m1 = learnt(ModelState { core: c, ..m });
        if m1.core.esc_count == 0 {
            ModelState { core: mask_cleared(m1.core), ..m1 }
        } else {
            m1
        }
    }
}

/// The next byte, if there is one.
#[verifier::opaque]
pub open spec fn byte_next(input: Seq<u8>, s: RangeState, k: Kind, m: ModelState) -> (
    Option<u8>,
    RangeState,
    ModelState,
) {
    if m.min == 0 {
        (None, s, m)
    } else {
        let (s0, m0) = if num_states(m.core.h.bytes, m.min) != 1 {
            let (s1, c1) = symbol1_next(input, s, k, m.core, m.min, false);
            (s1, ModelState { core: c1, ..m })
        } else {
            bin_decoded(input, s, k, m)
        };
        let (more, s2, m2) = fallen(input, s0, k, m0, m0.core.h.bytes.len());
        if !more {
            (None, s2, m2)
        } else {
            (Some(symbol(m2.core.h.bytes, m2.core.found)), s2, advanced(m2))
        }
    }
}

fn bin_class_of(i: u8) -> (r: usize)
    ensures
        r == bin_class(i as int),
        r <= 14,
{
    if i < 6 {
        2 * i as usize
    } else if i < 50 {
        12
    } else {
        14
    }
}

fn see_class_of(i: u32) -> (r: usize)
    requires
        i <= 255,
    ensures
        r == see_class(i as int),
        r < 43,
{
    if i < 4 {
        i as usize
    } else if i < 12 {
        (4 + (i - 4) / 2) as usize
    } else if i < 44 {
        (8 + (i - 12) / 4) as usize
    } else {
        (16 + (i - 44) / 8) as usize
    }
}

fn decode_bin_symbol_variant_g(coder: &mut RangeCoder<'_>, model: &mut PpmdModelVariantG)
    requires
        old(coder).wf(),
        old(model).wf(),
    ensures
        final(coder).wf(),
        final(coder).input() == old(coder).input(),
        final(coder).kind() == old(coder).kind(),
        final(model).wf(),
        (final(coder).state(), final(model).view()) == bin_decoded(
            old(coder).input(),
            old(coder).state(),
            old(coder).kind(),
            old(model).view(),
        ),
{
    reveal(bin_decoded);
    let ctx: u32 = model.min_context;
    model.core.heap.touch(ctx, 12);
    let below: u32 = ctx_suffix(&model.core.heap, ctx);
    model.core.heap.touch(below, 12);
    let f: usize = state_freq(&model.core.heap, ctx_one_state(ctx)) as usize;
    let col: usize = model.core.prev_success as usize + bin_class_of(ctx_last_state_index(&model.core.heap, below));
    if f == 0 || f > 128 || col >= 16 {
        model.core.lose();
        return;
    }
    let i: usize = 16 * (f - 1) + col;
    let mut bs: u16 = model.bin_summ[i];
    decode_bin_symbol(coder, &mut model.core, ctx, &mut bs, 128, false);
    model.bin_summ.set(i, bs);
}

fn decode_symbol2_variant_g(coder: &mut RangeCoder<'_>, model: &mut PpmdModelVariantG)
    requires
        old(coder).wf(),
        old(model).wf(),
    ensures
        final(coder).wf(),
        final(coder).input() == old(coder).input(),
        final(coder).kind() == old(coder).kind(),
        final(model).wf(),
        (final(coder).state(), final(model).view()) == open_decoded(
            old(coder).input(),
            old(coder).state(),
            old(coder).kind(),
            old(model).view(),
        ),
{
    reveal(open_decoded);
    let ctx: u32 = model.min_context;
    model.core.heap.touch(ctx, 12);
    let last: u32 = ctx_last_state_index(&model.core.heap, ctx) as u32;
    let masked: u32 = model.core.last_mask_index as u32;
    if last == 255 {
        model.core.scale = 1;
        let mut see: See2Context = model.dummy_see2_cont;
        decode_symbol2(coder, &mut model.core, ctx, &mut see);
        model.dummy_see2_cont = see;
        return;
    }
    if last <= masked {
        model.core.lose();
        return;
    }
    let diff: u32 = last - masked;
    let below: u32 = ctx_suffix(&model.core.heap, ctx);
    model.core.heap.touch(below, 12);
    let fewer: usize = if diff + last < ctx_last_state_index(&model.core.heap, below) as u32 {
        1
    } else {
        0
    };
    let num: u32 = number_of_states(&model.core.heap, ctx);
    let dense: usize = if (ctx_summ_freq(&model.core.heap, ctx) as u32) < 11 * num {
        2
    } else {
        0
    };
    let many: usize = if masked + 1 > diff {
        4
    } else {
        0
    };
    let i: usize = 8 * see_class_of(diff - 1) + fewer + dense + many;
    let mut see: See2Context = model.see2_cont[i];
    model.core.scale = see.mean_masked();
    decode_symbol2(coder, &mut model.core, ctx, &mut see);
    model.see2_cont.set(i, see);
}

/// Fall to shorter contexts until a symbol is found; false if there is none left.
fn fall(coder: &mut RangeCoder<'_>, model: &mut PpmdModelVariantG) -> (r: bool)
    requires
        old(coder).wf(),
        old(model).wf(),
    ensures
        final(coder).wf(),
        final(coder).input() == old(coder).input(),
        final(coder).kind() == old(coder).kind(),
        final(model).wf(),
        (r, final(coder).state(), final(model).view()) == fallen(
            old(coder).input(),
            old(coder).state(),
            old(coder).kind(),
            old(model).view(),
            old(model).view().core.h.bytes.len(),
        ),
{
    let mut fuel: usize = model.core.heap.arena.len();
    while model.core.found_state == 0 && !model.core.heap.lost
        invariant
            coder.wf(),
            coder.input() == old(coder).input(),
            coder.kind() == old(coder).kind(),
            model.wf(),
            fallen(coder.input(), coder.state(), coder.kind(), model.view(), fuel as nat) == fallen(
                old(coder).input(),
                old(coder).state(),
                old(coder).kind(),
                old(model).view(),
                old(model).view().core.h.bytes.len(),
            ),
        decreases fuel,
    {
        if fuel == 0 {
            model.core.lose();
            return true;
        }
        let ctx: u32 = model.min_context;
        model.core.heap.touch(ctx, 12);
        model.core.order_fall = model.core.order_fall.wrapping_add(1);
        let below: u32 = ctx_suffix(&model.core.heap, ctx);
        model.core.heap.touch(below, 12);
        model.min_context = below;
        if below == 0 {
            return false;
        }
        if ctx_last_state_index(&model.core.heap, below) != model.core.last_mask_index {
            decode_symbol2_variant_g(coder, model);
        }
        fuel = fuel - 1;
    }
    true
}

fn advance(model: &mut PpmdModelVariantG)
    requires
        old(model).wf(),
    ensures
        final(model).wf(),
        final(model).view() == advanced(old(model).view()),
{
    reveal(advanced);
    let found: u32 = model.core.found_state;
    model.core.heap.touch(found, 6);
    let succ: u32 = state_successor(&model.core.heap, found);
    if model.core.order_fall == 0 && ctx_flags(&model.core.heap, succ) == 0 {
        model.core.heap.touch(succ, 12);
        model.min_context = succ;
        model.med_context = succ;
    } else {
        update_model(model);
        if model.core.esc_count == 0 {
            clear_mask(&mut model.core);
        }
    }
}

/// Decode the next byte; -1 if there is none.
pub fn next_byte(coder: &mut RangeCoder<'_>, model: &mut PpmdModelVariantG) -> (r: i32)
    requires
        old(coder).wf(),
        old(model).wf(),
    ensures
        final(coder).wf(),
        final(coder).input() == old(coder).input(),
        final(coder).kind() == old(coder).kind(),
        final(model).wf(),
        -1 <= r <= 255,
        (
            if r < 0 {
                None
            } else {
                Some(r as u8)
            },
            final(coder).state(),
            final(model).view(),
        ) == byte_next(old(coder).input(), old(coder).state(), old(coder).kind(), old(model).view()),
{
    reveal(byte_next);
    let ctx: u32 = model.min_context;
    if ctx == 0 {
        return -1;
    }
    if number_of_states(&model.core.heap, ctx) != 1 {
        decode_symbol1(coder, &mut model.core, ctx, false);
    } else {
        decode_bin_symbol_variant_g(coder, model);
    }
    if !fall(coder, model) {
        return -1;
    }
    let byte: u8 = state_symbol(&model.core.heap, model.core.found_state);
    advance(model);
    byte as i32
}

} // verus!
