use vstd::prelude::*;
use crate::error::ErrorKind;
use crate::sitx::brimstone::{bytes_from, framed};
use crate::sitx::ppmd::context::{
    bin_learnt, bin_next, counted1, counted2, first_learnt, freq, last_index, masked_all, masked_from, nth, num_states,
    one_state, open_pick, open_states, saw_context, saw_state, see_mean, see_updated, share, signed, states, suffix,
    summ_freq, symbol, symbol1_from, symbol1_next, symbol2_next, unmasked_from, unmasked_keeps, Core, See2Context,
};
use crate::sitx::ppmd::variant_g::{
    advanced, bin_class, bin_decoded, byte_next, coder_kind, fallen, model_start, open_decoded, see_class, ModelState,
};
use crate::sitx::range_encoding::{
    after_reading, after_sending, all_fit, moving, reads, sender_start, sending_leaves_room, sent_symbols_are_read,
    written, Sent,
};
use crate::sitx::rangecoder::{count_of, freq_sum, interval_ok, narrowed, range_start, symbol_of, Kind, RangeState};

verus! {

// A writer that keeps the same model decides at each step which part of the range is
// to be taken. What it writes, the decoder reads back with the same decisions, and so
// the same bytes.

/// A part of the range: from `lo` up to `hi` of `scale`.
pub struct Part {
    pub lo: int,
    pub hi: int,
    pub scale: int,
}

/// The part as the middle one of three symbols.
pub open spec fn as_sent(p: Part) -> Sent {
    Sent { freqs: seq![p.lo as u32, (p.hi - p.lo) as u32, (p.scale - p.hi) as u32], symbol: 1 }
}

pub open spec fn all_sent(parts: Seq<Part>) -> Seq<Sent> {
    Seq::new(parts.len(), |i: int| as_sent(parts[i]))
}

/// The parts are sound, and the interval always has room for them.
pub open spec fn parts_fit(e: RangeState, k: Kind, parts: Seq<Part>) -> bool
    decreases parts.len(),
{
    parts.len() > 0 ==> {
        &&& 0 <= parts[0].lo < parts[0].hi <= parts[0].scale <= e.range
        &&& parts_fit(after_sending(e, k, as_sent(parts[0])), k, parts.drop_first())
    }
}

// === the model with given decisions ===========================================

/// Which part is taken in a context with a single state, and the model after it; `bit`
/// is 0 if the state comes.
pub open spec fn bin_given(m: ModelState, bit: u32) -> (Part, ModelState) {
    let c = saw_context(m.core, m.min);
    let below = suffix(c.h.bytes, m.min);
    let c0 = saw_context(c, below);
    let row = freq(c.h.bytes, one_state(m.min)) - 1;
    let col = c.prev_success + bin_class(last_index(c.h.bytes, below) as int);
    let bs = m.bins[16 * row + col];
    let (c1, bs1) = bin_learnt(saw_context(c0, m.min), one_state(m.min), bs, bit, 128);
    (
        if bit == 0 {
            Part { lo: 0, hi: bs as int, scale: 0x4000 }
        } else {
            Part { lo: bs as int, hi: 0x4000, scale: 0x4000 }
        },
        ModelState { core: c1, bins: m.bins.update(16 * row + col, bs1), ..m },
    )
}

/// The context has a probability of its own.
pub open spec fn bin_known(m: ModelState) -> bool {
    let c = saw_context(m.core, m.min);
    let row = freq(c.h.bytes, one_state(m.min)) - 1;
    let col = c.prev_success + bin_class(last_index(c.h.bytes, suffix(c.h.bytes, m.min)) as int);
    0 <= row < 128 && col < 16
}

/// The part that holds `count` among the states from number `i` on, and the core after
/// it; there is none for an escape where no state was found before.
pub open spec fn pick1_from(c: Core, ctx: u32, base: u32, count: int, i: int, last: int, high: int) -> (
    Option<(int, int)>,
    Core,
)
    decreases last + 1 - i,
{
    if i > last {
        if c.found == 0 {
            (None, c)
        } else {
            (
                Some((high, c.scale as int)),
                masked_from(Core { last_mask: last as u8, found: 0, ..c }, base, 0, last),
            )
        }
    } else {
        let c0 = saw_state(c, nth(base, i));
        let f = freq(c0.h.bytes, nth(base, i)) as int;
        if high + f > count {
            (Some((high, high + f)), counted1(c0, ctx, nth(base, i)))
        } else {
            pick1_from(c0, ctx, base, count, i + 1, last, high + f)
        }
    }
}

/// The part that holds `count` among the states of a context, and the core after it.
pub open spec fn symbol1_given(c: Core, ctx: u32, count: int) -> (Option<Part>, Core) {
    let c0 = saw_context(c, ctx);
    let c1 = Core { scale: summ_freq(c0.h.bytes, ctx) as u32, ..c0 };
    let base = states(c1.h.bytes, ctx);
    let c2 = saw_state(c1, base);
    let first = freq(c2.h.bytes, base);
    if count < first {
        (Some(Part { lo: 0, hi: first as int, scale: c2.scale as int }), first_learnt(c2, ctx, base, first, false))
    } else {
        let (p, c3) = pick1_from(
            Core { prev_success: 0, ..c2 },
            ctx,
            base,
            count,
            1,
            last_index(c2.h.bytes, ctx) as int,
            first as int,
        );
        (
            match p {
                None => None,
                Some((lo, hi)) => Some(Part { lo, hi, scale: c2.scale as int }),
            },
            c3,
        )
    }
}

/// The part that holds `count` among the states that are still open, and what comes
/// after it.
pub open spec fn symbol2_given(c: Core, ctx: u32, see: See2Context, count: int) -> (Part, Core, See2Context) {
    let c0 = saw_context(c, ctx);
    let last = last_index(c0.h.bytes, ctx);
    let (ps, total, c1) = open_states(
        c0,
        states(c0.h.bytes, ctx),
        (last - c0.last_mask) as nat,
        seq![],
        0,
    );
    let c2 = Core { scale: (c1.scale + total) as u32, ..c1 };
    if count < total {
        let (i, high) = open_pick(c2.h.bytes, ps, count, 0, freq(c2.h.bytes, ps[0]) as int);
        (
            Part { lo: high - freq(c2.h.bytes, ps[i]), hi: high, scale: c2.scale as int },
            counted2(c2, ctx, ps[i]),
            see_updated(see),
        )
    } else {
        (
            Part { lo: total, hi: c2.scale as int, scale: c2.scale as int },
            masked_all(Core { last_mask: last, ..c2 }, ps, 0),
            See2Context { summ: see.summ.wrapping_add((c2.scale % 0x1_0000) as u16), ..see },
        )
    }
}

/// Some states of the context are still open.
pub open spec fn open_known(m: ModelState) -> bool {
    let c = saw_context(m.core, m.min);
    last_index(c.h.bytes, m.min) > c.last_mask
}

pub open spec fn open_given(m: ModelState, count: int) -> (Part, ModelState) {
    let c = saw_context(m.core, m.min);
    let b = c.h.bytes;
    let last = last_index(b, m.min) as int;
    let diff = last - c.last_mask;
    if last == 255 {
        let (p, c1, see) = symbol2_given(Core { scale: 1, ..c }, m.min, m.dummy, count);
        (p, ModelState { core: c1, dummy: see, ..m })
    } else {
        let below = suffix(b, m.min);
        let c0 = saw_context(c, below);
        let i = 8 * see_class(diff - 1) + (if diff < last_index(b, below) - last {
            1int
        } else {
            0
        }) + (if summ_freq(b, m.min) < 11 * num_states(b, m.min) {
            2int
        } else {
            0
        }) + (if c.last_mask + 1 > diff {
            4int
        } else {
            0
        });
        let (scale, see0) = see_mean(m.see[i]);
        let (p, c1, see) = symbol2_given(Core { scale, ..c0 }, m.min, see0, count);
        (p, ModelState { core: c1, see: m.see.update(i, see), ..m })
    }
}

/// Fall to shorter contexts until a symbol is found, with the given counts; whether one
/// is found, the parts that are taken, and the model after it. `None` if the counts do
/// not suffice.
pub open spec fn fallen_given(m: ModelState, fuel: nat, counts: Seq<int>) -> Option<(bool, Seq<Part>, ModelState)>
    decreases fuel,
{
    if m.core.found != 0 {
        Some((true, seq![], m))
    } else if fuel == 0 || m.core.h.lost {
        None
    } else {
        let c = saw_context(m.core, m.min);
        let below = suffix(c.h.bytes, m.min);
        let c0 = saw_context(Core { order_fall: c.order_fall.wrapping_add(1), ..c }, below);
        let m0 = ModelState { core: c0, min: below, ..m };
        if below == 0 {
            Some((false, seq![], m0))
        } else if last_index(c0.h.bytes, below) == c0.last_mask {
            fallen_given(m0, (fuel - 1) as nat, counts)
        } else if counts.len() == 0 || !open_known(m0) {
            None
        } else {
            let (p, m1) = open_given(m0, counts[0]);
            match fallen_given(m1, (fuel - 1) as nat, counts.drop_first()) {
                None => None,
                Some((more, parts, m2)) => Some((more, seq![p] + parts, m2)),
            }
        }
    }
}

/// The byte that the given counts lead to, the parts that are taken, and the model
/// after it; `None` if they lead to none.
pub open spec fn byte_given(m: ModelState, counts: Seq<int>) -> Option<(u8, Seq<Part>, ModelState)> {
    if m.min == 0 || counts.len() == 0 {
        None
    } else {
        let one = num_states(m.core.h.bytes, m.min) == 1;
        let (first, m0) = if one {
            let (p, m1) = bin_given(
                m,
                if counts[0] == 0 {
                    0
                } else {
                    1
                },
            );
            (Some(p), m1)
        } else {
            let (p, c1) = symbol1_given(m.core, m.min, counts[0]);
            (p, ModelState { core: c1, ..m })
        };
        if (one && !bin_known(m)) || m0.core.h.lost || first is None {
            None
        } else {
            match fallen_given(m0, m0.core.h.bytes.len(), counts.drop_first()) {
                Some((true, parts, m2)) => if m2.core.h.lost {
                    None
                } else {
                    Some(
                        (
                            symbol(m2.core.h.bytes, m2.core.found),
                            seq![first->Some_0] + parts,
                            advanced(m2),
                        ),
                    )
                },
                _ => None,
            }
        }
    }
}

/// The bytes that the counts lead to one after another, and the parts that are taken;
/// `None` if they lead to none or the model is lost.
pub open spec fn bytes_given(m: ModelState, all: Seq<Seq<int>>) -> Option<(Seq<u8>, Seq<Part>)>
    decreases all.len(),
{
    if m.core.h.lost {
        None
    } else if all.len() == 0 {
        Some((seq![], seq![]))
    } else {
        match byte_given(m, all[0]) {
            None => None,
            Some((b, parts, m1)) => match bytes_given(m1, all.drop_first()) {
                None => None,
                Some((bytes, more)) => Some((seq![b] + bytes, parts + more)),
            },
        }
    }
}

// === parts that are read ======================================================

/// The decoder lands in the parts one after another.
spec fn lands(input: Seq<u8>, s: RangeState, k: Kind, parts: Seq<Part>) -> bool
    decreases parts.len(),
{
    parts.len() > 0 ==> {
        let p = parts[0];
        &&& 0 <= p.lo < p.hi <= p.scale <= s.range
        &&& p.lo <= count_of(s, p.scale) < p.hi
        &&& lands(input, narrowed(input, s, k, p.lo, p.hi, p.scale), k, parts.drop_first())
    }
}

/// The decoder after the parts.
spec fn landed(input: Seq<u8>, s: RangeState, k: Kind, parts: Seq<Part>) -> RangeState
    decreases parts.len(),
{
    if parts.len() == 0 {
        s
    } else {
        landed(
            input,
            narrowed(input, s, k, parts[0].lo, parts[0].hi, parts[0].scale),
            k,
            parts.drop_first(),
        )
    }
}

proof fn landing_in_two(input: Seq<u8>, s: RangeState, k: Kind, a: Seq<Part>, b: Seq<Part>)
    ensures
        lands(input, s, k, a + b) == (lands(input, s, k, a) && lands(input, landed(input, s, k, a), k, b)),
        landed(input, s, k, a + b) == landed(input, landed(input, s, k, a), k, b),
    decreases a.len(),
{
    if a.len() == 0 {
        assert(a + b =~= b);
    } else {
        assert((a + b).drop_first() =~= a.drop_first() + b);
        landing_in_two(
            input,
            narrowed(input, s, k, a[0].lo, a[0].hi, a[0].scale),
            k,
            a.drop_first(),
            b,
        );
    }
}

proof fn part_sums(p: Part)
    requires
        0 <= p.lo < p.hi <= p.scale <= u32::MAX,
    ensures
        as_sent(p).lo() == p.lo,
        as_sent(p).hi() == p.hi,
        as_sent(p).total() == p.scale,
        as_sent(p).freqs.len() == 3,
        as_sent(p).freqs[1] > 0,
{
    let f = as_sent(p).freqs;
    assert(freq_sum(f, 0) == 0);
    assert(freq_sum(f, 1) == p.lo);
    assert(freq_sum(f, 2) == p.hi);
    assert(freq_sum(f, 3) == p.scale);
}

proof fn fitting_parts_fit(e: RangeState, k: Kind, parts: Seq<Part>)
    requires
        parts_fit(e, k, parts),
    ensures
        all_fit(e, k, all_sent(parts)),
    decreases parts.len(),
{
    if parts.len() > 0 {
        part_sums(parts[0]);
        assert(all_sent(parts).drop_first() =~= all_sent(parts.drop_first()));
        fitting_parts_fit(after_sending(e, k, as_sent(parts[0])), k, parts.drop_first());
    }
}

/// Parts of a range of no more than the narrowest interval fit, as long as none is
/// empty.
pub proof fn modest_parts_fit(e: RangeState, parts: Seq<Part>)
    requires
        interval_ok(e),
        e.range >= 0x1_0000,
        forall|i: int|
            0 <= i < parts.len() ==> 0 <= (#[trigger] parts[i]).lo < parts[i].hi <= parts[i].scale <= 0x1_0000,
    ensures
        parts_fit(e, coder_kind(true), parts),
    decreases parts.len(),
{
    if parts.len() > 0 {
        let p = parts[0];
        let rest = parts.drop_first();
        assert(0 <= p.lo < p.hi <= p.scale <= 0x1_0000);
        part_sums(p);
        assert(coder_kind(true) == moving(0x1_0000));
        sending_leaves_room(e, 0x1_0000, as_sent(p));
        assert forall|i: int| 0 <= i < rest.len() implies 0 <= (#[trigger] rest[i]).lo < rest[i].hi <= rest[i].scale
            <= 0x1_0000 by {
            assert(rest[i] == parts[i + 1]);
        }
        modest_parts_fit(after_sending(e, coder_kind(true), as_sent(p)), rest);
    }
}

spec fn parts_sound(parts: Seq<Part>) -> bool {
    forall|i: int|
        0 <= i < parts.len() ==> 0 <= (#[trigger] parts[i]).lo < parts[i].hi <= parts[i].scale <= u32::MAX
}

proof fn fitting_parts_are_sound(e: RangeState, k: Kind, parts: Seq<Part>)
    requires
        parts_fit(e, k, parts),
    ensures
        parts_sound(parts),
    decreases parts.len(),
{
    if parts.len() > 0 {
        fitting_parts_are_sound(after_sending(e, k, as_sent(parts[0])), k, parts.drop_first());
        assert forall|i: int| 0 <= i < parts.len() implies 0 <= (#[trigger] parts[i]).lo < parts[i].hi
            <= parts[i].scale <= u32::MAX by {
            if i > 0 {
                assert(parts[i] == parts.drop_first()[i - 1]);
            }
        }
    }
}

proof fn read_parts_are_landed_in(input: Seq<u8>, s: RangeState, k: Kind, parts: Seq<Part>)
    requires
        parts_sound(parts),
        reads(input, s, k, all_sent(parts)),
    ensures
        lands(input, s, k, parts),
        landed(input, s, k, parts) == after_reading(input, s, k, all_sent(parts)),
    decreases parts.len(),
{
    if parts.len() > 0 {
        let p = parts[0];
        part_sums(p);
        let f = as_sent(p).freqs;
        let ms = all_sent(parts);
        assert(ms[0] == as_sent(p));
        assert(ms.drop_first() =~= all_sent(parts.drop_first()));
        assert(freq_sum(f, 1) == p.lo);
        assert(freq_sum(f, 2) == p.hi);
        let count = count_of(s, p.scale);
        assert(symbol_of(f, count, 0) == 1);
        if p.lo > count {
            assert(symbol_of(f, count, 0) == 0);
        }
        if p.hi <= count {
            assert(symbol_of(f, count, 1) == symbol_of(f, count, 2));
            assert(symbol_of(f, count, 2) == 2);
        }
        assert forall|i: int| 0 <= i < parts.drop_first().len() implies 0 <= (#[trigger] parts.drop_first()[i]).lo
            < parts.drop_first()[i].hi <= parts.drop_first()[i].scale <= u32::MAX by {
            assert(parts.drop_first()[i] == parts[i + 1]);
        }
        read_parts_are_landed_in(
            input,
            narrowed(input, s, k, p.lo, p.hi, p.scale),
            k,
            parts.drop_first(),
        );
    }
}

// === the decoder decides the same =============================================

proof fn bin_is_read(input: Seq<u8>, s: RangeState, k: Kind, m: ModelState, bit: u32)
    requires
        bin_known(m),
        bit <= 1,
        lands(input, s, k, seq![bin_given(m, bit).0]),
    ensures
        bin_decoded(input, s, k, m) == (landed(input, s, k, seq![bin_given(m, bit).0]), bin_given(m, bit).1),
{
    reveal(bin_decoded);
    reveal(bin_next);
    let p = bin_given(m, bit).0;
    let one = seq![p];
    assert(one.drop_first() =~= seq![]);
    assert(landed(input, s, k, one) == landed(
        input,
        narrowed(input, s, k, p.lo, p.hi, p.scale),
        k,
        one.drop_first(),
    ));
}

proof fn pick1_rises(c: Core, ctx: u32, base: u32, count: int, i: int, last: int, high: int)
    ensures
        pick1_from(c, ctx, base, count, i, last, high).0 matches Some((lo, hi)) ==> high <= lo,
    decreases last + 1 - i,
{
    if i <= last {
        let c0 = saw_state(c, nth(base, i));
        let f = freq(c0.h.bytes, nth(base, i)) as int;
        if high + f <= count {
            pick1_rises(c0, ctx, base, count, i + 1, last, high + f);
        }
    }
}

proof fn pick1_is_read(
    input: Seq<u8>,
    s: RangeState,
    k: Kind,
    c: Core,
    ctx: u32,
    base: u32,
    given: int,
    count: int,
    i: int,
    last: int,
    high: int,
)
    requires
        pick1_from(c, ctx, base, given, i, last, high).0 matches Some((lo, hi)) && 0 <= lo < hi <= c.scale <= s.range
            && lo <= count < hi,
    ensures
        ({
            let (p, c1) = pick1_from(c, ctx, base, given, i, last, high);
            symbol1_from(input, s, k, c, ctx, base, count, i, last, high) == (
                narrowed(input, s, k, p->Some_0.0, p->Some_0.1, c.scale as int),
                c1,
            )
        }),
    decreases last + 1 - i,
{
    reveal(share);
    if i <= last {
        let c0 = saw_state(c, nth(base, i));
        let f = freq(c0.h.bytes, nth(base, i)) as int;
        if high + f <= given {
            pick1_rises(c0, ctx, base, given, i + 1, last, high + f);
            pick1_is_read(input, s, k, c0, ctx, base, given, count, i + 1, last, high + f);
        }
    }
}

proof fn symbol1_is_read(input: Seq<u8>, s: RangeState, k: Kind, c: Core, ctx: u32, given: int)
    requires
        symbol1_given(c, ctx, given).0 matches Some(p) && lands(input, s, k, seq![p]),
    ensures
        symbol1_next(input, s, k, c, ctx, false) == (
            landed(input, s, k, seq![symbol1_given(c, ctx, given).0->Some_0]),
            symbol1_given(c, ctx, given).1,
        ),
{
    reveal(symbol1_next);
    reveal(share);
    let p = symbol1_given(c, ctx, given).0->Some_0;
    one_part(input, s, k, p);
    let c0 = saw_context(c, ctx);
    let c1 = Core { scale: summ_freq(c0.h.bytes, ctx) as u32, ..c0 };
    let base = states(c1.h.bytes, ctx);
    let c2 = saw_state(c1, base);
    let first = freq(c2.h.bytes, base);
    let last = last_index(c2.h.bytes, ctx) as int;
    let count = count_of(s, c2.scale as int);
    assert(signed(count) == count);
    if given >= first {
        let c3 = Core { prev_success: 0, ..c2 };
        pick1_rises(c3, ctx, base, given, 1, last, first as int);
        pick1_is_read(input, s, k, c3, ctx, base, given, count, 1, last, first as int);
    }
}

proof fn one_part(input: Seq<u8>, s: RangeState, k: Kind, p: Part)
    ensures
        lands(input, s, k, seq![p]) == (0 <= p.lo < p.hi <= p.scale <= s.range && p.lo <= count_of(s, p.scale) < p.hi),
        landed(input, s, k, seq![p]) == narrowed(input, s, k, p.lo, p.hi, p.scale),
{
    let one = seq![p];
    assert(one.drop_first() =~= seq![]);
    assert(landed(input, s, k, one) == landed(
        input,
        narrowed(input, s, k, p.lo, p.hi, p.scale),
        k,
        one.drop_first(),
    ));
    assert(lands(input, narrowed(input, s, k, p.lo, p.hi, p.scale), k, one.drop_first()));
}

/// The frequencies of the first `n` of the states in `ps` together.
spec fn open_sum(b: Seq<u8>, ps: Seq<u32>, n: int) -> int
    decreases n,
{
    if n <= 0 {
        0
    } else {
        open_sum(b, ps, n - 1) + freq(b, ps[n - 1])
    }
}

proof fn open_sum_push(b: Seq<u8>, ps: Seq<u32>, x: u32, n: int)
    requires
        n <= ps.len(),
    ensures
        open_sum(b, ps.push(x), n) == open_sum(b, ps, n),
    decreases n,
{
    if n > 0 {
        open_sum_push(b, ps, x, n - 1);
    }
}

proof fn open_sums_rise(b: Seq<u8>, ps: Seq<u32>, i: int, n: int)
    requires
        0 <= i <= n,
    ensures
        0 <= open_sum(b, ps, i) <= open_sum(b, ps, n) <= 255 * n,
    decreases n,
{
    if n > 0 {
        if i < n {
            open_sums_rise(b, ps, i, n - 1);
        } else {
            open_sums_rise(b, ps, i - 1, n - 1);
        }
    }
}

/// The total of the open states is the sum of their frequencies.
proof fn open_total(c: Core, st: u32, n: nat, found: Seq<u32>, total: int)
    requires
        total == open_sum(c.h.bytes, found, found.len() as int),
    ensures
        ({
            let (ps, t, c1) = open_states(c, st, n, found, total);
            &&& ps.len() == found.len() + n
            &&& t == open_sum(c.h.bytes, ps, ps.len() as int)
            &&& c1.h.bytes == c.h.bytes
            &&& c1.scale == c.scale
        }),
    decreases n,
{
    if n > 0 {
        unmasked_keeps(c, st);
        let (x, c0) = unmasked_from(c, st);
        let more = found.push(x);
        open_sum_push(c.h.bytes, found, x, found.len() as int);
        open_total(c0, nth(x, 1), (n - 1) as nat, more, total + freq(c0.h.bytes, x));
    }
}

proof fn pick2_rises(b: Seq<u8>, ps: Seq<u32>, given: int, i: int, high: int)
    requires
        0 <= i < ps.len(),
        high == open_sum(b, ps, i + 1),
    ensures
        ({
            let (j, h) = open_pick(b, ps, given, i, high);
            &&& i <= j < ps.len()
            &&& h == open_sum(b, ps, j + 1)
            &&& j > i ==> h - freq(b, ps[j]) >= high
        }),
    decreases ps.len() - i,
{
    if high <= given && i + 1 < ps.len() {
        pick2_rises(b, ps, given, i + 1, high + freq(b, ps[i + 1]));
    }
}

proof fn pick2_is_same(b: Seq<u8>, ps: Seq<u32>, given: int, count: int, i: int, high: int)
    requires
        0 <= i < ps.len(),
        high == open_sum(b, ps, i + 1),
        ({
            let (j, h) = open_pick(b, ps, given, i, high);
            h - freq(b, ps[j]) <= count < h
        }),
    ensures
        open_pick(b, ps, count, i, high) == open_pick(b, ps, given, i, high),
    decreases ps.len() - i,
{
    pick2_rises(b, ps, given, i, high);
    if high <= given && i + 1 < ps.len() {
        pick2_rises(b, ps, given, i + 1, high + freq(b, ps[i + 1]));
        pick2_is_same(b, ps, given, count, i + 1, high + freq(b, ps[i + 1]));
    }
}

proof fn symbol2_is_read(
    input: Seq<u8>,
    s: RangeState,
    k: Kind,
    c: Core,
    ctx: u32,
    see: See2Context,
    given: int,
)
    requires
        last_index(saw_context(c, ctx).h.bytes, ctx) > c.last_mask,
        c.scale <= 0x400,
        lands(input, s, k, seq![symbol2_given(c, ctx, see, given).0]),
    ensures
        symbol2_next(input, s, k, c, ctx, see) == (
            landed(input, s, k, seq![symbol2_given(c, ctx, see, given).0]),
            symbol2_given(c, ctx, see, given).1,
            symbol2_given(c, ctx, see, given).2,
        ),
{
    reveal(symbol2_next);
    reveal(share);
    let p = symbol2_given(c, ctx, see, given).0;
    one_part(input, s, k, p);
    let c0 = saw_context(c, ctx);
    let last = last_index(c0.h.bytes, ctx);
    let n = (last - c0.last_mask) as nat;
    let st = states(c0.h.bytes, ctx);
    let (ps, total, c1) = open_states(c0, st, n, seq![], 0);
    open_total(c0, st, n, seq![], 0);
    let b = c1.h.bytes;
    open_sums_rise(b, ps, 0, ps.len() as int);
    assert(open_sum(b, ps, 1) == freq(b, ps[0])) by {
        assert(open_sum(b, ps, 0) == 0);
    }
    let c2 = Core { scale: (c1.scale + total) as u32, ..c1 };
    assert(c2.scale == c1.scale + total);
    let count = count_of(s, c2.scale as int);
    assert(signed(count) == count);
    if given < total {
        let (i, high) = open_pick(b, ps, given, 0, freq(b, ps[0]) as int);
        pick2_rises(b, ps, given, 0, freq(b, ps[0]) as int);
        open_sums_rise(b, ps, i + 1, ps.len() as int);
        pick2_is_same(b, ps, given, count, 0, freq(b, ps[0]) as int);
    }
}

proof fn open_is_read(input: Seq<u8>, s: RangeState, k: Kind, m: ModelState, given: int)
    requires
        open_known(m),
        lands(input, s, k, seq![open_given(m, given).0]),
    ensures
        open_decoded(input, s, k, m) == (landed(input, s, k, seq![open_given(m, given).0]), open_given(m, given).1),
{
    reveal(open_decoded);
    let c = saw_context(m.core, m.min);
    let b = c.h.bytes;
    let last = last_index(b, m.min) as int;
    let diff = last - c.last_mask;
    if last == 255 {
        symbol2_is_read(input, s, k, (Core { scale: 1, ..c }), m.min, m.dummy, given);
    } else {
        let below = suffix(b, m.min);
        let c0 = saw_context(c, below);
        let i = 8 * see_class(diff - 1) + (if diff < last_index(b, below) - last {
            1int
        } else {
            0
        }) + (if summ_freq(b, m.min) < 11 * num_states(b, m.min) {
            2int
        } else {
            0
        }) + (if c.last_mask + 1 > diff {
            4int
        } else {
            0
        });
        let (scale, see0) = see_mean(m.see[i]);
        symbol2_is_read(input, s, k, (Core { scale, ..c0 }), m.min, see0, given);
    }
}

proof fn fall_is_read(input: Seq<u8>, s: RangeState, k: Kind, m: ModelState, fuel: nat, counts: Seq<int>)
    requires
        fallen_given(m, fuel, counts) matches Some((more, parts, m2)) && lands(input, s, k, parts),
    ensures
        ({
            let (more, parts, m2) = fallen_given(m, fuel, counts)->Some_0;
            fallen(input, s, k, m, fuel) == (more, landed(input, s, k, parts), m2)
        }),
    decreases fuel,
{
    if m.core.found == 0 {
        let c = saw_context(m.core, m.min);
        let below = suffix(c.h.bytes, m.min);
        let c0 = saw_context(Core { order_fall: c.order_fall.wrapping_add(1), ..c }, below);
        let m0 = ModelState { core: c0, min: below, ..m };
        if below != 0 {
            if last_index(c0.h.bytes, below) == c0.last_mask {
                fall_is_read(input, s, k, m0, (fuel - 1) as nat, counts);
            } else {
                let (p, m1) = open_given(m0, counts[0]);
                let parts = fallen_given(m1, (fuel - 1) as nat, counts.drop_first())->Some_0.1;
                landing_in_two(input, s, k, seq![p], parts);
                open_is_read(input, s, k, m0, counts[0]);
                fall_is_read(
                    input,
                    landed(input, s, k, seq![p]),
                    k,
                    m1,
                    (fuel - 1) as nat,
                    counts.drop_first(),
                );
            }
        }
    }
}

proof fn byte_is_read(input: Seq<u8>, s: RangeState, k: Kind, m: ModelState, counts: Seq<int>)
    requires
        byte_given(m, counts) matches Some((b, parts, m1)) && lands(input, s, k, parts),
    ensures
        ({
            let (b, parts, m1) = byte_given(m, counts)->Some_0;
            byte_next(input, s, k, m) == (Some(b), landed(input, s, k, parts), m1)
        }),
{
    reveal(byte_next);
    let one = num_states(m.core.h.bytes, m.min) == 1;
    let bit = if counts[0] == 0 {
        0u32
    } else {
        1u32
    };
    let (first, m0) = if one {
        let (p, m1) = bin_given(m, bit);
        (p, m1)
    } else {
        let (p, c1) = symbol1_given(m.core, m.min, counts[0]);
        (p->Some_0, ModelState { core: c1, ..m })
    };
    let rest = fallen_given(m0, m0.core.h.bytes.len(), counts.drop_first())->Some_0.1;
    landing_in_two(input, s, k, seq![first], rest);
    if one {
        bin_is_read(input, s, k, m, bit);
    } else {
        symbol1_is_read(input, s, k, m.core, m.min, counts[0]);
    }
    fall_is_read(
        input,
        landed(input, s, k, seq![first]),
        k,
        m0,
        m0.core.h.bytes.len(),
        counts.drop_first(),
    );
}

proof fn bytes_are_read(input: Seq<u8>, s: RangeState, m: ModelState, all: Seq<Seq<int>>, found: Seq<u8>)
    requires
        bytes_given(m, all) matches Some((bytes, parts)) && lands(input, s, coder_kind(true), parts),
    ensures
        ({
            let (bytes, parts) = bytes_given(m, all)->Some_0;
            bytes_from(input, s, m, (found + bytes).len(), found) == Ok::<(Seq<u8>, nat), ErrorKind>(
                (found + bytes, landed(input, s, coder_kind(true), parts).pos as nat),
            )
        }),
    decreases all.len(),
{
    let k = coder_kind(true);
    let (bytes, parts) = bytes_given(m, all)->Some_0;
    if all.len() == 0 {
        assert(found + bytes =~= found);
    } else {
        let (b, now, m1) = byte_given(m, all[0])->Some_0;
        let (rest, more) = bytes_given(m1, all.drop_first())->Some_0;
        landing_in_two(input, s, k, now, more);
        byte_is_read(input, s, k, m, all[0]);
        bytes_are_read(input, landed(input, s, k, now), m1, all.drop_first(), found.push(b));
        assert(found.push(b) + rest =~= found + bytes);
    }
}

/// Where a writer with the same model takes some parts of the range for its bytes, and
/// the interval always has room for them, what it writes is read back as those bytes,
/// and nothing is taken of what stands behind.
pub proof fn written_bytes_are_read_back(all: Seq<Seq<int>>, order: u32, alloc_size: usize, rest: Seq<u8>)
    requires
        0 < order <= 0x7fff_ffff,
        alloc_size < 0xffff_ff00,
        bytes_given(model_start(alloc_size as u32, order as i32, true), all) matches Some((bytes, parts)) && parts_fit(
            sender_start(),
            coder_kind(true),
            parts,
        ) && written(sender_start(), coder_kind(true), all_sent(parts)).len() < u64::MAX,
    ensures
        ({
            let (bytes, parts) = bytes_given(model_start(alloc_size as u32, order as i32, true), all)->Some_0;
            let out = written(sender_start(), coder_kind(true), all_sent(parts));
            framed(out + rest, bytes.len(), order, alloc_size) == Ok::<(Seq<u8>, nat), ErrorKind>((bytes, out.len()))
        }),
{
    let k = coder_kind(true);
    let m = model_start(alloc_size as u32, order as i32, true);
    let (bytes, parts) = bytes_given(m, all)->Some_0;
    let input = written(sender_start(), k, all_sent(parts)) + rest;
    assert(k == moving(0x1_0000));
    fitting_parts_fit(sender_start(), k, parts);
    fitting_parts_are_sound(sender_start(), k, parts);
    sent_symbols_are_read(0x1_0000, all_sent(parts), rest);
    read_parts_are_landed_in(input, range_start(input), k, parts);
    bytes_are_read(input, range_start(input), m, all, seq![]);
    assert(Seq::<u8>::empty() + bytes =~= bytes);
    assert(alloc_size as int % 0x1_0000_0000 == alloc_size as int);
}

} // verus!
