use vstd::prelude::*;
use crate::sitx::rangecoder::{
    bit_next, count_of, cut, cut_step, freq_sum, input_byte, interval_ok, kind_ok, narrowed, normalized, range_start,
    shift_is_product, shift_step, shifted, steps_left, symbol_next, symbol_of, top_differs, weighted2_next, weighted_next, Kind, RangeState,
};

verus! {

// What a range encoder writes, the range decoder reads. The encoder keeps the same
// interval as the decoder and writes the bytes that are shifted out of its lower end;
// in its states `code` and `pos` have no meaning.

/// A symbol and the frequencies under which it is sent.
pub struct Sent {
    pub freqs: Seq<u32>,
    pub symbol: int,
}

impl Sent {
    pub open spec fn total(self) -> int {
        freq_sum(self.freqs, self.freqs.len() as int)
    }

    pub open spec fn lo(self) -> int {
        freq_sum(self.freqs, self.symbol)
    }

    pub open spec fn hi(self) -> int {
        freq_sum(self.freqs, self.symbol + 1)
    }

    /// The symbol can come, and an interval of width `range` has room for all.
    pub open spec fn fits(self, range: u32) -> bool {
        &&& 0 <= self.symbol < self.freqs.len()
        &&& self.freqs[self.symbol] > 0
        &&& self.total() <= range
    }
}

/// The form of the encoder: its lower end moves.
pub open spec fn moving(bottom: u32) -> Kind {
    Kind { uselow: true, bottom }
}

pub open spec fn top_byte(low: u32) -> u8 {
    (low / 0x100_0000) as u8
}

/// The bytes that are shifted out until the interval is wide enough.
pub open spec fn shifted_out(s: RangeState, k: Kind, steps: nat) -> Seq<u8>
    decreases steps,
{
    if steps == 0 {
        seq![]
    } else if !top_differs(s) {
        seq![top_byte(s.low)] + shifted_out(shifted(seq![], s), k, (steps - 1) as nat)
    } else if s.range >= k.bottom {
        seq![]
    } else {
        seq![top_byte(s.low)] + shifted_out(shifted(seq![], cut(s, k.bottom)), k, (steps - 1) as nat)
    }
}

/// The interval of a symbol.
pub open spec fn interval_for(s: RangeState, m: Sent) -> RangeState {
    let unit = s.range as int / m.total();
    RangeState { low: (s.low + unit * m.lo()) as u32, range: (unit * (m.hi() - m.lo())) as u32, ..s }
}

/// The encoder after a symbol.
pub open spec fn after_sending(s: RangeState, k: Kind, m: Sent) -> RangeState {
    normalized(seq![], interval_for(s, m), k, 8)
}

/// The symbols can all be sent.
pub open spec fn all_fit(s: RangeState, k: Kind, ms: Seq<Sent>) -> bool
    decreases ms.len(),
{
    ms.len() > 0 ==> ms[0].fits(s.range) && all_fit(after_sending(s, k, ms[0]), k, ms.drop_first())
}

/// The four bytes of a number.
pub open spec fn four_bytes(v: u32) -> Seq<u8> {
    seq![
        (v / 0x100_0000) as u8,
        ((v / 0x1_0000) % 0x100) as u8,
        ((v / 0x100) % 0x100) as u8,
        (v % 0x100) as u8,
    ]
}

/// What the encoder writes for the symbols: the bytes shifted out, and at the end the
/// lower end of the interval.
pub open spec fn written(s: RangeState, k: Kind, ms: Seq<Sent>) -> Seq<u8>
    decreases ms.len(),
{
    if ms.len() == 0 {
        four_bytes(s.low)
    } else {
        shifted_out(interval_for(s, ms[0]), k, 8) + written(after_sending(s, k, ms[0]), k, ms.drop_first())
    }
}

/// The encoder before the first symbol.
pub open spec fn sender_start() -> RangeState {
    RangeState { pos: 0, low: 0, code: 0, range: 0xffff_ffff }
}

/// The decoder reads the symbols one after another, each under its frequencies.
pub open spec fn reads(input: Seq<u8>, s: RangeState, k: Kind, ms: Seq<Sent>) -> bool
    decreases ms.len(),
{
    ms.len() > 0 ==> match symbol_next(input, s, k, ms[0].freqs) {
        None => false,
        Some((n, s1)) => n == ms[0].symbol && reads(input, s1, k, ms.drop_first()),
    }
}

/// The decoder after the symbols.
pub open spec fn after_reading(input: Seq<u8>, s: RangeState, k: Kind, ms: Seq<Sent>) -> RangeState
    decreases ms.len(),
{
    if ms.len() == 0 {
        s
    } else {
        after_reading(input, symbol_next(input, s, k, ms[0].freqs)->Some_0.1, k, ms.drop_first())
    }
}

// === words ====================================================================

/// Byte `i`, zero past the end.
spec fn byte_at(x: Seq<u8>, i: int) -> int {
    if 0 <= i < x.len() {
        x[i] as int
    } else {
        0
    }
}

/// The first four bytes as a number.
spec fn word(x: Seq<u8>) -> int {
    0x100_0000 * byte_at(x, 0) + 0x1_0000 * byte_at(x, 1) + 0x100 * byte_at(x, 2) + byte_at(x, 3)
}

proof fn split_in_four(v: u32)
    by (bit_vector)
    ensures
        v == 0x100_0000u32 * (v / 0x100_0000u32) + 0x1_0000u32 * ((v / 0x1_0000u32) % 0x100u32) + 0x100u32 * ((v
            / 0x100u32) % 0x100u32) + v % 0x100u32,
        v / 0x100_0000u32 < 0x100u32,
{
}

proof fn word_of_four_bytes(v: u32)
    ensures
        word(four_bytes(v)) == v,
{
    split_in_four(v);
    let x = four_bytes(v);
    assert(byte_at(x, 0) == v / 0x100_0000);
    assert(byte_at(x, 1) == (v / 0x1_0000) % 0x100);
    assert(byte_at(x, 2) == (v / 0x100) % 0x100);
    assert(byte_at(x, 3) == v % 0x100);
}

proof fn word_behind(b: u8, x: Seq<u8>)
    requires
        x.len() >= 4,
    ensures
        word(seq![b] + x) == 0x100_0000 * b + word(x) / 0x100,
        0 <= word(x) < 0x1_0000_0000,
{
    let y = seq![b] + x;
    assert(y[0] == b && y[1] == x[0] && y[2] == x[1] && y[3] == x[2]);
}

proof fn or_is_sum(c: u32, b: u8)
    by (bit_vector)
    ensures
        (c << 8u32) | (b as u32) == (c % 0x100_0000u32) * 0x100 + (b as u32),
{
}

// === the interval =============================================================

proof fn interval_for_ok(s: RangeState, m: Sent)
    requires
        interval_ok(s),
        m.fits(s.range),
    ensures
        m.total() >= 1,
        0 <= m.lo() < m.hi() <= m.total(),
        interval_ok(interval_for(s, m)),
        interval_for(s, m).low == s.low + (s.range as int / m.total()) * m.lo(),
        interval_for(s, m).range == (s.range as int / m.total()) * (m.hi() - m.lo()),
        s.range as int / m.total() >= 1,
{
    let range = s.range as int;
    sums_rise(m.freqs, 0, m.symbol);
    sums_rise(m.freqs, m.symbol + 1, m.freqs.len() as int);
    let unit = range / m.total();
    let lo = m.lo();
    let hi = m.hi();
    let total = m.total();
    assert(unit >= 1) by (nonlinear_arith)
        requires unit == range / total, 1 <= total <= range;
    assert(unit * lo + unit * (hi - lo) == unit * hi) by (nonlinear_arith);
    assert(unit * hi <= unit * total) by (nonlinear_arith)
        requires hi <= total, unit >= 1;
    assert(unit * total <= range) by (nonlinear_arith)
        requires unit == range / total, 1 <= total, range >= 0;
    assert(unit * lo >= 0) by (nonlinear_arith)
        requires unit >= 1, lo >= 0;
    assert(unit * (hi - lo) >= 1) by (nonlinear_arith)
        requires unit >= 1, hi > lo;
}

proof fn sums_rise(freqs: Seq<u32>, a: int, b: int)
    requires
        0 <= a <= b,
    ensures
        0 <= freq_sum(freqs, a) <= freq_sum(freqs, b),
    decreases b,
{
    if b > 0 {
        if a < b {
            sums_rise(freqs, a, b - 1);
        } else {
            sums_rise(freqs, a - 1, b - 1);
        }
    }
}

/// Normalizing keeps the interval sound, and what the input holds does not matter
/// to it.
proof fn normalizing_keeps(input: Seq<u8>, s: RangeState, t: RangeState, k: Kind, steps: nat)
    requires
        interval_ok(s),
        kind_ok(k),
        t.low == s.low,
        t.range == s.range,
    ensures
        interval_ok(normalized(input, s, k, steps)),
        normalized(input, s, k, steps).low == normalized(seq![], t, k, steps).low,
        normalized(input, s, k, steps).range == normalized(seq![], t, k, steps).range,
    decreases steps,
{
    if steps > 0 {
        if !top_differs(s) {
            shift_step(input, s);
            shift_step(seq![], t);
            normalizing_keeps(input, shifted(input, s), shifted(seq![], t), k, (steps - 1) as nat);
        } else if s.range < k.bottom {
            cut_step(input, s, k.bottom);
            cut_step(seq![], t, k.bottom);
            normalizing_keeps(
                input,
                shifted(input, cut(s, k.bottom)),
                shifted(seq![], cut(t, k.bottom)),
                k,
                (steps - 1) as nat,
            );
        }
    }
}

/// The number lies in the interval.
spec fn holds(s: RangeState, w: int) -> bool {
    s.low <= w < s.low + s.range
}

/// A number that lies in the interval after a byte was shifted out lies, with that
/// byte in front, in the interval before.
proof fn shifting_back(s: RangeState, t: RangeState, width: int, rest: Seq<u8>)
    requires
        t.low == 0x100 * (s.low % 0x100_0000),
        t.range == 0x100 * width,
        width <= s.range,
        rest.len() >= 4,
        holds(t, word(rest)),
    ensures
        holds(s, word(seq![top_byte(s.low)] + rest)),
{
    word_behind(top_byte(s.low), rest);
    let top = s.low as int / 0x100_0000;
    let low24 = s.low as int % 0x100_0000;
    assert(s.low == 0x100_0000 * top + low24);
    let w = word(rest);
    assert(w / 0x100 >= low24);
    assert(w / 0x100 < low24 + width);
}

proof fn normalizing_back(s: RangeState, k: Kind, steps: nat, rest: Seq<u8>)
    requires
        interval_ok(s),
        kind_ok(k),
        rest.len() >= 4,
        holds(normalized(seq![], s, k, steps), word(rest)),
    ensures
        holds(s, word(shifted_out(s, k, steps) + rest)),
        (shifted_out(s, k, steps) + rest).len() >= 4,
    decreases steps,
{
    let out = shifted_out(s, k, steps);
    if steps == 0 {
        assert(out + rest =~= rest);
    } else if !top_differs(s) {
        let t = shifted(seq![], s);
        shift_step(seq![], s);
        normalizing_back(t, k, (steps - 1) as nat, rest);
        let more = shifted_out(t, k, (steps - 1) as nat) + rest;
        shifting_back(s, t, s.range as int, more);
        assert(out + rest =~= seq![top_byte(s.low)] + more);
    } else if s.range >= k.bottom {
        assert(out + rest =~= rest);
    } else {
        let c = cut(s, k.bottom);
        let t = shifted(seq![], c);
        cut_step(seq![], s, k.bottom);
        normalizing_back(t, k, (steps - 1) as nat, rest);
        let more = shifted_out(t, k, (steps - 1) as nat) + rest;
        shifting_back(s, t, c.range as int, more);
        assert(out + rest =~= seq![top_byte(s.low)] + more);
    }
}

/// What is written lies, read as a number, in the interval.
proof fn written_lies_inside(s: RangeState, k: Kind, ms: Seq<Sent>)
    requires
        interval_ok(s),
        kind_ok(k),
        all_fit(s, k, ms),
    ensures
        written(s, k, ms).len() >= 4,
        holds(s, word(written(s, k, ms))),
        ms.len() > 0 ==> holds(interval_for(s, ms[0]), word(written(s, k, ms))),
    decreases ms.len(),
{
    if ms.len() == 0 {
        word_of_four_bytes(s.low);
    } else {
        let m = ms[0];
        interval_for_ok(s, m);
        let pre = interval_for(s, m);
        let next = after_sending(s, k, m);
        normalizing_keeps(seq![], pre, pre, k, 8);
        written_lies_inside(next, k, ms.drop_first());
        normalizing_back(pre, k, 8, written(next, k, ms.drop_first()));
        let range = s.range as int;
        let unit = range / m.total();
        let total = m.total();
        let lo = m.lo();
        let hi = m.hi();
        assert(unit * lo + unit * (hi - lo) == unit * hi) by (nonlinear_arith);
        assert(unit * hi <= unit * total) by (nonlinear_arith)
            requires hi <= total, unit >= 1;
        assert(unit * total <= range) by (nonlinear_arith)
            requires unit == range / total, 1 <= total, range >= 0;
        assert(unit * lo >= 0) by (nonlinear_arith)
            requires unit >= 1, lo >= 0;
    }
}

// === reading ==================================================================

/// The decoder has the first four bytes of `rest` in its code, and the others come,
/// up to the byte `end` of the input.
spec fn spells(input: Seq<u8>, s: RangeState, rest: Seq<u8>, end: int) -> bool {
    &&& rest.len() >= 4
    &&& s.code == word(rest)
    &&& s.pos + rest.len() - 4 == end
    &&& end <= input.len()
    &&& end < u64::MAX
    &&& forall|j: int| 4 <= j < rest.len() ==> #[trigger] rest[j] == input[s.pos + j - 4]
}

proof fn shifting_on(input: Seq<u8>, s: RangeState, b: u8, rest: Seq<u8>, end: int)
    requires
        spells(input, s, seq![b] + rest, end),
        rest.len() >= 4,
    ensures
        spells(input, shifted(input, s), rest, end),
{
    let x = seq![b] + rest;
    let t = shifted(input, s);
    assert(x[4] == input[s.pos as int]);
    assert(x[4] == rest[3]);
    assert(x[0] == b && x[1] == rest[0] && x[2] == rest[1] && x[3] == rest[2]);
    or_is_sum(s.code, rest[3]);
    assert(s.code % 0x100_0000 == 0x1_0000 * byte_at(x, 1) + 0x100 * byte_at(x, 2) + byte_at(x, 3));
    assert(t.code == word(rest));
    assert forall|j: int| 4 <= j < rest.len() implies #[trigger] rest[j] == input[t.pos + j - 4] by {
        assert(x[j + 1] == rest[j]);
    }
}

proof fn normalizing_on(input: Seq<u8>, s: RangeState, k: Kind, steps: nat, rest: Seq<u8>, end: int)
    requires
        interval_ok(s),
        kind_ok(k),
        spells(input, s, shifted_out(s, k, steps) + rest, end),
        rest.len() >= 4,
    ensures
        spells(input, normalized(input, s, k, steps), rest, end),
    decreases steps,
{
    let out = shifted_out(s, k, steps);
    if steps == 0 {
        assert(out + rest =~= rest);
    } else if !top_differs(s) {
        let more = shifted_out(shifted(seq![], s), k, (steps - 1) as nat) + rest;
        assert(out + rest =~= seq![top_byte(s.low)] + more);
        shifting_on(input, s, top_byte(s.low), more, end);
        shift_step(input, s);
        shift_step(seq![], s);
        same_bytes(shifted(seq![], s), shifted(input, s), k, (steps - 1) as nat);
        normalizing_on(input, shifted(input, s), k, (steps - 1) as nat, rest, end);
    } else if s.range >= k.bottom {
        assert(out + rest =~= rest);
    } else {
        let c = cut(s, k.bottom);
        let more = shifted_out(shifted(seq![], c), k, (steps - 1) as nat) + rest;
        assert(out + rest =~= seq![top_byte(s.low)] + more);
        shifting_on(input, c, top_byte(s.low), more, end);
        cut_step(input, s, k.bottom);
        cut_step(seq![], s, k.bottom);
        same_bytes(shifted(seq![], c), shifted(input, c), k, (steps - 1) as nat);
        normalizing_on(input, shifted(input, c), k, (steps - 1) as nat, rest, end);
    }
}

/// The bytes shifted out depend on the interval alone.
proof fn same_bytes(s: RangeState, t: RangeState, k: Kind, steps: nat)
    requires
        s.low == t.low,
        s.range == t.range,
    ensures
        shifted_out(s, k, steps) == shifted_out(t, k, steps),
    decreases steps,
{
    if steps > 0 {
        if !top_differs(s) {
            same_bytes(shifted(seq![], s), shifted(seq![], t), k, (steps - 1) as nat);
        } else if s.range < k.bottom {
            same_bytes(shifted(seq![], cut(s, k.bottom)), shifted(seq![], cut(t, k.bottom)), k, (steps - 1) as nat);
        }
    }
}

/// A count within the share of a symbol picks the symbol.
proof fn count_picks_symbol(freqs: Seq<u32>, count: int, n: int, from: int)
    requires
        0 <= from <= n < freqs.len(),
        freq_sum(freqs, n) <= count < freq_sum(freqs, n + 1),
    ensures
        symbol_of(freqs, count, from) == n,
    decreases n - from,
{
    if from < n {
        sums_rise(freqs, from + 1, n);
        count_picks_symbol(freqs, count, n, from + 1);
    }
}

proof fn sent_is_read_from(input: Seq<u8>, s: RangeState, e: RangeState, k: Kind, ms: Seq<Sent>, end: int)
    requires
        interval_ok(s),
        kind_ok(k),
        k.uselow,
        s.low == e.low,
        s.range == e.range,
        all_fit(e, k, ms),
        spells(input, s, written(e, k, ms), end),
    ensures
        reads(input, s, k, ms),
        after_reading(input, s, k, ms).pos == end,
    decreases ms.len(),
{
    if ms.len() > 0 {
        let m = ms[0];
        let rest = written(after_sending(e, k, m), k, ms.drop_first());
        interval_for_ok(s, m);
        interval_for_ok(e, m);
        written_lies_inside(e, k, ms);
        let unit = s.range as int / m.total();
        let lo = m.lo();
        let hi = m.hi();
        let d = s.code - s.low;
        let count = d / unit;
        assert(unit * lo + unit * (hi - lo) == unit * hi) by (nonlinear_arith);
        assert(unit * lo >= 0) by (nonlinear_arith)
            requires unit >= 1, lo >= 0;
        assert(lo <= count < hi) by (nonlinear_arith)
            requires unit >= 1, unit * lo <= d < unit * hi, count == d / unit;
        assert(count_of(s, m.total()) == count);
        count_picks_symbol(m.freqs, count, m.symbol, 0);
        let pre = interval_for(s, m);
        same_bytes(interval_for(e, m), pre, k, 8);
        normalizing_keeps(input, pre, interval_for(e, m), k, 8);
        normalizing_keeps(seq![], interval_for(e, m), interval_for(e, m), k, 8);
        written_lies_inside(after_sending(e, k, m), k, ms.drop_first());
        normalizing_on(input, pre, k, 8, rest, end);
        let next = narrowed(input, s, k, lo, hi, m.total());
        assert(next == normalized(input, pre, k, 8));
        sent_is_read_from(input, next, after_sending(e, k, m), k, ms.drop_first(), end);
    }
}

proof fn start_spells(input: Seq<u8>, end: int)
    requires
        4 <= end <= input.len(),
        end < u64::MAX,
    ensures
        spells(input, range_start(input), input.subrange(0, end), end),
{
    let s0 = RangeState { pos: 0, low: 0, code: 0, range: 0xffff_ffff };
    let s1 = shifted(input, s0);
    let s2 = shifted(input, s1);
    let s3 = shifted(input, s2);
    or_is_sum(s0.code, input[0]);
    or_is_sum(s1.code, input[1]);
    or_is_sum(s2.code, input[2]);
    or_is_sum(s3.code, input[3]);
}

/// What a range encoder writes for some symbols, each under its own frequencies, the
/// decoder reads back, as long as the interval never gets too narrow for them, and
/// takes no byte of what stands behind.
pub proof fn sent_symbols_are_read(bottom: u32, ms: Seq<Sent>, behind: Seq<u8>)
    requires
        kind_ok(moving(bottom)),
        all_fit(sender_start(), moving(bottom), ms),
        written(sender_start(), moving(bottom), ms).len() < u64::MAX,
    ensures
        ({
            let input = written(sender_start(), moving(bottom), ms) + behind;
            let s = range_start(input);
            &&& reads(input, s, moving(bottom), ms)
            &&& after_reading(input, s, moving(bottom), ms).pos == written(sender_start(), moving(bottom), ms).len()
        }),
{
    let k = moving(bottom);
    let bytes = written(sender_start(), k, ms);
    let input = bytes + behind;
    written_lies_inside(sender_start(), k, ms);
    start_spells(input, bytes.len() as int);
    assert(input.subrange(0, bytes.len() as int) =~= bytes);
    sent_is_read_from(input, range_start(input), sender_start(), k, ms, bytes.len() as int);
}

/// Normalizing leaves an interval that is wide enough.
proof fn normalizing_settles(s: RangeState, k: Kind, steps: nat)
    requires
        interval_ok(s),
        kind_ok(k),
        steps_left(s) < steps,
    ensures
        interval_ok(normalized(seq![], s, k, steps)),
        normalized(seq![], s, k, steps).range >= k.bottom,
    decreases steps,
{
    if !top_differs(s) {
        shift_step(seq![], s);
        normalizing_settles(shifted(seq![], s), k, (steps - 1) as nat);
    } else if s.range < k.bottom {
        cut_step(seq![], s, k.bottom);
        normalizing_settles(shifted(seq![], cut(s, k.bottom)), k, (steps - 1) as nat);
    }
}

/// After a symbol the interval is wide enough again.
pub proof fn sending_leaves_room(s: RangeState, bottom: u32, m: Sent)
    requires
        interval_ok(s),
        kind_ok(moving(bottom)),
        m.fits(s.range),
    ensures
        interval_ok(after_sending(s, moving(bottom), m)),
        after_sending(s, moving(bottom), m).range >= bottom,
{
    interval_for_ok(s, m);
    normalizing_settles(interval_for(s, m), moving(bottom), 8);
}

/// Symbols under modest frequencies fit.
pub proof fn modest_symbols_fit(s: RangeState, bottom: u32, ms: Seq<Sent>)
    requires
        interval_ok(s),
        kind_ok(moving(bottom)),
        s.range >= bottom,
        forall|i: int| 0 <= i < ms.len() ==> (#[trigger] ms[i]).fits(bottom),
    ensures
        all_fit(s, moving(bottom), ms),
    decreases ms.len(),
{
    if ms.len() > 0 {
        let m = ms[0];
        assert(m.fits(bottom));
        sending_leaves_room(s, bottom, m);
        assert forall|i: int| 0 <= i < ms.drop_first().len() implies (#[trigger] ms.drop_first()[i]).fits(bottom) by {
            assert(ms.drop_first()[i] == ms[i + 1]);
        }
        modest_symbols_fit(after_sending(s, moving(bottom), m), bottom, ms.drop_first());
    }
}

/// Symbols in two parts are read part by part.
pub proof fn reading_symbols_in_parts(input: Seq<u8>, s: RangeState, k: Kind, a: Seq<Sent>, b: Seq<Sent>)
    ensures
        reads(input, s, k, a + b) == (reads(input, s, k, a) && reads(input, after_reading(input, s, k, a), k, b)),
        after_reading(input, s, k, a + b) == after_reading(input, after_reading(input, s, k, a), k, b),
    decreases a.len(),
{
    if a.len() == 0 {
        assert(a + b =~= b);
    } else {
        assert((a + b).drop_first() =~= a.drop_first() + b);
        let s1 = symbol_next(input, s, k, a[0].freqs)->Some_0.1;
        reading_symbols_in_parts(input, s1, k, a.drop_first(), b);
    }
}

/// A weighted bit is a symbol of two.
pub proof fn weighted_bit_is_a_symbol(input: Seq<u8>, s: RangeState, k: Kind, weight: u32, size: u32)
    requires
        size > 0,
        weight <= size,
    ensures
        match (weighted_next(input, s, k, weight, size), symbol_next(input, s, k, seq![weight, (size - weight) as u32])) {
            (Some((bit, s1)), Some((n, s2))) => bit == n && s1 == s2,
            (None, None) => true,
            _ => false,
        },
{
    let freqs = seq![weight, (size - weight) as u32];
    assert(freqs[0] == weight && freqs[1] == size - weight);
    assert(freq_sum(freqs, 0) == 0);
    assert(freq_sum(freqs, 1) == freq_sum(freqs, 0) + freqs[0]);
    assert(freq_sum(freqs, 2) == freq_sum(freqs, 1) + freqs[1]);
    assert(freq_sum(freqs, freqs.len() as int) == size);
    if size <= s.range {
        let count = count_of(s, size as int);
        let code = s.code.wrapping_sub(s.low) as int;
        let range = s.range as int;
        let whole = size as int;
        assert(code / (range / whole) >= 0) by (nonlinear_arith)
            requires code >= 0, 1 <= whole <= range;
        assert(symbol_of(freqs, count, 1) == 1);
        if count < weight {
            assert(symbol_of(freqs, count, 0) == 0);
        } else {
            assert(symbol_of(freqs, count, 0) == symbol_of(freqs, count, 1));
        }
    }
}

// === an interval with a fixed lower end =======================================

// Where the lower end stays at zero, what is sent is one large number: that of the
// first item counts most, and each shift makes room for another byte.

/// What is sent: a symbol under its frequencies, a bit of which 0 has the share
/// `weight` of 2 to the `shift`, or a bit of which both values are equally likely.
pub enum Item {
    Symbol(Sent),
    Bit { bit: u32, weight: u32, shift: u32 },
    Plain { bit: u32 },
}

pub open spec fn fixed() -> Kind {
    Kind { uselow: false, bottom: 0 }
}

/// 256 to the power `n`.
pub open spec fn power(n: nat) -> nat
    decreases n,
{
    if n == 0 {
        1
    } else {
        256 * power((n - 1) as nat)
    }
}

/// Where the part of an item starts in an interval of width `range`, and how wide
/// it is.
pub open spec fn part_for(range: u32, it: Item) -> (int, int) {
    match it {
        Item::Symbol(m) => {
            let unit = range as int / m.total();
            (unit * m.lo(), unit * (m.hi() - m.lo()))
        },
        Item::Bit { bit, weight, shift } => {
            let threshold = (range >> shift) * weight;
            if bit == 0 {
                (0, threshold)
            } else {
                (threshold, range - threshold)
            }
        },
        Item::Plain { bit } => if bit == 0 {
            (0, range as int / 2)
        } else {
            (range as int / 2, range as int / 2)
        },
    }
}

/// The item has a part of its own.
pub open spec fn item_fits(range: u32, it: Item) -> bool {
    match it {
        Item::Symbol(m) => m.fits(range),
        Item::Bit { bit, weight, shift } => {
            &&& bit <= 1
            &&& (range >> shift) * weight < range
            &&& bit == 0 ==> (range >> shift) * weight > 0
        },
        Item::Plain { bit } => bit <= 1 && range >= 2,
    }
}

/// How many bytes an interval is shifted by.
pub open spec fn shifts_for(range: int) -> nat {
    if range >= 0x100_0000 {
        0
    } else if range >= 0x1_0000 {
        1
    } else if range >= 0x100 {
        2
    } else {
        3
    }
}

/// The interval after an item.
pub open spec fn range_after(range: u32, it: Item) -> u32 {
    let width = part_for(range, it).1;
    (width * power(shifts_for(width))) as u32
}

pub open spec fn items_fit(range: u32, items: Seq<Item>) -> bool
    decreases items.len(),
{
    items.len() > 0 ==> item_fits(range, items[0]) && items_fit(range_after(range, items[0]), items.drop_first())
}

/// The number that stands for the items, and how many bytes it has behind the first
/// four.
pub open spec fn number_for(range: u32, items: Seq<Item>) -> (nat, nat)
    decreases items.len(),
{
    if items.len() == 0 {
        (0, 0)
    } else {
        let (start, width) = part_for(range, items[0]);
        let (v, n) = number_for(range_after(range, items[0]), items.drop_first());
        let m = shifts_for(width) + n;
        ((start * power(m) + v) as nat, m)
    }
}

/// The `len` low bytes of a number, the highest first.
pub open spec fn number_bytes(v: nat, len: nat) -> Seq<u8>
    decreases len,
{
    if len == 0 {
        seq![]
    } else {
        let p = power((len - 1) as nat);
        seq![(v / p) as u8] + number_bytes(v % p, (len - 1) as nat)
    }
}

/// What is written for the items.
pub open spec fn items_written(items: Seq<Item>) -> Seq<u8> {
    let (v, n) = number_for(0xffff_ffff, items);
    number_bytes(v, n + 4)
}

/// The decoder reads the item.
pub open spec fn reads_item(input: Seq<u8>, s: RangeState, it: Item) -> bool {
    match it {
        Item::Symbol(m) => symbol_next(input, s, fixed(), m.freqs) matches Some((n, s1)) && n == m.symbol,
        Item::Bit { bit, weight, shift } => weighted2_next(input, s, fixed(), weight, shift).0 == bit,
        Item::Plain { bit } => bit_next(input, s, fixed()) matches Some((b, s1)) && b == bit,
    }
}

/// The decoder after an item.
pub open spec fn after_item(input: Seq<u8>, s: RangeState, it: Item) -> RangeState {
    match it {
        Item::Symbol(m) => symbol_next(input, s, fixed(), m.freqs)->Some_0.1,
        Item::Bit { bit, weight, shift } => weighted2_next(input, s, fixed(), weight, shift).1,
        Item::Plain { bit } => bit_next(input, s, fixed())->Some_0.1,
    }
}

/// The decoder reads the items one after another.
pub open spec fn reads_items(input: Seq<u8>, s: RangeState, items: Seq<Item>) -> bool
    decreases items.len(),
{
    items.len() > 0 ==> reads_item(input, s, items[0]) && reads_items(
        input,
        after_item(input, s, items[0]),
        items.drop_first(),
    )
}

/// The decoder after the items.
pub open spec fn after_items(input: Seq<u8>, s: RangeState, items: Seq<Item>) -> RangeState
    decreases items.len(),
{
    if items.len() == 0 {
        s
    } else {
        after_items(input, after_item(input, s, items[0]), items.drop_first())
    }
}

/// Items in two parts are read part by part.
pub proof fn reading_in_parts(input: Seq<u8>, s: RangeState, a: Seq<Item>, b: Seq<Item>)
    ensures
        reads_items(input, s, a + b) == (reads_items(input, s, a) && reads_items(input, after_items(input, s, a), b)),
        after_items(input, s, a + b) == after_items(input, after_items(input, s, a), b),
    decreases a.len(),
{
    if a.len() == 0 {
        assert(a + b =~= b);
    } else {
        assert((a + b).drop_first() =~= a.drop_first() + b);
        reading_in_parts(input, after_item(input, s, a[0]), a.drop_first(), b);
    }
}

/// Items that fit any interval that has been shifted: symbols under modest
/// frequencies, and bits of which neither value is out of the question.
pub open spec fn all_easy(items: Seq<Item>) -> bool {
    forall|i: int| 0 <= i < items.len() ==> is_easy(#[trigger] items[i])
}

pub open spec fn is_easy(it: Item) -> bool {
    match it {
        Item::Symbol(m) => m.fits(0x100_0000),
        Item::Bit { bit, weight, shift } => bit <= 1 && 1 <= weight < 0x1000 && shift == 12,
        Item::Plain { bit } => bit <= 1,
    }
}

proof fn shifted_by_twelve(range: u32)
    by (bit_vector)
    ensures
        range >> 12u32 == range / 0x1000u32,
{
}

/// Easy items fit, whatever comes before them.
pub proof fn easy_items_fit(range: u32, items: Seq<Item>)
    requires
        range >= 0x100_0000,
        all_easy(items),
    ensures
        items_fit(range, items),
    decreases items.len(),
{
    if items.len() > 0 {
        let it = items[0];
        assert(is_easy(it));
        match it {
            Item::Bit { bit, weight, shift } => {
                shifted_by_twelve(range);
                let t = (range >> 12u32) as int;
                let w = weight as int;
                assert(t >= 1 && 0x1000 * t <= range);
                assert(0 < t * w && t * w <= t * 0xfff) by (nonlinear_arith)
                    requires 1 <= w <= 0xfff, t >= 1;
            },
            _ => {},
        }
        part_is_inside(range, it);
        assert forall|i: int| 0 <= i < items.drop_first().len() implies is_easy(#[trigger] items.drop_first()[i]) by {
            assert(items.drop_first()[i] == items[i + 1]);
        }
        easy_items_fit(range_after(range, it), items.drop_first());
    }
}

/// The number of the `n` bytes from `pos` on.
spec fn number_at(input: Seq<u8>, pos: int, n: nat) -> nat
    decreases n,
{
    if n == 0 {
        0
    } else {
        byte_at(input, pos) as nat * power((n - 1) as nat) + number_at(input, pos + 1, (n - 1) as nat)
    }
}

proof fn power_adds(a: nat, b: nat)
    ensures
        power(a + b) == power(a) * power(b),
        power(a) >= 1,
    decreases a,
{
    if a == 0 {
        assert(power(0) * power(b) == power(b)) by (nonlinear_arith)
            requires power(0) == 1;
    } else {
        power_adds((a - 1) as nat, b);
        let x = power((a - 1) as nat);
        let y = power(b);
        assert(256 * (x * y) == (256 * x) * y) by (nonlinear_arith);
    }
}

proof fn number_is_small(input: Seq<u8>, pos: int, n: nat)
    ensures
        number_at(input, pos, n) < power(n),
    decreases n,
{
    if n > 0 {
        number_is_small(input, pos + 1, (n - 1) as nat);
        let b = byte_at(input, pos);
        let p = power((n - 1) as nat) as int;
        assert(b * p + p <= 256 * p) by (nonlinear_arith)
            requires 0 <= b <= 255, p >= 0;
    }
}

proof fn bytes_of_a_number(v: nat, len: nat, before: Seq<u8>, behind: Seq<u8>)
    requires
        v < power(len),
    ensures
        number_bytes(v, len).len() == len,
        number_at(before + number_bytes(v, len) + behind, before.len() as int, len) == v,
    decreases len,
{
    let all = before + number_bytes(v, len) + behind;
    if len > 0 {
        let p = power((len - 1) as nat);
        power_adds((len - 1) as nat, 0);
        let b = v / p;
        assert(b < 256 && v == b * p + v % p && v % p < p) by (nonlinear_arith)
            requires b == v / p, v < 256 * p, p >= 1;
        let next = before.push(b as u8);
        bytes_of_a_number(v % p, (len - 1) as nat, next, behind);
        assert(all =~= next + number_bytes(v % p, (len - 1) as nat) + behind);
        assert(byte_at(all, before.len() as int) == b);
    }
}

/// The decoder holds the leading bytes of `v`, and `n` more come.
spec fn carries(input: Seq<u8>, s: RangeState, v: nat, n: nat) -> bool {
    &&& s.low == 0
    &&& s.code * power(n) + number_at(input, s.pos as int, n) == v
    &&& s.pos + n < u64::MAX
}

proof fn carrying_on(input: Seq<u8>, s: RangeState, v: nat, n: nat)
    requires
        carries(input, s, v, n),
        n > 0,
        s.code < 0x100_0000,
    ensures
        carries(input, shifted(input, s), v, (n - 1) as nat),
        shifted(input, s).pos == s.pos + 1,
        shifted(input, s).code < 0x100 * (s.code + 1),
{
    let t = shifted(input, s);
    let b = input_byte(input, s.pos);
    or_is_sum(s.code, b);
    shift_is_product(s.low);
    assert(t.code == 0x100 * s.code + b);
    assert(byte_at(input, s.pos as int) == b);
    let p = power((n - 1) as nat) as int;
    let c = s.code as int;
    assert(c * (256 * p) + b * p == (0x100 * c + b) * p) by (nonlinear_arith);
}

/// Normalizing shifts until the interval is wide enough.
proof fn normalizing_carries(input: Seq<u8>, s: RangeState, v: nat, n: nat, steps: nat)
    requires
        carries(input, s, v, n),
        s.range >= 1,
        s.code < s.range,
        shifts_for(s.range as int) <= n,
        steps > shifts_for(s.range as int),
    ensures
        carries(input, normalized(input, s, fixed(), steps), v, (n - shifts_for(s.range as int)) as nat),
        normalized(input, s, fixed(), steps).pos == s.pos + shifts_for(s.range as int),
        normalized(input, s, fixed(), steps).range == s.range * power(shifts_for(s.range as int)),
        normalized(input, s, fixed(), steps).range >= 0x100_0000,
        normalized(input, s, fixed(), steps).code < normalized(input, s, fixed(), steps).range,
    decreases shifts_for(s.range as int),
{
    assert(power(0) == 1);
    if s.range >= 0x100_0000 {
        assert(top_differs(s));
        assert(s.range * power(0) == s.range) by (nonlinear_arith)
            requires power(0) == 1;
    } else {
        let j = shifts_for(s.range as int);
        let t = shifted(input, s);
        assert(!top_differs(s));
        carrying_on(input, s, v, n);
        shift_is_product(s.range);
        assert(t.range == 0x100 * s.range);
        assert(shifts_for(t.range as int) == j - 1);
        normalizing_carries(input, t, v, (n - 1) as nat, (steps - 1) as nat);
        let p = power((j - 1) as nat) as int;
        let r = s.range as int;
        assert((0x100 * r) * p == r * (256 * p)) by (nonlinear_arith);
    }
}

/// The part of an item lies within the interval.
proof fn part_is_inside(range: u32, it: Item)
    requires
        item_fits(range, it),
        range >= 1,
    ensures
        0 <= part_for(range, it).0,
        1 <= part_for(range, it).1,
        part_for(range, it).0 + part_for(range, it).1 <= range,
        range_after(range, it) == part_for(range, it).1 * power(shifts_for(part_for(range, it).1)),
        range_after(range, it) >= 0x100_0000,
{
    match it {
        Item::Symbol(m) => {
            let s = RangeState { pos: 0, low: 0, code: 0, range };
            interval_for_ok(s, m);
            let unit = range as int / m.total();
            let total = m.total();
            let hi = m.hi();
            let lo = m.lo();
            let r = range as int;
            assert(unit * lo + unit * (hi - lo) == unit * hi) by (nonlinear_arith);
            assert(unit * hi <= unit * total) by (nonlinear_arith)
                requires hi <= total, unit >= 1;
            assert(unit * total <= r) by (nonlinear_arith)
                requires unit == r / total, 1 <= total, r >= 0;
            assert(unit * lo >= 0) by (nonlinear_arith)
                requires unit >= 1, lo >= 0;
        },
        Item::Bit { bit, weight, shift } => {
            let t = (range >> shift) as int;
            let w = weight as int;
            assert(t * w >= 0) by (nonlinear_arith)
                requires t >= 0, w >= 0;
        },
        Item::Plain { bit } => {},
    }
    let width = part_for(range, it).1;
    reveal_with_fuel(power, 4);
    assert(power(0) == 1 && power(1) == 0x100 && power(2) == 0x1_0000 && power(3) == 0x100_0000);
    let p = power(shifts_for(width)) as int;
    assert(width * 1 == width && width * 0x100 == 0x100 * width && width * 0x1_0000 == 0x1_0000 * width && width
        * 0x100_0000 == 0x100_0000 * width);
    assert(0x100_0000 <= width * p < 0x1_0000_0000) by (nonlinear_arith)
        requires
            1 <= width < 0x1_0000_0000,
            p == 1 && width >= 0x100_0000 || p == 0x100 && 0x1_0000 <= width < 0x100_0000 || p == 0x1_0000 && 0x100
                <= width < 0x1_0000 || p == 0x100_0000 && width < 0x100,
    ;
}

/// The number for some items fits the interval and its bytes.
proof fn number_fits(range: u32, items: Seq<Item>)
    requires
        range >= 1,
        items_fit(range, items),
    ensures
        number_for(range, items).0 < range * power(number_for(range, items).1),
        items.len() > 0 ==> ({
            let (start, width) = part_for(range, items[0]);
            let (v, n) = number_for(range, items);
            &&& start * power(n) <= v < (start + width) * power(n)
            &&& v - start * power(n) == number_for(range_after(range, items[0]), items.drop_first()).0
            &&& n - shifts_for(width) == number_for(range_after(range, items[0]), items.drop_first()).1
        }),
    decreases items.len(),
{
    if items.len() == 0 {
        assert(range * power(0) >= 1) by (nonlinear_arith)
            requires range >= 1, power(0) == 1;
    } else {
        let it = items[0];
        let (start, width) = part_for(range, it);
        let next = range_after(range, it);
        part_is_inside(range, it);
        number_fits(next, items.drop_first());
        let (v1, n1) = number_for(next, items.drop_first());
        let j = shifts_for(width);
        power_adds(j, n1);
        power_adds(j + n1, 0);
        let a = power(j) as int;
        let b = power(n1) as int;
        let p = power(j + n1) as int;
        assert((width * a) * b == width * p) by (nonlinear_arith)
            requires p == a * b;
        assert(start * p >= 0) by (nonlinear_arith)
            requires start >= 0, p >= 1;
        assert((start + width) * p == start * p + width * p) by (nonlinear_arith);
        assert((start + width) * p <= range * p) by (nonlinear_arith)
            requires start + width <= range, p >= 1;
    }
}

proof fn items_are_read_from(input: Seq<u8>, s: RangeState, items: Seq<Item>)
    requires
        s.range >= 0x100_0000 || items.len() == 0,
        items_fit(s.range, items),
        carries(input, s, number_for(s.range, items).0, number_for(s.range, items).1),
    ensures
        reads_items(input, s, items),
        after_items(input, s, items).pos == s.pos + number_for(s.range, items).1,
    decreases items.len(),
{
    if items.len() > 0 {
        let it = items[0];
        let (start, width) = part_for(s.range, it);
        let (v, n) = number_for(s.range, items);
        let next = range_after(s.range, it);
        part_is_inside(s.range, it);
        number_fits(s.range, items);
        number_is_small(input, s.pos as int, n);
        power_adds(n, 0);
        let p = power(n) as int;
        let c = s.code as int;
        let x = number_at(input, s.pos as int, n) as int;
        assert(start <= c < start + width) by (nonlinear_arith)
            requires start * p <= c * p + x < (start + width) * p, 0 <= x < p, p >= 1;
        let t = RangeState { code: (c - start) as u32, range: width as u32, ..s };
        assert((c - start) * p == c * p - start * p) by (nonlinear_arith);
        let v1 = (v - start * p) as nat;
        assert(carries(input, t, v1, n));
        normalizing_carries(input, t, v1, n, 8);
        let s1 = normalized(input, t, fixed(), 8);
        items_are_read_from(input, s1, items.drop_first());
        match it {
            Item::Symbol(m) => {
                let base = RangeState { pos: 0, low: 0, code: 0, range: s.range };
                interval_for_ok(base, m);
                let unit = s.range as int / m.total();
                let lo = m.lo();
                let hi = m.hi();
                assert(unit * lo + unit * (hi - lo) == unit * hi) by (nonlinear_arith);
                let count = c / unit;
                assert(lo <= count < hi) by (nonlinear_arith)
                    requires unit >= 1, unit * lo <= c < unit * hi, count == c / unit;
                assert(count_of(s, m.total()) == count);
                count_picks_symbol(m.freqs, count, m.symbol, 0);
                assert(s.code.wrapping_sub((unit * lo) as u32) == c - start);
                assert(narrowed(input, s, fixed(), lo, hi, m.total()) == s1);
            },
            Item::Bit { bit, weight, shift } => {},
            Item::Plain { bit } => {
                let unit = s.range as int / 2;
                let count = c / unit;
                let b = bit as int;
                assert(0 * unit == 0 && 1 * unit == unit && (1 + 1) * unit == 2 * unit);
                assert(unit * b == b * unit && unit * b == start) by (nonlinear_arith)
                    requires b == 0 && start == 0 || b == 1 && start == unit;
                assert(count == b) by (nonlinear_arith)
                    requires unit >= 1, b == 0 && 0 <= c < unit || b == 1 && unit <= c < 2 * unit, count == c / unit;
                assert(count_of(s, 2) == count);
                assert(s.code.wrapping_sub((unit * bit) as u32) == c - start);
                assert(narrowed(input, s, fixed(), bit as int, bit + 1, 2) == s1);
            },
        }
    }
}

proof fn start_carries(input: Seq<u8>, v: nat, n: nat)
    requires
        number_at(input, 0, n + 4) == v,
        n < u64::MAX - 4,
    ensures
        carries(input, range_start(input), v, n),
        range_start(input).pos == 4,
{
    let s0 = RangeState { pos: 0, low: 0, code: 0, range: 0xffff_ffff };
    let s1 = shifted(input, s0);
    let s2 = shifted(input, s1);
    let s3 = shifted(input, s2);
    assert(0 * power(n + 4) == 0) by (nonlinear_arith);
    carrying_on(input, s0, v, n + 4);
    carrying_on(input, s1, v, n + 3);
    carrying_on(input, s2, v, n + 2);
    carrying_on(input, s3, v, n + 1);
}

/// What is written for some items where the lower end of the interval is fixed, the
/// decoder reads back, as long as each item has a part in the interval, and takes no
/// byte of what stands behind.
pub proof fn sent_items_are_read(items: Seq<Item>, behind: Seq<u8>)
    requires
        items_fit(0xffff_ffff, items),
        items_written(items).len() < u64::MAX,
    ensures
        ({
            let input = items_written(items) + behind;
            &&& reads_items(input, range_start(input), items)
            &&& after_items(input, range_start(input), items).pos == items_written(items).len()
        }),
{
    let (v, n) = number_for(0xffff_ffff, items);
    let input = items_written(items) + behind;
    number_fits(0xffff_ffff, items);
    power_adds(4, n);
    reveal_with_fuel(power, 5);
    assert(power(4) == 0x1_0000_0000);
    let p = power(n) as int;
    assert(0xffff_ffff * p <= 0x1_0000_0000 * p) by (nonlinear_arith)
        requires p >= 0;
    bytes_of_a_number(v, n + 4, seq![], behind);
    assert(Seq::<u8>::empty() + items_written(items) + behind =~= input);
    start_carries(input, v, n);
    items_are_read_from(input, range_start(input), items);
}

} // verus!
