use vstd::prelude::*;
use vstd::arithmetic::power2::{lemma2_to64, pow2};
use crate::bits::lsb_value;
use crate::compress::{
    code_width, lzw_cleared, lzw_decoded, lzw_grown, lzw_run, lzw_start, lzw_string, strings_joined, LzwState,
};
use crate::error::ErrorKind;
use crate::methods::fork_decoded;

verus! {

// A writer may empty its table as often as it likes. Codes are as wide as the table
// needs them.

/// The least number from `w` on of bits with which `n` can be told, 14 at most.
pub open spec fn bits_for(n: int, w: nat) -> nat
    decreases 14 - w,
{
    if w >= 14 || n < pow2(w) {
        w
    } else {
        bits_for(n, w + 1)
    }
}

proof fn bits_are_least(n: int, w: nat)
    requires
        w <= 14,
        w > 9 ==> pow2((w - 1) as nat) <= n,
    ensures
        ({
            let b = bits_for(n, w);
            &&& w <= b <= 14
            &&& b > 9 ==> pow2((b - 1) as nat) <= n
            &&& b < 14 ==> n < pow2(b)
        }),
    decreases 14 - w,
{
    if w < 14 && n >= pow2(w) {
        bits_are_least(n, w + 1);
    }
}

/// While the table holds `n` codes, a code has as many bits as `n` needs, but 9 at least
/// and 14 at most: fewer than 2 to that many codes are there, unless there are 14 bits,
/// and one bit less would not do, unless there are 9.
pub proof fn codes_are_just_wide_enough(n: int)
    ensures
        9 <= code_width(n) <= 14,
        code_width(n) < 14 ==> n < pow2(code_width(n)),
        code_width(n) > 9 ==> pow2((code_width(n) - 1) as nat) <= n,
        code_width(n) == bits_for(n, 9),
{
    lemma2_to64();
    bits_are_least(n, 9);
    let b = bits_for(n, 9);
    assert(b == 9 || b == 10 || b == 11 || b == 12 || b == 13 || b == 14);
}

/// The width grows by one bit at each power of two from 512 to 8192 and nowhere else.
pub proof fn width_grows_at_powers_of_two(n: int)
    requires
        n >= 257,
    ensures
        code_width(n + 1) == code_width(n) + (if exists|k: nat| 9 <= k < 14 && n + 1 == #[trigger] pow2(k) {
            1int
        } else {
            0int
        }),
{
    lemma2_to64();
    codes_are_just_wide_enough(n);
    codes_are_just_wide_enough(n + 1);
    let grows = exists|k: nat| 9 <= k < 14 && n + 1 == #[trigger] pow2(k);
    if n + 1 == 512 {
        assert(n + 1 == pow2(9));
    } else if n + 1 == 1024 {
        assert(n + 1 == pow2(10));
    } else if n + 1 == 2048 {
        assert(n + 1 == pow2(11));
    } else if n + 1 == 4096 {
        assert(n + 1 == pow2(12));
    } else if n + 1 == 8192 {
        assert(n + 1 == pow2(13));
    } else if grows {
        let k = choose|k: nat| 9 <= k < 14 && n + 1 == #[trigger] pow2(k);
        assert(k == 9 || k == 10 || k == 11 || k == 12 || k == 13);
    }
}

// === the writer ===============================================================

/// The strings that the writer has learned before it writes string number `i`: each one
/// written before with the first byte of the one behind it, until there are 16384 codes.
pub open spec fn learned(strings: Seq<Seq<u8>>, i: int) -> Seq<Seq<u8>>
    decreases i,
{
    if i <= 0 {
        seq![]
    } else {
        let t = learned(strings, i - 1);
        if t.len() < 16384 - 257 {
            t.push(strings[i - 1].push(strings[i][0]))
        } else {
            t
        }
    }
}

/// The width of the code for string number `i`: the reader knows of the strings learned
/// before the string that came last.
pub open spec fn width_at(strings: Seq<Seq<u8>>, i: int) -> nat {
    bits_for(257 + learned(strings, i - 1).len() as int, 9)
}

/// The number `code` stands for string number `i`: a byte for itself, and the learned
/// strings from 257 on.
pub open spec fn tells(strings: Seq<Seq<u8>>, i: int, code: int) -> bool {
    let table = learned(strings, i);
    ||| 0 <= code < 256 && strings[i] == seq![code as u8]
    ||| 257 <= code < 257 + table.len() && strings[i] == table[code - 257]
}

/// The codes for the strings from number `i` on stand at `pos`.
pub open spec fn told_at(data: Seq<u8>, pos: int, strings: Seq<Seq<u8>>, i: int) -> bool
    decreases strings.len() - i,
{
    i < strings.len() ==> {
        let w = width_at(strings, i);
        &&& strings[i].len() > 0
        &&& pos + w <= 8 * data.len()
        &&& tells(strings, i, lsb_value(data, pos, w) as int)
        &&& told_at(data, pos + w, strings, i + 1)
    }
}

/// Where they end.
pub open spec fn told_end(pos: int, strings: Seq<Seq<u8>>, i: int) -> int
    decreases strings.len() - i,
{
    if i >= strings.len() {
        pos
    } else {
        told_end(pos + width_at(strings, i), strings, i + 1)
    }
}

/// Where the codes go on behind the code that empties the table: codes are written in
/// groups of eight, and the rest of the group has no meaning.
pub open spec fn cleared_end(pos: int, strings: Seq<Seq<u8>>) -> int {
    let n = strings.len() as int;
    told_end(pos, strings, 0) + width_at(strings, n) * (8 * (n / 8 + 1) - n)
}

/// Rows of strings stand at `pos`, each but the last followed by the code 256, which
/// empties the table.
pub open spec fn rows_stand(data: Seq<u8>, pos: int, rows: Seq<Seq<Seq<u8>>>) -> bool
    decreases rows.len(),
{
    rows.len() > 0 ==> {
        let strings = rows[0];
        let n = strings.len() as int;
        let end = told_end(pos, strings, 0);
        &&& told_at(data, pos, strings, 0)
        &&& rows.len() > 1 ==> {
            &&& lsb_value(data, end, width_at(strings, n)) == 256
            &&& cleared_end(pos, strings) <= 8 * data.len()
            &&& rows_stand(data, cleared_end(pos, strings), rows.drop_first())
        }
    }
}

/// The strings of all rows one behind the other.
pub open spec fn rows_joined(rows: Seq<Seq<Seq<u8>>>) -> Seq<u8>
    decreases rows.len(),
{
    if rows.len() == 0 {
        seq![]
    } else {
        strings_joined(rows[0], 0) + rows_joined(rows.drop_first())
    }
}

// === the reader ===============================================================

spec fn reader_at(strings: Seq<Seq<u8>>, i: int, pos: int) -> LzwState {
    LzwState {
        added: learned(strings, i - 1),
        previous: if i > 0 {
            Some(strings[i - 1])
        } else {
            None
        },
        count: i as nat,
        pos,
    }
}

proof fn string_is_found(strings: Seq<Seq<u8>>, i: int, pos: int, code: int)
    requires
        0 <= i < strings.len(),
        forall|k: int| 0 <= k < strings.len() ==> (#[trigger] strings[k]).len() > 0,
        tells(strings, i, code),
    ensures
        lzw_string(reader_at(strings, i, pos), code) == Some(strings[i]),
        code != 256,
        lzw_grown(reader_at(strings, i, pos), strings[i]) == learned(strings, i),
{
    let table = learned(strings, i);
    let known = learned(strings, i - 1);
    if code >= 256 {
        assert(i > 0);
        let last = strings[i - 1].push(strings[i][0]);
        if code - 257 < known.len() {
            assert(table[code - 257] == known[code - 257]);
        } else {
            assert(table == known.push(last));
            assert(strings[i] == last);
            assert(strings[i - 1].len() > 0);
            assert(last[0] == strings[i - 1][0]);
        }
    }
}

proof fn all_are_strings(data: Seq<u8>, pos: int, strings: Seq<Seq<u8>>, i: int)
    requires
        told_at(data, pos, strings, i),
    ensures
        forall|k: int| i <= k < strings.len() ==> (#[trigger] strings[k]).len() > 0,
    decreases strings.len() - i,
{
    if i < strings.len() {
        all_are_strings(data, pos + width_at(strings, i), strings, i + 1);
    }
}

proof fn row_is_read(data: Seq<u8>, pos: int, strings: Seq<Seq<u8>>, i: int, out: Seq<u8>, size: nat)
    requires
        0 <= i <= strings.len(),
        0 <= pos,
        forall|k: int| 0 <= k < strings.len() ==> (#[trigger] strings[k]).len() > 0,
        told_at(data, pos, strings, i),
        size >= (out + strings_joined(strings, i)).len(),
    ensures
        lzw_run(data, reader_at(strings, i, pos), out, size) == lzw_run(
            data,
            reader_at(strings, strings.len() as int, told_end(pos, strings, i)),
            out + strings_joined(strings, i),
            size,
        ),
        told_end(pos, strings, i) >= pos,
    decreases strings.len() - i,
{
    if i == strings.len() {
        assert(out + strings_joined(strings, i) =~= out);
    } else {
        let s = reader_at(strings, i, pos);
        let w = width_at(strings, i);
        codes_are_just_wide_enough(257 + s.added.len() as int);
        string_is_found(strings, i, pos, lsb_value(data, pos, w) as int);
        assert(strings[i].len() > 0);
        let all = out + strings_joined(strings, i);
        assert((out + strings[i]) + strings_joined(strings, i + 1) =~= all);
        row_is_read(data, pos + w, strings, i + 1, out + strings[i], size);
    }
}

proof fn rows_are_read(data: Seq<u8>, pos: int, rows: Seq<Seq<Seq<u8>>>, out: Seq<u8>)
    requires
        0 <= pos,
        rows.len() > 0,
        rows_stand(data, pos, rows),
    ensures
        lzw_run(data, LzwState { pos, ..lzw_start() }, out, (out + rows_joined(rows)).len()) == Ok::<
            Seq<u8>,
            ErrorKind,
        >(out + rows_joined(rows)),
    decreases rows.len(),
{
    let strings = rows[0];
    let n = strings.len() as int;
    let all = out + rows_joined(rows);
    let now = out + strings_joined(strings, 0);
    let rest = rows.drop_first();
    let size = all.len();
    all_are_strings(data, pos, strings, 0);
    assert(reader_at(strings, 0, pos) == LzwState { pos, ..lzw_start() });
    assert(size >= now.len());
    row_is_read(data, pos, strings, 0, out, size);
    let end = told_end(pos, strings, 0);
    let s = reader_at(strings, n, end);
    if rows.len() == 1 {
        assert(rows_joined(rest) =~= seq![]);
        assert(now =~= all);
    } else {
        let w = width_at(strings, n);
        let next = cleared_end(pos, strings);
        codes_are_just_wide_enough(257 + s.added.len() as int);
        assert(now + rows_joined(rest) =~= all);
        let left = 8 * (n / 8 + 1) - n;
        assert(w * left >= w) by (nonlinear_arith)
            requires left >= 1, w >= 0;
        let used = (n + 1) % 8;
        assert(left == 1 + (if used == 0 { 0int } else { 8 - used }));
        assert(w * left == w + w * (left - 1)) by (nonlinear_arith);
        assert(w * 0 == 0) by (nonlinear_arith);
        if now.len() < size {
            assert(lzw_cleared(s, w) == LzwState { pos: next, ..lzw_start() });
        }
        rows_are_read(data, next, rest, now);
        if now.len() >= size {
            assert(rows_joined(rest).len() == 0);
            assert(now =~= all);
        }
    }
    assert(now.len() >= size ==> now.subrange(0, size as int) =~= all);
}

/// What a writer writes that cuts its input into strings, each of one byte or from its
/// table, empties the table whenever it likes, and makes each code just wide enough, is
/// read back.
pub proof fn written_rows_are_read_back(data: Seq<u8>, rows: Seq<Seq<Seq<u8>>>)
    requires
        rows.len() > 0,
        rows_stand(data, 0, rows),
    ensures
        lzw_decoded(data, rows_joined(rows).len()) == Ok::<Seq<u8>, ErrorKind>(rows_joined(rows)),
        fork_decoded(2, data, rows_joined(rows).len()) == Ok::<Seq<u8>, ErrorKind>(rows_joined(rows)),
{
    rows_are_read(data, 0, rows, seq![]);
    assert(Seq::<u8>::empty() + rows_joined(rows) =~= rows_joined(rows));
    assert(lzw_start() == LzwState { pos: 0, ..lzw_start() });
    crate::method_laws::low_half(2);
}

} // verus!
