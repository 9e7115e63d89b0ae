use vstd::prelude::*;
use crate::bits::{lsb_value, BitReaderLsb};
use crate::error::{bytes_of, ErrorKind};

verus! {

/// The code that empties the table.
pub const CLEAR: u32 = 256;

/// How many codes a table can hold.
pub const TABLE_LIMIT: usize = 16384;

/// How many bits a code has while the table holds `n` codes.
pub open spec fn code_width(n: int) -> nat {
    if n < 512 {
        9
    } else if n < 1024 {
        10
    } else if n < 2048 {
        11
    } else if n < 4096 {
        12
    } else if n < 8192 {
        13
    } else {
        14
    }
}

/// What a decoder of the `compress` format knows between two codes: the strings
/// behind the codes from 257 on, the string of the code before, how many codes
/// have come since the table was emptied, and the bit position.
pub struct LzwState {
    pub added: Seq<Seq<u8>>,
    pub previous: Option<Seq<u8>>,
    pub count: nat,
    pub pos: int,
}

pub open spec fn lzw_start() -> LzwState {
    LzwState { added: seq![], previous: None, count: 0, pos: 0 }
}

/// The state after a clear code of `width` bits at `s.pos`: codes come in groups
/// of eight, and the rest of the group is skipped.
pub open spec fn lzw_cleared(s: LzwState, width: nat) -> LzwState {
    let used = (s.count + 1) % 8;
    let skipped = if used == 0 {
        0
    } else {
        width * (8 - used)
    };
    LzwState { added: seq![], previous: None, count: 0, pos: s.pos + width + skipped }
}

/// The string behind `code`, which may be the one that is about to be added.
pub open spec fn lzw_string(s: LzwState, code: int) -> Option<Seq<u8>> {
    if code < 256 {
        Some(seq![code as u8])
    } else if s.previous is None {
        None
    } else if 257 <= code < 257 + s.added.len() {
        Some(s.added[code - 257])
    } else if code == 257 + s.added.len() {
        Some(s.previous->0.push(s.previous->0[0]))
    } else {
        None
    }
}

/// The table once `string` has followed the previous string.
pub open spec fn lzw_grown(s: LzwState, string: Seq<u8>) -> Seq<Seq<u8>> {
    if s.previous is Some && 257 + s.added.len() < TABLE_LIMIT {
        s.added.push(s.previous->0.push(string[0]))
    } else {
        s.added
    }
}

/// The first `size` bytes, given that `out` has been decoded up to `s`.
pub open spec fn lzw_run(data: Seq<u8>, s: LzwState, out: Seq<u8>, size: nat) -> Result<Seq<u8>, ErrorKind>
    decreases 8 * data.len() - s.pos,
{
    let width = code_width(257 + s.added.len() as int);
    if out.len() >= size {
        Ok(out.subrange(0, size as int))
    } else if s.pos + width > 8 * data.len() {
        Err(ErrorKind::UnexpectedEof)
    } else {
        let code = lsb_value(data, s.pos, width);
        if code == 256 {
            let t = lzw_cleared(s, width);
            if t.pos > 8 * data.len() {
                Err(ErrorKind::UnexpectedEof)
            } else {
                lzw_run(data, t, out, size)
            }
        } else {
            match lzw_string(s, code as int) {
                None => Err(ErrorKind::InvalidData),
                Some(string) => lzw_run(
                    data,
                    LzwState {
                        added: lzw_grown(s, string),
                        previous: Some(string),
                        count: s.count + 1,
                        pos: s.pos + width,
                    },
                    out + string,
                    size,
                ),
            }
        }
    }
}

/// The first `size` bytes of a `compress` stream with codes of up to 14 bits.
pub open spec fn lzw_decoded(data: Seq<u8>, size: nat) -> Result<Seq<u8>, ErrorKind> {
    lzw_run(data, lzw_start(), seq![], size)
}

// === what is written is read back =============================================

/// The strings that a writer has added to its table once it has written the first
/// `i` of `strings` and knows the one after them: each string with the first byte of
/// the next.
pub open spec fn writer_table(strings: Seq<Seq<u8>>, i: int) -> Seq<Seq<u8>>
    decreases i,
{
    if i <= 0 {
        seq![]
    } else {
        let t = writer_table(strings, i - 1);
        if 257 + t.len() < TABLE_LIMIT {
            t.push(strings[i - 1].push(strings[i][0]))
        } else {
            t
        }
    }
}

/// `code` stands for string number `i`: a single byte, or one from the writer's table.
pub open spec fn code_stands_for(strings: Seq<Seq<u8>>, i: int, code: int) -> bool {
    let table = writer_table(strings, i);
    ||| 0 <= code < 256 && strings[i] == seq![code as u8]
    ||| 257 <= code < 257 + table.len() && strings[i] == table[code - 257]
}

/// The codes for the strings from number `i` on stand at `pos`, each as wide as the
/// reader's table makes it.
pub open spec fn codes_stand(data: Seq<u8>, pos: int, strings: Seq<Seq<u8>>, i: int) -> bool
    decreases strings.len() - i,
{
    i < strings.len() ==> {
        let width = code_width(257 + reader_table(strings, i).len() as int);
        &&& pos + width <= 8 * data.len()
        &&& code_stands_for(strings, i, lsb_value(data, pos, width) as int)
        &&& codes_stand(data, pos + width, strings, i + 1)
    }
}

/// The reader's table before string number `i`: one string behind the writer's.
pub open spec fn reader_table(strings: Seq<Seq<u8>>, i: int) -> Seq<Seq<u8>> {
    writer_table(strings, i - 1)
}

/// The strings from number `i` on, one behind the other.
pub open spec fn strings_joined(strings: Seq<Seq<u8>>, i: int) -> Seq<u8>
    decreases strings.len() - i,
{
    if i >= strings.len() {
        seq![]
    } else {
        strings[i] + strings_joined(strings, i + 1)
    }
}

/// The reader's state before string number `i`.
spec fn reader_state(strings: Seq<Seq<u8>>, i: int, pos: int) -> LzwState {
    LzwState {
        added: reader_table(strings, i),
        previous: if i > 0 {
            Some(strings[i - 1])
        } else {
            None
        },
        count: i as nat,
        pos,
    }
}

/// The reader finds the string that a code stands for, though its table is one
/// string behind.
proof fn reader_finds_string(strings: Seq<Seq<u8>>, i: int, pos: int, code: int)
    requires
        0 <= i < strings.len(),
        forall|k: int| 0 <= k < strings.len() ==> (#[trigger] strings[k]).len() > 0,
        code_stands_for(strings, i, code),
    ensures
        lzw_string(reader_state(strings, i, pos), code) == Some(strings[i]),
        code != 256,
        lzw_grown(reader_state(strings, i, pos), strings[i]) == reader_table(strings, i + 1),
{
    let table = writer_table(strings, i);
    let known = reader_table(strings, i);
    if code >= 256 {
        assert(i > 0);
        let last = strings[i - 1].push(strings[i][0]);
        if code - 257 < known.len() {
            assert(table[code - 257] == known[code - 257]);
        } else {
            assert(table == known.push(last));
            assert(strings[i] == last);
            assert(strings[i - 1].len() > 0);
            assert(last[0] == strings[i - 1][0]);
            assert(strings[i][0] == strings[i - 1][0]);
        }
    }
}

proof fn strings_are_read(data: Seq<u8>, pos: int, strings: Seq<Seq<u8>>, i: int, out: Seq<u8>)
    requires
        0 <= i <= strings.len(),
        0 <= pos,
        forall|k: int| 0 <= k < strings.len() ==> (#[trigger] strings[k]).len() > 0,
        codes_stand(data, pos, strings, i),
    ensures
        lzw_run(data, reader_state(strings, i, pos), out, (out + strings_joined(strings, i)).len()) == Ok::<
            Seq<u8>,
            ErrorKind,
        >(out + strings_joined(strings, i)),
    decreases strings.len() - i,
{
    let all = out + strings_joined(strings, i);
    if i == strings.len() {
        assert(all =~= out);
        assert(out.subrange(0, out.len() as int) =~= out);
    } else {
        let s = reader_state(strings, i, pos);
        let width = code_width(257 + s.added.len() as int);
        let code = lsb_value(data, pos, width) as int;
        reader_finds_string(strings, i, pos, code);
        assert(strings[i].len() > 0);
        strings_are_read(data, pos + width, strings, i + 1, out + strings[i]);
        assert((out + strings[i]) + strings_joined(strings, i + 1) =~= all);
    }
}

/// A writer that cuts its input into strings, each of one byte or from its table,
/// and writes their codes, is read back.
pub proof fn written_strings_are_read_back(data: Seq<u8>, strings: Seq<Seq<u8>>)
    requires
        forall|k: int| 0 <= k < strings.len() ==> (#[trigger] strings[k]).len() > 0,
        codes_stand(data, 0, strings, 0),
    ensures
        lzw_decoded(data, strings_joined(strings, 0).len()) == Ok::<Seq<u8>, ErrorKind>(strings_joined(strings, 0)),
{
    strings_are_read(data, 0, strings, 0, seq![]);
    assert(Seq::<u8>::empty() + strings_joined(strings, 0) =~= strings_joined(strings, 0));
}

/// A stretch of the output.
#[derive(Clone, Copy)]
struct Span {
    start: usize,
    len: usize,
}

/// The stretch is `string`.
spec fn span_is(out: Seq<u8>, sp: Span, string: Seq<u8>) -> bool {
    &&& string.len() == sp.len
    &&& sp.len > 0
    &&& sp.start + sp.len <= out.len()
    &&& out.subrange(sp.start as int, sp.start + sp.len) == string
}

proof fn span_is_kept(out: Seq<u8>, more: Seq<u8>, sp: Span, string: Seq<u8>)
    requires
        span_is(out, sp, string),
    ensures
        span_is(out + more, sp, string),
{
    assert((out + more).subrange(sp.start as int, sp.start + sp.len) =~= out.subrange(sp.start as int, sp.start + sp.len));
}

fn width_of(n: usize) -> (r: u32)
    ensures
        r == code_width(n as int),
{
    if n < 512 {
        9
    } else if n < 1024 {
        10
    } else if n < 2048 {
        11
    } else if n < 4096 {
        12
    } else if n < 8192 {
        13
    } else {
        14
    }
}

/// Append a copy of a stretch of `out` to it.
fn repeat_span(out: &mut Vec<u8>, sp: Span)
    requires
        sp.start + sp.len <= old(out)@.len(),
    ensures
        final(out)@ == old(out)@ + old(out)@.subrange(sp.start as int, sp.start + sp.len),
{
    let limit: usize = out.len();
    let mut k: usize = 0;
    let ghost string = old(out)@.subrange(sp.start as int, sp.start + sp.len);
    while k < sp.len
        invariant
            k <= sp.len,
            sp.start + sp.len <= limit == old(out)@.len(),
            string == old(out)@.subrange(sp.start as int, sp.start + sp.len),
            out@ == old(out)@ + string.subrange(0, k as int),
        decreases sp.len - k,
    {
        let b: u8 = out[sp.start + k];
        out.push(b);
        k = k + 1;
        assert(out@ =~= old(out)@ + string.subrange(0, k as int));
    }
    assert(string.subrange(0, sp.len as int) =~= string);
    assert(out@ =~= old(out)@ + string);
}

/// Decode the first `size` bytes of a `compress` stream with codes of up to 14 bits.
pub fn decompress(data: &[u8], size: usize) -> (r: Result<Vec<u8>, ErrorKind>)
    ensures
        bytes_of(r) == lzw_decoded(data@, size as nat),
{
    let mut bits = BitReaderLsb::new(data);
    let mut out: Vec<u8> = Vec::new();
    let mut spans: Vec<Span> = Vec::new();
    let mut previous: Option<Span> = None;
    let mut phase: u32 = 0;
    let ghost mut s = lzw_start();
    while out.len() < size
        invariant
            bits.wf(),
            bits.data() == data@,
            bits.pos() == s.pos,
            phase == s.count % 8,
            spans@.len() == s.added.len(),
            257 + spans@.len() <= TABLE_LIMIT,
            forall|k: int| 0 <= k < spans@.len() ==> span_is(out@, #[trigger] spans@[k], s.added[k]),
            previous is Some == s.previous is Some,
            previous is Some ==> {
                &&& span_is(out@, previous->0, s.previous->0)
                &&& previous->0.start + previous->0.len == out@.len()
            },
            lzw_run(data@, s, out@, size as nat) == lzw_decoded(data@, size as nat),
        decreases 8 * data@.len() - bits.pos(),
    {
        let n: usize = 257 + spans.len();
        let width: u32 = width_of(n);
        let code: u32 = match bits.read_bits(width) {
            Some(c) => c,
            None => {
                return Err(ErrorKind::UnexpectedEof);
            },
        };
        if code == CLEAR {
            let used: u32 = (phase + 1) % 8;
            let ghost t = lzw_cleared(s, width as nat);
            proof {
                assert((s.count + 1) % 8 == used);
                assert(width * (8 - used) <= 14 * 8) by (nonlinear_arith)
                    requires width <= 14, 0 <= used < 8;
            }
            if used != 0 {
                let mut left: u32 = 8 - used;
                while left > 0
                    invariant
                        left <= 8,
                        9 <= width <= 14,
                        bits.wf(),
                        bits.data() == data@,
                        bits.pos() + width * left == t.pos,
                        t.pos > 8 * data@.len() ==> lzw_decoded(data@, size as nat) == Err::<Seq<u8>, ErrorKind>(
                            ErrorKind::UnexpectedEof,
                        ),
                        s.pos < bits.pos() <= 8 * data@.len(),
                    decreases left,
                {
                    let ghost pos0 = bits.pos();
                    proof {
                        assert(width * left == width * (left - 1) + width) by (nonlinear_arith);
                        assert(width * (left - 1) >= 0) by (nonlinear_arith)
                            requires left >= 1, width >= 0;
                    }
                    if bits.read_bits(width).is_none() {
                        return Err(ErrorKind::UnexpectedEof);
                    }
                    left = left - 1;
                }
                assert(width * left == 0) by (nonlinear_arith)
                    requires left == 0;
            }
            spans.clear();
            previous = None;
            phase = 0;
            proof {
                s = t;
            }
        } else {
            let ghost out0 = out@;
            let ghost s0 = s;
            let start: usize = out.len();
            if code < CLEAR {
                out.push(code as u8);
                assert(out@ =~= out0 + seq![code as u8]);
            } else {
                let prev: Span = match previous {
                    Some(p) => p,
                    None => {
                        return Err(ErrorKind::InvalidData);
                    },
                };
                let index: usize = code as usize - 257;
                if index < spans.len() {
                    repeat_span(&mut out, spans[index]);
                } else if index == spans.len() {
                    proof {
                        assert(out0[prev.start as int] == s.previous->0[0]);
                    }
                    repeat_span(&mut out, prev);
                    let b: u8 = out[prev.start];
                    out.push(b);
                    proof {
                        assert(out@ =~= out0 + s.previous->0.push(s.previous->0[0]));
                    }
                } else {
                    return Err(ErrorKind::InvalidData);
                }
            }
            let ghost string = lzw_string(s0, code as int)->0;
            assert(out@ == out0 + string);
            assert(string.len() > 0);
            proof {
                assert forall|k: int| 0 <= k < spans@.len() implies span_is(out@, #[trigger] spans@[k], s0.added[k]) by {
                    span_is_kept(out0, string, spans@[k], s0.added[k]);
                }
            }
            if let Some(p) = previous {
                if n < TABLE_LIMIT {
                    let grown = Span { start: p.start, len: p.len + 1 };
                    proof {
                        assert(out@.subrange(p.start as int, p.start + p.len + 1) =~= s0.previous->0.push(string[0]));
                    }
                    spans.push(grown);
                }
            }
            let here = Span { start, len: out.len() - start };
            assert(out@.subrange(start as int, out@.len() as int) =~= string);
            previous = Some(here);
            phase = (phase + 1) % 8;
            proof {
                s = LzwState {
                    added: lzw_grown(s0, string),
                    previous: Some(string),
                    count: s0.count + 1,
                    pos: s0.pos + width,
                };
            }
        }
    }
    out.truncate(size);
    Ok(out)
}

} // verus!
