use vstd::prelude::*;
use vstd::arithmetic::power2::{pow2, lemma2_to64, lemma_pow2_strictly_increases};
use crate::bits::{lsb_value, lsb_value_bound, BitReaderLsb};
use crate::error::{after, after_after, after_nothing, after_push, bytes_of, ErrorKind};
use crate::lzss::{zero_ring, LzssWindow, Ring};
use crate::prefix_code::{
    canonical, lengths_ok, symbol_at, symbol_from_range, symbols_below, BitOrder, CodeWord, PrefixCode,
};
use crate::stuffit13_tables::{
    build_meta_code, first_code, first_lengths, meta_words, offset_code, offset_lengths, second_code, second_lengths,
};

verus! {

/// The reach of a back-reference.
pub const WINDOW_SIZE: usize = 65536;

/// How many symbols a literal/length code has.
pub const NUM_LITERAL_SYMBOLS: usize = 321;

/// The code words of one fork: those used after a literal, those used after a
/// match, and those of the distances.
pub struct Words {
    pub first: Seq<CodeWord>,
    pub second: Seq<CodeWord>,
    pub offset: Seq<CodeWord>,
}

impl Words {
    pub open spec fn wf(self) -> bool {
        &&& lengths_ok(self.first)
        &&& lengths_ok(self.second)
        &&& lengths_ok(self.offset)
        &&& symbols_below(self.first, NUM_LITERAL_SYMBOLS as int)
        &&& symbols_below(self.second, NUM_LITERAL_SYMBOLS as int)
        &&& symbols_below(self.offset, 17)
    }
}

/// A field of `n` bits at `pos` and the position after it.
pub open spec fn field(data: Seq<u8>, pos: int, n: nat) -> Result<(nat, int), ErrorKind> {
    if pos + n > 8 * data.len() {
        Err(ErrorKind::UnexpectedEof)
    } else {
        Ok((lsb_value(data, pos, n), pos + n))
    }
}

/// What one command does to the running word length, how many extra copies of
/// the length it writes, and the position after it.
pub open spec fn length_command(symbol: int, length: int, data: Seq<u8>, pos: int) -> Result<
    (int, nat, int),
    ErrorKind,
> {
    if symbol == 31 {
        Ok((-1, 0, pos))
    } else if symbol == 32 {
        Ok((length + 1, 0, pos))
    } else if symbol == 33 {
        Ok((length - 1, 0, pos))
    } else if symbol == 34 {
        match field(data, pos, 1) {
            Ok((v, p)) => Ok((length, v, p)),
            Err(e) => Err(e),
        }
    } else if symbol == 35 {
        match field(data, pos, 3) {
            Ok((v, p)) => Ok((length, v + 2, p)),
            Err(e) => Err(e),
        }
    } else if symbol == 36 {
        match field(data, pos, 6) {
            Ok((v, p)) => Ok((length, v + 10, p)),
            Err(e) => Err(e),
        }
    } else {
        Ok((symbol + 1, 0, pos))
    }
}

/// The word lengths of `count` symbols, `lengths` being known already, and the
/// position after them. A length below 1 means that the symbol has no word.
pub open spec fn lengths_from(data: Seq<u8>, pos: int, count: nat, lengths: Seq<u32>, length: int) -> Result<
    (Seq<u32>, int),
    ErrorKind,
>
    decreases count - lengths.len(),
{
    if lengths.len() >= count {
        Ok((lengths, pos))
    } else {
        match symbol_at(meta_words(37), BitOrder::LsbFirst, data, pos) {
            Err(e) => Err(e),
            Ok((symbol, p)) => match length_command(symbol as int, length, data, p) {
                Err(e) => Err(e),
                Ok((length1, extra, p1)) => if lengths.len() + extra + 1 > count {
                    Err(ErrorKind::InvalidData)
                } else {
                    lengths_from(
                        data,
                        p1,
                        count,
                        lengths + Seq::new(extra + 1, |i: int| word_length(length1)),
                        length1,
                    )
                },
            },
        }
    }
}

pub open spec fn word_length(length: int) -> u32 {
    if length >= 1 {
        length as u32
    } else {
        0
    }
}

/// The code whose word lengths are spelled at `pos`.
pub open spec fn code_at(data: Seq<u8>, pos: int, count: nat) -> Result<(Seq<CodeWord>, int), ErrorKind> {
    match lengths_from(data, pos, count, seq![], 0) {
        Err(e) => Err(e),
        Ok((lengths, p)) => Ok((canonical(lengths, 32), p)),
    }
}

/// The built-in code set `t`, from 1 to 5.
pub open spec fn static_words(t: int) -> Words {
    Words {
        first: canonical(first_lengths(t), 32),
        second: canonical(second_lengths(t), 32),
        offset: canonical(offset_lengths(t), 32),
    }
}

/// The code set that the header announces and the position after the header. The
/// high half of the first byte picks a built-in set, or says with 0 that the
/// codes follow; then bit 3 says that one literal code serves both contexts and
/// the three bits below give the number of distance symbols.
pub open spec fn words_at(data: Seq<u8>) -> Result<(Words, int), ErrorKind> {
    match field(data, 0, 8) {
        Err(e) => Err(e),
        Ok((val, p)) => if val / 16 == 0 {
            match code_at(data, p, NUM_LITERAL_SYMBOLS as nat) {
                Err(e) => Err(e),
                Ok((first, p1)) => {
                    let second_code = if (val / 8) % 2 == 1 {
                        Ok((first, p1))
                    } else {
                        code_at(data, p1, NUM_LITERAL_SYMBOLS as nat)
                    };
                    match second_code {
                        Err(e) => Err(e),
                        Ok((second, p2)) => match code_at(data, p2, val % 8 + 10) {
                            Err(e) => Err(e),
                            Ok((offset, p3)) => Ok((Words { first, second, offset }, p3)),
                        },
                    }
                },
            }
        } else if val / 16 <= 5 {
            Ok((static_words((val / 16) as int), p))
        } else {
            Err(ErrorKind::InvalidData)
        },
    }
}

/// The length of the match that symbol `val` announces.
pub open spec fn length_at(val: int, data: Seq<u8>, pos: int) -> Result<(int, int), ErrorKind> {
    if val < 0x13e {
        Ok((val - 0x100 + 3, pos))
    } else if val == 0x13e {
        match field(data, pos, 10) {
            Ok((v, p)) => Ok(((v + 65) as int, p)),
            Err(e) => Err(e),
        }
    } else if val == 0x13f {
        match field(data, pos, 15) {
            Ok((v, p)) => Ok(((v + 65) as int, p)),
            Err(e) => Err(e),
        }
    } else {
        Err(ErrorKind::UnexpectedEof)
    }
}

/// The distance whose bit length is `bl`.
pub open spec fn offset_at(bl: int, data: Seq<u8>, pos: int) -> Result<(int, int), ErrorKind> {
    if bl == 0 {
        Ok((1, pos))
    } else if bl == 1 {
        Ok((2, pos))
    } else {
        match field(data, pos, (bl - 1) as nat) {
            Ok((v, p)) => Ok(((pow2((bl - 1) as nat) + v + 1) as int, p)),
            Err(e) => Err(e),
        }
    }
}

/// A match that starts with symbol `val`: its distance, its length and the
/// position after it.
pub open spec fn match_at(words: Words, val: int, data: Seq<u8>, pos: int) -> Result<(int, int, int), ErrorKind> {
    match length_at(val, data, pos) {
        Err(e) => Err(e),
        Ok((length, p)) => match symbol_at(words.offset, BitOrder::LsbFirst, data, p) {
            Err(e) => Err(e),
            Ok((bl, p1)) => match offset_at(bl as int, data, p1) {
                Err(e) => Err(e),
                Ok((offset, p2)) => Ok((offset, length, p2)),
            },
        },
    }
}

/// The next `left` bytes. A match that would run past them is cut short.
pub open spec fn bytes_from(words: Words, data: Seq<u8>, pos: int, ring: Ring, second: bool, left: nat) -> Result<
    Seq<u8>,
    ErrorKind,
>
    decreases left,
{
    if left == 0 {
        Ok(seq![])
    } else {
        let code = if second {
            words.second
        } else {
            words.first
        };
        match symbol_at(code, BitOrder::LsbFirst, data, pos) {
            Err(e) => Err(e),
            Ok((val, p)) => if val < 0x100 {
                after(seq![val as u8], bytes_from(words, data, p, ring.feed(val as u8), false, (left - 1) as nat))
            } else {
                match match_at(words, val as int, data, p) {
                    Err(e) => Err(e),
                    Ok((offset, length, p1)) => {
                        let n = if length < left {
                            length as nat
                        } else {
                            left
                        };
                        after(
                            ring.copied(offset, n),
                            bytes_from(words, data, p1, ring.after_copy(offset, n), true, (left - n) as nat),
                        )
                    },
                }
            },
        }
    }
}

/// The first `outlen` bytes of a fork.
pub open spec fn decoded(data: Seq<u8>, outlen: nat) -> Result<Seq<u8>, ErrorKind> {
    if outlen == 0 {
        Ok(seq![])
    } else {
        match words_at(data) {
            Err(e) => Err(e),
            Ok((words, pos)) => bytes_from(words, data, pos, zero_ring(WINDOW_SIZE as nat), false, outlen),
        }
    }
}

/// The executable code set.
struct Tables {
    first: PrefixCode,
    second: PrefixCode,
    offset: PrefixCode,
}

impl Tables {
    spec fn view(&self) -> Words {
        Words { first: self.first.view(), second: self.second.view(), offset: self.offset.view() }
    }
}

fn read_field(bits: &mut BitReaderLsb, n: u32) -> (r: Result<u32, ErrorKind>)
    requires
        old(bits).wf(),
        n <= 32,
    ensures
        final(bits).wf(),
        final(bits).data() == old(bits).data(),
        match r {
            Ok(v) => field(old(bits).data(), old(bits).pos(), n as nat) == Ok::<(nat, int), ErrorKind>(
                (v as nat, final(bits).pos()),
            ) && v < pow2(n as nat),
            Err(e) => field(old(bits).data(), old(bits).pos(), n as nat) == Err::<(nat, int), ErrorKind>(e),
        },
{
    proof {
        lsb_value_bound(bits.data(), bits.pos(), n as nat);
    }
    match bits.read_bits(n) {
        Some(v) => Ok(v),
        None => Err(ErrorKind::UnexpectedEof),
    }
}

/// Read the word lengths of `numcodes` symbols and build their code.
fn parse_code(bits: &mut BitReaderLsb, numcodes: usize, meta: &PrefixCode) -> (r: Result<PrefixCode, ErrorKind>)
    requires
        old(bits).wf(),
        meta.view() == meta_words(37),
        lengths_ok(meta.view()),
        symbols_below(meta.view(), 37),
        numcodes <= 1000,
    ensures
        final(bits).wf(),
        final(bits).data() == old(bits).data(),
        match r {
            Ok(c) => {
                &&& code_at(old(bits).data(), old(bits).pos(), numcodes as nat) == Ok::<(Seq<CodeWord>, int), ErrorKind>(
                    (c.view(), final(bits).pos()),
                )
                &&& lengths_ok(c.view())
                &&& symbols_below(c.view(), numcodes as int)
            },
            Err(e) => code_at(old(bits).data(), old(bits).pos(), numcodes as nat) == Err::<
                (Seq<CodeWord>, int),
                ErrorKind,
            >(e),
        },
{
    let mut lengths: Vec<u32> = Vec::new();
    let mut length: i32 = 0;
    while lengths.len() < numcodes
        invariant
            bits.wf(),
            bits.data() == old(bits).data(),
            meta.view() == meta_words(37),
            lengths_ok(meta.view()),
            symbols_below(meta.view(), 37),
            numcodes <= 1000,
            lengths@.len() <= numcodes,
            -1 - lengths@.len() <= length <= 37 + lengths@.len(),
            lengths_from(bits.data(), bits.pos(), numcodes as nat, lengths@, length as int) == lengths_from(
                old(bits).data(),
                old(bits).pos(),
                numcodes as nat,
                seq![],
                0,
            ),
        decreases numcodes - lengths@.len(),
    {
        let ghost lengths0 = lengths@;
        let ghost length0 = length;
        proof {
            symbol_from_range(meta.view(), BitOrder::LsbFirst, bits.data(), bits.pos(), 0, 0, 37);
        }
        let val: i32 = match meta.next_symbol_le(bits) {
            Ok(v) => v,
            Err(e) => {
                return Err(e);
            },
        };
        let ghost p = bits.pos();
        let mut extra: u32 = 0;
        proof {
            lemma2_to64();
        }
        if val == 31 {
            length = -1;
        } else if val == 32 {
            length = length + 1;
        } else if val == 33 {
            length = length - 1;
        } else if val == 34 {
            extra = match read_field(bits, 1) {
                Ok(v) => v,
                Err(e) => {
                    return Err(e);
                },
            };
        } else if val == 35 {
            extra = match read_field(bits, 3) {
                Ok(v) => v + 2,
                Err(e) => {
                    return Err(e);
                },
            };
        } else if val == 36 {
            extra = match read_field(bits, 6) {
                Ok(v) => v + 10,
                Err(e) => {
                    return Err(e);
                },
            };
        } else {
            length = val + 1;
        }
        assert(length_command(val as int, length0 as int, bits.data(), p) == Ok::<(int, nat, int), ErrorKind>(
            (length as int, extra as nat, bits.pos()),
        ));
        if lengths.len() + extra as usize + 1 > numcodes {
            return Err(ErrorKind::InvalidData);
        }
        let w: u32 = if length >= 1 {
            length as u32
        } else {
            0
        };
        let ghost written = Seq::new((extra + 1) as nat, |i: int| word_length(length as int));
        let mut k: u32 = 0;
        while k <= extra
            invariant
                extra <= 80,
                k <= extra + 1,
                w == word_length(length as int),
                written == Seq::new((extra + 1) as nat, |i: int| word_length(length as int)),
                lengths@ == lengths0 + written.subrange(0, k as int),
            decreases extra + 1 - k,
        {
            lengths.push(w);
            k = k + 1;
            assert(lengths@ =~= lengths0 + written.subrange(0, k as int));
        }
        assert(written.subrange(0, extra + 1) =~= written);
    }
    Ok(PrefixCode::from_lengths(lengths.as_slice(), 32))
}

/// Read the header and build the code set.
fn read_header(bits: &mut BitReaderLsb) -> (r: Result<Tables, ErrorKind>)
    requires
        old(bits).wf(),
        old(bits).pos() == 0,
    ensures
        final(bits).wf(),
        final(bits).data() == old(bits).data(),
        match r {
            Ok(t) => {
                &&& words_at(old(bits).data()) == Ok::<(Words, int), ErrorKind>((t.view(), final(bits).pos()))
                &&& t.view().wf()
            },
            Err(e) => words_at(old(bits).data()) == Err::<(Words, int), ErrorKind>(e),
        },
{
    proof {
        lemma2_to64();
    }
    let val: u32 = match read_field(bits, 8) {
        Ok(v) => v,
        Err(e) => {
            return Err(e);
        },
    };
    let code: u32 = val / 16;
    if code == 0 {
        let meta = build_meta_code();
        let first = match parse_code(bits, NUM_LITERAL_SYMBOLS, &meta) {
            Ok(c) => c,
            Err(e) => {
                return Err(e);
            },
        };
        let second = if (val / 8) % 2 == 1 {
            first.copy()
        } else {
            match parse_code(bits, NUM_LITERAL_SYMBOLS, &meta) {
                Ok(c) => c,
                Err(e) => {
                    return Err(e);
                },
            }
        };
        let offset = match parse_code(bits, (val % 8) as usize + 10, &meta) {
            Ok(c) => c,
            Err(e) => {
                return Err(e);
            },
        };
        Ok(Tables { first, second, offset })
    } else if code <= 5 {
        Ok(Tables { first: first_code(code), second: second_code(code), offset: offset_code(code) })
    } else {
        Err(ErrorKind::InvalidData)
    }
}

/// Read the rest of a match that starts with symbol `val`: its distance and length.
fn read_match(tables: &Tables, val: i32, bits: &mut BitReaderLsb) -> (r: Result<(usize, usize), ErrorKind>)
    requires
        old(bits).wf(),
        tables.view().wf(),
        0x100 <= val < 0x141,
    ensures
        final(bits).wf(),
        final(bits).data() == old(bits).data(),
        match r {
            Ok((offset, length)) => {
                &&& match_at(tables.view(), val as int, old(bits).data(), old(bits).pos()) == Ok::<
                    (int, int, int),
                    ErrorKind,
                >((offset as int, length as int, final(bits).pos()))
                &&& length >= 3
            },
            Err(e) => match_at(tables.view(), val as int, old(bits).data(), old(bits).pos()) == Err::<
                (int, int, int),
                ErrorKind,
            >(e),
        },
{
    proof {
        lemma2_to64();
    }
    let length: usize = if val < 0x13e {
        (val - 0x100 + 3) as usize
    } else if val == 0x13e {
        match read_field(bits, 10) {
            Ok(v) => v as usize + 65,
            Err(e) => {
                return Err(e);
            },
        }
    } else if val == 0x13f {
        match read_field(bits, 15) {
            Ok(v) => v as usize + 65,
            Err(e) => {
                return Err(e);
            },
        }
    } else {
        return Err(ErrorKind::UnexpectedEof);
    };
    proof {
        symbol_from_range(tables.offset.view(), BitOrder::LsbFirst, bits.data(), bits.pos(), 0, 0, 17);
    }
    let bl: i32 = match tables.offset.next_symbol_le(bits) {
        Ok(v) => v,
        Err(e) => {
            return Err(e);
        },
    };
    let offset: usize = if bl == 0 {
        1
    } else if bl == 1 {
        2
    } else {
        proof {
            if bl - 1 < 16 {
                lemma_pow2_strictly_increases((bl - 1) as nat, 16);
            }
            vstd::bits::lemma_usize_shl_is_mul(1, (bl - 1) as usize);
        }
        match read_field(bits, (bl - 1) as u32) {
            Ok(v) => (1usize << ((bl - 1) as usize)) + v as usize + 1,
            Err(e) => {
                return Err(e);
            },
        }
    };
    Ok((offset, length))
}

/// Decode the first `outlen` bytes of a method 13 fork.
pub fn decode(src: &[u8], outlen: usize) -> (r: Result<Vec<u8>, ErrorKind>)
    ensures
        bytes_of(r) == decoded(src@, outlen as nat),
{
    if outlen == 0 {
        return Ok(Vec::new());
    }
    let mut bits = BitReaderLsb::new(src);
    let tables = match read_header(&mut bits) {
        Ok(t) => t,
        Err(e) => {
            return Err(e);
        },
    };
    let mut window = LzssWindow::new(WINDOW_SIZE);
    let mut out: Vec<u8> = Vec::new();
    let mut second: bool = false;
    let ghost goal = decoded(src@, outlen as nat);
    proof {
        after_nothing(goal);
    }
    while out.len() < outlen
        invariant
            out@.len() <= outlen,
            bits.wf(),
            bits.data() == src@,
            tables.view().wf(),
            window.view().wf(),
            goal == decoded(src@, outlen as nat),
            goal == after(
                out@,
                bytes_from(
                    tables.view(),
                    src@,
                    bits.pos(),
                    window.view(),
                    second,
                    (outlen - out@.len()) as nat,
                ),
            ),
        decreases outlen - out@.len(),
    {
        let ghost left = (outlen - out@.len()) as nat;
        proof {
            symbol_from_range(tables.first.view(), BitOrder::LsbFirst, bits.data(), bits.pos(), 0, 0, 321);
            symbol_from_range(tables.second.view(), BitOrder::LsbFirst, bits.data(), bits.pos(), 0, 0, 321);
        }
        let symbol = if second {
            tables.second.next_symbol_le(&mut bits)
        } else {
            tables.first.next_symbol_le(&mut bits)
        };
        let val: i32 = match symbol {
            Ok(v) => v,
            Err(e) => {
                return Err(e);
            },
        };
        if val < 0x100 {
            proof {
                after_push(
                    out@,
                    val as u8,
                    bytes_from(
                        tables.view(),
                        src@,
                        bits.pos(),
                        window.view().feed(val as u8),
                        false,
                        (left - 1) as nat,
                    ),
                );
            }
            second = false;
            window.emit_literal(val as u8, &mut out);
        } else {
            let (offset, length) = match read_match(&tables, val, &mut bits) {
                Ok(m) => m,
                Err(e) => {
                    return Err(e);
                },
            };
            second = true;
            let remaining: usize = outlen - out.len();
            let n: usize = if length < remaining {
                length
            } else {
                remaining
            };
            proof {
                after_after(
                    out@,
                    window.view().copied(offset as int, n as nat),
                    bytes_from(
                        tables.view(),
                        src@,
                        bits.pos(),
                        window.view().after_copy(offset as int, n as nat),
                        true,
                        (left - n) as nat,
                    ),
                );
            }
            window.emit_match(offset as u64, n, &mut out);
        }
    }
    assert(out@ + seq![] =~= out@);
    Ok(out)
}

} // verus!
