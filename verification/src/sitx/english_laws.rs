use vstd::prelude::*;
use crate::error::{after, ErrorKind};
use crate::sitx::english::{
    cased, ends_sentence, index_from, is_lower, is_upper, letter_value, line_end, other_case, pointers_from,
    pointers_of, starts_after, text_from, text_of, word_at, Codes, Words,
};

verus! {

// === word lists ===============================================================

/// The words one to a line.
pub open spec fn lines(ws: Seq<Seq<u8>>) -> Seq<u8>
    decreases ws.len(),
{
    if ws.len() == 0 {
        seq![]
    } else {
        ws[0].push(0x0a) + lines(ws.drop_first())
    }
}

proof fn line_ends_at(bytes: Seq<u8>, pos: int, end: int)
    requires
        0 <= pos <= end < bytes.len(),
        bytes[end] == 0x0a,
        forall|i: int| pos <= i < end ==> (#[trigger] bytes[i]) != 0x0a,
    ensures
        line_end(bytes, pos) == Some(end),
    decreases end - pos,
{
    if pos < end {
        assert(bytes[pos] != 0x0a);
        line_ends_at(bytes, pos + 1, end);
    }
}

/// Some words stand one to a line from `at` on.
spec fn lines_stand(bytes: Seq<u8>, at: int, ws: Seq<Seq<u8>>) -> bool {
    0 <= at && at + lines(ws).len() <= bytes.len() && bytes.subrange(at, at + lines(ws).len()) == lines(ws)
}

proof fn lines_are_found(bytes: Seq<u8>, ws: Seq<Seq<u8>>, found: Seq<u32>)
    requires
        bytes.len() <= u32::MAX,
        found.len() > 0,
        lines_stand(bytes, found.last() as int, ws),
        forall|i: int| 0 <= i < ws.len() ==> !(#[trigger] ws[i]).contains(0x0a),
    ensures
        pointers_from(bytes, ws.len(), found) matches Ok(p) && p.len() == found.len() + ws.len() && found.is_prefix_of(p)
            && forall|i: int|
            0 <= i < ws.len() ==> (Words { bytes, pointers: p }).word(found.len() - 1 + i) == #[trigger] ws[i],
    decreases ws.len(),
{
    if ws.len() > 0 {
        let at = found.last() as int;
        let w = ws[0];
        let all = lines(ws);
        let rest = lines(ws.drop_first());
        let e = at + w.len();
        assert(!w.contains(0x0a));
        assert forall|i: int| at <= i < e implies (#[trigger] bytes[i]) != 0x0a by {
            assert(bytes.subrange(at, at + all.len())[i - at] == all[i - at]);
            assert(w[i - at] == bytes[i]);
        }
        assert(bytes[e] == 0x0a) by {
            assert(bytes.subrange(at, at + all.len())[w.len() as int] == all[w.len() as int]);
        }
        line_ends_at(bytes, at, e);
        let next = found.push((e + 1) as u32);
        assert(bytes.subrange(e + 1, e + 1 + rest.len()) =~= rest) by {
            assert forall|i: int| 0 <= i < rest.len() implies bytes[e + 1 + i] == rest[i] by {
                assert(bytes.subrange(at, at + all.len())[w.len() + 1 + i] == all[w.len() + 1 + i]);
            }
        }
        assert forall|i: int| 0 <= i < ws.drop_first().len() implies !(#[trigger] ws.drop_first()[i]).contains(0x0a) by {
            assert(ws.drop_first()[i] == ws[i + 1]);
        }
        lines_are_found(bytes, ws.drop_first(), next);
        let p = pointers_from(bytes, ws.len(), found)->Ok_0;
        assert(p.subrange(0, next.len() as int) =~= next);
        assert(p[found.len() as int] == next[found.len() as int]);
        assert(p[found.len() - 1] == next[found.len() - 1]);
        assert(p.subrange(0, found.len() as int) =~= found) by {
            assert forall|i: int| 0 <= i < found.len() implies p[i] == found[i] by {
                assert(p[i] == next[i]);
            }
        }
        let words = Words { bytes, pointers: p };
        assert forall|i: int| 0 <= i < ws.len() implies words.word(found.len() - 1 + i) == #[trigger] ws[i] by {
            if i == 0 {
                assert(words.word(found.len() - 1) =~= w) by {
                    assert forall|j: int| 0 <= j < w.len() implies bytes[at + j] == w[j] by {
                        assert(bytes.subrange(at, at + all.len())[j] == all[j]);
                    }
                }
            } else {
                assert(ws.drop_first()[i - 1] == ws[i]);
            }
        }
    } else {
        assert(found.subrange(0, found.len() as int) =~= found);
    }
}

/// Words that are listed one to a line are found by their number.
pub proof fn listed_words_are_found(ws: Seq<Seq<u8>>, behind: Seq<u8>)
    requires
        (lines(ws) + behind).len() <= u32::MAX,
        forall|i: int| 0 <= i < ws.len() ==> !(#[trigger] ws[i]).contains(0x0a),
    ensures
        ({
            let bytes = lines(ws) + behind;
            pointers_of(bytes, ws.len()) matches Ok(p) && (Words { bytes, pointers: p }).len() == ws.len() && forall|i: int|

                0 <= i < ws.len() ==> (Words { bytes, pointers: p }).word(i) == #[trigger] ws[i]
        }),
{
    let bytes = lines(ws) + behind;
    assert(bytes.subrange(0, lines(ws).len() as int) =~= lines(ws));
    lines_are_found(bytes, ws, seq![0u32]);
}

/// The words of a list, found by their number.
pub open spec fn dictionary_of(ws: Seq<Seq<u8>>, behind: Seq<u8>) -> Words {
    Words { bytes: lines(ws) + behind, pointers: pointers_of(lines(ws) + behind, ws.len())->Ok_0 }
}

// === numbers in letters =======================================================

/// The letter worth `d`, which is 1 to 52.
pub open spec fn letter(d: int) -> u8 {
    if d <= 26 {
        (0x61 + d - 1) as u8
    } else {
        (0x41 + d - 27) as u8
    }
}

/// The letters that spell a number.
pub open spec fn letters(n: nat) -> Seq<u8>
    decreases n,
{
    if n == 0 {
        seq![]
    } else {
        letters(((n - 1) / 52) as nat).push(letter((n - 1) % 52 + 1))
    }
}

pub open spec fn is_letter(b: u8) -> bool {
    is_upper(b) || is_lower(b)
}

proof fn letters_are_read(input: Seq<u8>, pos: int, n: nat)
    requires
        0 <= pos,
        pos + letters(n).len() <= input.len(),
        forall|i: int| 0 <= i < letters(n).len() ==> input[pos + i] == #[trigger] letters(n)[i],
    ensures
        index_from(input, pos, 0) == index_from(input, pos + letters(n).len(), n),
    decreases n,
{
    if n > 0 {
        let m = ((n - 1) / 52) as nat;
        let d = (n - 1) % 52 + 1;
        let k = letters(m).len();
        assert forall|i: int| 0 <= i < k implies input[pos + i] == #[trigger] letters(m)[i] by {
            assert(letters(n)[i] == letters(m)[i]);
        }
        letters_are_read(input, pos, m);
        assert(letters(n)[k as int] == letter(d));
        assert(is_letter(letter(d)) && letter_value(letter(d)) == d);
        assert(m * 52 + d == n);
    }
}

/// A number that is spelled in letters is read back, whatever follows that is no
/// letter.
pub proof fn spelled_index_is_read(input: Seq<u8>, pos: int, n: nat)
    requires
        0 <= pos,
        pos + letters(n).len() < input.len(),
        input.subrange(pos, pos + letters(n).len()) == letters(n),
        !is_letter(input[pos + letters(n).len()]),
    ensures
        index_from(input, pos, 0) == (n, Some(input[pos + letters(n).len()]), pos + letters(n).len() + 1),
{
    assert forall|i: int| 0 <= i < letters(n).len() implies input[pos + i] == #[trigger] letters(n)[i] by {
        assert(input.subrange(pos, pos + letters(n).len())[i] == letters(n)[i]);
    }
    letters_are_read(input, pos, n);
}

// === texts ====================================================================

/// What a writer has to say: a byte as it is, a byte behind the escape code, or a
/// word of the dictionary and the byte behind it.
pub enum Token {
    Plain(u8),
    Escaped(u8),
    Word { command: u8, index: nat, end: u8 },
}

/// The byte behind a word needs the escape code.
pub open spec fn needs_escape(codes: Codes, b: u8) -> bool {
    is_letter(b) || b == codes.escape
}

pub open spec fn is_command(codes: Codes, b: u8) -> bool {
    b == codes.word || b == codes.first || b == codes.upper
}

pub open spec fn token_ok(codes: Codes, dict: Words, t: Token) -> bool {
    match t {
        Token::Plain(c) => c != codes.escape && !is_command(codes, c),
        Token::Escaped(b) => true,
        Token::Word { command, index, end } => {
            &&& is_command(codes, command) && command != codes.escape
            &&& index < dict.len()
            &&& !is_letter(codes.escape)
        },
    }
}

pub open spec fn token_bytes(codes: Codes, t: Token) -> Seq<u8> {
    match t {
        Token::Plain(c) => seq![c],
        Token::Escaped(b) => seq![codes.escape, b],
        Token::Word { command, index, end } => seq![command] + letters(index) + (if needs_escape(codes, end) {
            seq![codes.escape, end]
        } else {
            seq![end]
        }),
    }
}

/// The text of a token; `start` says whether a sentence starts.
pub open spec fn token_text(codes: Codes, dict: Words, t: Token, start: bool) -> Seq<u8> {
    match t {
        Token::Plain(c) => seq![
            if start {
                other_case(c)
            } else {
                c
            },
        ],
        Token::Escaped(b) => seq![b],
        Token::Word { command, index, end } => cased(codes, command, dict.word(index as int), start).push(end),
    }
}

/// Whether a sentence starts after a token.
pub open spec fn start_after(t: Token, start: bool) -> bool {
    match t {
        Token::Plain(c) => {
            let b = if start {
                other_case(c)
            } else {
                c
            };
            starts_after(b, start && b == c)
        },
        Token::Escaped(b) => false,
        Token::Word { command, index, end } => ends_sentence(end),
    }
}

pub open spec fn all_bytes(codes: Codes, ts: Seq<Token>) -> Seq<u8>
    decreases ts.len(),
{
    if ts.len() == 0 {
        seq![]
    } else {
        token_bytes(codes, ts[0]) + all_bytes(codes, ts.drop_first())
    }
}

pub open spec fn all_text(codes: Codes, dict: Words, ts: Seq<Token>, start: bool) -> Seq<u8>
    decreases ts.len(),
{
    if ts.len() == 0 {
        seq![]
    } else {
        token_text(codes, dict, ts[0], start) + all_text(codes, dict, ts.drop_first(), start_after(ts[0], start))
    }
}

/// At most `n` bytes of `s`.
pub open spec fn at_most(s: Seq<u8>, n: nat) -> Seq<u8> {
    if n < s.len() {
        s.subrange(0, n as int)
    } else {
        s
    }
}

proof fn word_is_read(input: Seq<u8>, codes: Codes, dict: Words, pos: int, start: bool, t: Token)
    requires
        0 <= pos,
        t is Word,
        token_ok(codes, dict, t),
        pos + token_bytes(codes, t).len() <= input.len(),
        input.subrange(pos, pos + token_bytes(codes, t).len()) == token_bytes(codes, t),
    ensures
        input[pos] == t->command,
        word_at(input, codes, dict, input[pos], pos + 1, start) == Ok::<(Seq<u8>, bool, int), ErrorKind>(
            (token_text(codes, dict, t, start), start_after(t, start), pos + token_bytes(codes, t).len()),
        ),
{
    if let Token::Word { command, index, end } = t {
        let b = token_bytes(codes, t);
        let k = letters(index).len() as int;
        let part = input.subrange(pos, pos + b.len());
        assert(part[0] == command);
        assert(input.subrange(pos + 1, pos + 1 + k) =~= letters(index)) by {
            assert forall|i: int| 0 <= i < k implies input[pos + 1 + i] == letters(index)[i] by {
                assert(part[1 + i] == b[1 + i]);
            }
        }
        assert(part[1 + k] == b[1 + k]);
        if needs_escape(codes, end) {
            assert(part[2 + k] == b[2 + k]);
        }
        spelled_index_is_read(input, pos + 1, index);
    }
}

/// A token is read, or as much of it as is asked for.
#[verifier::spinoff_prover]
proof fn token_is_read(input: Seq<u8>, codes: Codes, dict: Words, pos: int, start: bool, t: Token, left: nat)
    requires
        0 <= pos,
        left > 0,
        token_ok(codes, dict, t),
        pos + token_bytes(codes, t).len() <= input.len(),
        input.subrange(pos, pos + token_bytes(codes, t).len()) == token_bytes(codes, t),
    ensures
        ({
            let text = token_text(codes, dict, t, start);
            let p = pos + token_bytes(codes, t).len();
            text_from(input, codes, dict, pos, start, left) == (if text.len() <= left {
                after(text, text_from(input, codes, dict, p, start_after(t, start), (left - text.len()) as nat))
            } else {
                Ok::<Seq<u8>, ErrorKind>(text.subrange(0, left as int))
            })
        }),
{
    let b = token_bytes(codes, t);
    let text = token_text(codes, dict, t, start);
    let part = input.subrange(pos, pos + b.len());
    assert(part[0] == b[0]);
    match t {
        Token::Plain(c) => {},
        Token::Escaped(e) => {
            assert(part[1] == b[1]);
        },
        Token::Word { command, index, end } => {
            word_is_read(input, codes, dict, pos, start, t);
            if text.len() == left {
                assert(text.subrange(0, left as int) =~= text);
                assert(text + seq![] =~= text);
            }
        },
    }
}

proof fn tokens_are_read(
    input: Seq<u8>,
    codes: Codes,
    dict: Words,
    pos: int,
    start: bool,
    ts: Seq<Token>,
    left: nat,
)
    requires
        0 <= pos <= input.len(),
        input.skip(pos) == all_bytes(codes, ts),
        forall|i: int| 0 <= i < ts.len() ==> token_ok(codes, dict, #[trigger] ts[i]),
    ensures
        text_from(input, codes, dict, pos, start, left) == Ok::<Seq<u8>, ErrorKind>(
            at_most(all_text(codes, dict, ts, start), left),
        ),
    decreases ts.len(),
{
    let all = all_text(codes, dict, ts, start);
    if ts.len() == 0 {
        assert(all_bytes(codes, ts).len() == 0);
        assert(at_most(all, left) =~= seq![]);
    } else if left == 0 {
        assert(at_most(all, left) =~= seq![]);
    } else {
        let t = ts[0];
        assert(token_ok(codes, dict, t));
        let b = token_bytes(codes, t);
        let text = token_text(codes, dict, t, start);
        let next = start_after(t, start);
        let rest = all_text(codes, dict, ts.drop_first(), next);
        let p = pos + b.len();
        assert(input.skip(pos).len() == input.len() - pos);
        assert(input.skip(p) =~= all_bytes(codes, ts.drop_first())) by {
            assert forall|i: int| 0 <= i < input.len() - p implies input[p + i] == all_bytes(codes, ts.drop_first())[i] by {
                assert(input.skip(pos)[b.len() + i] == all_bytes(codes, ts)[b.len() + i]);
            }
        }
        assert(input.subrange(pos, p) =~= b) by {
            assert forall|i: int| 0 <= i < b.len() implies input[pos + i] == b[i] by {
                assert(input.skip(pos)[i] == all_bytes(codes, ts)[i]);
            }
        }
        assert forall|i: int| 0 <= i < ts.drop_first().len() implies token_ok(codes, dict, #[trigger] ts.drop_first()[i]) by {
            assert(ts.drop_first()[i] == ts[i + 1]);
        }
        token_is_read(input, codes, dict, pos, start, t, left);
        if left < text.len() {
            assert(all.subrange(0, left as int) =~= text.subrange(0, left as int));
        } else {
            let less = (left - text.len()) as nat;
            tokens_are_read(input, codes, dict, p, next, ts.drop_first(), less);
            assert(text + at_most(rest, less) =~= at_most(all, left));
        }
    }
}

/// What a writer says in tokens is read back as their text, or as much of it as is
/// asked for.
pub proof fn written_tokens_are_read_back(codes: Codes, dict: Words, ts: Seq<Token>, size: nat)
    requires
        forall|i: int| 0 <= i < ts.len() ==> token_ok(codes, dict, #[trigger] ts[i]),
    ensures
        text_of(seq![codes.escape, codes.word, codes.first, codes.upper] + all_bytes(codes, ts), size, dict) == Ok::<
            Seq<u8>,
            ErrorKind,
        >(at_most(all_text(codes, dict, ts, true), size)),
{
    let input = seq![codes.escape, codes.word, codes.first, codes.upper] + all_bytes(codes, ts);
    assert(input.skip(4) =~= all_bytes(codes, ts));
    tokens_are_read(input, codes, dict, 4, true, ts, size);
}

proof fn escaped_text(codes: Codes, dict: Words, s: Seq<u8>, start: bool)
    ensures
        all_text(codes, dict, Seq::new(s.len(), |i: int| Token::Escaped(s[i])), start) == s,
    decreases s.len(),
{
    let ts = Seq::new(s.len(), |i: int| Token::Escaped(s[i]));
    if s.len() > 0 {
        escaped_text(codes, dict, s.drop_first(), false);
        assert(ts.drop_first() =~= Seq::new(s.drop_first().len(), |i: int| Token::Escaped(s.drop_first()[i])));
        assert(seq![s[0]] + s.drop_first() =~= s);
    } else {
        assert(all_text(codes, dict, ts, start) =~= s);
    }
}

/// Any text can be written, whatever the codes and the dictionary: each byte behind
/// the escape code.
pub proof fn escaped_text_is_read_back(codes: Codes, dict: Words, s: Seq<u8>)
    ensures
        text_of(
            seq![codes.escape, codes.word, codes.first, codes.upper] + all_bytes(
                codes,
                Seq::new(s.len(), |i: int| Token::Escaped(s[i])),
            ),
            s.len(),
            dict,
        ) == Ok::<Seq<u8>, ErrorKind>(s),
{
    let ts = Seq::new(s.len(), |i: int| Token::Escaped(s[i]));
    written_tokens_are_read_back(codes, dict, ts, s.len());
    escaped_text(codes, dict, s, true);
}

} // verus!
