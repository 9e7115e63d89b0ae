use vstd::prelude::*;
use crate::error::ErrorKind;
use crate::sitx::english::{text_of, Codes, Words};
use crate::sitx::english_laws::{
    all_bytes, all_text, at_most, is_letter, letters, start_after, token_text, written_tokens_are_read_back, Token,
};

verus! {

// A sentence is stored with the case of its first letter turned, so that the words of the
// dictionary need no command of their own there.

/// A letter of the alphabet in the other case; nothing else changes.
pub open spec fn flipped(b: u8) -> u8 {
    if 'A' <= b as char && b as char <= 'Z' {
        (b + 32) as u8
    } else if 'a' <= b as char && b as char <= 'z' {
        (b - 32) as u8
    } else {
        b
    }
}

pub open spec fn is_stop(b: u8) -> bool {
    b == '.' as u8 || b == '!' as u8 || b == '?' as u8
}

pub open spec fn is_gap(b: u8) -> bool {
    b == ' ' as u8 || b == 9 || b == 10 || b == 13
}

/// A sentence starts at `i`: only gaps stand between it and a stop, or the beginning.
pub open spec fn opens(s: Seq<u8>, i: int) -> bool
    decreases i,
{
    i <= 0 || is_stop(s[i - 1]) || (is_gap(s[i - 1]) && opens(s, i - 1))
}

/// The text with the first letter of every sentence in the other case.
pub open spec fn sentences_turned(s: Seq<u8>) -> Seq<u8> {
    Seq::new(
        s.len(),
        |i: int|
            if opens(s, i) {
                flipped(s[i])
            } else {
                s[i]
            },
    )
}

spec fn plain(s: Seq<u8>, from: int) -> Seq<Token> {
    Seq::new((s.len() - from) as nat, |i: int| Token::Plain(s[from + i]))
}

proof fn plain_bytes(codes: Codes, s: Seq<u8>, from: int)
    requires
        0 <= from <= s.len(),
    ensures
        all_bytes(codes, plain(s, from)) == s.skip(from),
    decreases s.len() - from,
{
    let ts = plain(s, from);
    if from < s.len() {
        plain_bytes(codes, s, from + 1);
        assert(ts.drop_first() =~= plain(s, from + 1));
        assert(seq![s[from]] + s.skip(from + 1) =~= s.skip(from));
    } else {
        assert(s.skip(from) =~= Seq::<u8>::empty());
    }
}

proof fn plain_text(codes: Codes, dict: Words, s: Seq<u8>, from: int)
    requires
        0 <= from <= s.len(),
    ensures
        all_text(codes, dict, plain(s, from), opens(s, from)) == sentences_turned(s).skip(from),
    decreases s.len() - from,
{
    let ts = plain(s, from);
    let all = sentences_turned(s);
    if from < s.len() {
        plain_text(codes, dict, s, from + 1);
        assert(ts.drop_first() =~= plain(s, from + 1));
        assert(start_after(ts[0], opens(s, from)) == opens(s, from + 1));
        assert(token_text(codes, dict, ts[0], opens(s, from)) =~= seq![all[from]]);
        assert(seq![all[from]] + all.skip(from + 1) =~= all.skip(from));
    } else {
        assert(all.skip(from) =~= Seq::<u8>::empty());
    }
}

/// Plain text comes out as it was stored, but for the first letters of its sentences.
pub proof fn sentences_start_in_the_other_case(codes: Codes, dict: Words, s: Seq<u8>)
    requires
        forall|i: int|
            0 <= i < s.len() ==> {
                &&& #[trigger] s[i] != codes.escape
                &&& s[i] != codes.word
                &&& s[i] != codes.first
                &&& s[i] != codes.upper
            },
    ensures
        text_of(seq![codes.escape, codes.word, codes.first, codes.upper] + s, s.len(), dict) == Ok::<
            Seq<u8>,
            ErrorKind,
        >(sentences_turned(s)),
{
    let ts = plain(s, 0);
    assert(s.skip(0) =~= s);
    assert(sentences_turned(s).skip(0) =~= sentences_turned(s));
    plain_bytes(codes, s, 0);
    plain_text(codes, dict, s, 0);
    written_tokens_are_read_back(codes, dict, ts, s.len());
}

/// How a word of small letters is written.
pub enum Writing {
    Small,
    Capital,
    Capitals,
}

/// The word in that writing: with small letters, with a capital first, or with capitals only.
pub open spec fn in_writing(word: Seq<u8>, how: Writing) -> Seq<u8> {
    match how {
        Writing::Small => word,
        Writing::Capital => Seq::new(
            word.len(),
            |i: int|
                if i == 0 {
                    (word[i] - 32) as u8
                } else {
                    word[i]
                },
        ),
        Writing::Capitals => Seq::new(word.len(), |i: int| (word[i] - 32) as u8),
    }
}

/// The code that stands before a word in that writing.
pub open spec fn code_of(codes: Codes, how: Writing) -> u8 {
    match how {
        Writing::Small => codes.word,
        Writing::Capital => codes.first,
        Writing::Capitals => codes.upper,
    }
}

pub open spec fn all_differ(codes: Codes) -> bool {
    &&& codes.escape != codes.word && codes.escape != codes.first && codes.escape != codes.upper
    &&& codes.word != codes.first && codes.word != codes.upper && codes.first != codes.upper
}

/// The bytes are small letters.
pub open spec fn is_small(word: Seq<u8>) -> bool {
    word.len() > 0 && forall|i: int| 0 <= i < word.len() ==> 'a' <= #[trigger] word[i] as char && word[i] as char <= 'z'
}

/// A word within a sentence is written as its code says, and so is what stands behind it; a
/// sentence starts right behind a stop.
pub proof fn words_are_written_as_asked(codes: Codes, dict: Words, lead: u8, how: Writing, index: nat, end: u8, next: u8)
    requires
        all_differ(codes),
        index < dict.len(),
        is_small(dict.word(index as int)),
        !is_letter(codes.escape),
        !is_letter(end),
        end != codes.escape,
        next != codes.escape && next != codes.word && next != codes.first && next != codes.upper,
    ensures
        ({
            let stored = seq![codes.escape, codes.word, codes.first, codes.upper] + (seq![codes.escape, lead] + (seq![
                code_of(codes, how),
            ] + letters(index) + seq![end] + seq![next]));
            let word = in_writing(dict.word(index as int), how);
            let behind = if is_stop(end) {
                flipped(next)
            } else {
                next
            };
            text_of(stored, (word.len() + 3) as nat, dict) == Ok::<Seq<u8>, ErrorKind>(
                seq![lead] + (word + seq![end] + seq![behind]),
            )
        }),
{
    let w = Token::Word { command: code_of(codes, how), index, end };
    let last = seq![Token::Plain(next)];
    let tail = seq![w, Token::Plain(next)];
    let ts = seq![Token::Escaped(lead), w, Token::Plain(next)];
    let word = in_writing(dict.word(index as int), how);
    assert(ts.drop_first() =~= tail);
    assert(tail.drop_first() =~= last);
    assert(last.drop_first() =~= Seq::<Token>::empty());
    assert(all_bytes(codes, last.drop_first()) =~= Seq::<u8>::empty());
    assert(all_bytes(codes, last) =~= seq![next]);
    assert(all_bytes(codes, tail) =~= seq![code_of(codes, how)] + letters(index) + seq![end] + seq![next]);
    assert(all_bytes(codes, ts) =~= seq![codes.escape, lead] + all_bytes(codes, tail));
    let behind = if is_stop(end) {
        flipped(next)
    } else {
        next
    };
    assert(start_after(w, false) == is_stop(end));
    assert(all_text(codes, dict, last.drop_first(), start_after(last[0], is_stop(end))) =~= Seq::<u8>::empty());
    assert(all_text(codes, dict, last, is_stop(end)) =~= seq![behind]);
    assert(token_text(codes, dict, w, false) =~= word + seq![end]);
    assert(all_text(codes, dict, tail, false) =~= word + seq![end] + seq![behind]);
    assert(start_after(ts[0], true) == false);
    assert(all_text(codes, dict, ts, true) =~= seq![lead] + (word + seq![end] + seq![behind]));
    written_tokens_are_read_back(codes, dict, ts, (word.len() + 3) as nat);
    assert(at_most(all_text(codes, dict, ts, true), (word.len() + 3) as nat) =~= all_text(codes, dict, ts, true));
}

/// A word that starts a sentence has the case of its first letter turned: without a command of
/// its own it comes with a capital.
pub proof fn first_words_are_turned(codes: Codes, dict: Words, how: Writing, index: nat, end: u8)
    requires
        all_differ(codes),
        index < dict.len(),
        is_small(dict.word(index as int)),
        !is_letter(codes.escape),
        !is_letter(end),
        end != codes.escape,
    ensures
        ({
            let stored = seq![codes.escape, codes.word, codes.first, codes.upper] + (seq![code_of(codes, how)] + letters(
                index,
            ) + seq![end]);
            let word = in_writing(dict.word(index as int), how);
            text_of(stored, (word.len() + 1) as nat, dict) == Ok::<Seq<u8>, ErrorKind>(
                word.update(0, flipped(word[0])) + seq![end],
            )
        }),
{
    let w = Token::Word { command: code_of(codes, how), index, end };
    let ts = seq![w];
    let word = in_writing(dict.word(index as int), how);
    assert(ts.drop_first() =~= Seq::<Token>::empty());
    assert(all_bytes(codes, ts.drop_first()) =~= Seq::<u8>::empty());
    assert(all_bytes(codes, ts) =~= seq![code_of(codes, how)] + letters(index) + seq![end]);
    assert(all_text(codes, dict, ts.drop_first(), start_after(w, true)) =~= Seq::<u8>::empty());
    assert(token_text(codes, dict, w, true) =~= word.update(0, flipped(word[0])) + seq![end]);
    assert(all_text(codes, dict, ts, true) =~= word.update(0, flipped(word[0])) + seq![end]);
    written_tokens_are_read_back(codes, dict, ts, (word.len() + 1) as nat);
    assert(at_most(all_text(codes, dict, ts, true), (word.len() + 1) as nat) =~= all_text(codes, dict, ts, true));
}

} // verus!
