use vstd::prelude::*;
use vstd::arithmetic::power2::pow2;
use crate::bits::lsb_value;
use crate::canonical::{canonical_is_prefix_free, has_room};
use crate::error::ErrorKind;
use crate::lzss::{copy_is_repetition, repetition_len, token_reaches, token_text, tokens_text, zero_ring, Token};
use crate::prefix_code::{
    canonical, lengths_ok, prefix_free, symbol_at, word_stands, written_word_is_read, BitOrder, CodeWord,
};
use crate::stuffit13::{
    bytes_from, code_at, decoded, length_command, lengths_from, match_at, static_words, word_length, words_at, Words,
    NUM_LITERAL_SYMBOLS, WINDOW_SIZE,
};
use crate::stuffit13_meta::meta_code_is_prefix_free;
use crate::stuffit13_sets::built_in_codes_have_room;
use crate::stuffit13_tables::{first_lengths, meta_words, offset_lengths, second_lengths};

verus! {

// Codes that are spelled in a header are read back, and so are the literals and
// matches behind it.

// === the codes ================================================================

/// How the length of the next word is told: as it is, that there is no word, by one
/// more or one less than the last, or the last one some more times. For these the
/// number follows in 1, 3 or 6 bits, as `kind` is 0, 1 or 2.
pub enum Command {
    Length(int),
    Absent,
    Longer,
    Shorter,
    Copies { kind: int, value: nat },
}

pub open spec fn command_ok(c: Command) -> bool {
    match c {
        Command::Length(n) => 1 <= n <= 31,
        Command::Copies { kind, value } => 0 <= kind <= 2,
        _ => true,
    }
}

pub open spec fn command_symbol(c: Command) -> int {
    match c {
        Command::Length(n) => n - 1,
        Command::Absent => 31,
        Command::Longer => 32,
        Command::Shorter => 33,
        Command::Copies { kind, value } => 34 + kind,
    }
}

/// How many bits follow the word of a command.
pub open spec fn command_bits(c: Command) -> nat {
    match c {
        Command::Copies { kind, value } => if kind == 0 {
            1
        } else if kind == 1 {
            3
        } else {
            6
        },
        _ => 0,
    }
}

/// The word length that a command tells, `length` being the last one.
pub open spec fn command_length(c: Command, length: int) -> int {
    match c {
        Command::Length(n) => n,
        Command::Absent => -1,
        Command::Longer => length + 1,
        Command::Shorter => length - 1,
        Command::Copies { kind, value } => length,
    }
}

/// For how many symbols it does.
pub open spec fn command_count(c: Command) -> nat {
    match c {
        Command::Copies { kind, value } => if kind == 0 {
            value + 1
        } else if kind == 1 {
            value + 3
        } else {
            value + 11
        },
        _ => 1,
    }
}

/// The word for a command.
pub open spec fn command_word(c: Command) -> CodeWord {
    meta_words(37)[command_symbol(c)]
}

pub open spec fn command_end(pos: int, c: Command) -> int {
    pos + command_word(c).len + command_bits(c)
}

/// The command stands at `pos`.
pub open spec fn command_stands(data: Seq<u8>, pos: int, c: Command) -> bool {
    &&& command_ok(c)
    &&& 0 <= pos
    &&& word_stands(command_word(c), BitOrder::LsbFirst, data, pos)
    &&& command_end(pos, c) <= 8 * data.len()
    &&& c matches Command::Copies { kind, value } ==> lsb_value(data, pos + command_word(c).len, command_bits(c)) == value
}

pub open spec fn commands_stand(data: Seq<u8>, pos: int, cs: Seq<Command>) -> bool
    decreases cs.len(),
{
    cs.len() > 0 ==> command_stands(data, pos, cs[0]) && commands_stand(data, command_end(pos, cs[0]), cs.drop_first())
}

pub open spec fn commands_end(pos: int, cs: Seq<Command>) -> int
    decreases cs.len(),
{
    if cs.len() == 0 {
        pos
    } else {
        commands_end(command_end(pos, cs[0]), cs.drop_first())
    }
}

/// The word lengths that the commands tell, the last one before them being `length`.
pub open spec fn lengths_told(cs: Seq<Command>, length: int) -> Seq<u32>
    decreases cs.len(),
{
    if cs.len() == 0 {
        seq![]
    } else {
        let length1 = command_length(cs[0], length);
        Seq::new(command_count(cs[0]), |i: int| word_length(length1)) + lengths_told(cs.drop_first(), length1)
    }
}

proof fn command_is_read(data: Seq<u8>, pos: int, c: Command, length: int)
    requires
        command_stands(data, pos, c),
    ensures
        symbol_at(meta_words(37), BitOrder::LsbFirst, data, pos) == Ok::<(i32, int), ErrorKind>(
            (command_symbol(c) as i32, pos + command_word(c).len),
        ),
        length_command(command_symbol(c), length, data, pos + command_word(c).len) == Ok::<(int, nat, int), ErrorKind>(
            (command_length(c, length), (command_count(c) - 1) as nat, command_end(pos, c)),
        ),
{
    meta_code_is_prefix_free();
    let k = command_symbol(c);
    assert(meta_words(37)[k].value == k);
    written_word_is_read(meta_words(37), k, BitOrder::LsbFirst, data, pos);
}

proof fn commands_are_read(data: Seq<u8>, pos: int, cs: Seq<Command>, found: Seq<u32>, length: int)
    requires
        commands_stand(data, pos, cs),
    ensures
        lengths_from(data, pos, found.len() + lengths_told(cs, length).len(), found, length) == Ok::<
            (Seq<u32>, int),
            ErrorKind,
        >((found + lengths_told(cs, length), commands_end(pos, cs))),
    decreases cs.len(),
{
    let all = lengths_told(cs, length);
    if cs.len() == 0 {
        assert(found + all =~= found);
    } else {
        let c = cs[0];
        let length1 = command_length(c, length);
        let now = Seq::new(command_count(c), |i: int| word_length(length1));
        let rest = lengths_told(cs.drop_first(), length1);
        command_is_read(data, pos, c, length);
        commands_are_read(data, command_end(pos, c), cs.drop_first(), found + now, length1);
        assert((found + now) + rest =~= found + all);
        assert((found + now).len() + rest.len() == found.len() + all.len());
        assert(now =~= Seq::new(((command_count(c) - 1) as nat) + 1, |i: int| word_length(length1)));
    }
}

/// A code whose word lengths are told at `pos` is read back.
pub proof fn written_code_is_read_back(data: Seq<u8>, pos: int, cs: Seq<Command>)
    requires
        commands_stand(data, pos, cs),
    ensures
        code_at(data, pos, lengths_told(cs, 0).len()) == Ok::<(Seq<CodeWord>, int), ErrorKind>(
            (canonical(lengths_told(cs, 0), 32), commands_end(pos, cs)),
        ),
{
    commands_are_read(data, pos, cs, seq![], 0);
    assert(Seq::<u32>::empty() + lengths_told(cs, 0) =~= lengths_told(cs, 0));
}

/// The codes of a header: for literals and lengths, for the same behind a match unless
/// one code serves for both, and for distances.
pub struct Codes {
    pub first: Seq<Command>,
    pub second: Option<Seq<Command>>,
    pub offset: Seq<Command>,
}

/// Where the second code ends, if there is one.
pub open spec fn second_end(codes: Codes) -> int {
    match codes.second {
        Some(cs) => commands_end(commands_end(8, codes.first), cs),
        None => commands_end(8, codes.first),
    }
}

/// The header stands at the start of the data.
pub open spec fn header_stands(data: Seq<u8>, codes: Codes) -> bool {
    let n = lengths_told(codes.offset, 0).len();
    &&& data.len() > 0
    &&& lsb_value(data, 0, 8) == n - 10 + (if codes.second is None {
        8int
    } else {
        0
    })
    &&& 10 <= n < 18
    &&& commands_stand(data, 8, codes.first)
    &&& lengths_told(codes.first, 0).len() == NUM_LITERAL_SYMBOLS
    &&& codes.second matches Some(cs) ==> commands_stand(data, commands_end(8, codes.first), cs) && lengths_told(
        cs,
        0,
    ).len() == NUM_LITERAL_SYMBOLS
    &&& commands_stand(data, second_end(codes), codes.offset)
}

/// The words of the codes.
pub open spec fn words_of(codes: Codes) -> Words {
    let first = canonical(lengths_told(codes.first, 0), 32);
    Words {
        first,
        second: match codes.second {
            Some(cs) => canonical(lengths_told(cs, 0), 32),
            None => first,
        },
        offset: canonical(lengths_told(codes.offset, 0), 32),
    }
}

/// The codes that a header tells are read back.
pub proof fn written_header_is_read_back(data: Seq<u8>, codes: Codes)
    requires
        header_stands(data, codes),
    ensures
        words_at(data) == Ok::<(Words, int), ErrorKind>(
            (words_of(codes), commands_end(second_end(codes), codes.offset)),
        ),
{
    written_code_is_read_back(data, 8, codes.first);
    if let Some(cs) = codes.second {
        written_code_is_read_back(data, commands_end(8, codes.first), cs);
    }
    written_code_is_read_back(data, second_end(codes), codes.offset);
}

/// A code that can be read: no word is the start of another.
pub open spec fn readable(words: Seq<CodeWord>) -> bool {
    &&& lengths_ok(words)
    &&& prefix_free(words)
    &&& forall|k: int| 0 <= k < words.len() && (#[trigger] words[k]).len < 32 ==> words[k].bits >> words[k].len == 0
}

/// Where there is room for the words, a code of the told lengths can be read.
pub proof fn roomy_code_is_readable(cs: Seq<Command>)
    requires
        has_room(lengths_told(cs, 0), 32),
    ensures
        readable(canonical(lengths_told(cs, 0), 32)),
{
    canonical_is_prefix_free(lengths_told(cs, 0), 32);
}

/// Every built-in code can be read.
pub proof fn built_in_codes_are_readable(t: int)
    requires
        1 <= t <= 5,
    ensures
        readable(static_words(t).first),
        readable(static_words(t).second),
        readable(static_words(t).offset),
{
    built_in_codes_have_room(t);
    canonical_is_prefix_free(first_lengths(t), 32);
    canonical_is_prefix_free(second_lengths(t), 32);
    canonical_is_prefix_free(offset_lengths(t), 32);
}

// === literals and matches =====================================================

/// The word of symbol `v` stands at `pos`, and `end` is the position after it.
pub open spec fn symbol_stands(words: Seq<CodeWord>, data: Seq<u8>, pos: int, v: int, end: int) -> bool {
    exists|k: int|
        0 <= k < words.len() && (#[trigger] words[k]).value == v && word_stands(words[k], BitOrder::LsbFirst, data, pos)
            && end == pos + words[k].len
}

/// The `n` bits at `pos` are worth `v`.
pub open spec fn bits_stand(data: Seq<u8>, pos: int, n: nat, v: int) -> bool {
    pos + n <= 8 * data.len() && lsb_value(data, pos, n) == v
}

/// Symbol `val`, which ends at `pos`, and what follows it up to `end` tell the length.
pub open spec fn length_stands(data: Seq<u8>, pos: int, val: int, length: nat, end: int) -> bool {
    ||| 0x100 <= val < 0x13e && length == val - 0x100 + 3 && end == pos
    ||| val == 0x13e && bits_stand(data, pos, 10, length - 65) && end == pos + 10
    ||| val == 0x13f && bits_stand(data, pos, 15, length - 65) && end == pos + 15
}

/// Symbol `bl` of the code for distances, which ends at `pos`, and what follows it up
/// to `end` tell the distance.
pub open spec fn distance_stands(data: Seq<u8>, pos: int, bl: int, distance: int, end: int) -> bool {
    ||| bl == 0 && distance == 1 && end == pos
    ||| bl == 1 && distance == 2 && end == pos
    ||| bl >= 2 && bits_stand(data, pos, (bl - 1) as nat, distance - 1 - pow2((bl - 1) as nat)) && end == pos + bl - 1
}

/// A token and how it is spelled: for a match the symbols that tell its length and its
/// distance, and the places where the parts end.
pub struct Spelling {
    pub token: Token,
    pub val: int,
    pub val_end: int,
    pub length_end: int,
    pub bl: int,
    pub bl_end: int,
    pub end: int,
}

/// The token stands at `pos`, in the code for the context.
pub open spec fn token_stands(words: Words, data: Seq<u8>, pos: int, second: bool, t: Spelling) -> bool {
    let code = if second {
        words.second
    } else {
        words.first
    };
    match t.token {
        Token::Literal(b) => symbol_stands(code, data, pos, b as int, t.end),
        Token::Match { distance, length } => {
            &&& 0x100 <= t.val <= 0x13f
            &&& symbol_stands(code, data, pos, t.val, t.val_end)
            &&& length_stands(data, t.val_end, t.val, length, t.length_end)
            &&& symbol_stands(words.offset, data, t.length_end, t.bl, t.bl_end)
            &&& distance_stands(data, t.bl_end, t.bl, distance, t.end)
        },
    }
}

/// The tokens stand one behind the other from `pos` on, and reach no further back than
/// the text `s` and the window.
pub open spec fn tokens_stand(
    words: Words,
    data: Seq<u8>,
    pos: int,
    second: bool,
    s: Seq<u8>,
    ts: Seq<Spelling>,
) -> bool
    decreases ts.len(),
{
    ts.len() > 0 ==> {
        &&& token_stands(words, data, pos, second, ts[0])
        &&& token_reaches(s, ts[0].token, WINDOW_SIZE as nat)
        &&& tokens_stand(words, data, ts[0].end, ts[0].token is Match, s + token_text(s, ts[0].token), ts.drop_first())
    }
}

pub open spec fn tokens_of(ts: Seq<Spelling>) -> Seq<Token> {
    Seq::new(ts.len(), |i: int| ts[i].token)
}

proof fn symbol_is_read(words: Seq<CodeWord>, data: Seq<u8>, pos: int, v: int, end: int)
    requires
        readable(words),
        symbol_stands(words, data, pos, v, end),
    ensures
        symbol_at(words, BitOrder::LsbFirst, data, pos) == Ok::<(i32, int), ErrorKind>((v as i32, end)),
{
    let k = choose|k: int|
        0 <= k < words.len() && (#[trigger] words[k]).value == v && word_stands(words[k], BitOrder::LsbFirst, data, pos)
            && end == pos + words[k].len;
    written_word_is_read(words, k, BitOrder::LsbFirst, data, pos);
}

proof fn tokens_are_read(words: Words, data: Seq<u8>, pos: int, second: bool, s: Seq<u8>, ts: Seq<Spelling>)
    requires
        readable(words.first),
        readable(words.second),
        readable(words.offset),
        tokens_stand(words, data, pos, second, s, ts),
    ensures
        bytes_from(
            words,
            data,
            pos,
            zero_ring(WINDOW_SIZE as nat).feed_all(s),
            second,
            tokens_text(s, tokens_of(ts)).len(),
        ) == Ok::<Seq<u8>, ErrorKind>(tokens_text(s, tokens_of(ts))),
    decreases ts.len(),
{
    if ts.len() > 0 {
        let r = zero_ring(WINDOW_SIZE as nat);
        let x = ts[0];
        let t = token_text(s, x.token);
        assert(tokens_of(ts)[0] == x.token);
        assert(tokens_of(ts).drop_first() =~= tokens_of(ts.drop_first()));
        let rest = tokens_text(s + t, tokens_of(ts.drop_first()));
        let all = tokens_text(s, tokens_of(ts));
        let code = if second {
            words.second
        } else {
            words.first
        };
        assert(all == t + rest);
        tokens_are_read(words, data, x.end, x.token is Match, s + t, ts.drop_first());
        match x.token {
            Token::Literal(b) => {
                symbol_is_read(code, data, pos, b as int, x.end);
                assert((s + t).drop_last() =~= s);
                assert(r.feed_all(s + t) == r.feed_all(s).feed(b));
                assert(all.len() > 0);
                assert(all.len() - 1 == rest.len());
            },
            Token::Match { distance, length } => {
                symbol_is_read(code, data, pos, x.val, x.val_end);
                symbol_is_read(words.offset, data, x.length_end, x.bl, x.bl_end);
                assert(match_at(words, x.val, data, x.val_end) == Ok::<(int, int, int), ErrorKind>(
                    (distance, length as int, x.end),
                ));
                copy_is_repetition(r, s, distance, length);
                repetition_len(s, distance, length);
                assert(all.len() - length == rest.len());
            },
        }
    }
}

/// A fork whose header announces some codes, behind which tokens are spelled, is read
/// back as the text of the tokens.
pub proof fn written_tokens_are_read_back(data: Seq<u8>, ts: Seq<Spelling>)
    requires
        words_at(data) matches Ok((words, pos)) && readable(words.first) && readable(words.second) && readable(
            words.offset,
        ) && tokens_stand(words, data, pos, false, seq![], ts),
    ensures
        ({
            let text = tokens_text(seq![], tokens_of(ts));
            decoded(data, text.len()) == Ok::<Seq<u8>, ErrorKind>(text)
        }),
{
    let (words, pos) = words_at(data)->Ok_0;
    tokens_are_read(words, data, pos, false, seq![], ts);
    let text = tokens_text(seq![], tokens_of(ts));
    if text.len() == 0 {
        assert(text =~= seq![]);
    }
}

/// A fork whose header picks a built-in code set, in which tokens are spelled behind it,
/// is read back as the text of the tokens.
pub proof fn tokens_of_a_built_in_set_are_read_back(data: Seq<u8>, t: int, ts: Seq<Spelling>)
    requires
        1 <= t <= 5,
        data.len() > 0,
        lsb_value(data, 0, 8) / 16 == t,
        tokens_stand(static_words(t), data, 8, false, seq![], ts),
    ensures
        ({
            let text = tokens_text(seq![], tokens_of(ts));
            decoded(data, text.len()) == Ok::<Seq<u8>, ErrorKind>(text)
        }),
{
    built_in_codes_are_readable(t);
    written_tokens_are_read_back(data, ts);
}

/// A fork whose header tells codes that have room for their words, in which tokens are
/// spelled behind it, is read back as the text of the tokens.
pub proof fn tokens_of_told_codes_are_read_back(data: Seq<u8>, codes: Codes, ts: Seq<Spelling>)
    requires
        header_stands(data, codes),
        has_room(lengths_told(codes.first, 0), 32),
        codes.second matches Some(cs) ==> has_room(lengths_told(cs, 0), 32),
        has_room(lengths_told(codes.offset, 0), 32),
        tokens_stand(words_of(codes), data, commands_end(second_end(codes), codes.offset), false, seq![], ts),
    ensures
        ({
            let text = tokens_text(seq![], tokens_of(ts));
            decoded(data, text.len()) == Ok::<Seq<u8>, ErrorKind>(text)
        }),
{
    written_header_is_read_back(data, codes);
    roomy_code_is_readable(codes.first);
    if let Some(cs) = codes.second {
        roomy_code_is_readable(cs);
    }
    roomy_code_is_readable(codes.offset);
    written_tokens_are_read_back(data, ts);
}

} // verus!
