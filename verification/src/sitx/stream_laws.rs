use vstd::prelude::*;
use vstd::arithmetic::div_mod::lemma_small_mod;
use crate::checksum::crc32;
use crate::error::ErrorKind;
use crate::rc4::rc4;
use crate::sitx::archive::{data_added, forks_of, total_from, AidsView, ParserState};
use crate::sitx::archive_laws::{all_known, entries_before, packed_forks_are_read_back, shows_forks};
use crate::sitx::blend::cut_to;
use crate::sitx::blend_laws;
use crate::sitx::cyanide_laws;
use crate::sitx::darkhorse::window_size;
use crate::sitx::darkhorse_laws;
use crate::sitx::elements::ElementView;
use crate::sitx::english::Codes;
use crate::sitx::english_laws;
use crate::sitx::iron_laws;
use crate::sitx::p2::block_stream;
use crate::sitx::ppmd::coding_laws;
use crate::sitx::ppmd::variant_g::{coder_kind, model_start, ModelState};
use crate::sitx::range_encoding::{items_written, sender_start, written};
use crate::sitx::stream::{
    machine_size, packed_stream_holds_its_content, postprocessed, scrambled_bytes_are_restored, stored_bytes_stay,
    stream_content, uncompressed, Content, StreamDescriptor,
};
use crate::sitx::x86;

verus! {

// Each method has its number. What the writer of a method wrote is read back from a
// stream that bears the number of that method.

/// How the bytes of a stream were packed.
pub enum Packed {
    /// As they are.
    Stored(Seq<u8>),
    /// Under a model with a heap of 2 to the `log_size` bytes, by the decisions that the
    /// writer takes.
    Brimstone { log_size: u8, order: u8, decisions: Seq<Seq<int>> },
    /// In blocks of sorted bytes.
    Cyanide(Seq<cyanide_laws::Block>),
    /// In messages that refer to what came before.
    Darkhorse { window_byte: u8, second: u8, messages: Seq<darkhorse_laws::Message> },
    /// In parts, each by a method of its own.
    Blend(Seq<blend_laws::Part>),
    /// Scrambled under a key of one byte, behind two bytes without meaning.
    Scrambled { x: u8, y: u8, key: u8, content: Seq<u8> },
    /// In runs of sorted bytes.
    Iron { st4: bool, fancy: bool, numbers: Seq<u32>, blocks: Seq<iron_laws::Block> },
}

/// The number of the method, -1 for none.
pub open spec fn method_number(p: Packed) -> i64 {
    match p {
        Packed::Stored(_) => -1i64,
        Packed::Brimstone { .. } => 0,
        Packed::Cyanide(_) => 1,
        Packed::Darkhorse { .. } => 2,
        Packed::Blend(_) => 4,
        Packed::Scrambled { .. } => 5,
        Packed::Iron { .. } => 6,
    }
}

/// The model at the start of a stream.
pub open spec fn stream_model(log_size: u8, order: u8) -> ModelState {
    model_start((1usize << (log_size as usize)) as u32, order as i32, true)
}

/// What was packed.
pub open spec fn packed_text(p: Packed) -> Seq<u8> {
    match p {
        Packed::Stored(v) => v,
        Packed::Brimstone { log_size, order, decisions } => coding_laws::bytes_given(
            stream_model(log_size, order),
            decisions,
        )->Some_0.0,
        Packed::Cyanide(blocks) => cyanide_laws::blocks_text(blocks),
        Packed::Darkhorse { window_byte, second, messages } => darkhorse_laws::all_text(
            darkhorse_laws::writer_start(window_size(window_byte)),
            0,
            messages,
        ),
        Packed::Blend(parts) => blend_laws::parts_text(parts),
        Packed::Scrambled { x, y, key, content } => content,
        Packed::Iron { st4, fancy, numbers, blocks } => iron_laws::blocks_text(
            iron_laws::header_with(st4, fancy, numbers),
            blocks,
        ),
    }
}

/// The bytes `b` are what the writer wrote, and whatever `rest` it is that follows.
pub open spec fn packed_stands(b: Seq<u8>, p: Packed) -> bool {
    let n = packed_text(p).len();
    &&& b.len() < u64::MAX
    &&& match p {
        Packed::Stored(v) => b == v,
        Packed::Brimstone { log_size, order, decisions } => {
            &&& log_size < usize::BITS && (1usize << (log_size as usize)) < 0xffff_ff00
            &&& order > 0
            &&& coding_laws::bytes_given(stream_model(log_size, order), decisions) matches Some((bytes, parts))
                && coding_laws::parts_fit(sender_start(), coder_kind(true), parts) && (seq![log_size, order] + written(
                sender_start(),
                coder_kind(true),
                coding_laws::all_sent(parts),
            )).is_prefix_of(b)
        },
        Packed::Cyanide(blocks) => cyanide_laws::blocks_stand(b, 1, blocks),
        Packed::Darkhorse { window_byte, second, messages } => {
            &&& window_byte < 31
            &&& forall|i: int| 0 <= i < messages.len() ==> darkhorse_laws::message_ok(#[trigger] messages[i])
            &&& (seq![window_byte, second] + items_written(
                darkhorse_laws::all_items(
                    darkhorse_laws::writer_start(window_size(window_byte)),
                    0,
                    messages,
                    false,
                ),
            )).is_prefix_of(b)
        },
        Packed::Blend(parts) => blend_laws::parts_stand(b, 0, parts),
        Packed::Scrambled { x, y, key, content } => b == seq![x, y, key] + rc4(seq![key], content),
        Packed::Iron { st4, fancy, numbers, blocks } => {
            &&& iron_laws::header_stands(b, st4, fancy, numbers)
            &&& iron_laws::blocks_stand(
                b,
                iron_laws::numbers_end(2, numbers),
                iron_laws::header_with(st4, fancy, numbers),
                blocks,
            )
        },
    }
}

/// A prefix and what follows it.
proof fn behind_prefix(a: Seq<u8>, b: Seq<u8>)
    requires
        a.is_prefix_of(b),
    ensures
        b == a + b.skip(a.len() as int),
{
    assert(b =~= a + b.skip(a.len() as int));
}

/// Content of a stream that is what was packed.
spec fn holds(b: Seq<u8>, p: Packed, inflated: Option<Result<Seq<u8>, ErrorKind>>) -> bool {
    uncompressed(b, method_number(p), packed_text(p).len(), inflated) == Ok::<Content, ErrorKind>(
        Content::Bytes(packed_text(p)),
    )
}

proof fn brimstone_is_method_0(b: Seq<u8>, p: Packed, inflated: Option<Result<Seq<u8>, ErrorKind>>)
    requires
        p is Brimstone,
        packed_stands(b, p),
    ensures
        holds(b, p, inflated),
{
    if let Packed::Brimstone { log_size, order, decisions } = p {
        let parts = coding_laws::bytes_given(stream_model(log_size, order), decisions)->Some_0.1;
        let out = written(sender_start(), coder_kind(true), coding_laws::all_sent(parts));
        let head = seq![log_size, order] + out;
        behind_prefix(head, b);
        let rest = b.skip(head.len() as int);
        assert(b.subrange(2, b.len() as int) =~= out + rest);
        assert(b[0] == log_size && b[1] == order) by {
            assert(b[0] == (head + rest)[0] && b[1] == (head + rest)[1]);
        }
        coding_laws::written_bytes_are_read_back(decisions, order as u32, 1usize << (log_size as usize), rest);
        reveal(uncompressed);
    }
}

proof fn cyanide_is_method_1(b: Seq<u8>, p: Packed, inflated: Option<Result<Seq<u8>, ErrorKind>>)
    requires
        p is Cyanide,
        packed_stands(b, p),
    ensures
        holds(b, p, inflated),
{
    if let Packed::Cyanide(blocks) = p {
        cyanide_laws::written_blocks_are_read_back(b, blocks);
        reveal(uncompressed);
    }
}

proof fn darkhorse_is_method_2(b: Seq<u8>, p: Packed, inflated: Option<Result<Seq<u8>, ErrorKind>>)
    requires
        p is Darkhorse,
        packed_stands(b, p),
    ensures
        holds(b, p, inflated),
{
    if let Packed::Darkhorse { window_byte, second, messages } = p {
        let start = darkhorse_laws::writer_start(window_size(window_byte));
        let head = seq![window_byte, second] + items_written(darkhorse_laws::all_items(start, 0, messages, false));
        behind_prefix(head, b);
        let rest = b.skip(head.len() as int);
        let n = packed_text(p).len();
        darkhorse_laws::written_messages_are_read_back(window_byte, second, messages, rest, n);
        assert(b == head + rest);
        reveal(uncompressed);
    }
}

proof fn blend_is_method_4(b: Seq<u8>, p: Packed, inflated: Option<Result<Seq<u8>, ErrorKind>>)
    requires
        p is Blend,
        packed_stands(b, p),
    ensures
        holds(b, p, inflated),
{
    if let Packed::Blend(parts) = p {
        let text = packed_text(p);
        blend_laws::written_parts_are_joined(b, parts, text.len());
        assert(cut_to(text, text.len()) =~= text);
        reveal(uncompressed);
    }
}

proof fn scrambling_is_method_5(b: Seq<u8>, p: Packed, inflated: Option<Result<Seq<u8>, ErrorKind>>)
    requires
        p is Scrambled,
        packed_stands(b, p),
    ensures
        holds(b, p, inflated),
{
    if let Packed::Scrambled { x, y, key, content } = p {
        scrambled_bytes_are_restored(x, y, key, content, content.len(), inflated);
    }
}

proof fn iron_is_method_6(b: Seq<u8>, p: Packed, inflated: Option<Result<Seq<u8>, ErrorKind>>)
    requires
        p is Iron,
        packed_stands(b, p),
    ensures
        holds(b, p, inflated),
{
    if let Packed::Iron { st4, fancy, numbers, blocks } = p {
        iron_laws::written_stream_is_read_back(b, st4, fancy, numbers, blocks, packed_text(p).len());
        reveal(uncompressed);
    }
}

/// What was packed by a method is what a stream with the number of that method holds.
pub proof fn packed_bytes_are_read_back(b: Seq<u8>, p: Packed, inflated: Option<Result<Seq<u8>, ErrorKind>>)
    requires
        packed_stands(b, p),
    ensures
        uncompressed(b, method_number(p), packed_text(p).len(), inflated) == Ok::<Content, ErrorKind>(
            Content::Bytes(packed_text(p)),
        ),
{
    match p {
        Packed::Stored(v) => {
            stored_bytes_stay(v, v.len(), None, inflated);
        },
        Packed::Brimstone { .. } => {
            brimstone_is_method_0(b, p, inflated);
        },
        Packed::Cyanide(_) => {
            cyanide_is_method_1(b, p, inflated);
        },
        Packed::Darkhorse { .. } => {
            darkhorse_is_method_2(b, p, inflated);
        },
        Packed::Blend(_) => {
            blend_is_method_4(b, p, inflated);
        },
        Packed::Scrambled { .. } => {
            scrambling_is_method_5(b, p, inflated);
        },
        Packed::Iron { .. } => {
            iron_is_method_6(b, p, inflated);
        },
    }
}

/// A size that the machine can hold is taken as it is.
pub proof fn machine_holds_small_sizes(n: u64)
    requires
        n <= usize::MAX,
    ensures
        machine_size(n) == n,
{
    lemma_small_mod(n as nat, (usize::MAX + 1) as nat);
}

/// A deflated stream waits to be inflated: what is handed out is all behind its first byte,
/// which must be 15.
pub proof fn deflated_stream_is_handed_out(b: Seq<u8>, size: nat)
    ensures
        uncompressed(seq![15u8] + b, 3, size, None) == Ok::<Content, ErrorKind>(Content::Deflated(b, size)),
        b.len() > 0 && b[0] != 15 ==> uncompressed(b, 3, size, None) == Err::<Content, ErrorKind>(
            ErrorKind::Unsupported,
        ),
        uncompressed(Seq::<u8>::empty(), 3, size, None) == Err::<Content, ErrorKind>(ErrorKind::InvalidData),
{
    reveal(uncompressed);
    let all = seq![15u8] + b;
    assert(all.subrange(1, all.len() as int) =~= b);
}

/// Once it has been inflated it holds what came of it.
pub proof fn inflated_stream_holds_the_result(b: Seq<u8>, size: nat, v: Seq<u8>, e: ErrorKind)
    ensures
        uncompressed(seq![15u8] + b, 3, size, Some(Ok(v))) == Ok::<Content, ErrorKind>(Content::Bytes(v)),
        uncompressed(seq![15u8] + b, 3, size, Some(Err(e))) == Err::<Content, ErrorKind>(e),
{
    reveal(uncompressed);
}

// === preprocessors ============================================================

/// Code whose branches were stored with absolute addresses is restored by the
/// preprocessor with the number 2.
pub proof fn stored_code_is_restored(lead: Seq<u8>, bs: Seq<x86::Branch>, dictionary: Option<Seq<u8>>)
    requires
        forall|i: int| 0 <= i < lead.len() ==> !x86::is_opcode(#[trigger] lead[i]),
        x86::branches_ok(lead.len() as int, bs),
    ensures
        ({
            let stored = lead + x86::stored_branches(lead.len() as int, bs);
            postprocessed(stored, 2, stored.len(), dictionary) == Ok::<Seq<u8>, ErrorKind>(
                lead + x86::plain_branches(bs),
            )
        }),
{
    reveal(postprocessed);
    x86::stored_branches_are_restored(lead, bs);
}

/// English text is restored by the preprocessor with the number 0, if the dictionary is
/// the right one and has the words.
pub proof fn english_text_is_restored(
    codes: Codes,
    words: Seq<Seq<u8>>,
    behind: Seq<u8>,
    ts: Seq<english_laws::Token>,
    size: nat,
)
    requires
        words.len() == 100366,
        (english_laws::lines(words) + behind).len() <= u32::MAX,
        crc32(english_laws::lines(words) + behind) == 0xfb1d_cfd5,
        forall|i: int| 0 <= i < words.len() ==> !(#[trigger] words[i]).contains(0x0a),
        ({
            let dict = english_laws::dictionary_of(words, behind);
            &&& forall|i: int| 0 <= i < ts.len() ==> english_laws::token_ok(codes, dict, #[trigger] ts[i])
            &&& size == english_laws::all_text(codes, dict, ts, true).len()
        }),
    ensures
        ({
            let dict = english_laws::dictionary_of(words, behind);
            let input = seq![codes.escape, codes.word, codes.first, codes.upper] + english_laws::all_bytes(codes, ts);
            postprocessed(input, 0, size, Some(english_laws::lines(words) + behind)) == Ok::<Seq<u8>, ErrorKind>(
                english_laws::all_text(codes, dict, ts, true),
            )
        }),
{
    reveal(postprocessed);
    english_laws::listed_words_are_found(words, behind);
    let dict = english_laws::dictionary_of(words, behind);
    english_laws::written_tokens_are_read_back(codes, dict, ts, size);
    let text = english_laws::all_text(codes, dict, ts, true);
    assert(english_laws::at_most(text, size) =~= text);
}

/// Without its dictionary English text is not supported, nor is any other preprocessor.
pub proof fn other_preprocessors_are_unsupported(v: Seq<u8>, preprocess: i64, size: nat, dictionary: Option<Seq<u8>>)
    requires
        preprocess != -1,
        preprocess != 2,
        preprocess != 0 || dictionary is None,
    ensures
        postprocessed(v, preprocess, size, dictionary) == Err::<Seq<u8>, ErrorKind>(ErrorKind::Unsupported),
{
    reveal(postprocessed);
}

// === streams and archives =====================================================

/// A stream that bears the number of the method by which its content was packed, and no
/// preprocessor, holds that content.
pub proof fn packed_stream_is_read_back(
    data: Seq<u8>,
    desc: StreamDescriptor,
    b: Seq<u8>,
    p: Packed,
    dictionary: Option<Seq<u8>>,
    inflated: Option<Result<Seq<u8>, ErrorKind>>,
)
    requires
        packed_stands(b, p),
        packed_text(p).len() <= usize::MAX,
        block_stream(data, desc.dataoffset as int) == Ok::<Seq<u8>, ErrorKind>(b),
        desc.crypto < 0,
        desc.preprocess == -1,
        desc.compression == method_number(p),
        desc.actualsize == packed_text(p).len(),
        desc.checksum == 0 ==> crc32(packed_text(p)) == desc.datacrc,
    ensures
        stream_content(data, desc, true, dictionary, inflated) == Ok::<Content, ErrorKind>(
            Content::Bytes(packed_text(p)),
        ),
{
    packed_bytes_are_read_back(b, p, inflated);
    machine_holds_small_sizes(desc.actualsize);
    reveal(postprocessed);
    packed_stream_holds_its_content(data, desc, b, packed_text(p), packed_text(p), dictionary, inflated);
}

/// The forks of a data element that bears the number of the method by which they were
/// packed, one behind the other, are read back from the entries of their nodes.
pub proof fn packed_archive_is_read_back(
    data: Seq<u8>,
    state: ParserState,
    el: ElementView,
    crc: u32,
    end: int,
    b: Seq<u8>,
    p: Packed,
    aids: AidsView,
)
    requires
        packed_stands(b, p),
        packed_text(p).len() <= usize::MAX,
        el.algs.len() == 6,
        el.algs[0] == method_number(p),
        el.algs[1] == 0 ==> crc32(packed_text(p)) == crc,
        el.algs[2] == -1,
        el.algs[3] < 0,
        0 <= el.dataoffset <= usize::MAX,
        block_stream(data, el.dataoffset) == Ok::<Seq<u8>, ErrorKind>(b),
        total_from(forks_of(state.streams, el.attribs[0]), 0) == Some(packed_text(p).len()),
        all_known(state.nodes, forks_of(state.streams, el.attribs[0])),
    ensures
        data_added(state, el, crc, end) matches Ok(p1) && {
            let before = entries_before(state);
            &&& before.len() <= p1.output.len()
            &&& p1.output.subrange(0, before.len() as int) == before
            &&& shows_forks(
                data,
                p1.output.subrange(before.len() as int, p1.output.len() as int),
                state.nodes,
                forks_of(state.streams, el.attribs[0]),
                0,
                0,
                packed_text(p),
                aids,
            )
        },
{
    let text = packed_text(p);
    packed_bytes_are_read_back(b, p, aids.inflated_at(0));
    machine_holds_small_sizes(text.len() as u64);
    reveal(postprocessed);
    packed_forks_are_read_back(data, state, el, crc, end, b, text, text, aids);
}

} // verus!
