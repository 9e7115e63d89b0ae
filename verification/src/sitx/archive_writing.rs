use vstd::prelude::*;
use crate::catalog::be32;
use crate::error::ErrorKind;
use crate::sitx::archive::{
    application_moves, catalog_added, data_added, element_applied, elements_from, fork_added, is_sitx, nothing_read,
    outcome_of, size_in, stream_of, AidsView, Next, Outcome, ParserState,
};
use crate::sitx::catalog_laws::{catalog_stands, catalog_told, written_catalog_is_read_back, Tag};
use crate::sitx::elements::{absent, element_at, element_moves, noted, scanned, ElementView};
use crate::sitx::nodes::bare_node;
use crate::sitx::p2::{block_stream, byte_pos, raw_at, written_number_is_read_back};
use crate::sitx::stream::{machine_size, postprocessed, stream_content, uncompressed, Content};
use crate::sitx::writing::{
    blocks_are_joined, blocks_end, blocks_stand, bytes_end, element_stands, filled, joined, number_end, number_stands,
    pairs_end, written_blocks_are_joined, written_element_is_read_back, Pair,
};

verus! {

// An archive that is written element by element is read back as what its elements
// say.

/// The head of an element.
pub struct Head {
    pub typ: u64,
    pub attribs: Seq<Pair>,
    pub algs: Seq<Pair>,
}

/// What follows the head: nothing, a number, bytes as they are, or data in blocks with
/// a row of blocks behind them. The data of a catalog is packed, and says something of
/// each node.
pub enum Body {
    Nothing,
    Number(u64),
    Raw(Seq<u8>),
    Blocks { chunks: Seq<Seq<u8>>, tail: Seq<Seq<u8>> },
    Catalog {
        chunks: Seq<Seq<u8>>,
        tail: Seq<Seq<u8>>,
        unpacked: Seq<u8>,
        text: Seq<u8>,
        tags: Seq<Seq<Tag>>,
    },
}

pub struct Piece {
    pub head: Head,
    pub body: Body,
}

pub open spec fn head_stands(data: Seq<u8>, q: int, h: Head) -> bool {
    element_stands(data, q, h.typ, h.attribs, h.algs)
}

pub open spec fn head_end(q: int, h: Head) -> int {
    pairs_end(pairs_end(number_end(q + 1, h.typ), h.attribs, false), h.algs, true)
}

/// The element whose head stands at `q`.
pub open spec fn element_of(q: int, h: Head) -> ElementView {
    ElementView {
        typ: h.typ,
        attribs: filled(absent(10), h.attribs),
        algs: filled(absent(6), h.algs),
        dataoffset: byte_pos(head_end(q, h)),
    }
}

/// The body is of the kind that the type of the element asks for.
pub open spec fn body_fits(q: int, w: Piece) -> bool {
    let typ = w.head.typ;
    match w.body {
        Body::Nothing => typ == 2 || typ == 4 || typ == 8 || typ == 9,
        Body::Number(v) => typ == 3 || typ == 7,
        Body::Raw(s) => typ == 6 && s.len() == size_in(element_of(q, w.head).attribs[4]),
        Body::Blocks { chunks, tail } => typ == 1 || typ > 10,
        Body::Catalog { chunks, tail, unpacked, text, tags } => typ == 5,
    }
}

/// Data and the row of blocks behind it stand at the byte boundary after `q`.
pub open spec fn data_stands(data: Seq<u8>, q: int, chunks: Seq<Seq<u8>>, tail: Seq<Seq<u8>>) -> bool {
    let a = 8 * byte_pos(q);
    blocks_stand(data, a, chunks) && blocks_stand(data, 8 * byte_pos(blocks_end(a, chunks)), tail)
}

pub open spec fn data_end(q: int, chunks: Seq<Seq<u8>>, tail: Seq<Seq<u8>>) -> int {
    blocks_end(8 * byte_pos(blocks_end(8 * byte_pos(q), chunks)), tail)
}

/// The checksum in a row of blocks: the first of them, if it has four bytes.
pub open spec fn checksum_in(tail: Seq<Seq<u8>>) -> Option<u32> {
    if tail.len() > 0 && tail[0].len() == 4 {
        Some(be32(tail[0], 0))
    } else {
        None
    }
}

/// The body stands at `q`, where the head ends.
pub open spec fn body_stands(data: Seq<u8>, q: int, b: Body) -> bool {
    match b {
        Body::Nothing => true,
        Body::Number(v) => number_stands(data, q, v),
        Body::Raw(s) => {
            &&& byte_pos(q) + s.len() <= data.len()
            &&& data.subrange(byte_pos(q), byte_pos(q) + s.len()) == s
        },
        Body::Blocks { chunks, tail } => data_stands(data, q, chunks, tail),
        Body::Catalog { chunks, tail, unpacked, text, tags } => data_stands(data, q, chunks, tail),
    }
}

pub open spec fn body_end(q: int, b: Body) -> int {
    match b {
        Body::Nothing => q,
        Body::Number(v) => number_end(q, v),
        Body::Raw(s) => if s.len() > 0 {
            8 * (byte_pos(q) + s.len())
        } else {
            q
        },
        Body::Blocks { chunks, tail } => data_end(q, chunks, tail),
        Body::Catalog { chunks, tail, unpacked, text, tags } => data_end(q, chunks, tail),
    }
}

/// The catalog in an element is unpacked to one that says something of each node. It
/// is not deflated.
pub open spec fn catalog_ok(q: int, p: ParserState, w: Piece, aids: AidsView) -> bool {
    w.body matches Body::Catalog { chunks, tail, unpacked, text, tags } ==> {
        let el = element_of(q, w.head);
        let size = machine_size(size_in(el.attribs[4]));
        &&& el.algs[0] != 3
        &&& el.algs[3] < 0
        &&& uncompressed(joined(chunks), el.algs[0], size, aids.inflated_at(p.inflated)) == Ok::<Content, ErrorKind>(
            Content::Bytes(unpacked),
        )
        &&& postprocessed(unpacked, el.algs[2], size, aids.dictionary) == Ok::<Seq<u8>, ErrorKind>(text)
        &&& catalog_stands(text, 0, tags)
        &&& tags.len() == p.nodes.len()
    }
}

/// What an element says, its head standing at `q`.
pub open spec fn effect(q: int, p: ParserState, w: Piece) -> Result<ParserState, ErrorKind> {
    let el = element_of(q, w.head);
    match w.body {
        Body::Blocks { chunks, tail } => if w.head.typ == 1 {
            data_added(p, el, noted(checksum_in(tail), 0), data_end(head_end(q, w.head), chunks, tail))
        } else {
            Ok(p)
        },
        Body::Number(v) => if w.head.typ == 3 {
            fork_added(p, el, v)
        } else {
            Ok(p)
        },
        Body::Nothing => if w.head.typ == 2 || w.head.typ == 4 {
            Ok(ParserState { nodes: p.nodes.push(bare_node(el.attribs[0], el.attribs[1], w.head.typ == 4)), ..p })
        } else {
            Ok(p)
        },
        Body::Catalog { chunks, tail, unpacked, text, tags } => Ok(
            ParserState { nodes: catalog_told(p.nodes, 0, tags), ..p },
        ),
        Body::Raw(s) => Ok(p),
    }
}

/// Where the element after this one starts.
pub open spec fn next_at(q: int, w: Piece) -> int {
    8 * byte_pos(body_end(head_end(q, w.head), w.body))
}

/// The elements stand one behind the other from `q` on, and behind them the one that
/// ends the archive; none of them is at odds with those before it.
pub open spec fn pieces_stand(data: Seq<u8>, q: int, p: ParserState, ws: Seq<Piece>, last: Head, aids: AidsView) -> bool
    decreases ws.len(),
{
    if ws.len() == 0 {
        head_stands(data, q, last) && last.typ == 0
    } else {
        let w = ws[0];
        &&& head_stands(data, q, w.head)
        &&& body_fits(q, w)
        &&& body_stands(data, head_end(q, w.head), w.body)
        &&& catalog_ok(q, p, w, aids)
        &&& effect(q, p, w) is Ok
        &&& pieces_stand(data, next_at(q, w), effect(q, p, w)->Ok_0, ws.drop_first(), last, aids)
    }
}

/// What all of them say.
pub open spec fn all_effects(q: int, p: ParserState, ws: Seq<Piece>) -> ParserState
    decreases ws.len(),
{
    if ws.len() == 0 {
        p
    } else {
        all_effects(next_at(q, ws[0]), effect(q, p, ws[0])->Ok_0, ws.drop_first())
    }
}

// === reading ==================================================================

/// The checksum of data that was written is found, and where the data ends.
pub proof fn written_data_is_scanned(data: Seq<u8>, q: int, chunks: Seq<Seq<u8>>, tail: Seq<Seq<u8>>)
    requires
        data_stands(data, q, chunks, tail),
    ensures
        scanned(data, byte_pos(q)) == Ok::<(Option<u32>, int), ErrorKind>(
            (checksum_in(tail), data_end(q, chunks, tail)),
        ),
{
    reveal(scanned);
    let a = 8 * byte_pos(q);
    blocks_are_joined(data, a, chunks, seq![]);
    let q0 = 8 * byte_pos(blocks_end(a, chunks));
    blocks_are_joined(data, q0, tail, seq![]);
    if tail.len() == 0 {
        written_number_is_read_back(data, q0, 0);
    } else {
        let c = tail[0];
        written_number_is_read_back(data, q0, c.len() as u64);
        if c.len() == 4 {
            assert(raw_at(data, number_end(q0, 4), 4) == Ok::<(Seq<u8>, int), ErrorKind>((c, bytes_end(q0, c))));
            blocks_are_joined(data, bytes_end(q0, c), tail.drop_first(), seq![]);
        }
    }
}

proof fn catalog_is_applied(data: Seq<u8>, q: int, p: ParserState, w: Piece, aids: AidsView)
    requires
        data.len() <= usize::MAX,
        w.body is Catalog,
        body_stands(data, head_end(q, w.head), w.body),
        catalog_ok(q, p, w, aids),
        0 <= byte_pos(head_end(q, w.head)) <= data.len(),
    ensures
        catalog_added(
            data,
            p,
            element_of(q, w.head),
            noted(checksum_in(w.body->Catalog_tail), 0),
            body_end(head_end(q, w.head), w.body),
            aids,
        ) == Ok::<Next, ErrorKind>(Next::Parsed(effect(q, p, w)->Ok_0, body_end(head_end(q, w.head), w.body))),
{
    reveal(catalog_added);
    reveal(stream_content);
    if let Body::Catalog { chunks, tail, unpacked, text, tags } = w.body {
        let el = element_of(q, w.head);
        written_blocks_are_joined(data, el.dataoffset, chunks);
        let desc = stream_of(el, size_in(el.attribs[4]), noted(checksum_in(tail), 0));
        assert(block_stream(data, desc.dataoffset as int) == Ok::<Seq<u8>, ErrorKind>(joined(chunks)));
        assert(stream_content(data, desc, false, aids.dictionary, aids.inflated_at(p.inflated)) == Ok::<
            Content,
            ErrorKind,
        >(Content::Bytes(text)));
        written_catalog_is_read_back(text, 0, p.nodes, 0, tags);
    }
}

proof fn piece_is_applied(data: Seq<u8>, q: int, p: ParserState, w: Piece, aids: AidsView)
    requires
        data.len() <= usize::MAX,
        body_fits(q, w),
        body_stands(data, head_end(q, w.head), w.body),
        catalog_ok(q, p, w, aids),
        effect(q, p, w) is Ok,
        0 <= byte_pos(head_end(q, w.head)) <= data.len(),
    ensures
        element_applied(data, head_end(q, w.head), element_of(q, w.head), p, aids) == Ok::<Next, ErrorKind>(
            Next::Parsed(effect(q, p, w)->Ok_0, body_end(head_end(q, w.head), w.body)),
        ),
{
    reveal(element_applied);
    let e = head_end(q, w.head);
    match w.body {
        Body::Nothing => {},
        Body::Number(v) => {
            written_number_is_read_back(data, e, v);
        },
        Body::Raw(s) => {},
        Body::Blocks { chunks, tail } => {
            written_data_is_scanned(data, e, chunks, tail);
        },
        Body::Catalog { chunks, tail, unpacked, text, tags } => {
            written_data_is_scanned(data, e, chunks, tail);
            catalog_is_applied(data, q, p, w, aids);
        },
    }
}

proof fn pieces_are_read(
    data: Seq<u8>,
    q: int,
    p: ParserState,
    ws: Seq<Piece>,
    last: Head,
    aids: AidsView,
    unknown: bool,
)
    requires
        data.len() <= usize::MAX,
        pieces_stand(data, q, p, ws, last, aids),
    ensures
        elements_from(data, q, p, aids, unknown).0 == Ok::<Outcome, ErrorKind>(
            Outcome::Entries(all_effects(q, p, ws).output),
        ),
    decreases ws.len(),
{
    if ws.len() == 0 {
        written_element_is_read_back(data, q, last.typ, last.attribs, last.algs, unknown);
    } else {
        let w = ws[0];
        let h = w.head;
        written_element_is_read_back(data, q, h.typ, h.attribs, h.algs, unknown);
        element_moves(data, q, unknown);
        let u = element_at(data, q, unknown).1;
        piece_is_applied(data, q, p, w, aids);
        application_moves(data, head_end(q, h), element_of(q, h), p, aids);
        pieces_are_read(data, next_at(q, w), effect(q, p, w)->Ok_0, ws.drop_first(), last, aids, u);
    }
}

/// An archive whose elements stand one behind the other after the banner holds the
/// entries that they make up.
pub proof fn written_archive_is_read_back(data: Seq<u8>, ws: Seq<Piece>, last: Head, aids: AidsView)
    requires
        data.len() <= usize::MAX,
        is_sitx(data),
        data[7] == 0x21,
        pieces_stand(data, 64, nothing_read(), ws, last, aids),
    ensures
        outcome_of(data, aids) == Ok::<Outcome, ErrorKind>(
            Outcome::Entries(all_effects(64, nothing_read(), ws).output),
        ),
{
    pieces_are_read(data, 64, nothing_read(), ws, last, aids, false);
}

} // verus!
