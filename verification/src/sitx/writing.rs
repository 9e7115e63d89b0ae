use vstd::prelude::*;
use crate::error::ErrorKind;
use crate::sitx::elements::{absent, as_signed, element_at, slots_from, ElementView};
use crate::sitx::p2::{
    block_stream, blocks_from, byte_pos, p2_advances, p2_written, raw_at, spelled, string_at,
    written_number_is_read_back,
};

verus! {

// What is written into a stream by the rules of the format is read back.

/// The number `v` stands at `q`; it has a successor of 64 digits.
pub open spec fn number_stands(data: Seq<u8>, q: int, v: u64) -> bool {
    v < u64::MAX && spelled(data, q, p2_written(v))
}

/// Where a number that stands at `q` ends.
pub open spec fn number_end(q: int, v: u64) -> int {
    q + p2_written(v).len()
}

// === strings and blocks =======================================================

/// The length of `s` and, from the next byte on, its bytes stand at `q`.
pub open spec fn bytes_stand(data: Seq<u8>, q: int, s: Seq<u8>) -> bool {
    let p = byte_pos(number_end(q, s.len() as u64));
    &&& s.len() < u64::MAX
    &&& number_stands(data, q, s.len() as u64)
    &&& p + s.len() <= data.len()
    &&& data.subrange(p, p + s.len()) == s
}

/// Where they end.
pub open spec fn bytes_end(q: int, s: Seq<u8>) -> int {
    8 * (byte_pos(number_end(q, s.len() as u64)) + s.len())
}

/// A string that was written is read back, and the position after it is at a byte.
pub proof fn written_string_is_read_back(data: Seq<u8>, q: int, s: Seq<u8>)
    requires
        bytes_stand(data, q, s),
    ensures
        string_at(data, q) == Ok::<(Seq<u8>, int), ErrorKind>((s, bytes_end(q, s))),
{
    written_number_is_read_back(data, q, s.len() as u64);
}

/// The chunks stand at `q` as blocks, and behind them an empty one.
pub open spec fn blocks_stand(data: Seq<u8>, q: int, chunks: Seq<Seq<u8>>) -> bool
    decreases chunks.len(),
{
    if chunks.len() == 0 {
        number_stands(data, q, 0)
    } else {
        &&& chunks[0].len() > 0
        &&& bytes_stand(data, q, chunks[0])
        &&& blocks_stand(data, bytes_end(q, chunks[0]), chunks.drop_first())
    }
}

/// Where the blocks end, the empty one among them.
pub open spec fn blocks_end(q: int, chunks: Seq<Seq<u8>>) -> int
    decreases chunks.len(),
{
    if chunks.len() == 0 {
        number_end(q, 0)
    } else {
        blocks_end(bytes_end(q, chunks[0]), chunks.drop_first())
    }
}

/// The chunks one behind the other.
pub open spec fn joined(chunks: Seq<Seq<u8>>) -> Seq<u8>
    decreases chunks.len(),
{
    if chunks.len() == 0 {
        seq![]
    } else {
        chunks[0] + joined(chunks.drop_first())
    }
}

/// Blocks that were written are read back behind what was found before.
pub proof fn blocks_are_joined(data: Seq<u8>, q: int, chunks: Seq<Seq<u8>>, found: Seq<u8>)
    requires
        blocks_stand(data, q, chunks),
    ensures
        blocks_from(data, q, found) == Ok::<(Seq<u8>, int), ErrorKind>(
            (found + joined(chunks), blocks_end(q, chunks)),
        ),
    decreases chunks.len(),
{
    if chunks.len() == 0 {
        written_number_is_read_back(data, q, 0);
        assert(found + joined(chunks) =~= found);
    } else {
        let c = chunks[0];
        written_number_is_read_back(data, q, c.len() as u64);
        p2_advances(data, q);
        let p = number_end(q, c.len() as u64);
        assert(raw_at(data, p, c.len() as int) == Ok::<(Seq<u8>, int), ErrorKind>((c, bytes_end(q, c))));
        blocks_are_joined(data, bytes_end(q, c), chunks.drop_first(), found + c);
        assert((found + c) + joined(chunks.drop_first()) =~= found + joined(chunks));
    }
}

/// A stream of blocks is read back as its chunks, one behind the other.
pub proof fn written_blocks_are_joined(data: Seq<u8>, offset: int, chunks: Seq<Seq<u8>>)
    requires
        blocks_stand(data, 8 * offset, chunks),
    ensures
        block_stream(data, offset) == Ok::<Seq<u8>, ErrorKind>(joined(chunks)),
{
    blocks_are_joined(data, 8 * offset, chunks, seq![]);
    assert(Seq::<u8>::empty() + joined(chunks) =~= joined(chunks));
}

// === elements =================================================================

/// A slot of a list and its value; the cipher has a second one.
pub struct Pair {
    pub slot: u64,
    pub value: u64,
    pub second: u64,
}

/// Where a pair ends that stands at `q`.
pub open spec fn pair_end(q: int, p: Pair, extra: bool) -> int {
    let q2 = number_end(number_end(q, p.slot), p.value);
    if extra && p.slot == 4 {
        number_end(q2, p.second)
    } else {
        q2
    }
}

pub open spec fn pair_stands(data: Seq<u8>, q: int, p: Pair, extra: bool) -> bool {
    let q1 = number_end(q, p.slot);
    let q2 = number_end(q1, p.value);
    &&& p.slot > 0
    &&& number_stands(data, q, p.slot)
    &&& number_stands(data, q1, p.value)
    &&& extra && p.slot == 4 ==> number_stands(data, q2, p.second)
}

/// The pairs stand at `q`, and a 0 behind them.
pub open spec fn pairs_stand(data: Seq<u8>, q: int, pairs: Seq<Pair>, extra: bool) -> bool
    decreases pairs.len(),
{
    if pairs.len() == 0 {
        number_stands(data, q, 0)
    } else {
        pair_stands(data, q, pairs[0], extra) && pairs_stand(
            data,
            pair_end(q, pairs[0], extra),
            pairs.drop_first(),
            extra,
        )
    }
}

/// Where the list ends.
pub open spec fn pairs_end(q: int, pairs: Seq<Pair>, extra: bool) -> int
    decreases pairs.len(),
{
    if pairs.len() == 0 {
        number_end(q, 0)
    } else {
        pairs_end(pair_end(q, pairs[0], extra), pairs.drop_first(), extra)
    }
}

/// The slots with the values of the pairs; a later pair counts more.
pub open spec fn filled(slots: Seq<i64>, pairs: Seq<Pair>) -> Seq<i64>
    decreases pairs.len(),
{
    if pairs.len() == 0 {
        slots
    } else {
        filled(
            if pairs[0].slot <= slots.len() {
                slots.update(pairs[0].slot - 1, as_signed(pairs[0].value))
            } else {
                slots
            },
            pairs.drop_first(),
        )
    }
}

/// There is a pair for a slot that `n` slots do not have.
pub open spec fn has_unknown(n: nat, pairs: Seq<Pair>) -> bool {
    exists|i: int| 0 <= i < pairs.len() && (#[trigger] pairs[i]).slot > n
}

proof fn pairs_are_read(data: Seq<u8>, q: int, pairs: Seq<Pair>, extra: bool, slots: Seq<i64>, unknown: bool)
    requires
        pairs_stand(data, q, pairs, extra),
    ensures
        slots_from(data, q, slots, extra, unknown) == (
            Ok::<(Seq<i64>, int), ErrorKind>((filled(slots, pairs), pairs_end(q, pairs, extra))),
            unknown || has_unknown(slots.len(), pairs),
        ),
    decreases pairs.len(),
{
    if pairs.len() == 0 {
        written_number_is_read_back(data, q, 0);
    } else {
        let p = pairs[0];
        let rest = pairs.drop_first();
        let q1 = number_end(q, p.slot);
        written_number_is_read_back(data, q, p.slot);
        written_number_is_read_back(data, q1, p.value);
        if extra && p.slot == 4 {
            written_number_is_read_back(data, number_end(q1, p.value), p.second);
        }
        let known = p.slot <= slots.len();
        let next = if known {
            slots.update(p.slot - 1, as_signed(p.value))
        } else {
            slots
        };
        pairs_are_read(data, pair_end(q, p, extra), rest, extra, next, unknown || !known);
        assert(has_unknown(slots.len(), pairs) == (!known || has_unknown(slots.len(), rest))) by {
            if has_unknown(slots.len(), pairs) && known {
                let i = choose|i: int| 0 <= i < pairs.len() && (#[trigger] pairs[i]).slot > slots.len();
                assert(rest[i - 1] == pairs[i]);
            }
            if has_unknown(slots.len(), rest) {
                let i = choose|i: int| 0 <= i < rest.len() && (#[trigger] rest[i]).slot > slots.len();
                assert(pairs[i + 1] == rest[i]);
            }
            if !known {
                assert(pairs[0].slot > slots.len());
            }
        }
    }
}

/// The head of an element stands at `q`: a bit without meaning, the type and the two
/// lists.
pub open spec fn element_stands(data: Seq<u8>, q: int, typ: u64, attribs: Seq<Pair>, algs: Seq<Pair>) -> bool {
    let q1 = number_end(q + 1, typ);
    let q2 = pairs_end(q1, attribs, false);
    &&& 0 <= q < 8 * data.len()
    &&& number_stands(data, q + 1, typ)
    &&& pairs_stand(data, q1, attribs, false)
    &&& pairs_stand(data, q2, algs, true)
}

/// The head of an element that was written is read back; a slot that there is not is
/// passed over and noted.
pub proof fn written_element_is_read_back(
    data: Seq<u8>,
    q: int,
    typ: u64,
    attribs: Seq<Pair>,
    algs: Seq<Pair>,
    unknown: bool,
)
    requires
        element_stands(data, q, typ, attribs, algs),
    ensures
        ({
            let end = pairs_end(pairs_end(number_end(q + 1, typ), attribs, false), algs, true);
            element_at(data, q, unknown) == (
                Ok::<(ElementView, int), ErrorKind>(
                    (
                        ElementView {
                            typ,
                            attribs: filled(absent(10), attribs),
                            algs: filled(absent(6), algs),
                            dataoffset: byte_pos(end),
                        },
                        end,
                    ),
                ),
                unknown || has_unknown(10, attribs) || has_unknown(6, algs),
            )
        }),
{
    reveal(element_at);
    let q1 = number_end(q + 1, typ);
    let q2 = pairs_end(q1, attribs, false);
    written_number_is_read_back(data, q + 1, typ);
    pairs_are_read(data, q1, attribs, false, absent(10), unknown);
    pairs_are_read(data, q2, algs, true, absent(6), unknown || has_unknown(10, attribs));
}

} // verus!
