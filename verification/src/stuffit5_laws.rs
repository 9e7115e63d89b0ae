use vstd::prelude::*;
use crate::bits::msb_bit;
use crate::error::ErrorKind;
use crate::huffman::spells;
use crate::lzss::{
    copy_is_repetition, prefilled_ring_was_fed, repetition_len, token_reaches, token_text, tokens_text, zero_ring,
    Token,
};
use crate::stuffit5::{
    bytes_from, decoded, distance_at, first_window, leaf_from, shape, tree_start, used, TreeState, NIL, WINDOW_SIZE,
};

verus! {

// The path to a leaf is read back as the leaf, and literals and matches that stand in
// a stream are read back as the text they stand for.

/// The bits from the root to node `s`: a 1 goes left.
pub open spec fn path_to(t: TreeState, s: int) -> Seq<bool>
    decreases t.index[s],
{
    let p = t.parent[s] as int;
    if s == 0 || t.index[p] >= t.index[s] {
        seq![]
    } else {
        path_to(t, p).push(t.left[p] == s)
    }
}

proof fn path_is_followed(t: TreeState, data: Seq<u8>, pos: int, s: int)
    requires
        shape(t),
        0 <= s < 627,
        spells(data, pos, path_to(t, s)),
    ensures
        leaf_from(t, data, pos, 0) == leaf_from(t, data, pos + path_to(t, s).len(), s),
    decreases t.index[s],
{
    if s > 0 {
        assert(t.parent[s] < 313);
        let p = t.parent[s] as int;
        assert(t.index[p] < t.index[s]);
        let front = path_to(t, p);
        let path = path_to(t, s);
        let last = front.len() as int;
        assert forall|i: int| 0 <= i < front.len() implies #[trigger] msb_bit(data, pos + i) == front[i] by {
            assert(msb_bit(data, pos + i) == path[i]);
        }
        path_is_followed(t, data, pos, p);
        assert(msb_bit(data, pos + last) == path[last]);
        assert(t.left[p] < 627);
        assert(t.left[p] == s || t.right[p] == s);
        assert(path.len() == front.len() + 1);
    }
}

/// In a sound tree the path to a leaf is read as that leaf.
pub proof fn path_is_read(t: TreeState, data: Seq<u8>, pos: int, leaf: int)
    requires
        shape(t),
        313 <= leaf < 627,
        spells(data, pos, path_to(t, leaf)),
    ensures
        leaf_from(t, data, pos, 0) == Ok::<(int, int), ErrorKind>((leaf, pos + path_to(t, leaf).len())),
{
    path_is_followed(t, data, pos, leaf);
    assert(t.left[leaf] == NIL);
}

/// The leaf that a token starts with.
pub open spec fn leaf_of(t: Token) -> int {
    match t {
        Token::Literal(b) => 626 - b,
        Token::Match { distance, length } => 626 - (0x100 + length - 3),
    }
}

/// The token stands at `pos`, and `end` is the position after it.
pub open spec fn token_stands(t: TreeState, data: Seq<u8>, pos: int, tok: Token, end: int) -> bool {
    let p = pos + path_to(t, leaf_of(tok)).len();
    &&& shape(t)
    &&& spells(data, pos, path_to(t, leaf_of(tok)))
    &&& match tok {
        Token::Literal(b) => end == p,
        Token::Match { distance, length } => 3 <= length <= 60 && distance_at(data, p) == Ok::<(int, int), ErrorKind>(
            (distance, end),
        ),
    }
}

/// The tokens stand one behind the other from `pos` on, the ends being at `ends`, and
/// reach no further back than the text `s` and the window. Each use of a leaf changes
/// the tree, which stays sound.
pub open spec fn tokens_stand(
    t: TreeState,
    data: Seq<u8>,
    pos: int,
    s: Seq<u8>,
    tokens: Seq<Token>,
    ends: Seq<int>,
) -> bool
    decreases tokens.len(),
{
    &&& ends.len() == tokens.len()
    &&& tokens.len() > 0 ==> {
        &&& token_stands(t, data, pos, tokens[0], ends[0])
        &&& token_reaches(s, tokens[0], WINDOW_SIZE as nat)
        &&& tokens_stand(
            used(t, leaf_of(tokens[0])),
            data,
            ends[0],
            s + token_text(s, tokens[0]),
            tokens.drop_first(),
            ends.drop_first(),
        )
    }
}

proof fn tokens_are_read(
    t: TreeState,
    data: Seq<u8>,
    pos: int,
    s: Seq<u8>,
    tokens: Seq<Token>,
    ends: Seq<int>,
)
    requires
        tokens_stand(t, data, pos, s, tokens, ends),
    ensures
        bytes_from(
            t,
            data,
            pos,
            zero_ring(WINDOW_SIZE as nat).feed_all(s),
            tokens_text(s, tokens).len(),
        ) == Ok::<Seq<u8>, ErrorKind>(tokens_text(s, tokens)),
    decreases tokens.len(),
{
    if tokens.len() > 0 {
        let r = zero_ring(WINDOW_SIZE as nat);
        let tok = tokens[0];
        let x = token_text(s, tok);
        let rest = tokens_text(s + x, tokens.drop_first());
        let all = tokens_text(s, tokens);
        assert(all == x + rest);
        tokens_are_read(
            used(t, leaf_of(tok)),
            data,
            ends[0],
            s + x,
            tokens.drop_first(),
            ends.drop_first(),
        );
        path_is_read(t, data, pos, leaf_of(tok));
        match tok {
            Token::Literal(b) => {
                assert((s + x).drop_last() =~= s);
                assert(r.feed_all(s + x) == r.feed_all(s).feed(b));
                assert(all.len() - 1 == rest.len());
            },
            Token::Match { distance, length } => {
                copy_is_repetition(r, s, distance, length);
                repetition_len(s, distance, length);
                assert(all.len() - length == rest.len());
            },
        }
    }
}

/// A fork in which tokens stand is read back as their text, behind the text that the
/// window starts out with.
pub proof fn written_tokens_are_read_back(data: Seq<u8>, tokens: Seq<Token>, ends: Seq<int>)
    requires
        tokens_stand(tree_start(), data, 0, first_window(), tokens, ends),
    ensures
        decoded(data, tokens_text(first_window(), tokens).len()) == Ok::<Seq<u8>, ErrorKind>(
            tokens_text(first_window(), tokens),
        ),
{
    tokens_are_read(tree_start(), data, 0, first_window(), tokens, ends);
    prefilled_ring_was_fed(first_window());
}

} // verus!
