use vstd::prelude::*;
use crate::bits::{msb_bit, msb_value, BitReaderMsb};
use crate::error::{after, after_nothing, after_push, bytes_of, ErrorKind};

verus! {

/// A byte-valued binary code tree: the branch for a 0 bit, then the one for a 1 bit.
pub enum Tree {
    Leaf(u8),
    Node(Box<Tree>, Box<Tree>),
}

/// The tree spelled from `pos` and the position after it: a 1 bit and eight value
/// bits for a leaf, a 0 bit and two trees for a branch.
pub open spec fn tree_at(data: Seq<u8>, pos: int) -> Option<(Tree, int)>
    decreases 8 * data.len() - pos,
{
    if pos >= 8 * data.len() {
        None
    } else if msb_bit(data, pos) {
        if pos + 9 <= 8 * data.len() {
            Some((Tree::Leaf(msb_value(data, pos + 1, 8) as u8), pos + 9))
        } else {
            None
        }
    } else {
        match tree_at(data, pos + 1) {
            Some((zero, p)) => if pos < p <= 8 * data.len() {
                match tree_at(data, p) {
                    Some((one, q)) => Some((Tree::Node(Box::new(zero), Box::new(one)), q)),
                    None => None,
                }
            } else {
                None
            },
            None => None,
        }
    }
}

/// The leaf that the bits from `pos` lead to and the position after them.
pub open spec fn leaf_at(tree: Tree, data: Seq<u8>, pos: int) -> Option<(u8, int)>
    decreases tree,
{
    match tree {
        Tree::Leaf(v) => Some((v, pos)),
        Tree::Node(zero, one) => if pos >= 8 * data.len() {
            None
        } else if msb_bit(data, pos) {
            leaf_at(*one, data, pos + 1)
        } else {
            leaf_at(*zero, data, pos + 1)
        },
    }
}

/// The bytes of the next `n` leaves.
pub open spec fn leaves_from(tree: Tree, data: Seq<u8>, pos: int, n: nat) -> Result<Seq<u8>, ErrorKind>
    decreases n,
{
    if n == 0 {
        Ok(seq![])
    } else {
        match leaf_at(tree, data, pos) {
            None => Err(ErrorKind::UnexpectedEof),
            Some((b, p)) => after(seq![b], leaves_from(tree, data, p, (n - 1) as nat)),
        }
    }
}

/// The position after the next `n` leaves.
pub open spec fn leaves_end(tree: Tree, data: Seq<u8>, pos: int, n: nat) -> int
    decreases n,
{
    match leaf_at(tree, data, pos) {
        Some((b, p)) => if n > 0 {
            leaves_end(tree, data, p, (n - 1) as nat)
        } else {
            pos
        },
        None => pos,
    }
}

/// A tree and then `n` bytes coded with it.
pub open spec fn huffman_decoded(data: Seq<u8>, n: nat) -> Result<Seq<u8>, ErrorKind> {
    match tree_at(data, 0) {
        None => Err(ErrorKind::UnexpectedEof),
        Some((tree, pos)) => leaves_from(tree, data, pos, n),
    }
}

/// The bits that spell a tree.
pub open spec fn tree_bits(tree: Tree) -> Seq<bool>
    decreases tree,
{
    match tree {
        Tree::Leaf(v) => seq![true] + Seq::new(8, |i: int| (v >> ((7 - i) as u8)) & 1u8 == 1u8),
        Tree::Node(zero, one) => seq![false] + tree_bits(*zero) + tree_bits(*one),
    }
}

/// The bits from `pos` on are `bits`.
pub open spec fn spells(data: Seq<u8>, pos: int, bits: Seq<bool>) -> bool {
    &&& 0 <= pos
    &&& pos + bits.len() <= 8 * data.len()
    &&& forall|i: int| 0 <= i < bits.len() ==> #[trigger] msb_bit(data, pos + i) == bits[i]
}

proof fn byte_from_bits(v: u8, b0: bool, b1: bool, b2: bool, b3: bool, b4: bool, b5: bool, b6: bool, b7: bool)
    by (bit_vector)
    requires
        b0 == ((v >> 7u8) & 1u8 == 1u8),
        b1 == ((v >> 6u8) & 1u8 == 1u8),
        b2 == ((v >> 5u8) & 1u8 == 1u8),
        b3 == ((v >> 4u8) & 1u8 == 1u8),
        b4 == ((v >> 3u8) & 1u8 == 1u8),
        b5 == ((v >> 2u8) & 1u8 == 1u8),
        b6 == ((v >> 1u8) & 1u8 == 1u8),
        b7 == ((v >> 0u8) & 1u8 == 1u8),
    ensures
        v as int == (if b0 { 128int } else { 0 }) + (if b1 { 64int } else { 0 }) + (if b2 { 32int } else { 0 }) + (if b3 {
            16int
        } else {
            0
        }) + (if b4 { 8int } else { 0 }) + (if b5 { 4int } else { 0 }) + (if b6 { 2int } else { 0 }) + (if b7 {
            1int
        } else {
            0
        }),
{
}

/// A tree that was written is read back, wherever it stands.
pub proof fn written_tree_is_read_back(tree: Tree, data: Seq<u8>, pos: int)
    requires
        spells(data, pos, tree_bits(tree)),
    ensures
        tree_at(data, pos) == Some((tree, pos + tree_bits(tree).len())),
    decreases tree,
{
    let bits = tree_bits(tree);
    match tree {
        Tree::Leaf(v) => {
            assert(msb_bit(data, pos + 0) == bits[0]);
            assert(forall|i: int| 0 <= i < 8 ==> #[trigger] msb_bit(data, pos + (1 + i)) == bits[1 + i]);
            let b0 = msb_bit(data, pos + (1 + 0));
            let b1 = msb_bit(data, pos + (1 + 1));
            let b2 = msb_bit(data, pos + (1 + 2));
            let b3 = msb_bit(data, pos + (1 + 3));
            let b4 = msb_bit(data, pos + (1 + 4));
            let b5 = msb_bit(data, pos + (1 + 5));
            let b6 = msb_bit(data, pos + (1 + 6));
            let b7 = msb_bit(data, pos + (1 + 7));
            byte_from_bits(v, b0, b1, b2, b3, b4, b5, b6, b7);
            reveal_with_fuel(msb_value, 9);
            assert(msb_value(data, pos + 1, 8) == v as nat);
        },
        Tree::Node(zero, one) => {
            let zb = tree_bits(*zero);
            let ob = tree_bits(*one);
            assert(msb_bit(data, pos + 0) == bits[0]);
            assert forall|i: int| 0 <= i < zb.len() implies #[trigger] msb_bit(data, pos + 1 + i) == zb[i] by {
                assert(msb_bit(data, pos + (1 + i)) == bits[1 + i]);
            }
            assert forall|i: int| 0 <= i < ob.len() implies #[trigger] msb_bit(data, pos + 1 + zb.len() + i) == ob[i] by {
                assert(msb_bit(data, pos + (1 + zb.len() + i)) == bits[1 + zb.len() + i]);
            }
            written_tree_is_read_back(*zero, data, pos + 1);
            written_tree_is_read_back(*one, data, pos + 1 + zb.len());
            assert(Box::new(*zero) == zero);
            assert(Box::new(*one) == one);
        },
    }
}

/// The byte that a path from the root leads to, if it ends at a leaf.
pub open spec fn led_to(tree: Tree, path: Seq<bool>) -> Option<u8>
    decreases tree,
{
    match tree {
        Tree::Leaf(v) => if path.len() == 0 {
            Some(v)
        } else {
            None
        },
        Tree::Node(zero, one) => if path.len() == 0 {
            None
        } else if path[0] {
            led_to(*one, path.drop_first())
        } else {
            led_to(*zero, path.drop_first())
        },
    }
}

/// The paths one behind the other.
pub open spec fn paths_joined(paths: Seq<Seq<bool>>) -> Seq<bool>
    decreases paths.len(),
{
    if paths.len() == 0 {
        seq![]
    } else {
        paths[0] + paths_joined(paths.drop_first())
    }
}

proof fn path_is_followed(tree: Tree, data: Seq<u8>, pos: int, path: Seq<bool>)
    requires
        spells(data, pos, path),
        led_to(tree, path) is Some,
    ensures
        leaf_at(tree, data, pos) == Some((led_to(tree, path)->Some_0, pos + path.len())),
    decreases tree,
{
    match tree {
        Tree::Leaf(v) => {},
        Tree::Node(zero, one) => {
            assert(msb_bit(data, pos + 0) == path[0]);
            let rest = path.drop_first();
            assert forall|i: int| 0 <= i < rest.len() implies #[trigger] msb_bit(data, pos + 1 + i) == rest[i] by {
                assert(msb_bit(data, pos + (1 + i)) == path[1 + i]);
            }
            if path[0] {
                path_is_followed(*one, data, pos + 1, rest);
            } else {
                path_is_followed(*zero, data, pos + 1, rest);
            }
        },
    }
}

proof fn spelling_splits(data: Seq<u8>, pos: int, a: Seq<bool>, b: Seq<bool>)
    requires
        spells(data, pos, a + b),
    ensures
        spells(data, pos, a),
        spells(data, pos + a.len(), b),
{
    assert forall|i: int| 0 <= i < a.len() implies #[trigger] msb_bit(data, pos + i) == a[i] by {
        assert(msb_bit(data, pos + i) == (a + b)[i]);
    }
    assert forall|i: int| 0 <= i < b.len() implies #[trigger] msb_bit(data, pos + a.len() + i) == b[i] by {
        assert(msb_bit(data, pos + (a.len() + i)) == (a + b)[a.len() + i]);
    }
}

proof fn paths_are_followed(tree: Tree, data: Seq<u8>, pos: int, paths: Seq<Seq<bool>>, content: Seq<u8>)
    requires
        spells(data, pos, paths_joined(paths)),
        paths.len() == content.len(),
        forall|i: int| 0 <= i < paths.len() ==> #[trigger] led_to(tree, paths[i]) == Some(content[i]),
    ensures
        leaves_from(tree, data, pos, content.len()) == Ok::<Seq<u8>, ErrorKind>(content),
    decreases paths.len(),
{
    if paths.len() == 0 {
        assert(content =~= seq![]);
    } else {
        let rest = paths.drop_first();
        let more = content.drop_first();
        spelling_splits(data, pos, paths[0], paths_joined(rest));
        assert(led_to(tree, paths[0]) == Some(content[0]));
        path_is_followed(tree, data, pos, paths[0]);
        assert forall|i: int| 0 <= i < rest.len() implies #[trigger] led_to(tree, rest[i]) == Some(more[i]) by {
            assert(led_to(tree, paths[i + 1]) == Some(content[i + 1]));
        }
        paths_are_followed(tree, data, pos + paths[0].len(), rest, more);
        assert(seq![content[0]] + more =~= content);
    }
}

/// A tree and behind it the paths to some bytes are read back as those bytes.
pub proof fn written_bytes_are_read_back(tree: Tree, data: Seq<u8>, paths: Seq<Seq<bool>>, content: Seq<u8>)
    requires
        spells(data, 0, tree_bits(tree) + paths_joined(paths)),
        paths.len() == content.len(),
        forall|i: int| 0 <= i < paths.len() ==> #[trigger] led_to(tree, paths[i]) == Some(content[i]),
    ensures
        huffman_decoded(data, content.len()) == Ok::<Seq<u8>, ErrorKind>(content),
{
    spelling_splits(data, 0, tree_bits(tree), paths_joined(paths));
    written_tree_is_read_back(tree, data, 0);
    paths_are_followed(tree, data, tree_bits(tree).len() as int, paths, content);
}

/// A stream that opens with its code tree.
pub struct StuffItHuffman<'a> {
    bits: BitReaderMsb<'a>,
    tree: Tree,
}

/// Read a tree; `None` when the stream ends inside it.
fn parse_tree(bits: &mut BitReaderMsb) -> (r: Option<Tree>)
    requires
        old(bits).wf(),
    ensures
        final(bits).wf(),
        final(bits).data() == old(bits).data(),
        match r {
            Some(t) => {
                &&& tree_at(old(bits).data(), old(bits).pos()) == Some((t, final(bits).pos()))
                &&& old(bits).pos() < final(bits).pos() <= 8 * old(bits).data().len()
            },
            None => tree_at(old(bits).data(), old(bits).pos()) is None,
        },
    decreases 8 * old(bits).data().len() - old(bits).pos(),
{
    match bits.read_bit() {
        None => None,
        Some(true) => {
            match bits.read(8) {
                None => None,
                Some(v) => Some(Tree::Leaf(v as u8)),
            }
        },
        Some(false) => {
            match parse_tree(bits) {
                None => None,
                Some(zero) => {
                    match parse_tree(bits) {
                        None => None,
                        Some(one) => Some(Tree::Node(Box::new(zero), Box::new(one))),
                    }
                },
            }
        },
    }
}

impl<'a> StuffItHuffman<'a> {
    pub closed spec fn data(&self) -> Seq<u8> {
        self.bits.data()
    }

    pub closed spec fn pos(&self) -> int {
        self.bits.pos()
    }

    pub closed spec fn tree(&self) -> Tree {
        self.tree
    }

    pub closed spec fn wf(&self) -> bool {
        self.bits.wf()
    }

    /// Read the tree that opens `raw`.
    pub fn new(raw: &'a [u8]) -> (r: Result<Self, ErrorKind>)
        ensures
            match r {
                Ok(h) => h.wf() && h.data() == raw@ && tree_at(raw@, 0) == Some((h.tree(), h.pos())),
                Err(e) => e == ErrorKind::UnexpectedEof && tree_at(raw@, 0) is None,
            },
    {
        let mut bits = BitReaderMsb::new(raw);
        match parse_tree(&mut bits) {
            None => Err(ErrorKind::UnexpectedEof),
            Some(tree) => Ok(StuffItHuffman { bits, tree }),
        }
    }

    /// The byte that the next bits lead to.
    fn next_leaf(&mut self) -> (r: Option<u8>)
        requires
            old(self).wf(),
        ensures
            final(self).wf(),
            final(self).data() == old(self).data(),
            final(self).tree() == old(self).tree(),
            match r {
                Some(b) => leaf_at(old(self).tree(), old(self).data(), old(self).pos()) == Some((b, final(self).pos())),
                None => leaf_at(old(self).tree(), old(self).data(), old(self).pos()) is None,
            },
    {
        let mut node: &Tree = &self.tree;
        loop
            invariant
                self.bits.wf(),
                self.bits.data() == old(self).bits.data(),
                leaf_at(*node, self.bits.data(), self.bits.pos()) == leaf_at(
                    old(self).tree,
                    old(self).bits.data(),
                    old(self).bits.pos(),
                ),
                self.tree == old(self).tree,
            decreases *node,
        {
            match node {
                Tree::Leaf(v) => {
                    return Some(*v);
                },
                Tree::Node(zero, one) => {
                    match self.bits.read_bit() {
                        None => {
                            return None;
                        },
                        Some(true) => {
                            node = one;
                        },
                        Some(false) => {
                            node = zero;
                        },
                    }
                },
            }
        }
    }

    /// The next `size` bytes.
    pub fn read_exact(&mut self, size: usize) -> (r: Result<Vec<u8>, ErrorKind>)
        requires
            old(self).wf(),
        ensures
            final(self).wf(),
            final(self).data() == old(self).data(),
            final(self).tree() == old(self).tree(),
            bytes_of(r) == leaves_from(old(self).tree(), old(self).data(), old(self).pos(), size as nat),
            r is Ok ==> final(self).pos() == leaves_end(old(self).tree(), old(self).data(), old(self).pos(), size as nat),
    {
        let mut out: Vec<u8> = Vec::new();
        let ghost goal = leaves_from(old(self).tree(), old(self).data(), old(self).pos(), size as nat);
        let mut left: usize = size;
        proof {
            after_nothing(goal);
        }
        while left > 0
            invariant
                self.wf(),
                self.data() == old(self).data(),
                self.tree() == old(self).tree(),
                leaves_end(self.tree(), self.data(), self.pos(), left as nat) == leaves_end(
                    old(self).tree(),
                    old(self).data(),
                    old(self).pos(),
                    size as nat,
                ),
                goal == leaves_from(old(self).tree(), old(self).data(), old(self).pos(), size as nat),
                goal == after(out@, leaves_from(self.tree(), self.data(), self.pos(), left as nat)),
            decreases left,
        {
            match self.next_leaf() {
                None => {
                    return Err(ErrorKind::UnexpectedEof);
                },
                Some(b) => {
                    proof {
                        after_push(out@, b, leaves_from(self.tree(), self.data(), self.pos(), (left - 1) as nat));
                    }
                    out.push(b);
                    left = left - 1;
                },
            }
        }
        assert(out@ + seq![] =~= out@);
        Ok(out)
    }
}

} // verus!
