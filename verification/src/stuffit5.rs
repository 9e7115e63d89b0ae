use vstd::prelude::*;
use vstd::arithmetic::power2::lemma2_to64;
use crate::bits::{msb_bit, msb_value, msb_value_bound, BitReaderMsb};
use crate::error::{after, after_after, after_nothing, after_push, bytes_of, ErrorKind};
use crate::lzss::{LzssWindow, Ring};
use crate::prefix_code::{canonical, lengths_ok, symbol_at, symbol_from_range, symbols_below, BitOrder, PrefixCode};

verus! {

/// The reach of a back-reference.
pub const WINDOW_SIZE: usize = 4096;

/// How many symbols the adaptive code has: the byte values and the lengths.
pub const NUM_LEAVES: usize = 314;

/// How many branches join them.
pub const NUM_BRANCHES: usize = 313;

/// Branches and leaves together.
pub const NUM_NODES: usize = 627;

/// The count at which the tree is rebuilt with half the counts.
pub const RECONSTRUCT_FREQ: u32 = 0x8000;

/// No node.
pub const NIL: usize = 627;

/// Word lengths of the code for the high part of a distance.
pub const DISTANCE_LENGTHS: [u32; 64] = [
    3, 4, 4, 4, 5, 5, 5, 5, 5, 5, 5, 5, 6, 6, 6, 6, 6, 6, 6, 6, 6, 6, 6, 6, 7, 7, 7, 7, 7, 7, 7, 7, 7, 7, 7, 7, 7, 7, 7,
    7, 7, 7, 7, 7, 7, 7, 7, 7, 8, 8, 8, 8, 8, 8, 8, 8, 8, 8, 8, 8, 8, 8, 8, 8,
];

/// The word lengths of that code.
pub closed spec fn distance_lengths() -> Seq<u32> {
    DISTANCE_LENGTHS@
}

/// Where the word lengths change.
pub(crate) proof fn distance_lengths_are()
    ensures
        distance_lengths() == DISTANCE_LENGTHS@,
{
}

// === the tree as a value ======================================================

/// The adaptive code tree. Nodes 0 to 312 are branches, node 0 the root; node
/// 626 - v is the leaf of symbol v. The nodes stand in a row, `order`, by falling
/// count, and `index` tells where each of them stands.
pub struct TreeState {
    pub parent: Seq<usize>,
    pub left: Seq<usize>,
    pub right: Seq<usize>,
    pub index: Seq<usize>,
    pub freq: Seq<u32>,
    pub order: Seq<usize>,
}

/// The row and the links fit together: every node but the root hangs on a branch
/// that stands before it.
pub open spec fn shape(t: TreeState) -> bool {
    &&& t.parent.len() == 627
    &&& t.left.len() == 627
    &&& t.right.len() == 627
    &&& t.index.len() == 627
    &&& t.freq.len() == 627
    &&& t.order.len() == 627
    &&& forall|p: int| 0 <= p < 627 ==> (#[trigger] t.order[p]) < 627 && t.index[t.order[p] as int] == p
    &&& forall|s: int| 0 <= s < 627 ==> (#[trigger] t.index[s]) < 627 && t.order[t.index[s] as int] == s
    &&& forall|s: int| 313 <= s < 627 ==> #[trigger] t.left[s] == NIL && t.right[s] == NIL
    &&& forall|s: int|
        0 <= s < 313 ==> {
            &&& (#[trigger] t.left[s]) < 627
            &&& t.right[s] < 627
            &&& t.left[s] != t.right[s]
            &&& t.parent[t.left[s] as int] == s
            &&& t.parent[t.right[s] as int] == s
        }
    &&& t.parent[0] == NIL
    &&& forall|s: int|
        0 < s < 627 ==> {
            &&& (#[trigger] t.parent[s]) < 313
            &&& t.left[t.parent[s] as int] == s || t.right[t.parent[s] as int] == s
            &&& t.index[t.parent[s] as int] < t.index[s]
        }
}

/// The row falls.
pub open spec fn falling(order: Seq<usize>, freq: Seq<u32>) -> bool {
    forall|p: int, q: int|
        0 <= p < q < 627 ==> freq[(#[trigger] order[p]) as int] >= freq[(#[trigger] order[q]) as int]
}

pub open spec fn all_counted(freq: Seq<u32>) -> bool {
    forall|s: int| 0 <= s < 627 ==> 1 <= #[trigger] freq[s]
}

/// What hangs on branch `b`, counted.
pub open spec fn hanging(t: TreeState, b: int) -> int {
    t.freq[t.left[b] as int] + t.freq[t.right[b] as int]
}

/// Every branch but `x` counts what hangs on it, and `x` is one short.
pub open spec fn short_at(t: TreeState, x: int) -> bool {
    forall|b: int|
        0 <= b < 313 ==> hanging(t, b) == #[trigger] t.freq[b] + (if b == x {
            1int
        } else {
            0int
        })
}

pub open spec fn total(s: Seq<int>) -> int
    decreases s.len(),
{
    if s.len() == 0 {
        0
    } else {
        total(s.drop_last()) + s.last()
    }
}

/// The counts of the leaves, place by place along the row.
pub open spec fn leaf_counts(order: Seq<usize>, freq: Seq<u32>) -> Seq<int> {
    Seq::new(
        order.len(),
        |p: int|
            if order[p] >= 313 {
                freq[order[p] as int] as int
            } else {
                0int
            },
    )
}

/// Everything that holds of the tree between two symbols.
pub open spec fn tree_ok(t: TreeState) -> bool {
    &&& shape(t)
    &&& falling(t.order, t.freq)
    &&& all_counted(t.freq)
    &&& short_at(t, -1)
    &&& t.freq[0] == total(leaf_counts(t.order, t.freq))
    &&& t.freq[0] <= RECONSTRUCT_FREQ
}

// === what happens to the tree =================================================

/// Node `s` put at place `p` of the row.
pub open spec fn placed(t: TreeState, s: int, p: int) -> TreeState {
    TreeState { order: t.order.update(p, s as usize), index: t.index.update(s, p as usize), ..t }
}

/// Branch `b` hung over the nodes at places 2b + 1 and 2b + 2.
pub open spec fn joined(t: TreeState, b: int) -> TreeState {
    let l = t.order[2 * b + 1];
    let r = t.order[2 * b + 2];
    TreeState {
        left: t.left.update(b, l),
        right: t.right.update(b, r),
        parent: t.parent.update(l as int, b as usize).update(r as int, b as usize),
        freq: t.freq.update(b, (t.freq[l as int] + t.freq[r as int]) as u32),
        ..t
    }
}

/// The tree in which node `i` hangs on branch (i - 1) / 2 and every leaf counts 1,
/// with the branches from `b` up in place.
pub open spec fn balanced_from(b: int) -> TreeState
    decreases 313 - b,
{
    if b >= 313 {
        TreeState {
            parent: Seq::new(627, |s: int| NIL),
            left: Seq::new(627, |s: int| NIL),
            right: Seq::new(627, |s: int| NIL),
            index: Seq::new(627, |s: int| s as usize),
            freq: Seq::new(627, |s: int| 1u32),
            order: Seq::new(627, |s: int| s as usize),
        }
    } else {
        joined(balanced_from(b + 1), b)
    }
}

pub open spec fn tree_start() -> TreeState {
    balanced_from(0)
}

/// The first place from which all nodes before place `q` that count less than `f`
/// can be passed.
pub open spec fn landing(t: TreeState, q: int, f: u32) -> int
    decreases q,
{
    if q > 0 && t.freq[t.order[q - 1] as int] < f {
        landing(t, q - 1, f)
    } else {
        q
    }
}

/// Nodes `x` and `y` trade places in the row and in the tree.
pub open spec fn traded(t: TreeState, x: int, y: int) -> TreeState {
    let xp = t.parent[x] as int;
    let yp = t.parent[y] as int;
    let x_right = t.right[xp] == x;
    let y_right = t.right[yp] == y;
    let right1 = if x_right {
        t.right.update(xp, y as usize)
    } else {
        t.right
    };
    let left1 = if x_right {
        t.left
    } else {
        t.left.update(xp, y as usize)
    };
    TreeState {
        right: if y_right {
            right1.update(yp, x as usize)
        } else {
            right1
        },
        left: if y_right {
            left1
        } else {
            left1.update(yp, x as usize)
        },
        parent: t.parent.update(x, yp as usize).update(y, xp as usize),
        order: t.order.update(t.index[x] as int, y as usize).update(t.index[y] as int, x as usize),
        index: t.index.update(y, t.index[x]).update(x, t.index[y]),
        ..t
    }
}

/// Node `x` moved ahead of the nodes that now count less than it.
pub open spec fn promoted(t: TreeState, x: int) -> TreeState {
    let q = landing(t, t.index[x] as int, t.freq[x]);
    if q < t.index[x] {
        traded(t, x, t.order[q] as int)
    } else {
        t
    }
}

pub open spec fn bumped(t: TreeState, x: int) -> TreeState {
    TreeState { freq: t.freq.update(x, (t.freq[x] + 1) as u32), ..t }
}

/// Count node `x` and the branches above it, at most `steps` of them.
pub open spec fn counted_up(t: TreeState, x: int, steps: nat) -> TreeState
    decreases steps,
{
    let t1 = bumped(t, x);
    if t1.parent[x] == NIL || steps == 0 {
        t1
    } else {
        let t2 = promoted(t1, x);
        counted_up(t2, t2.parent[x] as int, (steps - 1) as nat)
    }
}

/// The leaves among the first `n` nodes of the row.
pub open spec fn leaves_of(order: Seq<usize>, n: int) -> Seq<usize>
    decreases n,
{
    if n <= 0 {
        seq![]
    } else if order[n - 1] >= 313 {
        leaves_of(order, n - 1).push(order[n - 1])
    } else {
        leaves_of(order, n - 1)
    }
}

/// Leaf counts halved, rounding up.
pub open spec fn halved(freq: Seq<u32>) -> Seq<u32> {
    Seq::new(
        freq.len(),
        |s: int|
            if s >= 313 {
                ((freq[s] + 1) / 2) as u32
            } else {
                freq[s]
            },
    )
}

/// Put leaves in the row, from the back, until only as many are left as there
/// are branches after the next.
pub open spec fn leaves_forced(t: TreeState, leaves: Seq<usize>, n: int, branches: int) -> (TreeState, int)
    decreases n,
{
    if n > 0 && n >= branches {
        leaves_forced(placed(t, leaves[n - 1] as int, n + branches - 1), leaves, n - 1, branches)
    } else {
        (t, n)
    }
}

/// Put leaves in the row, from the back, while they count no more than `f`.
pub open spec fn leaves_up_to(t: TreeState, leaves: Seq<usize>, n: int, branches: int, f: u32) -> (TreeState, int)
    decreases n,
{
    if n > 0 && t.freq[leaves[n - 1] as int] <= f {
        leaves_up_to(placed(t, leaves[n - 1] as int, n + branches - 1), leaves, n - 1, branches, f)
    } else {
        (t, n)
    }
}

/// Put the remaining `n` leaves and `branches` branches in the row, from the back.
pub open spec fn rebuilt(t: TreeState, leaves: Seq<usize>, n: int, branches: int) -> TreeState
    decreases branches,
{
    if branches <= 0 {
        t
    } else {
        let b = branches - 1;
        let (t1, n1) = leaves_forced(t, leaves, n, branches);
        let t2 = joined(t1, b);
        let (t3, n3) = leaves_up_to(t2, leaves, n1, branches, t2.freq[b]);
        rebuilt(placed(t3, b, n3 + b), leaves, n3, b)
    }
}

/// The tree built anew from half the leaf counts.
pub open spec fn reconstructed(t: TreeState) -> TreeState {
    let leaves = leaves_of(t.order, 627);
    let t1 = rebuilt(TreeState { freq: halved(t.freq), ..t }, leaves, 314, 313);
    TreeState { parent: t1.parent.update(t1.order[0] as int, NIL), ..t1 }
}

/// The count of leaf `s` that another use adds to: when the counts have come to 32768, they
/// are halved first, rounding up.
pub open spec fn counts_before(t: TreeState, s: int) -> int {
    if t.freq[0] == 0x8000 {
        (t.freq[s] + 1) / 2
    } else {
        t.freq[s] as int
    }
}

/// From `t` to `after` one use of the leaf `node` has been added, and none of any other.
#[verifier::opaque]
pub open spec fn leaf_gains_one(t: TreeState, after: TreeState, node: int) -> bool {
    forall|s: int|
        313 <= s < 627 ==> #[trigger] after.freq[s] == counts_before(t, s) + (if s == node {
            1int
        } else {
            0int
        })
}

/// The tree after one more use of leaf `x`.
pub open spec fn used(t: TreeState, x: int) -> TreeState {
    counted_up(
        if t.freq[0] == RECONSTRUCT_FREQ {
            reconstructed(t)
        } else {
            t
        },
        x,
        627,
    )
}

/// The leaf that the bits from `pos` lead to from `node`, a 1 bit going left, and
/// the position after them.
pub open spec fn leaf_from(t: TreeState, data: Seq<u8>, pos: int, node: int) -> Result<(int, int), ErrorKind>
    decreases 627 - t.index[node],
        when shape(t) && 0 <= node < 627
        via leaf_from_descends
{
    if t.left[node] == NIL {
        Ok((node, pos))
    } else if pos >= 8 * data.len() {
        Err(ErrorKind::UnexpectedEof)
    } else {
        leaf_from(
            t,
            data,
            pos + 1,
            (if msb_bit(data, pos) {
                t.left[node]
            } else {
                t.right[node]
            }) as int,
        )
    }
}

/// What hangs on a branch stands behind it.
pub proof fn children_stand_behind(t: TreeState, node: int)
    requires
        shape(t),
        0 <= node < 627,
        t.left[node] != NIL,
    ensures
        node < 313,
        0 < t.left[node] < 627,
        0 < t.right[node] < 627,
        t.index[node] < t.index[t.left[node] as int] < 627,
        t.index[node] < t.index[t.right[node] as int] < 627,
{
    if node >= 313 {
        assert(t.left[node] == NIL);
    }
    assert(t.left[node] < 627);
    let l = t.left[node] as int;
    let r = t.right[node] as int;
    assert(l != 0 && r != 0) by {
        assert(t.parent[0] == NIL);
    }
    assert(t.parent[l] < 313);
    assert(t.parent[r] < 313);
    assert(t.index[l] < 627 && t.index[r] < 627);
}

#[via_fn]
proof fn leaf_from_descends(t: TreeState, data: Seq<u8>, pos: int, node: int) {
    if t.left[node] != NIL {
        children_stand_behind(t, node);
    }
}

// === the stream ===============================================================

/// The window before the first byte: runs of 13 of each byte value, the byte
/// values up and down, zeros, and spaces.
pub open spec fn first_window() -> Seq<u8> {
    Seq::new(
        4096,
        |i: int|
            if i < 18 {
                0u8
            } else if i < 3346 {
                ((i - 18) / 13) as u8
            } else if i < 3602 {
                (i - 3346) as u8
            } else if i < 3858 {
                (255 - (i - 3602)) as u8
            } else if i < 3986 {
                0u8
            } else {
                0x20u8
            },
    )
}

/// The distance spelled at `pos` and the position after it.
pub open spec fn distance_at(data: Seq<u8>, pos: int) -> Result<(int, int), ErrorKind> {
    match symbol_at(canonical(distance_lengths(), 8), BitOrder::MsbFirst, data, pos) {
        Err(e) => Err(e),
        Ok((high, p)) => if p + 6 > 8 * data.len() {
            Err(ErrorKind::UnexpectedEof)
        } else {
            Ok((64 * high + msb_value(data, p, 6) + 1, p + 6))
        },
    }
}

/// The next `left` bytes. A match that would run past them is cut short.
pub open spec fn bytes_from(t: TreeState, data: Seq<u8>, pos: int, ring: Ring, left: nat) -> Result<Seq<u8>, ErrorKind>
    decreases left,
{
    if left == 0 {
        Ok(seq![])
    } else {
        match leaf_from(t, data, pos, 0) {
            Err(e) => Err(e),
            Ok((leaf, p)) => {
                let t1 = used(t, leaf);
                let value = 626 - leaf;
                if value < 0x100 {
                    after(seq![value as u8], bytes_from(t1, data, p, ring.feed(value as u8), (left - 1) as nat))
                } else {
                    match distance_at(data, p) {
                        Err(e) => Err(e),
                        Ok((distance, p1)) => {
                            let n = if value - 0x100 + 3 < left {
                                (value - 0x100 + 3) as nat
                            } else {
                                left
                            };
                            after(
                                ring.copied(distance, n),
                                bytes_from(t1, data, p1, ring.after_copy(distance, n), (left - n) as nat),
                            )
                        },
                    }
                }
            },
        }
    }
}

/// The first `outlen` bytes of a fork.
pub open spec fn decoded(data: Seq<u8>, outlen: nat) -> Result<Seq<u8>, ErrorKind> {
    bytes_from(tree_start(), data, 0, Ring { bytes: first_window(), cursor: 0 }, outlen)
}

// === sums =====================================================================

proof fn total_update(s: Seq<int>, i: int, v: int)
    requires
        0 <= i < s.len(),
    ensures
        total(s.update(i, v)) == total(s) - s[i] + v,
    decreases s.len(),
{
    let g = s.update(i, v);
    if i == s.len() - 1 {
        assert(g.drop_last() =~= s.drop_last());
    } else {
        assert(g.drop_last() =~= s.drop_last().update(i, v));
        total_update(s.drop_last(), i, v);
    }
}

// === promotion keeps the tree =================================================

proof fn landing_facts(t: TreeState, q: int, f: u32)
    requires
        0 <= q < 627,
    ensures
        0 <= landing(t, q, f) <= q,
        forall|p: int| landing(t, q, f) <= p < q ==> t.freq[(#[trigger] t.order[p]) as int] < f,
        landing(t, q, f) > 0 ==> t.freq[t.order[landing(t, q, f) - 1] as int] >= f,
    decreases q,
{
    if q > 0 && t.freq[t.order[q - 1] as int] < f {
        landing_facts(t, q - 1, f);
    }
}

/// The row falls but for node `x`, which counts one more than its place allows.
pub open spec fn falling_but(t: TreeState, x: int) -> bool {
    falling(t.order, t.freq.update(x, (t.freq[x] - 1) as u32))
}

#[verifier::spinoff_prover]
proof fn trade_keeps_shape(t: TreeState, x: int, y: int)
    requires
        shape(t),
        0 < x < 627,
        0 < y < 627,
        x != y,
        t.index[y] < t.index[x],
        y != t.parent[x],
        forall|c: int| 0 < c < 627 && t.parent[c] == y ==> t.index[x] < #[trigger] t.index[c],
    ensures
        shape(traded(t, x, y)),
        traded(t, x, y).parent[x] == t.parent[y],
{
    let u = traded(t, x, y);
    let xp = t.parent[x] as int;
    let yp = t.parent[y] as int;
    assert(t.index[yp] < t.index[y]);
    assert(t.index[xp] < t.index[x]);
    assert(yp != x);
    assert(xp != y);
    assert forall|p: int| 0 <= p < 627 implies (#[trigger] u.order[p]) < 627 && u.index[u.order[p] as int] == p by {
        assert(t.index[t.order[p] as int] == p);
    }
    assert forall|s: int| 0 <= s < 627 implies (#[trigger] u.index[s]) < 627 && u.order[u.index[s] as int] == s by {
        assert(t.order[t.index[s] as int] == s);
        assert(t.order[t.index[x] as int] == x);
        assert(t.order[t.index[y] as int] == y);
    }
    assert(t.left[xp] == x || t.right[xp] == x);
    assert(t.left[yp] == y || t.right[yp] == y);
    assert forall|s: int| 0 <= s < 313 implies {
        &&& (#[trigger] u.left[s]) < 627
        &&& u.right[s] < 627
        &&& u.left[s] != u.right[s]
        &&& u.parent[u.left[s] as int] == s
        &&& u.parent[u.right[s] as int] == s
    } by {
        assert(t.left[s] < 627);
        assert(t.left[xp] < 627);
        assert(t.left[yp] < 627);
    }
    assert forall|s: int| 0 < s < 627 implies {
        &&& (#[trigger] u.parent[s]) < 313
        &&& u.left[u.parent[s] as int] == s || u.right[u.parent[s] as int] == s
        &&& u.index[u.parent[s] as int] < u.index[s]
    } by {
        assert(t.parent[s] < 313);
        assert(t.left[xp] < 627);
        assert(t.left[yp] < 627);
        let sp = t.parent[s] as int;
        assert(t.left[sp] < 627);
        assert(t.index[sp] < t.index[s]);
    }
    assert forall|s: int| 313 <= s < 627 implies #[trigger] u.left[s] == NIL && u.right[s] == NIL by {
        assert(t.left[s] == NIL);
    }
    assert(u.parent[0] == NIL);
}

#[verifier::spinoff_prover]
proof fn trade_moves_sums(t: TreeState, x: int, y: int)
    requires
        shape(t),
        0 < x < 627,
        0 < y < 627,
        x != y,
        t.freq[y] + 1 == t.freq[x],
        short_at(t, t.parent[x] as int),
    ensures
        short_at(traded(t, x, y), t.parent[y] as int),
{
    let u = traded(t, x, y);
    let xp = t.parent[x] as int;
    let yp = t.parent[y] as int;
    assert(t.left[xp] == x || t.right[xp] == x);
    assert(t.left[yp] == y || t.right[yp] == y);
    assert(t.left[xp] < 627);
    assert(t.left[yp] < 627);
    assert forall|b: int| 0 <= b < 313 implies hanging(u, b) == #[trigger] u.freq[b] + (if b == yp {
        1int
    } else {
        0int
    }) by {
        assert(hanging(t, b) == t.freq[b] + (if b == xp {
            1int
        } else {
            0int
        }));
        assert(t.left[b] < 627);
    }
}

/// Between the landing place and `x` all nodes count one less than `x`.
#[verifier::spinoff_prover]
proof fn passed_nodes(t: TreeState, x: int, q: int)
    requires
        shape(t),
        0 < x < 627,
        t.freq[x] >= 2,
        falling_but(t, x),
        0 <= q <= t.index[x],
        q == landing(t, t.index[x] as int, t.freq[x]),
    ensures
        forall|p: int| q <= p < t.index[x] ==> t.freq[(#[trigger] t.order[p]) as int] == t.freq[x] - 1,
        forall|p: int| 0 <= p < q ==> t.freq[(#[trigger] t.order[p]) as int] >= t.freq[x],
        forall|p: int| t.index[x] < p < 627 ==> t.freq[(#[trigger] t.order[p]) as int] <= t.freq[x] - 1,
        forall|p1: int, p2: int|
            0 <= p1 < p2 < 627 && p1 != t.index[x] && p2 != t.index[x] ==> t.freq[(#[trigger] t.order[p1]) as int]
                >= t.freq[(#[trigger] t.order[p2]) as int],
        forall|p: int| 0 <= p < 627 && p != t.index[x] ==> #[trigger] t.order[p] != x,
        t.order[t.index[x] as int] == x,
{
    let f = t.freq[x];
    let before = t.freq.update(x, (f - 1) as u32);
    let px = t.index[x] as int;
    landing_facts(t, px, f);
    assert(t.order[px] == x);
    assert forall|p: int| 0 <= p < 627 && p != px implies #[trigger] t.order[p] != x by {
        assert(t.index[t.order[p] as int] == p);
    }
    assert forall|p: int| q <= p < px implies t.freq[(#[trigger] t.order[p]) as int] == f - 1 by {
        assert(before[t.order[p] as int] >= before[t.order[px] as int]);
    }
    assert forall|p: int| 0 <= p < q implies t.freq[(#[trigger] t.order[p]) as int] >= f by {
        if p < q - 1 {
            assert(before[t.order[p] as int] >= before[t.order[q - 1] as int]);
        }
    }
    assert forall|p: int| px < p < 627 implies t.freq[(#[trigger] t.order[p]) as int] <= f - 1 by {
        assert(before[t.order[px] as int] >= before[t.order[p] as int]);
    }
    assert forall|p1: int, p2: int|
        0 <= p1 < p2 < 627 && p1 != px && p2 != px implies t.freq[(#[trigger] t.order[p1]) as int]
        >= t.freq[(#[trigger] t.order[p2]) as int] by {
        assert(before[t.order[p1] as int] >= before[t.order[p2] as int]);
    }
}

/// The node at the landing place is neither the root nor the parent of `x`, and
/// what hangs on it stands behind `x`.
#[verifier::spinoff_prover]
proof fn partner_facts(t: TreeState, x: int, q: int)
    requires
        shape(t),
        0 < x < 627,
        t.freq[x] >= 2,
        all_counted(t.freq),
        falling_but(t, x),
        short_at(t, t.parent[x] as int),
        0 <= q < t.index[x],
        q == landing(t, t.index[x] as int, t.freq[x]),
    ensures
        t.order[q] != 0,
        t.order[q] != t.parent[x],
        t.order[q] != x,
        forall|c: int| 0 < c < 627 && t.parent[c] == t.order[q] ==> t.index[x] < #[trigger] t.index[c],
{
    passed_nodes(t, x, q);
    root_first(t);
    let f = t.freq[x];
    let px = t.index[x] as int;
    let y = t.order[q] as int;
    let xp = t.parent[x] as int;
    assert(t.left[xp] < 627);
    assert(hanging(t, xp) == t.freq[xp] + 1);
    assert(t.freq[t.left[xp] as int] >= 1 && t.freq[t.right[xp] as int] >= 1);
    assert(t.freq[xp] >= f);
    assert(t.freq[y] == f - 1);
    assert(t.index[y] == q);
    if y == 0 {
        assert(q == 0);
        let pp = t.index[xp] as int;
        assert(pp < px);
        assert(t.order[pp] == xp);
        assert(t.freq[t.order[pp] as int] == f - 1);
    }
    assert forall|c: int| 0 < c < 627 && t.parent[c] == y implies px < #[trigger] t.index[c] by {
        assert(t.left[y] == c || t.right[y] == c);
        assert(hanging(t, y) == t.freq[y]);
        assert(t.left[y] < 627);
        assert(t.freq[t.left[y] as int] >= 1 && t.freq[t.right[y] as int] >= 1);
        assert(t.freq[c] < f - 1);
        let pc = t.index[c] as int;
        assert(t.order[pc] == c);
        if pc < q {
            assert(t.freq[t.order[pc] as int] >= f);
        } else if pc < px {
            assert(t.freq[t.order[pc] as int] == f - 1);
        } else if pc == px {
            assert(c == x);
        }
    }
}

#[verifier::spinoff_prover]
proof fn trade_keeps_falling(t: TreeState, x: int, q: int)
    requires
        shape(t),
        0 < x < 627,
        t.freq[x] >= 2,
        falling_but(t, x),
        0 <= q < t.index[x],
        q == landing(t, t.index[x] as int, t.freq[x]),
    ensures
        falling(traded(t, x, t.order[q] as int).order, t.freq),
        total(leaf_counts(traded(t, x, t.order[q] as int).order, t.freq)) == total(leaf_counts(t.order, t.freq)),
{
    passed_nodes(t, x, q);
    let px = t.index[x] as int;
    let y = t.order[q] as int;
    let u = traded(t, x, y);
    assert(t.index[y] == q);
    assert(u.order == t.order.update(px, y as usize).update(q, x as usize));
    assert forall|p1: int, p2: int| 0 <= p1 < p2 < 627 implies t.freq[(#[trigger] u.order[p1]) as int]
        >= t.freq[(#[trigger] u.order[p2]) as int] by {
        let o1 = t.order[p1];
        let o2 = t.order[p2];
    }
    let w = leaf_counts(t.order, t.freq);
    let w2 = leaf_counts(u.order, t.freq);
    assert(w2 =~= w.update(px, w[q]).update(q, w[px]));
    total_update(w, px, w[q]);
    total_update(w.update(px, w[q]), q, w[px]);
}

/// Moving a node that has just been counted ahead of its equals keeps the tree,
/// and moves the branch that is one short to the node's new parent.
#[verifier::spinoff_prover]
proof fn promotion_keeps_tree(t: TreeState, x: int)
    requires
        shape(t),
        0 < x < 627,
        t.freq[x] >= 2,
        all_counted(t.freq),
        falling_but(t, x),
        short_at(t, t.parent[x] as int),
    ensures
        shape(promoted(t, x)),
        promoted(t, x).freq == t.freq,
        falling(promoted(t, x).order, t.freq),
        short_at(promoted(t, x), promoted(t, x).parent[x] as int),
        total(leaf_counts(promoted(t, x).order, t.freq)) == total(leaf_counts(t.order, t.freq)),
        promoted(t, x).index[x] <= t.index[x],
{
    let px = t.index[x] as int;
    landing_facts(t, px, t.freq[x]);
    let q = landing(t, px, t.freq[x]);
    passed_nodes(t, x, q);
    if q < px {
        let y = t.order[q] as int;
        assert(t.freq[y] == t.freq[x] - 1);
        assert(t.index[y] == q);
        partner_facts(t, x, q);
        trade_keeps_shape(t, x, y);
        trade_moves_sums(t, x, y);
        trade_keeps_falling(t, x, q);
    } else {
        assert forall|p1: int, p2: int| 0 <= p1 < p2 < 627 implies t.freq[(#[trigger] t.order[p1]) as int]
            >= t.freq[(#[trigger] t.order[p2]) as int] by {}
    }
}

/// The root stands first.
pub proof fn root_first(t: TreeState)
    requires
        shape(t),
    ensures
        t.order[0] == 0,
        t.index[0] == 0,
{
    let s = t.order[0] as int;
    assert(t.index[s] == 0);
    if s != 0 {
        assert(t.parent[s] < 313);
        assert(t.index[t.parent[s] as int] < t.index[s]);
    }
}

// === counting keeps the tree ==================================================

#[verifier::spinoff_prover]
proof fn bump_facts(t: TreeState, x: int)
    requires
        shape(t),
        0 <= x < 627,
        falling(t.order, t.freq),
        all_counted(t.freq),
        short_at(t, x),
        t.freq[x] < u32::MAX,
    ensures
        shape(bumped(t, x)),
        all_counted(bumped(t, x).freq),
        falling_but(bumped(t, x), x),
        short_at(bumped(t, x), t.parent[x] as int),
        total(leaf_counts(t.order, bumped(t, x).freq)) == total(leaf_counts(t.order, t.freq)) + (if x >= 313 {
            1int
        } else {
            0int
        }),
        x == 0 ==> falling(t.order, bumped(t, x).freq),
{
    let u = bumped(t, x);
    assert(u.freq.update(x, (u.freq[x] - 1) as u32) =~= t.freq);
    assert forall|b: int| 0 <= b < 313 implies hanging(u, b) == #[trigger] u.freq[b] + (if b == t.parent[x] {
        1int
    } else {
        0int
    }) by {
        assert(hanging(t, b) == t.freq[b] + (if b == x {
            1int
        } else {
            0int
        }));
        assert(t.left[b] < 627);
        if x > 0 {
            assert(t.parent[x] < 313);
            assert(t.index[t.parent[x] as int] < t.index[x]);
        }
    }
    let px = t.index[x] as int;
    assert(t.order[px] == x);
    let w = leaf_counts(t.order, t.freq);
    let w2 = leaf_counts(t.order, u.freq);
    assert forall|p: int| 0 <= p < 627 implies w2[p] == w.update(px, w2[px])[p] by {
        if p != px {
            assert(t.index[t.order[p] as int] == p);
        }
    }
    assert(w2 =~= w.update(px, w2[px]));
    total_update(w, px, w2[px]);
    if x == 0 {
        root_first(t);
        assert forall|p: int, q: int| 0 <= p < q < 627 implies u.freq[(#[trigger] t.order[p]) as int]
            >= u.freq[(#[trigger] t.order[q]) as int] by {
            assert(t.freq[t.order[p] as int] >= t.freq[t.order[q] as int]);
            assert(t.index[t.order[q] as int] == q);
        }
    }
}

/// No node counts more than the root.
proof fn root_counts_most(t: TreeState, x: int)
    requires
        shape(t),
        falling(t.order, t.freq),
        0 <= x < 627,
    ensures
        t.freq[x] <= t.freq[0],
{
    root_first(t);
    let p = t.index[x] as int;
    assert(t.order[p] == x);
    if p > 0 {
        assert(t.freq[t.order[0] as int] >= t.freq[t.order[p] as int]);
    }
}

// === the balanced tree ========================================================

proof fn total_nonneg(s: Seq<int>)
    requires
        forall|i: int| 0 <= i < s.len() ==> 0 <= #[trigger] s[i],
    ensures
        total(s) >= 0,
    decreases s.len(),
{
    if s.len() > 0 {
        assert forall|i: int| 0 <= i < s.drop_last().len() implies 0 <= #[trigger] s.drop_last()[i] by {
            assert(s[i] >= 0);
        }
        total_nonneg(s.drop_last());
    }
}

proof fn total_front(a: int, s: Seq<int>)
    ensures
        total(seq![a] + s) == a + total(s),
    decreases s.len(),
{
    let g = seq![a] + s;
    if s.len() == 0 {
        assert(g.drop_last() =~= seq![]);
        assert(g.last() == a);
        assert(total(g.drop_last()) == 0);
    } else {
        assert(g.drop_last() =~= seq![a] + s.drop_last());
        total_front(a, s.drop_last());
    }
}

proof fn total_ones(s: Seq<int>)
    requires
        forall|i: int| 0 <= i < s.len() ==> #[trigger] s[i] == 1,
    ensures
        total(s) == s.len(),
    decreases s.len(),
{
    if s.len() > 0 {
        assert forall|i: int| 0 <= i < s.drop_last().len() implies #[trigger] s.drop_last()[i] == 1 by {
            assert(s[i] == 1);
        }
        assert(s.last() == 1);
        total_ones(s.drop_last());
    }
}

/// The counts at the places from `a` up to `b` of the row.
pub open spec fn row_counts(t: TreeState, a: int, b: int) -> Seq<int> {
    Seq::new((b - a) as nat, |k: int| t.freq[t.order[a + k] as int] as int)
}

/// A balanced tree under construction.
spec fn balanced_ok(t: TreeState, b: int) -> bool {
    &&& t.parent.len() == 627
    &&& t.left.len() == 627
    &&& t.right.len() == 627
    &&& t.index.len() == 627
    &&& t.freq.len() == 627
    &&& t.order.len() == 627
    &&& forall|p: int| 0 <= p < 627 ==> #[trigger] t.order[p] == p
    &&& forall|p: int| 0 <= p < 627 ==> #[trigger] t.index[p] == p
    &&& forall|s: int| 313 <= s < 627 ==> #[trigger] t.left[s] == NIL && t.right[s] == NIL
    &&& forall|s: int| 0 <= s < 627 ==> 1 <= #[trigger] t.freq[s]
    &&& forall|s: int| 313 <= s < 627 ==> #[trigger] t.freq[s] == 1
    &&& forall|s: int| 0 <= s < 2 * b + 1 ==> #[trigger] t.parent[s] == NIL
    &&& forall|s: int| 2 * b + 1 <= s < 627 ==> #[trigger] t.parent[s] == (s - 1) / 2
    &&& forall|c: int|
        b <= c < 313 ==> {
            &&& #[trigger] t.left[c] == 2 * c + 1
            &&& t.right[c] == 2 * c + 2
            &&& t.freq[c] == t.freq[2 * c + 1] + t.freq[2 * c + 2]
        }
    &&& forall|p: int, q: int| b <= p < q < 627 ==> #[trigger] t.freq[p] >= #[trigger] t.freq[q]
    &&& total(row_counts(t, b, 2 * b + 1)) == 314
}

#[verifier::spinoff_prover]
proof fn balanced_step(t: TreeState, b: int)
    requires
        balanced_ok(t, b + 1),
        0 <= b < 313,
    ensures
        balanced_ok(joined(t, b), b),
        t.freq[2 * b + 1] + t.freq[2 * b + 2] <= 314,
{
    let u = joined(t, b);
    assert(t.order[2 * b + 1] == 2 * b + 1);
    assert(t.order[2 * b + 2] == 2 * b + 2);
    let w = row_counts(t, b + 1, 2 * b + 3);
    let w1 = w.drop_last();
    let w2 = w1.drop_last();
    assert(w.last() == t.freq[2 * b + 2]) by {
        assert(t.order[b + 1 + (b + 1)] == 2 * b + 2);
    }
    assert(w1.last() == t.freq[2 * b + 1]) by {
        assert(t.order[b + 1 + b] == 2 * b + 1);
    }
    assert forall|i: int| 0 <= i < w2.len() implies 0 <= #[trigger] w2[i] by {}
    total_nonneg(w2);
    assert(total(w1) == total(w2) + w1.last());
    assert(total(w) == total(w1) + w.last());
    assert(total(w) == total(w2) + t.freq[2 * b + 1] + t.freq[2 * b + 2]);
    assert forall|c: int| b <= c < 313 implies {
        &&& #[trigger] u.left[c] == 2 * c + 1
        &&& u.right[c] == 2 * c + 2
        &&& u.freq[c] == u.freq[2 * c + 1] + u.freq[2 * c + 2]
    } by {
        if c > b {
            assert(t.left[c] == 2 * c + 1);
        }
    }
    let v = row_counts(u, b, 2 * b + 1);
    assert forall|k: int| 0 <= k < v.len() implies v[k] == (seq![u.freq[b] as int] + w2)[k] by {
        assert(u.order[b + k] == b + k);
        if k > 0 {
            assert(t.order[b + 1 + (k - 1)] == b + k);
        }
    }
    assert(v =~= seq![u.freq[b] as int] + w2);
    total_front(u.freq[b] as int, w2);
    assert(u.freq[b] >= u.freq[b + 1]) by {
        if b + 1 < 313 {
            assert(t.left[b + 1] == 2 * (b + 1) + 1);
            assert(t.freq[2 * b + 1] >= t.freq[2 * b + 3]);
            assert(t.freq[2 * b + 2] >= t.freq[2 * b + 4]);
        } else {
            assert(t.freq[b + 1] == 1);
        }
    }
    assert forall|p: int, q: int| b <= p < q < 627 implies #[trigger] u.freq[p] >= #[trigger] u.freq[q] by {
        if p == b && q > b + 1 {
            assert(t.freq[b + 1] >= t.freq[q]);
        } else if p > b {
            assert(t.freq[p] >= t.freq[q]);
        }
    }
}

proof fn balanced_facts(b: int)
    requires
        0 <= b <= 313,
    ensures
        balanced_ok(balanced_from(b), b),
    decreases 313 - b,
{
    if b == 313 {
        let t = balanced_from(313);
        let w = row_counts(t, 313, 627);
        assert forall|i: int| 0 <= i < w.len() implies #[trigger] w[i] == 1 by {}
        total_ones(w);
    } else {
        balanced_facts(b + 1);
        balanced_step(balanced_from(b + 1), b);
    }
}

proof fn leaf_counts_of_start(t: TreeState, n: int)
    requires
        balanced_ok(t, 0),
        0 <= n <= 627,
    ensures
        total(leaf_counts(t.order, t.freq).subrange(0, n)) == (if n <= 313 {
            0int
        } else {
            n - 313
        }),
    decreases n,
{
    let w = leaf_counts(t.order, t.freq);
    if n > 0 {
        leaf_counts_of_start(t, n - 1);
        assert(w.subrange(0, n).drop_last() =~= w.subrange(0, n - 1));
        assert(t.order[n - 1] == n - 1);
        if n - 1 >= 313 {
            assert(t.freq[n - 1] == 1);
        }
    }
}

#[verifier::spinoff_prover]
proof fn balanced_is_ok(t: TreeState)
    requires
        balanced_ok(t, 0),
    ensures
        tree_ok(t),
{
    leaf_counts_of_start(t, 627);
    assert(leaf_counts(t.order, t.freq).subrange(0, 627) =~= leaf_counts(t.order, t.freq));
    let w = row_counts(t, 0, 1);
    assert(w.drop_last() =~= seq![]);
    assert(w.last() == t.freq[0]) by {
        assert(t.order[0] == 0);
    }
    assert(total(w.drop_last()) == 0);
    assert(t.freq[0] == 314);
    assert forall|s: int| 0 <= s < 313 implies {
        &&& (#[trigger] t.left[s]) < 627
        &&& t.right[s] < 627
        &&& t.left[s] != t.right[s]
        &&& t.parent[t.left[s] as int] == s
        &&& t.parent[t.right[s] as int] == s
    } by {
        assert(t.parent[2 * s + 1] == s);
        assert(t.parent[2 * s + 2] == s);
    }
    assert forall|s: int| 0 < s < 627 implies {
        &&& (#[trigger] t.parent[s]) < 313
        &&& t.left[t.parent[s] as int] == s || t.right[t.parent[s] as int] == s
        &&& t.index[t.parent[s] as int] < t.index[s]
    } by {
        let b = (s - 1) / 2;
        assert(t.parent[s] == b);
        assert(t.left[b] == 2 * b + 1);
    }
    assert(shape(t));
    assert forall|b: int| 0 <= b < 313 implies hanging(t, b) == #[trigger] t.freq[b] by {
        assert(t.left[b] == 2 * b + 1);
    }
    assert forall|p: int, q: int| 0 <= p < q < 627 implies t.freq[(#[trigger] t.order[p]) as int]
        >= t.freq[(#[trigger] t.order[q]) as int] by {
        assert(t.freq[p] >= t.freq[q]);
    }
}

/// The tree that decoding starts from is in order.
pub proof fn start_is_ok()
    ensures
        tree_ok(tree_start()),
{
    balanced_facts(0);
    balanced_is_ok(tree_start());
}

// === rebuilding ===============================================================

/// The counts of the first `n` leaves of a list.
spec fn list_counts(leaves: Seq<usize>, freq: Seq<u32>, n: int) -> Seq<int> {
    Seq::new(n as nat, |i: int| freq[leaves[i] as int] as int)
}

/// A list of all leaves by falling count.
spec fn leaf_list_ok(leaves: Seq<usize>, freq: Seq<u32>) -> bool {
    &&& leaves.len() == 314
    &&& forall|i: int| 0 <= i < 314 ==> 313 <= (#[trigger] leaves[i]) < 627
    &&& forall|i: int, j: int| 0 <= i < j < 314 ==> #[trigger] leaves[i] != #[trigger] leaves[j]
    &&& forall|i: int, j: int|
        0 <= i < j < 314 ==> freq[(#[trigger] leaves[i]) as int] >= freq[(#[trigger] leaves[j]) as int]
    &&& forall|i: int| 0 <= i < 314 ==> freq[(#[trigger] leaves[i]) as int] >= 1
}

/// The back of the row has been built: the leaves from number `n` on and the
/// branches from `m` up are in it, and the branches from `joined` up have been
/// hung over their nodes. `sum` is what all leaves count.
spec fn built(t: TreeState, leaves: Seq<usize>, n: int, m: int, hung: int, sum: int) -> bool {
    &&& t.parent.len() == 627
    &&& t.left.len() == 627
    &&& t.right.len() == 627
    &&& t.index.len() == 627
    &&& t.freq.len() == 627
    &&& t.order.len() == 627
    &&& leaf_list_ok(leaves, t.freq)
    &&& 0 <= n <= 314
    &&& 0 <= m <= 313
    &&& hung == m || hung == m - 1
    &&& 0 <= hung
    &&& n + m <= 2 * hung + 1
    &&& forall|p: int|
        n + m <= p < 627 ==> {
            &&& (#[trigger] t.order[p]) < 627
            &&& t.index[t.order[p] as int] == p
            &&& t.order[p] >= m
            &&& t.freq[t.order[p] as int] >= 1
        }
    &&& forall|b: int| m <= b < 313 ==> n + m <= (#[trigger] t.index[b]) < 627 && t.order[t.index[b] as int] == b
    &&& forall|i: int|
        n <= i < 314 ==> {
            &&& n + m <= t.index[(#[trigger] leaves[i]) as int] < 627
            &&& t.order[t.index[leaves[i] as int] as int] == leaves[i]
        }
    &&& forall|p: int, i: int| n + m <= p < 627 && 0 <= i < n ==> #[trigger] t.order[p] != #[trigger] leaves[i]
    &&& forall|s: int| 313 <= s < 627 ==> #[trigger] t.left[s] == NIL && t.right[s] == NIL
    &&& forall|b: int|
        hung <= b < 313 ==> {
            &&& #[trigger] t.left[b] == t.order[2 * b + 1]
            &&& t.right[b] == t.order[2 * b + 2]
            &&& t.parent[t.order[2 * b + 1] as int] == b
            &&& t.parent[t.order[2 * b + 2] as int] == b
            &&& t.freq[b] == t.freq[t.order[2 * b + 1] as int] + t.freq[t.order[2 * b + 2] as int]
        }
    &&& forall|b: int| m <= b < 313 ==> (#[trigger] t.index[b]) < 2 * b + 1
    &&& forall|p: int, q: int|
        n + m <= p < q < 627 ==> t.freq[(#[trigger] t.order[p]) as int] >= t.freq[(#[trigger] t.order[q]) as int]
    &&& n + m < 627 ==> forall|i: int|
        0 <= i < n ==> t.freq[(#[trigger] leaves[i]) as int] >= t.freq[t.order[n + m] as int]
    &&& total(row_counts(t, n + m, 2 * hung + 1)) + (if hung < m {
        t.freq[hung] as int
    } else {
        0int
    }) + total(list_counts(leaves, t.freq, n)) == sum
    &&& total(leaf_counts(t.order, t.freq).subrange(n + m, 627)) + total(list_counts(leaves, t.freq, n)) == sum
}

#[verifier::spinoff_prover]
proof fn leaf_joins_row(t: TreeState, leaves: Seq<usize>, n: int, m: int, hung: int, sum: int)
    requires
        built(t, leaves, n, m, hung, sum),
        n > 0,
    ensures
        built(placed(t, leaves[n - 1] as int, n + m - 1), leaves, n - 1, m, hung, sum),
{
    let s = leaves[n - 1] as int;
    let at = n + m - 1;
    let u = placed(t, s, at);
    assert(u.order[at] == s);
    assert forall|p: int| at <= p < 627 implies {
        &&& (#[trigger] u.order[p]) < 627
        &&& u.index[u.order[p] as int] == p
        &&& u.order[p] >= m
        &&& u.freq[u.order[p] as int] >= 1
    } by {
        if p > at {
            assert(t.order[p] != leaves[n - 1]);
        }
    }
    assert forall|i: int| n - 1 <= i < 314 implies {
        &&& at <= u.index[(#[trigger] leaves[i]) as int] < 627
        &&& u.order[u.index[leaves[i] as int] as int] == leaves[i]
    } by {
        if i > n - 1 {
            assert(leaves[n - 1] != leaves[i]);
        }
    }
    assert forall|p: int, i: int| at <= p < 627 && 0 <= i < n - 1 implies #[trigger] u.order[p] != #[trigger] leaves[i] by {
        if p == at {
            assert(leaves[i] != leaves[n - 1]);
        } else {
            assert(t.order[p] != leaves[i]);
        }
    }
    assert forall|b: int| hung <= b < 313 implies {
        &&& #[trigger] u.left[b] == u.order[2 * b + 1]
        &&& u.right[b] == u.order[2 * b + 2]
        &&& u.parent[u.order[2 * b + 1] as int] == b
        &&& u.parent[u.order[2 * b + 2] as int] == b
        &&& u.freq[b] == u.freq[u.order[2 * b + 1] as int] + u.freq[u.order[2 * b + 2] as int]
    } by {
        assert(t.left[b] == t.order[2 * b + 1]);
    }
    assert forall|p: int, q: int| at <= p < q < 627 implies u.freq[(#[trigger] u.order[p]) as int]
        >= u.freq[(#[trigger] u.order[q]) as int] by {
        if p == at {
            assert(t.freq[leaves[n - 1] as int] >= t.freq[t.order[n + m] as int]);
            if q > n + m {
                assert(t.freq[t.order[n + m] as int] >= t.freq[t.order[q] as int]);
            }
        } else {
            assert(t.freq[t.order[p] as int] >= t.freq[t.order[q] as int]);
        }
    }
    assert forall|i: int| 0 <= i < n - 1 implies u.freq[(#[trigger] leaves[i]) as int] >= u.freq[u.order[at] as int] by {
        assert(t.freq[leaves[i] as int] >= t.freq[leaves[n - 1] as int]);
    }
    let f = t.freq[s] as int;
    assert(list_counts(leaves, t.freq, n).drop_last() =~= list_counts(leaves, t.freq, n - 1));
    assert(list_counts(leaves, t.freq, n).last() == f);
    assert(row_counts(u, at, 2 * hung + 1) =~= seq![f] + row_counts(t, n + m, 2 * hung + 1)) by {
        assert forall|k: int| 0 <= k < 2 * hung + 1 - at implies #[trigger] row_counts(u, at, 2 * hung + 1)[k] == (seq![f]
            + row_counts(t, n + m, 2 * hung + 1))[k] by {
            if k > 0 {
                assert(u.order[at + k] == t.order[n + m + (k - 1)]);
            }
        }
    }
    total_front(f, row_counts(t, n + m, 2 * hung + 1));
    let w = leaf_counts(t.order, t.freq).subrange(n + m, 627);
    assert(leaf_counts(u.order, u.freq).subrange(at, 627) =~= seq![f] + w);
    total_front(f, w);
}

#[verifier::spinoff_prover]
proof fn branch_is_hung(t: TreeState, leaves: Seq<usize>, n: int, m: int, sum: int)
    requires
        built(t, leaves, n, m, m, sum),
        0 <= n < m,
        sum <= 0x1000_0000,
    ensures
        built(joined(t, m - 1), leaves, n, m, m - 1, sum),
        t.order[2 * m - 1] < 627,
        t.order[2 * m] < 627,
        t.freq[t.order[2 * m - 1] as int] + t.freq[t.order[2 * m] as int] <= sum,
        joined(t, m - 1).freq[m - 1] == t.freq[t.order[2 * m - 1] as int] + t.freq[t.order[2 * m] as int],
{
    let b = m - 1;
    let u = joined(t, b);
    let l = t.order[2 * b + 1] as int;
    let r = t.order[2 * b + 2] as int;
    assert(t.index[l] == 2 * b + 1);
    assert(t.index[r] == 2 * b + 2);
    let w = row_counts(t, n + m, 2 * m + 1);
    let w1 = w.drop_last();
    let w2 = w1.drop_last();
    assert(w.last() == t.freq[r]) by {
        assert(n + m + (2 * m - (n + m)) == 2 * m);
    }
    assert(w1.last() == t.freq[l]) by {
        assert(n + m + (2 * m - 1 - (n + m)) == 2 * m - 1);
    }
    assert(total(w1) == total(w2) + w1.last());
    assert(total(w) == total(w1) + w.last());
    total_nonneg(w2);
    total_nonneg(list_counts(leaves, t.freq, n));
    assert(t.freq[l] + t.freq[r] <= sum);
    assert forall|p: int| n + m <= p < 627 implies {
        &&& (#[trigger] u.order[p]) < 627
        &&& u.index[u.order[p] as int] == p
        &&& u.order[p] >= m
        &&& u.freq[u.order[p] as int] >= 1
    } by {
        assert(t.order[p] < 627);
    }
    assert forall|c: int| b <= c < 313 implies {
        &&& #[trigger] u.left[c] == u.order[2 * c + 1]
        &&& u.right[c] == u.order[2 * c + 2]
        &&& u.parent[u.order[2 * c + 1] as int] == c
        &&& u.parent[u.order[2 * c + 2] as int] == c
        &&& u.freq[c] == u.freq[u.order[2 * c + 1] as int] + u.freq[u.order[2 * c + 2] as int]
    } by {
        if c > b {
            assert(t.left[c] == t.order[2 * c + 1]);
            assert(t.index[t.order[2 * c + 1] as int] == 2 * c + 1);
            assert(t.index[t.order[2 * c + 2] as int] == 2 * c + 2);
        } else {
            assert(l != r);
        }
    }
    assert forall|p: int, q: int| n + m <= p < q < 627 implies u.freq[(#[trigger] u.order[p]) as int]
        >= u.freq[(#[trigger] u.order[q]) as int] by {
        assert(t.freq[t.order[p] as int] >= t.freq[t.order[q] as int]);
    }
    assert forall|i: int| 0 <= i < 314 implies u.freq[(#[trigger] leaves[i]) as int] == t.freq[leaves[i] as int] by {}
    assert(list_counts(leaves, u.freq, n) =~= list_counts(leaves, t.freq, n));
    assert(row_counts(u, n + m, 2 * b + 1) =~= w2) by {
        assert forall|k: int| 0 <= k < 2 * b + 1 - (n + m) implies #[trigger] row_counts(u, n + m, 2 * b + 1)[k] == w2[k] by {
            assert(t.order[n + m + k] >= m);
        }
    }
    assert(leaf_counts(u.order, u.freq).subrange(n + m, 627) =~= leaf_counts(t.order, t.freq).subrange(n + m, 627));
    assert(leaf_list_ok(leaves, u.freq));
}

#[verifier::spinoff_prover]
proof fn branch_joins_row(t: TreeState, leaves: Seq<usize>, n: int, m: int, sum: int)
    requires
        built(t, leaves, n, m, m - 1, sum),
        0 <= n < m,
        n + m < 627,
        t.freq[m - 1] >= t.freq[t.order[n + m] as int],
        forall|i: int| 0 <= i < n ==> t.freq[(#[trigger] leaves[i]) as int] >= t.freq[m - 1],
    ensures
        built(placed(t, m - 1, n + m - 1), leaves, n, m - 1, m - 1, sum),
{
    let b = m - 1;
    let at = n + b;
    let u = placed(t, b, at);
    assert(u.order[at] == b);
    assert(t.freq[b] >= 1) by {
        assert(t.left[b] == t.order[2 * b + 1]);
        assert(t.order[2 * b + 1] >= m);
    }
    assert forall|p: int| at <= p < 627 implies {
        &&& (#[trigger] u.order[p]) < 627
        &&& u.index[u.order[p] as int] == p
        &&& u.order[p] >= b
        &&& u.freq[u.order[p] as int] >= 1
    } by {
        if p > at {
            assert(t.order[p] >= m);
        }
    }
    assert forall|c: int| b <= c < 313 implies at <= (#[trigger] u.index[c]) < 627 && u.order[u.index[c] as int] == c
        && u.index[c] < 2 * c + 1 by {
        if c > b {
            assert(t.index[c] >= n + m);
        }
    }
    assert forall|i: int| n <= i < 314 implies {
        &&& at <= u.index[(#[trigger] leaves[i]) as int] < 627
        &&& u.order[u.index[leaves[i] as int] as int] == leaves[i]
    } by {}
    assert forall|p: int, i: int| at <= p < 627 && 0 <= i < n implies #[trigger] u.order[p] != #[trigger] leaves[i] by {
        if p > at {
            assert(t.order[p] != leaves[i]);
        }
    }
    assert forall|c: int| b <= c < 313 implies {
        &&& #[trigger] u.left[c] == u.order[2 * c + 1]
        &&& u.right[c] == u.order[2 * c + 2]
        &&& u.parent[u.order[2 * c + 1] as int] == c
        &&& u.parent[u.order[2 * c + 2] as int] == c
        &&& u.freq[c] == u.freq[u.order[2 * c + 1] as int] + u.freq[u.order[2 * c + 2] as int]
    } by {
        assert(t.left[c] == t.order[2 * c + 1]);
    }
    assert forall|p: int, q: int| at <= p < q < 627 implies u.freq[(#[trigger] u.order[p]) as int]
        >= u.freq[(#[trigger] u.order[q]) as int] by {
        if p == at {
            if q > n + m {
                assert(t.freq[t.order[n + m] as int] >= t.freq[t.order[q] as int]);
            }
        } else {
            assert(t.freq[t.order[p] as int] >= t.freq[t.order[q] as int]);
        }
    }
    let f = t.freq[b] as int;
    assert(row_counts(u, at, 2 * b + 1) =~= seq![f] + row_counts(t, n + m, 2 * b + 1)) by {
        assert forall|k: int| 0 <= k < 2 * b + 1 - at implies #[trigger] row_counts(u, at, 2 * b + 1)[k] == (seq![f] + row_counts(
            t,
            n + m,
            2 * b + 1,
        ))[k] by {
            if k > 0 {
                assert(u.order[at + k] == t.order[n + m + (k - 1)]);
            }
        }
    }
    total_front(f, row_counts(t, n + m, 2 * b + 1));
    let w = leaf_counts(t.order, t.freq).subrange(n + m, 627);
    assert(leaf_counts(u.order, u.freq).subrange(at, 627) =~= seq![0int] + w);
    total_front(0, w);
}

/// A row that is built to its front is a tree in order.
#[verifier::spinoff_prover]
proof fn built_is_ok(t: TreeState, leaves: Seq<usize>, sum: int)
    requires
        built(t, leaves, 0, 0, 0, sum),
        t.order[0] == 0,
        forall|s: int| 313 <= s < 627 ==> #[trigger] leaves.contains(s as usize),
        sum < RECONSTRUCT_FREQ,
    ensures
        tree_ok(TreeState { parent: t.parent.update(0, NIL), ..t }),
        t.freq[0] == sum,
{
    let u = TreeState { parent: t.parent.update(0, NIL), ..t };
    assert(t.index[0] == 0) by {
        assert(t.index[t.order[0] as int] == 0);
    }
    assert forall|s: int| 0 <= s < 627 implies (#[trigger] u.index[s]) < 627 && u.order[u.index[s] as int] == s by {
        if s >= 313 {
            assert(leaves.contains(s as usize));
            let i = choose|i: int| 0 <= i < leaves.len() && leaves[i] == s as usize;
            assert(t.index[leaves[i] as int] < 627);
        }
    }
    assert forall|p: int| 0 <= p < 627 implies (#[trigger] u.order[p]) < 627 && u.index[u.order[p] as int] == p by {}
    assert forall|s: int| 0 <= s < 313 implies {
        &&& (#[trigger] u.left[s]) < 627
        &&& u.right[s] < 627
        &&& u.left[s] != u.right[s]
        &&& u.parent[u.left[s] as int] == s
        &&& u.parent[u.right[s] as int] == s
    } by {
        assert(t.left[s] == t.order[2 * s + 1]);
        assert(t.index[t.order[2 * s + 1] as int] == 2 * s + 1);
        assert(t.index[t.order[2 * s + 2] as int] == 2 * s + 2);
    }
    assert forall|s: int| 0 < s < 627 implies {
        &&& (#[trigger] u.parent[s]) < 313
        &&& u.left[u.parent[s] as int] == s || u.right[u.parent[s] as int] == s
        &&& u.index[u.parent[s] as int] < u.index[s]
    } by {
        let p = u.index[s] as int;
        assert(u.order[p] == s);
        assert(p > 0);
        let b = (p - 1) / 2;
        assert(t.left[b] == t.order[2 * b + 1]);
        assert(p == 2 * b + 1 || p == 2 * b + 2);
        assert(t.index[b] < 2 * b + 1);
    }
    assert(shape(u));
    let w = row_counts(t, 0, 1);
    assert(w.drop_last() =~= seq![]);
    assert(total(w.drop_last()) == 0);
    assert(w.last() == t.freq[0]);
    assert(list_counts(leaves, t.freq, 0) =~= seq![]);
    assert(total(list_counts(leaves, t.freq, 0)) == 0);
    assert(leaf_counts(t.order, t.freq).subrange(0, 627) =~= leaf_counts(t.order, t.freq));
    assert forall|s: int| 0 <= s < 627 implies 1 <= #[trigger] u.freq[s] by {
        assert(u.index[s] < 627);
        assert(u.freq[u.order[u.index[s] as int] as int] >= 1);
    }
    assert forall|b: int| 0 <= b < 313 implies hanging(u, b) == #[trigger] u.freq[b] by {
        assert(t.left[b] == t.order[2 * b + 1]);
    }
    assert forall|p: int, q: int| 0 <= p < q < 627 implies u.freq[(#[trigger] u.order[p]) as int]
        >= u.freq[(#[trigger] u.order[q]) as int] by {}
}

/// What the list of leaves holds.
#[verifier::spinoff_prover]
proof fn leaves_listed(t: TreeState, n: int)
    requires
        shape(t),
        0 <= n <= 627,
    ensures
        forall|i: int|
            0 <= i < leaves_of(t.order, n).len() ==> {
                &&& 313 <= (#[trigger] leaves_of(t.order, n)[i]) < 627
                &&& t.index[leaves_of(t.order, n)[i] as int] < n
            },
        forall|i: int, j: int|
            0 <= i < j < leaves_of(t.order, n).len() ==> t.index[(#[trigger] leaves_of(t.order, n)[i]) as int]
                < t.index[(#[trigger] leaves_of(t.order, n)[j]) as int],
        forall|p: int| 0 <= p < n && t.order[p] >= 313 ==> leaves_of(t.order, n).contains(#[trigger] t.order[p]),
        total(list_counts(leaves_of(t.order, n), t.freq, leaves_of(t.order, n).len() as int)) == total(
            leaf_counts(t.order, t.freq).subrange(0, n),
        ),
    decreases n,
{
    let l = leaves_of(t.order, n);
    let w = leaf_counts(t.order, t.freq);
    if n > 0 {
        leaves_listed(t, n - 1);
        let k = leaves_of(t.order, n - 1);
        assert(w.subrange(0, n).drop_last() =~= w.subrange(0, n - 1));
        let s = t.order[n - 1];
        assert(t.index[s as int] == n - 1);
        if s >= 313 {
            assert(l == k.push(s));
            assert(list_counts(l, t.freq, l.len() as int).drop_last() =~= list_counts(k, t.freq, k.len() as int));
            assert forall|p: int| 0 <= p < n && t.order[p] >= 313 implies l.contains(#[trigger] t.order[p]) by {
                if p == n - 1 {
                    assert(l[l.len() - 1] == s);
                } else {
                    assert(k.contains(t.order[p]));
                    let i = choose|i: int| 0 <= i < k.len() && k[i] == t.order[p];
                    assert(l[i] == t.order[p]);
                }
            }
        }
    } else {
        assert(list_counts(l, t.freq, 0) =~= seq![]);
        assert(w.subrange(0, 0) =~= seq![]);
    }
}

proof fn leaves_are_all(t: TreeState)
    requires
        shape(t),
    ensures
        leaves_of(t.order, 627).len() == 314,
        forall|s: int| 313 <= s < 627 ==> #[trigger] leaves_of(t.order, 627).contains(s as usize),
{
    leaves_listed(t, 627);
    let l = leaves_of(t.order, 627);
    let ids = Seq::new(l.len(), |i: int| l[i] as int);
    assert forall|s: int| 313 <= s < 627 implies #[trigger] l.contains(s as usize) by {
        let p = t.index[s] as int;
        assert(t.order[p] == s);
        assert(l.contains(t.order[p]));
    }
    assert(ids.no_duplicates()) by {
        assert forall|i: int, j: int| 0 <= i < ids.len() && 0 <= j < ids.len() && i != j implies ids[i] != ids[j] by {
            if i < j {
                assert(t.index[l[i] as int] < t.index[l[j] as int]);
            } else {
                assert(t.index[l[j] as int] < t.index[l[i] as int]);
            }
        }
    }
    ids.unique_seq_to_set();
    assert(ids.to_set() =~= vstd::set_lib::set_int_range(313, 627)) by {
        assert forall|s: int| 313 <= s < 627 implies ids.to_set().contains(s) by {
            assert(l.contains(s as usize));
            let i = choose|i: int| 0 <= i < l.len() && l[i] == s as usize;
            assert(ids[i] == s);
        }
        assert forall|s: int| ids.to_set().contains(s) implies 313 <= s < 627 by {
            let i = choose|i: int| 0 <= i < ids.len() && ids[i] == s;
            assert(313 <= l[i] < 627);
        }
    }
    vstd::set_lib::lemma_int_range(313, 627);
}

proof fn halved_list(leaves: Seq<usize>, freq: Seq<u32>, n: int)
    requires
        0 <= n <= leaves.len(),
        freq.len() == 627,
        forall|i: int| 0 <= i < leaves.len() ==> 313 <= (#[trigger] leaves[i]) < 627,
    ensures
        2 * total(list_counts(leaves, halved(freq), n)) <= total(list_counts(leaves, freq, n)) + n,
    decreases n,
{
    let a = list_counts(leaves, halved(freq), n);
    let b = list_counts(leaves, freq, n);
    if n > 0 {
        halved_list(leaves, freq, n - 1);
        assert(a.drop_last() =~= list_counts(leaves, halved(freq), n - 1));
        assert(b.drop_last() =~= list_counts(leaves, freq, n - 1));
        assert(313 <= leaves[n - 1] < 627);
    } else {
        assert(a =~= seq![]);
        assert(b =~= seq![]);
    }
}

/// Before the first leaf is put back, nothing is in the row.
#[verifier::spinoff_prover]
proof fn nothing_built(t: TreeState)
    requires
        tree_ok(t),
    ensures
        built(
            TreeState { freq: halved(t.freq), ..t },
            leaves_of(t.order, 627),
            314,
            313,
            313,
            total(list_counts(leaves_of(t.order, 627), halved(t.freq), 314)),
        ),
        total(list_counts(leaves_of(t.order, 627), halved(t.freq), 314)) < RECONSTRUCT_FREQ,
        total(list_counts(leaves_of(t.order, 627), halved(t.freq), 314)) >= 0,
{
    let leaves = leaves_of(t.order, 627);
    let u = TreeState { freq: halved(t.freq), ..t };
    leaves_listed(t, 627);
    leaves_are_all(t);
    assert(leaf_counts(t.order, t.freq).subrange(0, 627) =~= leaf_counts(t.order, t.freq));
    halved_list(leaves, t.freq, 314);
    assert forall|i: int, j: int| 0 <= i < j < 314 implies u.freq[(#[trigger] leaves[i]) as int]
        >= u.freq[(#[trigger] leaves[j]) as int] by {
        let p = t.index[leaves[i] as int] as int;
        let q = t.index[leaves[j] as int] as int;
        assert(p < q);
        assert(t.order[p] == leaves[i]);
        assert(t.order[q] == leaves[j]);
        assert(t.freq[t.order[p] as int] >= t.freq[t.order[q] as int]);
    }
    assert forall|i: int, j: int| 0 <= i < j < 314 implies #[trigger] leaves[i] != #[trigger] leaves[j] by {
        assert(t.index[leaves[i] as int] < t.index[leaves[j] as int]);
    }
    assert forall|i: int| 0 <= i < 314 implies u.freq[(#[trigger] leaves[i]) as int] >= 1 by {
        assert(313 <= leaves[i] < 627);
        assert(t.freq[leaves[i] as int] >= 1);
    }
    assert(leaf_list_ok(leaves, u.freq));
    assert(row_counts(u, 627, 627) =~= seq![]);
    assert(leaf_counts(u.order, u.freq).subrange(627, 627) =~= seq![]);
    total_nonneg(list_counts(leaves, u.freq, 314));
}

proof fn forcing_builds(t: TreeState, leaves: Seq<usize>, n: int, m: int, sum: int)
    requires
        built(t, leaves, n, m, m, sum),
        m > 0,
    ensures
        ({
            let (t1, n1) = leaves_forced(t, leaves, n, m);
            &&& built(t1, leaves, n1, m, m, sum)
            &&& 0 <= n1 < m
            &&& n1 <= n
            &&& n1 == n ==> t1 == t
            &&& n1 == n || n1 + 1 >= m
            &&& forall|s: int| 0 <= s < 627 ==> #[trigger] t1.freq[s] == t.freq[s]
        }),
    decreases n,
{
    if n > 0 && n >= m {
        leaf_joins_row(t, leaves, n, m, m, sum);
        let u = placed(t, leaves[n - 1] as int, n + m - 1);
        forcing_builds(u, leaves, n - 1, m, sum);
    }
}

proof fn filling_builds(t: TreeState, leaves: Seq<usize>, n: int, m: int, f: u32, sum: int)
    requires
        built(t, leaves, n, m, m - 1, sum),
        0 <= n < m,
        n + m < 627,
        t.freq[m - 1] == f,
        t.freq[t.order[n + m] as int] <= f,
    ensures
        ({
            let (t1, n1) = leaves_up_to(t, leaves, n, m, f);
            &&& built(t1, leaves, n1, m, m - 1, sum)
            &&& 0 <= n1 <= n
            &&& t1.freq[m - 1] == f
            &&& t1.freq[t1.order[n1 + m] as int] <= f
            &&& n1 > 0 ==> t1.freq[leaves[n1 - 1] as int] > f
            &&& forall|s: int| 0 <= s < 627 ==> #[trigger] t1.freq[s] == t.freq[s]
        }),
    decreases n,
{
    if n > 0 && t.freq[leaves[n - 1] as int] <= f {
        leaf_joins_row(t, leaves, n, m, m - 1, sum);
        let u = placed(t, leaves[n - 1] as int, n + m - 1);
        assert(u.order[n - 1 + m] == leaves[n - 1]);
        filling_builds(u, leaves, n - 1, m, f, sum);
    }
}

/// One more branch, and the leaves that stand behind it, put in the row.
#[verifier::spinoff_prover]
proof fn branch_builds(t: TreeState, leaves: Seq<usize>, n: int, m: int, sum: int)
    requires
        built(t, leaves, n, m, m, sum),
        m > 0,
        0 <= sum < RECONSTRUCT_FREQ,
        (m == 313 && n == 314) || (n <= m && t.order[n + m] == m && m < 313),
    ensures
        ({
            let b = m - 1;
            let (t1, n1) = leaves_forced(t, leaves, n, m);
            let t2 = joined(t1, b);
            let (t3, n3) = leaves_up_to(t2, leaves, n1, m, t2.freq[b]);
            let t4 = placed(t3, b, n3 + b);
            &&& built(t4, leaves, n3, b, b, sum)
            &&& n3 <= b
            &&& t4.order[n3 + b] == b
            &&& forall|s: int| 313 <= s < 627 ==> #[trigger] t4.freq[s] == t.freq[s]
        }),
{
    let b = m - 1;
    forcing_builds(t, leaves, n, m, sum);
    let (t1, n1) = leaves_forced(t, leaves, n, m);
    branch_is_hung(t1, leaves, n1, m, sum);
    let t2 = joined(t1, b);
    let f = t2.freq[b];
    if n1 + m == 2 * m - 1 {
        assert(t1.order[2 * m - 1] == t1.order[n1 + m]);
    } else {
        assert(t1.left[m] == t1.order[2 * m + 1]);
        assert(t1.freq[t1.order[2 * m - 1] as int] >= t1.freq[t1.order[2 * m + 1] as int]);
        assert(t1.freq[t1.order[2 * m] as int] >= t1.freq[t1.order[2 * m + 2] as int]);
    }
    assert(t1.order[n1 + m] >= m);
    assert(t2.freq[t2.order[n1 + m] as int] <= f);
    filling_builds(t2, leaves, n1, m, f, sum);
    let (t3, n3) = leaves_up_to(t2, leaves, n1, m, f);
    assert forall|i: int| 0 <= i < n3 implies t3.freq[(#[trigger] leaves[i]) as int] >= f by {
        if i < n3 - 1 {
            assert(t3.freq[leaves[i] as int] >= t3.freq[leaves[n3 - 1] as int]);
        }
    }
    branch_joins_row(t3, leaves, n3, m, sum);
}

proof fn rebuilding_builds(t: TreeState, leaves: Seq<usize>, n: int, m: int, sum: int)
    requires
        built(t, leaves, n, m, m, sum),
        0 <= sum < RECONSTRUCT_FREQ,
        (m == 313 && n == 314) || (n <= m && t.order[n + m] == m && m < 313),
    ensures
        built(rebuilt(t, leaves, n, m), leaves, 0, 0, 0, sum),
        rebuilt(t, leaves, n, m).order[0] == 0,
        forall|s: int| 313 <= s < 627 ==> #[trigger] rebuilt(t, leaves, n, m).freq[s] == t.freq[s],
    decreases m,
{
    if m > 0 {
        let b = m - 1;
        branch_builds(t, leaves, n, m, sum);
        let (t1, n1) = leaves_forced(t, leaves, n, m);
        let t2 = joined(t1, b);
        let (t3, n3) = leaves_up_to(t2, leaves, n1, m, t2.freq[b]);
        rebuilding_builds(placed(t3, b, n3 + b), leaves, n3, b, sum);
    }
}

/// Building the tree anew keeps all that holds of it: the row, the links and the sums.
/// The root stands first in the row. Every leaf stays that of its symbol, with half its count rounded up, and the root
/// counts less than before it was time.
pub proof fn reconstruction_halves_leaves(t: TreeState)
    requires
        tree_ok(t),
    ensures
        tree_ok(reconstructed(t)),
        reconstructed(t).freq[0] < RECONSTRUCT_FREQ,
        reconstructed(t).order[0] == 0,
        forall|s: int|
            313 <= s < 627 ==> {
                &&& #[trigger] reconstructed(t).freq[s] == (t.freq[s] + 1) / 2
                &&& reconstructed(t).left[s] == NIL
                &&& reconstructed(t).right[s] == NIL
            },
{
    let leaves = leaves_of(t.order, 627);
    let u = TreeState { freq: halved(t.freq), ..t };
    let sum = total(list_counts(leaves, halved(t.freq), 314));
    nothing_built(t);
    leaves_are_all(t);
    rebuilding_builds(u, leaves, 314, 313, sum);
    built_is_ok(rebuilt(u, leaves, 314, 313), leaves, sum);
    let r = reconstructed(t);
    assert forall|s: int| 313 <= s < 627 implies {
        &&& #[trigger] r.freq[s] == (t.freq[s] + 1) / 2
        &&& r.left[s] == NIL
        &&& r.right[s] == NIL
    } by {
        assert(rebuilt(u, leaves, 314, 313).freq[s] == u.freq[s]);
    }
}

// === the executable tree ======================================================

/// The adaptive code tree.
pub struct AdaptiveTree {
    parent: Vec<usize>,
    left: Vec<usize>,
    right: Vec<usize>,
    index: Vec<usize>,
    freq: Vec<u32>,
    order: Vec<usize>,
}

impl AdaptiveTree {
    pub closed spec fn view(&self) -> TreeState {
        TreeState {
            parent: self.parent@,
            left: self.left@,
            right: self.right@,
            index: self.index@,
            freq: self.freq@,
            order: self.order@,
        }
    }

    /// Hang branch `b` over the nodes at places 2b + 1 and 2b + 2.
    fn join(&mut self, b: usize)
        requires
            old(self).parent@.len() == 627,
            old(self).left@.len() == 627,
            old(self).right@.len() == 627,
            old(self).freq@.len() == 627,
            old(self).order@.len() == 627,
            b < 313,
            old(self).order@[2 * b + 1] < 627,
            old(self).order@[2 * b + 2] < 627,
            old(self).freq@[old(self).order@[2 * b + 1] as int] + old(self).freq@[old(self).order@[2 * b + 2] as int]
                <= u32::MAX,
        ensures
            final(self).view() == joined(old(self).view(), b as int),
    {
        let l: usize = self.order[2 * b + 1];
        let r: usize = self.order[2 * b + 2];
        let f: u32 = self.freq[l] + self.freq[r];
        self.left[b] = l;
        self.right[b] = r;
        self.parent[l] = b;
        self.parent[r] = b;
        self.freq[b] = f;
    }

    /// Put node `s` at place `p` of the row.
    fn place(&mut self, s: usize, p: usize)
        requires
            old(self).index@.len() == 627,
            old(self).order@.len() == 627,
            s < 627,
            p < 627,
        ensures
            final(self).view() == placed(old(self).view(), s as int, p as int),
    {
        self.order[p] = s;
        self.index[s] = p;
    }

    /// The balanced tree in which every symbol counts 1.
    pub fn new() -> (r: Self)
        ensures
            r.view() == tree_start(),
            tree_ok(r.view()),
    {
        let mut places: Vec<usize> = Vec::new();
        let mut again: Vec<usize> = Vec::new();
        let mut n: usize = 0;
        while n < NUM_NODES
            invariant
                n <= 627,
                places@.len() == n,
                again@.len() == n,
                forall|i: int| 0 <= i < n ==> #[trigger] places@[i] == i,
                forall|i: int| 0 <= i < n ==> #[trigger] again@[i] == i,
            decreases 627 - n,
        {
            places.push(n);
            again.push(n);
            n = n + 1;
        }
        let mut tree = AdaptiveTree {
            parent: vec![NIL; NUM_NODES],
            left: vec![NIL; NUM_NODES],
            right: vec![NIL; NUM_NODES],
            index: again,
            freq: vec![1u32; NUM_NODES],
            order: places,
        };
        let mut b: usize = NUM_BRANCHES;
        proof {
            let t = balanced_from(313);
            assert(tree.parent@ =~= t.parent);
            assert(tree.left@ =~= t.left);
            assert(tree.right@ =~= t.right);
            assert(tree.index@ =~= t.index);
            assert(tree.freq@ =~= t.freq);
            assert(tree.order@ =~= t.order);
        }
        while b > 0
            invariant
                b <= 313,
                tree.view() == balanced_from(b as int),
            decreases b,
        {
            proof {
                balanced_facts(b as int);
                balanced_step(tree.view(), b - 1);
                assert(tree.view().order[2 * b - 1] == 2 * b - 1);
                assert(tree.view().order[2 * b] == 2 * b);
            }
            b = b - 1;
            tree.join(b);
        }
        proof {
            start_is_ok();
        }
        tree
    }

    /// The branch on which `node` hangs; `None` for the root.
    pub fn parent(&self, node: usize) -> (r: Option<usize>)
        requires
            shape(self.view()),
            node < 627,
        ensures
            match r {
                Some(p) => p == self.view().parent[node as int] && node > 0,
                None => node == 0,
            },
    {
        let p: usize = self.parent[node];
        if p == NIL {
            None
        } else {
            Some(p)
        }
    }

    /// What hangs to the left of `node`; `None` for a leaf.
    pub fn left(&self, node: usize) -> (r: Option<usize>)
        requires
            shape(self.view()),
            node < 627,
        ensures
            match r {
                Some(p) => p == self.view().left[node as int] && node < 313,
                None => node >= 313,
            },
    {
        let p: usize = self.left[node];
        if p == NIL {
            None
        } else {
            Some(p)
        }
    }

    /// Move node `p` ahead of the nodes that count less than it.
    fn rearrange_node(&mut self, p: usize)
        requires
            shape(old(self).view()),
            0 < p < 627,
            old(self).freq@[p as int] >= 2,
            all_counted(old(self).freq@),
            falling_but(old(self).view(), p as int),
            short_at(old(self).view(), old(self).parent@[p as int] as int),
        ensures
            final(self).view() == promoted(old(self).view(), p as int),
    {
        let p_index: usize = self.index[p];
        let p_freq: u32 = self.freq[p];
        let mut q_index: usize = p_index;
        let ghost t = self.view();
        while q_index > 0 && self.freq[self.order[q_index - 1]] < p_freq
            invariant
                t == self.view(),
                shape(t),
                q_index <= p_index < 627,
                landing(t, q_index as int, p_freq) == landing(t, p_index as int, p_freq),
            decreases q_index,
        {
            q_index = q_index - 1;
        }
        if q_index < p_index {
            let q: usize = self.order[q_index];
            proof {
                partner_facts(t, p as int, q_index as int);
                assert(t.index[q as int] == q_index);
                assert(t.parent[p as int] < 313);
                assert(t.parent[q as int] < 313);
            }
            let pp: usize = self.parent[p];
            let qp: usize = self.parent[q];
            let p_is_right: bool = self.right[pp] == p;
            let q_is_right: bool = self.right[qp] == q;
            if p_is_right {
                self.right[pp] = q;
            } else {
                self.left[pp] = q;
            }
            if q_is_right {
                self.right[qp] = p;
            } else {
                self.left[qp] = p;
            }
            self.parent[p] = qp;
            self.parent[q] = pp;
            self.order[p_index] = q;
            self.index[q] = p_index;
            self.order[q_index] = p;
            self.index[p] = q_index;
        }
    }

    /// Count one more use of leaf `node`.
    pub fn update_node(&mut self, node: usize)
        requires
            tree_ok(old(self).view()),
            313 <= node < 627,
        ensures
            final(self).view() == used(old(self).view(), node as int),
            tree_ok(final(self).view()),
            leaf_gains_one(old(self).view(), final(self).view(), node as int),
    {
        if self.freq[0] == RECONSTRUCT_FREQ {
            self.reconstruct_tree();
        }
        let ghost base = self.freq@;
        let mut x: usize = node;
        let ghost mut steps: nat = 627;
        let ghost before = self.freq@[0];
        let ghost goal = used(old(self).view(), node as int);
        loop
            invariant
                shape(self.view()),
                x < 627,
                falling(self.order@, self.freq@),
                all_counted(self.freq@),
                short_at(self.view(), x as int),
                self.freq@[0] == before,
                before < RECONSTRUCT_FREQ,
                total(leaf_counts(self.order@, self.freq@)) == before + (if x >= 313 {
                    0int
                } else {
                    1int
                }),
                self.index@[x as int] <= steps,
                counted_up(self.view(), x as int, steps) == goal,
                goal == used(old(self).view(), node as int),
                forall|s: int| 313 <= s < 627 ==> #[trigger] base[s] == counts_before(old(self).view(), s),
                313 <= node < 627,
                x >= 313 ==> x == node,
                forall|s: int|
                    313 <= s < 627 ==> #[trigger] self.freq@[s] == base[s] + (if s == node && x < 313 {
                        1int
                    } else {
                        0int
                    }),
            decreases self.index@[x as int],
        {
            let ghost t = self.view();
            proof {
                root_counts_most(t, x as int);
                root_first(t);
                bump_facts(t, x as int);
            }
            let f: u32 = self.freq[x] + 1;
            self.freq[x] = f;
            if self.parent[x] == NIL {
                proof {
                    assert(x == 0) by {
                        if x > 0 {
                            assert(t.parent[x as int] < 313);
                        }
                    }
                    assert(short_at(self.view(), -1)) by {
                        assert forall|b: int| 0 <= b < 313 implies hanging(self.view(), b) == #[trigger] self.view().freq[b] by {}
                    }
                    assert(leaf_gains_one(old(self).view(), self.view(), node as int)) by {
                        reveal(leaf_gains_one);
                    }
                }
                return;
            }
            proof {
                assert(x > 0);
                assert(t.order[t.index[x as int] as int] == x);
                promotion_keeps_tree(self.view(), x as int);
                assert(self.view() == bumped(t, x as int));
            }
            let ghost t1 = self.view();
            self.rearrange_node(x);
            proof {
                let t2 = self.view();
                assert(t2.parent[x as int] < 313);
                assert(t2.index[t2.parent[x as int] as int] < t2.index[x as int]);
                steps = (steps - 1) as nat;
            }
            x = self.parent[x];
        }
    }

    /// Halve the counts of the leaves, rounding up; the leaves along the row.
    fn halve_leaves(&mut self) -> (leafs: Vec<usize>)
        requires
            tree_ok(old(self).view()),
        ensures
            final(self).view() == (TreeState { freq: halved(old(self).view().freq), ..old(self).view() }),
            leafs@ == leaves_of(old(self).view().order, 627),
    {
        let ghost t0 = self.view();
        let mut leafs: Vec<usize> = Vec::new();
        let mut p: usize = 0;
        while p < NUM_NODES
            invariant
                p <= 627,
                tree_ok(t0),
                t0 == old(self).view(),
                self.view() == (TreeState { freq: self.freq@, ..t0 }),
                self.freq@.len() == 627,
                leafs@ == leaves_of(t0.order, p as int),
                forall|s: int|
                    0 <= s < 627 ==> #[trigger] self.freq@[s] == (if s >= 313 && t0.index[s] < p {
                        halved(t0.freq)[s]
                    } else {
                        t0.freq[s]
                    }),
            decreases 627 - p,
        {
            let s: usize = self.order[p];
            proof {
                assert(t0.order[p as int] < 627 && t0.index[t0.order[p as int] as int] == p);
                root_counts_most(t0, s as int);
                assert forall|c: int| 0 <= c < 627 && t0.index[c] == p implies c == s by {
                    assert(t0.order[t0.index[c] as int] == c);
                }
                if s < 313 {
                    assert(t0.left[s as int] < 627);
                } else {
                    assert(t0.left[s as int] == NIL);
                }
            }
            if self.left[s] == NIL {
                let f: u32 = (self.freq[s] + 1) / 2;
                self.freq[s] = f;
                leafs.push(s);
            }
            p = p + 1;
        }
        proof {
            assert forall|s: int| 0 <= s < 627 implies self.freq@[s] == halved(t0.freq)[s] by {
                assert(t0.index[s] < 627);
            }
            assert(self.freq@ =~= halved(t0.freq));
        }
        leafs
    }

    /// Hang all branches anew over the leaves, from the back of the row.
    fn rebuild(&mut self, leafs: &Vec<usize>, before: Ghost<TreeState>)
        requires
            tree_ok(before@),
            old(self).view() == (TreeState { freq: halved(before@.freq), ..before@ }),
            leafs@ == leaves_of(before@.order, 627),
        ensures
            final(self).view() == rebuilt(old(self).view(), leafs@, 314, 313),
            final(self).order@.len() == 627,
            final(self).parent@.len() == 627,
            final(self).order@[0] == 0,
    {
        let ghost t0 = before@;
        let ghost list = leafs@;
        let ghost sum = total(list_counts(list, halved(t0.freq), 314));
        proof {
            nothing_built(t0);
            leaves_are_all(t0);
        }
        let ghost goal = rebuilt(self.view(), list, 314, 313);
        let mut n: usize = NUM_LEAVES;
        let mut m: usize = NUM_BRANCHES;
        while m > 0
            invariant
                leafs@ == list,
                list == leaves_of(t0.order, 627),
                goal == rebuilt(TreeState { freq: halved(t0.freq), ..t0 }, list, 314, 313),
                0 <= sum < RECONSTRUCT_FREQ,
                built(self.view(), list, n as int, m as int, m as int, sum),
                (m == 313 && n == 314) || (n <= m && self.order@[n + m] == m && m < 313),
                rebuilt(self.view(), list, n as int, m as int) == goal,
            decreases m,
        {
            let ghost t1 = self.view();
            let ghost n1 = n as int;
            let ghost forced = leaves_forced(t1, list, n1, m as int);
            while n >= m
                invariant
                    m > 0,
                    leafs@ == list,
                    built(self.view(), list, n as int, m as int, m as int, sum),
                    n <= n1,
                    n == n1 || n + 1 >= m,
                    n == n1 ==> self.view() == t1,
                    leaves_forced(self.view(), list, n as int, m as int) == forced,
                decreases n,
            {
                proof {
                    leaf_joins_row(self.view(), list, n as int, m as int, m as int, sum);
                }
                self.place(leafs[n - 1], n + m - 1);
                n = n - 1;
            }
            let b: usize = m - 1;
            proof {
                branch_is_hung(self.view(), list, n as int, m as int, sum);
            }
            let ghost t2 = self.view();
            self.join(b);
            let ghost t3 = self.view();
            let f: u32 = self.freq[b];
            proof {
                // The new branch counts no less than what stands at the front.
                if n + m == 2 * m - 1 {
                    assert(t2.order[2 * m - 1] == t2.order[n + m]);
                } else {
                    assert(t2.left[m as int] == t2.order[2 * m + 1]);
                    assert(t2.freq[t2.order[2 * m - 1] as int] >= t2.freq[t2.order[2 * m + 1] as int]);
                    assert(t2.freq[t2.order[2 * m] as int] >= t2.freq[t2.order[2 * m + 2] as int]);
                }
                assert(t2.order[n + m] >= m);
                assert(t3.freq[t3.order[n + m] as int] <= f);
            }
            let ghost small = leaves_up_to(t3, list, n as int, m as int, f);
            while n > 0 && self.freq[leafs[n - 1]] <= f
                invariant
                    m > 0,
                    n < m <= 313,
                    b == m - 1,
                    leafs@ == list,
                    built(self.view(), list, n as int, m as int, m - 1, sum),
                    self.freq@[b as int] == f,
                    n + m < 627,
                    self.freq@[self.order@[n + m] as int] <= f,
                    leaves_up_to(self.view(), list, n as int, m as int, f) == small,
                decreases n,
            {
                proof {
                    leaf_joins_row(self.view(), list, n as int, m as int, m - 1, sum);
                }
                self.place(leafs[n - 1], n + m - 1);
                n = n - 1;
            }
            proof {
                assert forall|i: int| 0 <= i < n implies self.freq@[(#[trigger] list[i]) as int] >= f by {
                    if i < n - 1 {
                        assert(self.freq@[list[i] as int] >= self.freq@[list[n - 1] as int]);
                    }
                }
                branch_joins_row(self.view(), list, n as int, m as int, sum);
            }
            self.place(b, n + b);
            m = b;
        }
    }

    /// Build the tree anew from half the leaf counts.
    pub fn reconstruct_tree(&mut self)
        requires
            tree_ok(old(self).view()),
        ensures
            final(self).view() == reconstructed(old(self).view()),
            tree_ok(final(self).view()),
            final(self).view().freq[0] < RECONSTRUCT_FREQ,
            final(self).view().order[0] == 0,
            forall|s: int|
                313 <= s < 627 ==> {
                    &&& #[trigger] final(self).view().freq[s] == (old(self).view().freq[s] + 1) / 2
                    &&& final(self).view().left[s] == NIL
                    &&& final(self).view().right[s] == NIL
                },
    {
        let ghost t0 = self.view();
        let leafs: Vec<usize> = self.halve_leaves();
        self.rebuild(&leafs, Ghost(t0));
        let root: usize = self.order[0];
        self.parent[root] = NIL;
        proof {
            reconstruction_halves_leaves(t0);
        }
    }
}

/// The window before the first byte.
pub fn initial_window() -> (r: Vec<u8>)
    ensures
        r@ == first_window(),
{
    let mut w: Vec<u8> = Vec::new();
    let mut i: usize = 0;
    while i < WINDOW_SIZE
        invariant
            i <= 4096,
            w@ == first_window().subrange(0, i as int),
        decreases 4096 - i,
    {
        let b: u8 = if i < 18 {
            0
        } else if i < 3346 {
            ((i - 18) / 13) as u8
        } else if i < 3602 {
            (i - 3346) as u8
        } else if i < 3858 {
            (255 - (i - 3602)) as u8
        } else if i < 3986 {
            0
        } else {
            0x20
        };
        w.push(b);
        i = i + 1;
        assert(w@ =~= first_window().subrange(0, i as int));
    }
    assert(w@ =~= first_window());
    w
}

impl AdaptiveTree {
    /// Follow the bits from the root to a leaf.
    fn find_leaf(&self, bits: &mut BitReaderMsb) -> (r: Result<usize, ErrorKind>)
        requires
            tree_ok(self.view()),
            old(bits).wf(),
        ensures
            final(bits).wf(),
            final(bits).data() == old(bits).data(),
            match r {
                Ok(node) => {
                    &&& leaf_from(self.view(), old(bits).data(), old(bits).pos(), 0) == Ok::<(int, int), ErrorKind>(
                        (node as int, final(bits).pos()),
                    )
                    &&& 313 <= node < 627
                },
                Err(e) => {
                    &&& leaf_from(self.view(), old(bits).data(), old(bits).pos(), 0) == Err::<(int, int), ErrorKind>(e)
                    &&& e == ErrorKind::UnexpectedEof
                    &&& final(bits).pos() == 8 * old(bits).data().len()
                },
            },
    {
        let ghost t = self.view();
        let mut node: usize = 0;
        proof {
            root_first(t);
        }
        while self.left[node] != NIL
            invariant
                self.view() == t,
                shape(t),
                node < 627,
                bits.wf(),
                bits.data() == old(bits).data(),
                leaf_from(t, bits.data(), bits.pos(), node as int) == leaf_from(
                    t,
                    old(bits).data(),
                    old(bits).pos(),
                    0,
                ),
            decreases 627 - t.index[node as int],
        {
            proof {
                children_stand_behind(t, node as int);
                assert(t.index[node as int] < 627);
            }
            match bits.read_bit() {
                None => {
                    return Err(ErrorKind::UnexpectedEof);
                },
                Some(true) => {
                    node = self.left[node];
                },
                Some(false) => {
                    node = self.right[node];
                },
            }
        }
        proof {
            if node < 313 {
                assert(t.left[node as int] < 627);
            }
        }
        Ok(node)
    }

    /// Decode one symbol and count it.
    #[verifier::spinoff_prover]
    #[verifier::rlimit(50)]
    pub fn decode_symbol(&mut self, bits: &mut BitReaderMsb) -> (r: Result<usize, ErrorKind>)
        requires
            tree_ok(old(self).view()),
            old(bits).wf(),
        ensures
            final(bits).wf(),
            final(bits).data() == old(bits).data(),
            match r {
                Ok(v) => {
                    &&& leaf_from(old(self).view(), old(bits).data(), old(bits).pos(), 0) == Ok::<
                        (int, int),
                        ErrorKind,
                    >((626 - v, final(bits).pos()))
                    &&& v < 314
                    &&& final(self).view() == used(old(self).view(), 626 - v)
                    &&& tree_ok(final(self).view())
                },
                Err(e) => {
                    &&& leaf_from(old(self).view(), old(bits).data(), old(bits).pos(), 0) == Err::<
                        (int, int),
                        ErrorKind,
                    >(e)
                    &&& e == ErrorKind::UnexpectedEof
                    &&& final(self).view() == old(self).view()
                    &&& final(bits).pos() == 8 * old(bits).data().len()
                },
            },
    {
        let node: usize = match self.find_leaf(bits) {
            Ok(node) => node,
            Err(e) => {
                return Err(e);
            },
        };
        self.update_node(node);
        Ok(626 - node)
    }
}

/// Read a distance.
fn read_distance(distancecode: &PrefixCode, bits: &mut BitReaderMsb) -> (r: Result<usize, ErrorKind>)
    requires
        old(bits).wf(),
        distancecode.view() == canonical(distance_lengths(), 8),
        lengths_ok(distancecode.view()),
        symbols_below(distancecode.view(), 64),
    ensures
        final(bits).wf(),
        final(bits).data() == old(bits).data(),
        match r {
            Ok(d) => {
                &&& distance_at(old(bits).data(), old(bits).pos()) == Ok::<(int, int), ErrorKind>(
                    (d as int, final(bits).pos()),
                )
                &&& 1 <= d <= 4096
            },
            Err(e) => distance_at(old(bits).data(), old(bits).pos()) == Err::<(int, int), ErrorKind>(e),
        },
{
    proof {
        symbol_from_range(distancecode.view(), BitOrder::MsbFirst, bits.data(), bits.pos(), 0, 0, 64);
    }
    let high: i32 = match distancecode.next_symbol_msb(bits) {
        Ok(v) => v,
        Err(e) => {
            return Err(e);
        },
    };
    proof {
        msb_value_bound(bits.data(), bits.pos(), 6);
        lemma2_to64();
    }
    let low: u32 = match bits.read(6) {
        Some(v) => v,
        None => {
            return Err(ErrorKind::UnexpectedEof);
        },
    };
    Ok(64 * high as usize + low as usize + 1)
}

/// Decode the first `outlen` bytes of a method 5 fork.
pub fn decode(src: &[u8], outlen: usize) -> (r: Result<Vec<u8>, ErrorKind>)
    ensures
        bytes_of(r) == decoded(src@, outlen as nat),
{
    if outlen == 0 {
        return Ok(Vec::new());
    }
    let mut bits = BitReaderMsb::new(src);
    let distancecode = PrefixCode::from_lengths(DISTANCE_LENGTHS.as_slice(), 8);
    let mut tree = AdaptiveTree::new();
    let mut window = LzssWindow::prefilled(initial_window());
    let mut out: Vec<u8> = Vec::new();
    let ghost goal = decoded(src@, outlen as nat);
    proof {
        after_nothing(goal);
    }
    while out.len() < outlen
        invariant
            out@.len() <= outlen,
            bits.wf(),
            bits.data() == src@,
            distancecode.view() == canonical(distance_lengths(), 8),
            lengths_ok(distancecode.view()),
            symbols_below(distancecode.view(), 64),
            tree_ok(tree.view()),
            window.view().wf(),
            goal == decoded(src@, outlen as nat),
            goal == after(
                out@,
                bytes_from(tree.view(), src@, bits.pos(), window.view(), (outlen - out@.len()) as nat),
            ),
        decreases outlen - out@.len(),
    {
        let ghost left = (outlen - out@.len()) as nat;
        let value: usize = match tree.decode_symbol(&mut bits) {
            Ok(v) => v,
            Err(e) => {
                return Err(e);
            },
        };
        if value < 0x100 {
            proof {
                after_push(
                    out@,
                    value as u8,
                    bytes_from(
                        tree.view(),
                        src@,
                        bits.pos(),
                        window.view().feed(value as u8),
                        (left - 1) as nat,
                    ),
                );
            }
            window.emit_literal(value as u8, &mut out);
        } else {
            let distance: usize = match read_distance(&distancecode, &mut bits) {
                Ok(d) => d,
                Err(e) => {
                    return Err(e);
                },
            };
            let length: usize = value - 0x100 + 3;
            let remaining: usize = outlen - out.len();
            let n: usize = if length < remaining {
                length
            } else {
                remaining
            };
            proof {
                after_after(
                    out@,
                    window.view().copied(distance as int, n as nat),
                    bytes_from(
                        tree.view(),
                        src@,
                        bits.pos(),
                        window.view().after_copy(distance as int, n as nat),
                        (left - n) as nat,
                    ),
                );
            }
            window.emit_match(distance as u64, n, &mut out);
        }
    }
    assert(out@ + seq![] =~= out@);
    Ok(out)
}

} // verus!
