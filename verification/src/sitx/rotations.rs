use vstd::prelude::*;
use vstd::relations::{injective_on, sorted_by, total_ordering};
use vstd::seq_lib::{lemma_sorted_unique, to_multiset_build, to_multiset_remove};
use vstd::set_lib::{lemma_int_range, lemma_map_size, lemma_subset_equality, set_int_range};
use crate::sitx::bwt::{
    below_mono, links, links_invert_places, occurrences_bounds, slot, slot_in_range, slots_differ, unsorted_bwt, walked,
    walked_len,
};

verus! {

// The Burrows-Wheeler transform sorts the rotations of a string and keeps the last
// byte of each. Undoing it gives the string back.

/// The string turned so that byte `i` comes first.
pub open spec fn rotation(s: Seq<u8>, i: int) -> Seq<u8> {
    Seq::new(s.len(), |k: int| s[(i + k) % (s.len() as int)])
}

/// Not after in the order of a dictionary.
pub open spec fn not_after(a: Seq<u8>, b: Seq<u8>) -> bool
    decreases a.len(),
{
    if a.len() == 0 {
        true
    } else if b.len() == 0 {
        false
    } else {
        a[0] < b[0] || (a[0] == b[0] && not_after(a.skip(1), b.skip(1)))
    }
}

/// `order` holds each number below its length once.
pub open spec fn is_permutation(order: Seq<int>) -> bool {
    &&& forall|i: int| 0 <= i < order.len() ==> 0 <= #[trigger] order[i] < order.len()
    &&& forall|i: int, j: int| 0 <= i < j < order.len() ==> order[i] != order[j]
}

/// `order` lists the rotations of `s` in the order of a dictionary.
pub open spec fn sorts_rotations(s: Seq<u8>, order: Seq<int>) -> bool {
    &&& order.len() == s.len()
    &&& is_permutation(order)
    &&& forall|i: int, j: int|
        0 <= i < j < order.len() ==> #[trigger] not_after(rotation(s, order[i]), rotation(s, order[j]))
}

/// The last bytes of the rotations in the given order.
pub open spec fn last_column(s: Seq<u8>, order: Seq<int>) -> Seq<u8> {
    Seq::new(s.len(), |i: int| s[(order[i] + s.len() - 1) % (s.len() as int)])
}

// === the order of a dictionary ================================================

proof fn not_after_itself(a: Seq<u8>)
    ensures
        not_after(a, a),
    decreases a.len(),
{
    if a.len() > 0 {
        not_after_itself(a.skip(1));
    }
}

proof fn not_after_both_ways(a: Seq<u8>, b: Seq<u8>)
    requires
        not_after(a, b),
        not_after(b, a),
    ensures
        a == b,
    decreases a.len(),
{
    if a.len() == 0 || b.len() == 0 {
        assert(a =~= b);
    } else {
        not_after_both_ways(a.skip(1), b.skip(1));
        assert forall|i: int| 0 <= i < a.len() implies a.len() == b.len() && a[i] == b[i] by {
            assert(a.skip(1).len() == b.skip(1).len());
            if i > 0 {
                assert(a.skip(1)[i - 1] == b.skip(1)[i - 1]);
            }
        }
        assert(a.skip(1).len() == b.skip(1).len());
        assert(a =~= b);
    }
}

proof fn not_after_chain(a: Seq<u8>, b: Seq<u8>, c: Seq<u8>)
    requires
        not_after(a, b),
        not_after(b, c),
    ensures
        not_after(a, c),
    decreases a.len(),
{
    if a.len() > 0 && b.len() > 0 && c.len() > 0 {
        if a[0] == b[0] && b[0] == c[0] {
            not_after_chain(a.skip(1), b.skip(1), c.skip(1));
        }
    }
}

proof fn not_after_one_way(a: Seq<u8>, b: Seq<u8>)
    ensures
        not_after(a, b) || not_after(b, a),
    decreases a.len(),
{
    if a.len() > 0 && b.len() > 0 && a[0] == b[0] {
        not_after_one_way(a.skip(1), b.skip(1));
    }
}

proof fn dictionary_is_total()
    ensures
        total_ordering(|a: Seq<u8>, b: Seq<u8>| not_after(a, b)),
{
    let leq = |a: Seq<u8>, b: Seq<u8>| not_after(a, b);
    assert forall|x: Seq<u8>| #[trigger] leq(x, x) by {
        not_after_itself(x);
    }
    assert forall|x: Seq<u8>, y: Seq<u8>| #[trigger] leq(x, y) && #[trigger] leq(y, x) implies x == y by {
        not_after_both_ways(x, y);
    }
    assert forall|x: Seq<u8>, y: Seq<u8>, z: Seq<u8>| #[trigger] leq(x, y) && #[trigger] leq(y, z) implies leq(
        x,
        z,
    ) by {
        not_after_chain(x, y, z);
    }
    assert forall|x: Seq<u8>, y: Seq<u8>| #[trigger] leq(x, y) || #[trigger] leq(y, x) by {
        not_after_one_way(x, y);
    }
}

/// What comes not after another does not when both are cut short.
proof fn prefix_not_after(a: Seq<u8>, b: Seq<u8>, m: int)
    requires
        not_after(a, b),
        a.len() == b.len(),
        0 <= m <= a.len(),
    ensures
        not_after(a.subrange(0, m), b.subrange(0, m)),
    decreases a.len(),
{
    if m > 0 {
        let x = a.subrange(0, m);
        let y = b.subrange(0, m);
        if a[0] == b[0] {
            prefix_not_after(a.skip(1), b.skip(1), m - 1);
            assert(x.skip(1) =~= a.skip(1).subrange(0, m - 1));
            assert(y.skip(1) =~= b.skip(1).subrange(0, m - 1));
        }
    }
}

// === permutations =============================================================

/// The items of `base` picked in the order of `p`.
pub open spec fn picked<A>(base: Seq<A>, p: Seq<int>) -> Seq<A> {
    Seq::new(p.len(), |k: int| base[p[k]])
}

/// Another order holds the same items.
pub(crate) proof fn picking_keeps_items<A>(base: Seq<A>, p: Seq<int>)
    requires
        p.len() == base.len(),
        is_permutation(p),
    ensures
        picked(base, p).to_multiset() == base.to_multiset(),
    decreases p.len(),
{
    broadcast use vstd::multiset::group_multiset_axioms;

    let g = picked(base, p);
    if p.len() == 0 {
        assert(g =~= base);
    } else {
        let t = p.last();
        let rest = base.remove(t);
        let q = Seq::new(
            (p.len() - 1) as nat,
            |k: int|
                if p[k] > t {
                    p[k] - 1
                } else {
                    p[k]
                },
        );
        assert forall|i: int| 0 <= i < q.len() implies 0 <= #[trigger] q[i] < q.len() by {
            assert(p[i] != p[p.len() - 1]);
        }
        assert forall|i: int, j: int| 0 <= i < j < q.len() implies q[i] != q[j] by {
            assert(p[i] != p[p.len() - 1]);
            assert(p[j] != p[p.len() - 1]);
            assert(p[i] != p[j]);
        }
        picking_keeps_items(rest, q);
        assert(g.drop_last() =~= picked(rest, q)) by {
            assert forall|k: int| 0 <= k < q.len() implies g.drop_last()[k] == picked(rest, q)[k] by {
                assert(p[k] != p[p.len() - 1]);
            }
        }
        assert(g =~= g.drop_last().push(base[t]));
        to_multiset_build(g.drop_last(), base[t]);
        to_multiset_remove(base, t);
        assert(base.contains(base[t]));
        base.to_multiset_ensures();
        assert(g.to_multiset() =~= base.to_multiset());
    }
}

/// Every row is the place of some byte.
pub(crate) proof fn some_byte_has_place(s: Seq<u8>, k: int) -> (a: int)
    requires
        0 <= k < s.len(),
    ensures
        0 <= a < s.len(),
        slot(s, a) == k,
        links(s)[k] == a,
{
    let n = s.len() as int;
    let all = set_int_range(0, n);
    let f = |i: int| slot(s, i);
    lemma_int_range(0, n);
    assert(injective_on(f, all)) by {
        assert forall|x1: int, x2: int|
            all.contains(x1) && all.contains(x2) && #[trigger] f(x1) == #[trigger] f(x2) implies x1 == x2 by {
            if x1 != x2 {
                slots_differ(s, x1, x2);
            }
        }
    }
    let image = all.map(f);
    lemma_map_size(all, image, f);
    assert(image.subset_of(all)) by {
        assert forall|y: int| image.contains(y) implies all.contains(y) by {
            let x = choose|x: int| all.contains(x) && f(x) == y;
            slot_in_range(s, x);
        }
    }
    lemma_subset_equality(image, all);
    assert(all.contains(k));
    assert(image.contains(k));
    let a = choose|x: int| all.contains(x) && f(x) == k;
    links_invert_places(s);
    assert(links(s)[slot(s, a)] == a);
    a
}

/// The links lead from each row to another.
pub proof fn links_are_a_permutation(s: Seq<u8>)
    ensures
        is_permutation(links(s)),
        links(s).len() == s.len(),
{
    links_invert_places(s);
    assert forall|i: int, j: int| 0 <= i < j < links(s).len() implies links(s)[i] != links(s)[j] by {
        let a = some_byte_has_place(s, i);
        let b = some_byte_has_place(s, j);
        assert(links(s)[slot(s, a)] == a);
        assert(links(s)[slot(s, b)] == b);
    }
}

/// Bytes whose places are in order are in order themselves, equal ones by where
/// they stand.
pub(crate) proof fn places_sort(s: Seq<u8>, a: int, b: int)
    requires
        0 <= a < s.len(),
        0 <= b < s.len(),
        slot(s, a) < slot(s, b),
    ensures
        s[a] < s[b] || (s[a] == s[b] && a < b),
{
    let n = s.len() as int;
    if s[a] > s[b] {
        below_mono(s, n, s[b] + 1, s[a] as int);
        occurrences_bounds(s, b + 1, n, s[b] as int);
        occurrences_bounds(s, a, a, s[a] as int);
    } else if s[a] == s[b] && a >= b {
        occurrences_bounds(s, b, a, s[a] as int);
    }
}

// === undoing the transform ====================================================

/// The index before `i` in a circle of `n`.
spec fn before(i: int, n: int) -> int {
    (i + n - 1) % n
}

proof fn circle(i: int, k: int, n: int)
    requires
        n > 0,
        0 <= i < n,
        0 <= k < n,
    ensures
        0 <= before(i, n) < n,
        (before(i, n) + 1) % n == i,
        k + 1 < n ==> (before(i, n) + (k + 1)) % n == (i + k) % n,
{
    if i == 0 {
        assert(before(i, n) == n - 1) by (nonlinear_arith)
            requires before(i, n) == (n - 1) % n, n > 0;
        assert(n % n == 0) by (nonlinear_arith)
            requires n > 0;
        assert((n + k) % n == k) by (nonlinear_arith)
            requires 0 <= k < n;
        assert(k % n == k) by (nonlinear_arith)
            requires 0 <= k < n;
    } else {
        assert(before(i, n) == i - 1) by (nonlinear_arith)
            requires before(i, n) == (i + n - 1) % n, 0 < i < n;
        assert(i % n == i) by (nonlinear_arith)
            requires 0 <= i < n;
    }
}

/// Each row turned back by one, in the order of the links, is the row itself.
proof fn turned_rows_are_rows(s: Seq<u8>, order: Seq<int>, k: int)
    requires
        sorts_rotations(s, order),
        0 <= k < s.len(),
    ensures
        rotation(s, order[k]) == rotation(s, before(order[links(last_column(s, order))[k]], s.len() as int)),
{
    let n = s.len() as int;
    let col = last_column(s, order);
    let t = links(col);
    let leq = |a: Seq<u8>, b: Seq<u8>| not_after(a, b);
    let rots = Seq::new(s.len(), |i: int| rotation(s, i));
    let rows = picked(rots, order);
    let back = Seq::new(s.len(), |i: int| before(order[t[i]], n));
    let turned = picked(rots, back);
    dictionary_is_total();
    links_invert_places(col);
    // The rows turned back hold the same rotations.
    assert(is_permutation(back)) by {
        assert forall|i: int| 0 <= i < back.len() implies 0 <= #[trigger] back[i] < back.len() by {
            circle(order[t[i]], 0, n);
        }
        assert forall|i: int, j: int| 0 <= i < j < back.len() implies back[i] != back[j] by {
            let a = some_byte_has_place(col, i);
            let b = some_byte_has_place(col, j);
            assert(a != b);
            circle(order[a], 0, n);
            circle(order[b], 0, n);
            if a < b {
                assert(order[a] != order[b]);
            } else {
                assert(order[b] != order[a]);
            }
        }
    }
    picking_keeps_items(rots, order);
    picking_keeps_items(rots, back);
    // Both are sorted.
    assert(sorted_by(rows, leq)) by {
        assert forall|i: int, j: int| 0 <= i < j < rows.len() implies #[trigger] leq(rows[i], rows[j]) by {
            assert(rows[i] == rotation(s, order[i]));
            assert(rows[j] == rotation(s, order[j]));
        }
    }
    assert(sorted_by(turned, leq)) by {
        assert forall|i: int, j: int| 0 <= i < j < turned.len() implies #[trigger] leq(turned[i], turned[j]) by {
            let a = some_byte_has_place(col, i);
            let b = some_byte_has_place(col, j);
            places_sort(col, a, b);
            circle(order[a], 0, n);
            circle(order[b], 0, n);
            let x = turned[i];
            let y = turned[j];
            assert(x == rotation(s, before(order[a], n)));
            assert(y == rotation(s, before(order[b], n)));
            turned_row(s, order, a);
            turned_row(s, order, b);
            if col[a] == col[b] {
                prefix_not_after(rotation(s, order[a]), rotation(s, order[b]), n - 1);
            }
        }
    }
    lemma_sorted_unique(turned, rows, leq);
    assert(turned[k] == rows[k]);
}

/// A row turned back by one starts with its last byte and goes on with the others.
proof fn turned_row(s: Seq<u8>, order: Seq<int>, a: int)
    requires
        sorts_rotations(s, order),
        0 <= a < s.len(),
    ensures
        rotation(s, before(order[a], s.len() as int)).len() == s.len(),
        rotation(s, before(order[a], s.len() as int))[0] == last_column(s, order)[a],
        rotation(s, before(order[a], s.len() as int)).skip(1) == rotation(s, order[a]).subrange(0, s.len() - 1),
{
    let n = s.len() as int;
    let x = rotation(s, before(order[a], n));
    circle(order[a], 0, n);
    assert(before(order[a], n) % n == before(order[a], n)) by (nonlinear_arith)
        requires 0 <= before(order[a], n) < n;
    assert forall|k: int| 0 <= k < n - 1 implies x.skip(1)[k] == rotation(s, order[a])[k] by {
        circle(order[a], k, n);
    }
    assert(x.skip(1) =~= rotation(s, order[a]).subrange(0, n - 1));
}

/// Walking along the links from a row spells its rotation.
proof fn walk_spells_rotation(s: Seq<u8>, order: Seq<int>, t: int, m: nat)
    requires
        sorts_rotations(s, order),
        0 <= t < s.len(),
        m <= s.len(),
    ensures
        walked(last_column(s, order), links(last_column(s, order)), t, m) == rotation(s, order[t]).subrange(
            0,
            m as int,
        ),
    decreases m,
{
    let n = s.len() as int;
    let col = last_column(s, order);
    let l = links(col);
    walked_len(col, l, t, m);
    if m > 0 {
        links_invert_places(col);
        let u = l[t];
        walk_spells_rotation(s, order, u, (m - 1) as nat);
        turned_rows_are_rows(s, order, t);
        turned_row(s, order, u);
        let w = walked(col, l, t, m);
        let row = rotation(s, order[t]);
        assert forall|k: int| 0 <= k < m implies w[k] == row[k] by {
            if k > 0 {
                assert(w[k] == walked(col, l, u, (m - 1) as nat)[k - 1]);
                assert(row[k] == row.skip(1)[k - 1]);
                assert(rotation(s, order[u]).subrange(0, (m - 1) as int)[k - 1] == rotation(s, order[u])[k - 1]);
            }
        }
        assert(w =~= row.subrange(0, m as int));
    } else {
        assert(walked(col, l, t, m) =~= rotation(s, order[t]).subrange(0, 0));
    }
}

/// Undoing the Burrows-Wheeler transform of a string gives the string back, whatever
/// the order of rotations that are equal.
pub proof fn transform_is_undone(s: Seq<u8>, order: Seq<int>, first: int)
    requires
        sorts_rotations(s, order),
        0 <= first < s.len(),
        order[first] == 0,
    ensures
        unsorted_bwt(last_column(s, order), first) == s,
{
    walk_spells_rotation(s, order, first, s.len());
    assert forall|k: int| 0 <= k < s.len() implies rotation(s, 0)[k] == s[k] by {
        assert(k % (s.len() as int) == k) by (nonlinear_arith)
            requires 0 <= k < s.len();
    }
    assert(rotation(s, 0).subrange(0, s.len() as int) =~= s);
}

} // verus!
