use vstd::prelude::*;
use vstd::arithmetic::div_mod::{lemma_mod_add_multiples_vanish, lemma_small_mod};
use vstd::multiset::Multiset;
use vstd::relations::{injective_on, sorted_by, total_ordering};
use vstd::seq_lib::{lemma_sorted_unique, to_multiset_build};
use vstd::set_lib::{lemma_int_range, lemma_map_size, lemma_subset_equality, set_int_range};
use crate::sitx::bwt::{
    boundaries, first_in_group, group_from, group_is, links, occurrences_bounds, pair_at, pairs_below, pairs_below_mono,
    pairs_below_step, pairs_below_zero, slot, slot_in_range, slots_differ, sorted_byte_is, st4_to, st4_walked, unsorted_st4,
    ST4_INDIRECT,
};
use crate::sitx::rotations::{
    is_permutation, links_are_a_permutation, picked, picking_keeps_items, places_sort, some_byte_has_place,
};

verus! {

// The sort transform of order 4 sorts the bytes of a string by the four bytes before each of
// them, and keeps those with the same four in their order. Undoing it gives the string back.

/// The byte `k` places before place `p`, the string being taken as a circle.
pub open spec fn back(t: Seq<u8>, p: int, k: int) -> int {
    t[(p - k) % (t.len() as int)] as int
}

#[verifier::opaque]
pub open spec fn key1(t: Seq<u8>, p: int) -> int {
    back(t, p, 1)
}

#[verifier::opaque]
pub open spec fn key2(t: Seq<u8>, p: int) -> int {
    0x100 * back(t, p, 1) + back(t, p, 2)
}

#[verifier::opaque]
pub open spec fn key3(t: Seq<u8>, p: int) -> int {
    0x1_0000 * back(t, p, 1) + 0x100 * back(t, p, 2) + back(t, p, 3)
}

/// The four bytes before place `p` as a number, the nearest counting most.
#[verifier::opaque]
pub open spec fn key4(t: Seq<u8>, p: int) -> int {
    0x100_0000 * back(t, p, 1) + 0x1_0000 * back(t, p, 2) + 0x100 * back(t, p, 3) + back(t, p, 4)
}

/// The rows list the places of the string by the four bytes before them, and those with the
/// same four as they come.
pub open spec fn sorts_contexts(t: Seq<u8>, rows: Seq<int>) -> bool {
    &&& rows.len() == t.len()
    &&& is_permutation(rows)
    &&& forall|x: int, y: int|
        0 <= x < y < rows.len() ==> {
            let a = key4(t, #[trigger] rows[x]);
            let b = key4(t, #[trigger] rows[y]);
            a < b || (a == b && rows[x] < rows[y])
        }
}

/// The bytes in the order of the rows.
pub open spec fn column(t: Seq<u8>, rows: Seq<int>) -> Seq<u8> {
    Seq::new(t.len(), |x: int| t[rows[x]])
}

// === keys =====================================================================

spec fn next(t: Seq<u8>, p: int) -> int {
    if p + 1 == t.len() {
        0
    } else {
        p + 1
    }
}

proof fn back_of_next(t: Seq<u8>, p: int, k: int)
    requires
        0 <= p < t.len(),
    ensures
        back(t, next(t, p), k + 1) == back(t, p, k),
{
    let n = t.len() as int;
    if p + 1 == n {
        lemma_mod_add_multiples_vanish(-(k + 1), n);
        assert(n + -(k + 1) == p - k);
    }
}

proof fn keys_step(t: Seq<u8>, p: int)
    requires
        0 <= p < t.len(),
    ensures
        key1(t, next(t, p)) == t[p],
        key2(t, next(t, p)) == 0x100 * t[p] + key1(t, p),
        key3(t, next(t, p)) == 0x1_0000 * t[p] + key2(t, p),
        key4(t, next(t, p)) == 0x100_0000 * t[p] + key3(t, p),
        0 <= key1(t, p) < 0x100,
        0 <= key2(t, p) < 0x1_0000,
        0 <= key3(t, p) < 0x100_0000,
{
    reveal(key1);
    reveal(key2);
    reveal(key3);
    reveal(key4);
    back_of_next(t, p, 0);
    back_of_next(t, p, 1);
    back_of_next(t, p, 2);
    back_of_next(t, p, 3);
    lemma_small_mod(p as nat, t.len());
}

proof fn keys_nest(t: Seq<u8>, a: int, b: int)
    ensures
        key4(t, a) <= key4(t, b) ==> key3(t, a) <= key3(t, b),
        key4(t, a) == key4(t, b) ==> key3(t, a) == key3(t, b),
        key3(t, a) <= key3(t, b) ==> key2(t, a) <= key2(t, b),
        key3(t, a) == key3(t, b) ==> key2(t, a) == key2(t, b),
        key2(t, a) == key2(t, b) ==> key1(t, a) == key1(t, b),
{
    reveal(key1);
    reveal(key2);
    reveal(key3);
    reveal(key4);
}

// === where bytes go ===========================================================

proof fn order_of_numbers()
    ensures
        total_ordering(|a: int, b: int| a <= b),
{
    let leq = |a: int, b: int| a <= b;
    assert forall|x: int| #[trigger] leq(x, x) by {}
    assert forall|x: int, y: int| #[trigger] leq(x, y) && #[trigger] leq(y, x) implies x == y by {}
    assert forall|x: int, y: int, z: int| #[trigger] leq(x, y) && #[trigger] leq(y, z) implies leq(x, z) by {}
    assert forall|x: int, y: int| #[trigger] leq(x, y) || #[trigger] leq(y, x) by {}
}

proof fn next_is_a_permutation(t: Seq<u8>, p: Seq<int>)
    requires
        p.len() == t.len(),
        is_permutation(p),
    ensures
        is_permutation(Seq::new(p.len(), |k: int| next(t, p[k]))),
{
    let q = Seq::new(p.len(), |k: int| next(t, p[k]));
    assert forall|i: int| 0 <= i < q.len() implies 0 <= #[trigger] q[i] < q.len() by {
        assert(0 <= p[i] < p.len());
    }
    assert forall|i: int, j: int| 0 <= i < j < q.len() implies q[i] != q[j] by {
        assert(p[i] != p[j]);
        assert(0 <= p[i] < p.len() && 0 <= p[j] < p.len());
    }
}

/// A byte goes to a row whose four bytes are the byte and the three before it.
proof fn slots_keep_keys(t: Seq<u8>, rows: Seq<int>, r: int)
    requires
        sorts_contexts(t, rows),
        0 <= r < t.len(),
    ensures
        ({
            let k = slot(column(t, rows), r);
            &&& 0 <= k < t.len()
            &&& key4(t, rows[k]) == key4(t, next(t, rows[r]))
            &&& key3(t, rows[k]) == key3(t, next(t, rows[r]))
            &&& key2(t, rows[k]) == key2(t, next(t, rows[r]))
            &&& key1(t, rows[k]) == key1(t, next(t, rows[r]))
        }),
{
    let s = column(t, rows);
    let n = t.len() as int;
    let leq = |a: int, b: int| a <= b;
    let z = Seq::new(t.len(), |p: int| key4(t, p));
    links_are_a_permutation(s);
    let l = links(s);
    let along = Seq::new(l.len(), |k: int| rows[l[k]]);
    assert(is_permutation(along)) by {
        assert forall|i: int| 0 <= i < along.len() implies 0 <= #[trigger] along[i] < along.len() by {
            assert(0 <= l[i] < l.len());
            assert(0 <= rows[l[i]] < rows.len());
        }
        assert forall|i: int, j: int| 0 <= i < j < along.len() implies along[i] != along[j] by {
            assert(l[i] != l[j]);
            assert(0 <= l[i] < l.len() && 0 <= l[j] < l.len());
            if l[i] < l[j] {
                assert(rows[l[i]] != rows[l[j]]);
            } else {
                assert(rows[l[j]] != rows[l[i]]);
            }
        }
    }
    next_is_a_permutation(t, along);
    let q = Seq::new(along.len(), |k: int| next(t, along[k]));
    let x = picked(z, rows);
    let y = picked(z, q);
    picking_keeps_items(z, rows);
    picking_keeps_items(z, q);
    assert(sorted_by(x, leq)) by {
        assert forall|i: int, j: int| 0 <= i < j < x.len() implies #[trigger] leq(x[i], x[j]) by {
            assert(0 <= rows[i] < n && 0 <= rows[j] < n);
        }
    }
    assert(sorted_by(y, leq)) by {
        assert forall|i: int, j: int| 0 <= i < j < y.len() implies #[trigger] leq(y[i], y[j]) by {
            let a = some_byte_has_place(s, i);
            let b = some_byte_has_place(s, j);
            places_sort(s, a, b);
            assert(0 <= rows[a] < n && 0 <= rows[b] < n);
            keys_step(t, rows[a]);
            keys_step(t, rows[b]);
            if s[a] == s[b] {
                keys_nest(t, rows[a], rows[b]);
            }
        }
    }
    order_of_numbers();
    lemma_sorted_unique(x, y, leq);
    slot_in_range(s, r);
    let k = slot(s, r);
    let a = some_byte_has_place(s, k);
    if a != r {
        slots_differ(s, a, r);
    }
    assert(x[k] == y[k]);
    assert(0 <= rows[k] < n);
    keys_nest(t, rows[k], next(t, rows[r]));
}

/// Within a byte, rows that come later go later.
proof fn later_goes_later(s: Seq<u8>, a: int, b: int)
    requires
        0 <= a < b < s.len(),
        s[a] == s[b],
    ensures
        slot(s, a) < slot(s, b),
{
    slots_differ(s, a, b);
    if slot(s, b) < slot(s, a) {
        places_sort(s, b, a);
    }
}

spec fn same3(t: Seq<u8>, rows: Seq<int>, x: int, y: int) -> bool {
    key3(t, rows[x]) == key3(t, rows[y]) && t[rows[x]] == t[rows[y]]
}

spec fn same2(t: Seq<u8>, rows: Seq<int>, x: int, y: int) -> bool {
    key2(t, rows[x]) == key2(t, rows[y]) && t[rows[x]] == t[rows[y]]
}

/// The first of the rows with its byte and the three bytes before it goes to the first of the
/// rows with these four.
proof fn first3_goes_to_start(t: Seq<u8>, rows: Seq<int>, d: int, k: int)
    requires
        sorts_contexts(t, rows),
        0 <= d < t.len(),
        forall|x: int| 0 <= x < d ==> !#[trigger] same3(t, rows, x, d),
        0 <= k < slot(column(t, rows), d),
    ensures
        key4(t, rows[k]) != key4(t, next(t, rows[d])),
{
    let s = column(t, rows);
    slots_keep_keys(t, rows, d);
    if key4(t, rows[k]) == key4(t, next(t, rows[d])) {
        let a = some_byte_has_place(s, k);
        slots_keep_keys(t, rows, a);
        assert(0 <= rows[a] < t.len() && 0 <= rows[d] < t.len());
        keys_step(t, rows[a]);
        keys_step(t, rows[d]);
        assert(same3(t, rows, a, d));
        places_sort(s, a, d);
    }
}

proof fn first2_goes_to_start(t: Seq<u8>, rows: Seq<int>, d: int, k: int)
    requires
        sorts_contexts(t, rows),
        0 <= d < t.len(),
        forall|x: int| 0 <= x < d ==> !#[trigger] same2(t, rows, x, d),
        0 <= k < slot(column(t, rows), d),
    ensures
        key3(t, rows[k]) != key3(t, next(t, rows[d])),
{
    let s = column(t, rows);
    slots_keep_keys(t, rows, d);
    if key3(t, rows[k]) == key3(t, next(t, rows[d])) {
        let a = some_byte_has_place(s, k);
        slots_keep_keys(t, rows, a);
        assert(0 <= rows[a] < t.len() && 0 <= rows[d] < t.len());
        keys_step(t, rows[a]);
        keys_step(t, rows[d]);
        assert(same2(t, rows, a, d));
        places_sort(s, a, d);
    }
}

// === groups ===================================================================

proof fn pair_is_key(t: Seq<u8>, rows: Seq<int>, r: int)
    requires
        sorts_contexts(t, rows),
        0 <= r < t.len(),
    ensures
        pair_at(column(t, rows), r) == key2(t, next(t, rows[r])),
        0 <= key2(t, next(t, rows[r])) < 0x1_0000,
{
    let s = column(t, rows);
    let n = t.len() as int;
    let a = some_byte_has_place(s, r);
    let b = s[a] as int;
    occurrences_bounds(s, a + 1, n, b);
    occurrences_bounds(s, a, a, b);
    sorted_byte_is(s, r, b, 0);
    slots_keep_keys(t, rows, a);
    assert(0 <= rows[a] < n && 0 <= rows[r] < n);
    keys_step(t, rows[a]);
    keys_step(t, rows[r]);
}

/// How many of the first `p` numbers are less than `k`.
spec fn less(a: Seq<int>, k: int, p: int) -> int
    decreases p,
{
    if p <= 0 {
        0
    } else {
        less(a, k, p - 1) + (if a[p - 1] < k {
            1int
        } else {
            0int
        })
    }
}

proof fn pairs_are_less(t: Seq<u8>, rows: Seq<int>, k: int, p: int)
    requires
        sorts_contexts(t, rows),
        0 <= p <= t.len(),
        0 <= k,
    ensures
        pairs_below(column(t, rows), k, p) == less(Seq::new(t.len(), |r: int| key2(t, next(t, rows[r]))), k, p),
    decreases p,
{
    let s = column(t, rows);
    if p == 0 {
        pairs_below_zero(s, k);
    } else {
        pairs_are_less(t, rows, k, p - 1);
        pairs_below_step(s, k, p - 1);
        pair_is_key(t, rows, p - 1);
    }
}

proof fn less_by_items(a: Seq<int>, k: int)
    ensures
        less(a, k, a.len() as int) == a.to_multiset().filter(|x: int| x < k).len(),
    decreases a.len(),
{
    broadcast use vstd::multiset::group_multiset_axioms;

    let f = |x: int| x < k;
    if a.len() == 0 {
        assert(a =~= Seq::<int>::empty());
        a.to_multiset_ensures();
        assert(a.to_multiset().filter(f) =~= Multiset::<int>::empty());
    } else {
        let b = a.drop_last();
        let v = a.last();
        less_by_items(b, k);
        less_same(a, b, k, b.len() as int);
        assert(a =~= b.push(v));
        to_multiset_build(b, v);
        let m = b.to_multiset();
        if v < k {
            assert(m.insert(v).filter(f) =~= m.filter(f).insert(v));
        } else {
            assert(m.insert(v).filter(f) =~= m.filter(f));
        }
    }
}

proof fn less_same(a: Seq<int>, b: Seq<int>, k: int, p: int)
    requires
        0 <= p <= a.len(),
        p <= b.len(),
        forall|i: int| 0 <= i < p ==> a[i] == b[i],
    ensures
        less(a, k, p) == less(b, k, p),
    decreases p,
{
    if p > 0 {
        less_same(a, b, k, p - 1);
    }
}

proof fn less_cuts(a: Seq<int>, k: int, p: int)
    requires
        0 <= p <= a.len(),
        forall|i: int, j: int| 0 <= i < j < a.len() ==> a[i] <= a[j],
    ensures
        0 <= less(a, k, p) <= p,
        forall|x: int| 0 <= x < p ==> (x < less(a, k, p) <==> #[trigger] a[x] < k),
    decreases p,
{
    if p > 0 {
        less_cuts(a, k, p - 1);
        if p > 1 {
            assert(a[p - 2] <= a[p - 1]);
        }
        assert forall|x: int| 0 <= x < p implies (x < less(a, k, p) <==> #[trigger] a[x] < k) by {
            if x < p - 1 {
                assert(a[x] <= a[p - 1]);
            }
        }
    }
}

/// The group of a row is that of the rows with the same two bytes before them.
proof fn group_is_that_of_two(t: Seq<u8>, rows: Seq<int>, q: int)
    requires
        sorts_contexts(t, rows),
        0 <= q < t.len(),
    ensures
        forall|x: int|
            0 <= x <= q ==> (group_from(column(t, rows), q, 0) <= x <==> key2(t, #[trigger] rows[x]) == key2(t, rows[q])),
{
    let s = column(t, rows);
    let n = t.len() as int;
    let z = Seq::new(t.len(), |p: int| key2(t, p));
    let a = Seq::new(t.len(), |r: int| key2(t, next(t, rows[r])));
    next_is_a_permutation(t, rows);
    let nexts = Seq::new(rows.len(), |k: int| next(t, rows[k]));
    let x2 = picked(z, rows);
    picking_keeps_items(z, rows);
    picking_keeps_items(z, nexts);
    assert(a =~= picked(z, nexts)) by {
        assert forall|r: int| 0 <= r < n implies a[r] == picked(z, nexts)[r] by {
            assert(0 <= nexts[r] < n);
        }
    }
    let k = key2(t, rows[q]);
    assert(0 <= rows[q] < n);
    keys_step(t, rows[q]);
    assert forall|i: int, j: int| 0 <= i < j < x2.len() implies x2[i] <= x2[j] by {
        assert(0 <= rows[i] < n && 0 <= rows[j] < n);
        keys_nest(t, rows[i], rows[j]);
    }
    less_by_items(a, k);
    less_by_items(x2, k);
    less_by_items(a, k + 1);
    less_by_items(x2, k + 1);
    pairs_are_less(t, rows, k, n);
    pairs_are_less(t, rows, k + 1, n);
    less_cuts(x2, k, n);
    less_cuts(x2, k + 1, n);
    assert(x2[q] == k);
    group_is(s, q, k, 0);
    assert forall|x: int| 0 <= x <= q implies (group_from(s, q, 0) <= x <==> key2(t, #[trigger] rows[x]) == key2(t, rows[q])) by {
        assert(0 <= rows[x] < n);
        assert(x2[x] == key2(t, rows[x]));
        if x < q {
            assert(x2[x] <= x2[q]);
        }
    }
}

proof fn first_in_group_is(t: Seq<u8>, rows: Seq<int>, q: int)
    requires
        sorts_contexts(t, rows),
        0 <= q < t.len(),
    ensures
        first_in_group(column(t, rows), q) <==> forall|x: int| 0 <= x < q ==> !#[trigger] same2(t, rows, x, q),
{
    let s = column(t, rows);
    group_is_that_of_two(t, rows, q);
    let g = group_from(s, q, 0);
    if first_in_group(s, q) {
        assert forall|x: int| 0 <= x < q implies !#[trigger] same2(t, rows, x, q) by {
            if same2(t, rows, x, q) {
                assert(key2(t, rows[x]) == key2(t, rows[q]));
                assert(g <= x);
                assert(s[x] != s[q]);
            }
        }
    }
    if forall|x: int| 0 <= x < q ==> !#[trigger] same2(t, rows, x, q) {
        group_is_not_negative(s, q);
        assert forall|p: int| g <= p < q implies #[trigger] s[p] != s[q] by {
            assert(key2(t, rows[p]) == key2(t, rows[q]));
            assert(!same2(t, rows, p, q));
        }
    }
}

proof fn group_is_not_negative(s: Seq<u8>, q: int)
    ensures
        0 <= group_from(s, q, 0),
{
    group_from_is_not_negative(s, q, 0);
}

proof fn group_from_is_not_negative(s: Seq<u8>, q: int, k: int)
    requires
        0 <= k,
    ensures
        0 <= group_from(s, q, k),
    decreases 65535 - k,
{
    pairs_below_mono(s, 0, k, s.len() as int);
    if !(k >= 65535 || q < pairs_below(s, k + 1, s.len() as int)) {
        group_from_is_not_negative(s, q, k + 1);
    }
}

proof fn boundaries_are(s: Seq<u8>, m: int)
    requires
        0 <= m <= s.len(),
    ensures
        boundaries(s, m).len() == s.len(),
        forall|x: int|
            0 <= x < s.len() ==> (#[trigger] boundaries(s, m)[x] <==> exists|q: int|
                0 <= q < m && first_in_group(s, q) && #[trigger] slot(s, q) == x),
    decreases m,
{
    if m > 0 {
        boundaries_are(s, m - 1);
        slot_in_range(s, m - 1);
        assert forall|x: int| 0 <= x < s.len() implies (#[trigger] boundaries(s, m)[x] <==> exists|q: int|
            0 <= q < m && first_in_group(s, q) && #[trigger] slot(s, q) == x) by {
            if boundaries(s, m)[x] {
                if boundaries(s, m - 1)[x] {
                    let q = choose|q: int| 0 <= q < m - 1 && first_in_group(s, q) && #[trigger] slot(s, q) == x;
                    assert(0 <= q < m && first_in_group(s, q) && slot(s, q) == x);
                } else {
                    assert(first_in_group(s, m - 1) && slot(s, m - 1) == x);
                }
            }
            if exists|q: int| 0 <= q < m && first_in_group(s, q) && #[trigger] slot(s, q) == x {
                let q = choose|q: int| 0 <= q < m && first_in_group(s, q) && #[trigger] slot(s, q) == x;
                if q < m - 1 {
                    assert(boundaries(s, m - 1)[x]);
                }
            }
        }
    }
}

/// A row is marked if it is the first with its three bytes.
proof fn marks_are_starts(t: Seq<u8>, rows: Seq<int>, x: int)
    requires
        sorts_contexts(t, rows),
        0 <= x < t.len(),
    ensures
        boundaries(column(t, rows), t.len() as int)[x] <==> forall|k: int|
            0 <= k < x ==> key3(t, #[trigger] rows[k]) != key3(t, rows[x]),
{
    let s = column(t, rows);
    let n = t.len() as int;
    boundaries_are(s, n);
    if boundaries(s, n)[x] {
        let q = choose|q: int| 0 <= q < n && first_in_group(s, q) && #[trigger] slot(s, q) == x;
        first_in_group_is(t, rows, q);
        slots_keep_keys(t, rows, q);
        assert forall|k: int| 0 <= k < x implies key3(t, #[trigger] rows[k]) != key3(t, rows[x]) by {
            first2_goes_to_start(t, rows, q, k);
        }
    }
    if forall|k: int| 0 <= k < x ==> key3(t, #[trigger] rows[k]) != key3(t, rows[x]) {
        let a = some_byte_has_place(s, x);
        slots_keep_keys(t, rows, a);
        assert(0 <= rows[a] < n);
        keys_step(t, rows[a]);
        assert forall|p: int| 0 <= p < a implies !#[trigger] same2(t, rows, p, a) by {
            if same2(t, rows, p, a) {
                later_goes_later(s, p, a);
                slots_keep_keys(t, rows, p);
                assert(0 <= rows[p] < n);
                keys_step(t, rows[p]);
                assert(key3(t, rows[slot(s, p)]) == key3(t, rows[x]));
            }
        }
        first_in_group_is(t, rows, a);
        assert(0 <= a < n && first_in_group(s, a) && slot(s, a) == x);
    }
}

// === the table ================================================================

/// The first row from `x` on with the byte of row `r` and the same three before it.
spec fn lead_from(t: Seq<u8>, rows: Seq<int>, x: int, r: int) -> int
    decreases r - x,
{
    if x >= r || same3(t, rows, x, r) {
        x
    } else {
        lead_from(t, rows, x + 1, r)
    }
}

spec fn lead(t: Seq<u8>, rows: Seq<int>, r: int) -> int {
    lead_from(t, rows, 0, r)
}

proof fn lead_from_is(t: Seq<u8>, rows: Seq<int>, x: int, r: int)
    requires
        0 <= x <= r,
    ensures
        x <= lead_from(t, rows, x, r) <= r,
        same3(t, rows, lead_from(t, rows, x, r), r),
        forall|y: int| x <= y < lead_from(t, rows, x, r) ==> !#[trigger] same3(t, rows, y, r),
    decreases r - x,
{
    if x < r && !same3(t, rows, x, r) {
        lead_from_is(t, rows, x + 1, r);
    }
}

proof fn lead_is(t: Seq<u8>, rows: Seq<int>, r: int)
    requires
        0 <= r,
    ensures
        0 <= lead(t, rows, r) <= r,
        same3(t, rows, lead(t, rows, r), r),
        forall|y: int| 0 <= y < lead(t, rows, r) ==> !#[trigger] same3(t, rows, y, r),
{
    lead_from_is(t, rows, 0, r);
}

/// Rows that are alike have the same lead.
proof fn lead_is_shared(t: Seq<u8>, rows: Seq<int>, a: int, b: int)
    requires
        0 <= a,
        0 <= b,
        same3(t, rows, a, b),
    ensures
        lead(t, rows, a) == lead(t, rows, b),
{
    lead_is(t, rows, a);
    lead_is(t, rows, b);
    let x = lead(t, rows, a);
    let y = lead(t, rows, b);
    if x < y {
        assert(!same3(t, rows, x, b));
    } else if y < x {
        assert(!same3(t, rows, y, a));
    }
}

/// What row `r` holds when the place that its lead goes to has been used `v` times.
spec fn entry_at(t: Seq<u8>, rows: Seq<int>, r: int, v: int) -> u32 {
    let b = t[rows[r]] as u32;
    if lead(t, rows, r) == r {
        (slot(column(t, rows), r) + v) as u32 | (b << 24u32)
    } else {
        (lead(t, rows, r) as u32 | ST4_INDIRECT) | (b << 24u32)
    }
}

proof fn table_is_built(t: Seq<u8>, rows: Seq<int>, i: int)
    requires
        sorts_contexts(t, rows),
        0 <= i <= t.len() <= 0x7f_ffff,
    ensures
        ({
            let s = column(t, rows);
            let st = st4_to(s, boundaries(s, t.len() as int), i);
            &&& st.entries.len() == i
            &&& forall|r: int| 0 <= r < i ==> #[trigger] st.entries[r] == entry_at(t, rows, r, 0)
            &&& i > 0 ==> 0 <= st.start <= i - 1
            &&& i > 0 ==> forall|x: int|
                0 <= x < i ==> (st.start <= x <==> key3(t, #[trigger] rows[x]) == key3(t, rows[i - 1]))
            &&& st.last.len() == 256
            &&& forall|b: int|
                0 <= b < 256 && #[trigger] st.last[b] > 0 ==> {
                    let d = st.last[b] - 1;
                    &&& d < i
                    &&& t[rows[d]] == b
                    &&& lead(t, rows, d) == d
                }
            &&& forall|x: int| 0 <= x < i ==> st.last[t[rows[x]] as int] > #[trigger] lead(t, rows, x)
        }),
    decreases i,
{
    let s = column(t, rows);
    let n = t.len() as int;
    let marks = boundaries(s, n);
    if i > 0 {
        table_is_built(t, rows, i - 1);
        let r = i - 1;
        let t0 = st4_to(s, marks, r);
        let st = st4_to(s, marks, i);
        let b = s[r] as int;
        assert(0 <= rows[r] < n);
        marks_are_starts(t, rows, r);
        if r == 0 {
            assert(marks[0]);
        }
        assert forall|x: int| 0 <= x < i implies (st.start <= x <==> key3(t, #[trigger] rows[x]) == key3(t, rows[r])) by {
            assert(0 <= rows[x] < n);
            if x < r {
                keys_nest(t, rows[x], rows[r]);
                if !marks[r] {
                    let k = choose|k: int| 0 <= k < r && key3(t, #[trigger] rows[k]) == key3(t, rows[r]);
                    assert(0 <= rows[r - 1] < n && 0 <= rows[k] < n);
                    if k < r - 1 {
                        keys_nest(t, rows[k], rows[r - 1]);
                    }
                    keys_nest(t, rows[r - 1], rows[r]);
                }
            }
        }
        lead_is(t, rows, r);
        let l = t0.last[b] as int;
        if st.start < l {
            let d = l - 1;
            assert(key3(t, rows[d]) == key3(t, rows[r]));
            assert(same3(t, rows, d, r));
            lead_is_shared(t, rows, d, r);
        } else {
            if lead(t, rows, r) < r {
                let e = lead(t, rows, r);
                assert(same3(t, rows, e, r));
                lead_is_shared(t, rows, e, r);
                assert(t0.last[t[rows[e]] as int] > lead(t, rows, e));
                assert(st.start <= e);
            }
            slot_in_range(s, r);
        }
        assert forall|x: int| 0 <= x < i implies st.last[t[rows[x]] as int] > #[trigger] lead(t, rows, x) by {
            lead_is(t, rows, x);
        }
    }
}

// === the way ==================================================================

/// How many of the first `m` places have the key `g`.
spec fn visits(t: Seq<u8>, g: int, m: int) -> int
    decreases m,
{
    if m <= 0 {
        0
    } else {
        visits(t, g, m - 1) + (if key4(t, m - 1) == g {
            1int
        } else {
            0int
        })
    }
}

proof fn some_row_holds(rows: Seq<int>, p: int) -> (x: int)
    requires
        is_permutation(rows),
        0 <= p < rows.len(),
    ensures
        0 <= x < rows.len(),
        rows[x] == p,
{
    let n = rows.len() as int;
    let all = set_int_range(0, n);
    let f = |i: int| rows[i];
    lemma_int_range(0, n);
    assert(injective_on(f, all)) by {
        assert forall|x1: int, x2: int|
            all.contains(x1) && all.contains(x2) && #[trigger] f(x1) == #[trigger] f(x2) implies x1 == x2 by {
            if x1 < x2 {
                assert(rows[x1] != rows[x2]);
            } else if x2 < x1 {
                assert(rows[x2] != rows[x1]);
            }
        }
    }
    let image = all.map(f);
    lemma_map_size(all, image, f);
    assert(image.subset_of(all)) by {
        assert forall|y: int| image.contains(y) implies all.contains(y) by {
            let x = choose|x: int| all.contains(x) && f(x) == y;
            assert(0 <= rows[x] < rows.len());
        }
    }
    lemma_subset_equality(image, all);
    assert(all.contains(p));
    assert(image.contains(p));
    choose|x: int| all.contains(x) && f(x) == p
}

/// The places that have been visited stand at the front of the rows with their key.
proof fn visited_stand_in_front(t: Seq<u8>, rows: Seq<int>, start: int, g: int, m: int)
    requires
        sorts_contexts(t, rows),
        0 <= m <= t.len(),
        0 <= start < t.len(),
        key4(t, rows[start]) == g,
        forall|k: int| 0 <= k < start ==> key4(t, #[trigger] rows[k]) != g,
    ensures
        0 <= visits(t, g, m),
        forall|x: int|
            0 <= x < t.len() ==> ((#[trigger] rows[x] < m && key4(t, rows[x]) == g) <==> start <= x < start + visits(
                t,
                g,
                m,
            )),
    decreases m,
{
    let n = t.len() as int;
    if m == 0 {
        assert forall|x: int| 0 <= x < n implies !(#[trigger] rows[x] < 0) by {}
    } else {
        visited_stand_in_front(t, rows, start, g, m - 1);
        let v = visits(t, g, m - 1);
        let y = some_row_holds(rows, m - 1);
        if key4(t, m - 1) == g {
            visited_row(t, rows, start, g, m - 1, y);
        }
        assert forall|x: int| 0 <= x < n implies ((#[trigger] rows[x] < m && key4(t, rows[x]) == g) <==> start <= x < start
            + visits(t, g, m)) by {
            if x != y {
                if x < y {
                    assert(rows[x] != rows[y]);
                } else {
                    assert(rows[y] != rows[x]);
                }
            }
        }
    }
}

/// The place that is visited next stands right behind them.
proof fn visited_row(t: Seq<u8>, rows: Seq<int>, start: int, g: int, m: int, y: int)
    requires
        sorts_contexts(t, rows),
        0 <= m < t.len(),
        0 <= start < t.len(),
        key4(t, rows[start]) == g,
        forall|k: int| 0 <= k < start ==> key4(t, #[trigger] rows[k]) != g,
        0 <= visits(t, g, m),
        forall|x: int|
            0 <= x < t.len() ==> ((#[trigger] rows[x] < m && key4(t, rows[x]) == g) <==> start <= x < start + visits(
                t,
                g,
                m,
            )),
        0 <= y < t.len(),
        rows[y] == m,
        key4(t, m) == g,
    ensures
        y == start + visits(t, g, m),
{
    let x = start + visits(t, g, m);
    assert(y >= start);
    assert(!(rows[y] < m));
    assert(y >= x);
    if y > x {
        assert(0 <= rows[x] < t.len());
        if start < x {
            assert(key4(t, rows[start]) <= key4(t, rows[x]));
        }
        assert(key4(t, rows[x]) <= key4(t, rows[y]));
        assert(rows[x] < m && key4(t, rows[x]) == g);
    }
}

proof fn entry_bits(v: u32, b: u32)
    by (bit_vector)
    requires
        v <= 0x7f_ffff,
        b < 0x100,
    ensures
        (v | (b << 24u32)) & 0x7f_ffff == v,
        (v | (b << 24u32)) & 0x80_0000 == 0,
        (v | (b << 24u32)) >> 24u32 == b,
        ((v | 0x80_0000) | (b << 24u32)) & 0x7f_ffff == v,
        ((v | 0x80_0000) | (b << 24u32)) & 0x80_0000 != 0,
        ((v | 0x80_0000) | (b << 24u32)) >> 24u32 == b,
        v < 0x7f_ffff ==> (v | (b << 24u32)) + 1 == ((v + 1) as u32) | (b << 24u32),
        v < 0x7f_ffff ==> (v | (b << 24u32)) < 0xffff_ffff,
{
}

/// The table when the first `m` places have been visited.
spec fn table_holds(t: Seq<u8>, rows: Seq<int>, e: Seq<u32>, m: int) -> bool {
    &&& e.len() == t.len()
    &&& forall|r: int|
        0 <= r < t.len() ==> #[trigger] e[r] == entry_at(t, rows, r, visits(t, key4(t, next(t, rows[r])), m))
}

/// The place that the way leads to next.
proof fn way_leads_on(t: Seq<u8>, rows: Seq<int>, e: Seq<u32>, m: int, index: int)
    requires
        sorts_contexts(t, rows),
        0 <= m < t.len() <= 0x7f_ffff,
        0 <= index < t.len(),
        next(t, rows[index]) == m,
        table_holds(t, rows, e, m),
    ensures
        ({
            let d = lead(t, rows, index);
            let to = slot(column(t, rows), d) + visits(t, key4(t, m), m);
            &&& 0 <= d < t.len()
            &&& 0 <= to < t.len()
            &&& rows[to] == m
            &&& e[d] == to as u32 | ((t[rows[d]] as u32) << 24u32)
            &&& d != index ==> e[index] == (d as u32 | ST4_INDIRECT) | ((t[rows[index]] as u32) << 24u32)
            &&& lead(t, rows, d) == d
            &&& key4(t, next(t, rows[d])) == key4(t, m)
        }),
{
    let s = column(t, rows);
    let n = t.len() as int;
    let g = key4(t, m);
    lead_is(t, rows, index);
    let d = lead(t, rows, index);
    lead_is_shared(t, rows, d, index);
    assert(0 <= rows[index] < n && 0 <= rows[d] < n);
    keys_step(t, rows[index]);
    keys_step(t, rows[d]);
    slots_keep_keys(t, rows, d);
    let start = slot(s, d);
    assert forall|x: int| 0 <= x < d implies !#[trigger] same3(t, rows, x, d) by {
        assert(!same3(t, rows, x, index));
    }
    assert forall|k: int| 0 <= k < start implies key4(t, #[trigger] rows[k]) != g by {
        first3_goes_to_start(t, rows, d, k);
    }
    visited_stand_in_front(t, rows, start, g, m);
    let y = some_row_holds(rows, m);
    visited_row(t, rows, start, g, m, y);
    assert(e[d] == entry_at(t, rows, d, visits(t, g, m)));
    assert(e[index] == entry_at(t, rows, index, visits(t, key4(t, next(t, rows[index])), m)));
}

/// The table after one more step.
proof fn table_goes_on(t: Seq<u8>, rows: Seq<int>, e: Seq<u32>, m: int, d: int)
    requires
        sorts_contexts(t, rows),
        0 <= m < t.len() <= 0x7f_ffff,
        table_holds(t, rows, e, m),
        0 <= d < t.len(),
        lead(t, rows, d) == d,
        key4(t, next(t, rows[d])) == key4(t, m),
        0 <= slot(column(t, rows), d) + visits(t, key4(t, m), m) < t.len(),
    ensures
        table_holds(t, rows, e.update(d, e[d].wrapping_add(1)), m + 1),
{
    let n = t.len() as int;
    let used = e.update(d, e[d].wrapping_add(1));
    let v = slot(column(t, rows), d) + visits(t, key4(t, m), m);
    assert(e[d] == entry_at(t, rows, d, visits(t, key4(t, m), m)));
    entry_bits(v as u32, t[rows[d]] as u32);
    assert forall|r: int| 0 <= r < n implies #[trigger] used[r] == entry_at(
        t,
        rows,
        r,
        visits(t, key4(t, next(t, rows[r])), m + 1),
    ) by {
        assert(e[r] == entry_at(t, rows, r, visits(t, key4(t, next(t, rows[r])), m)));
        if r != d && lead(t, rows, r) == r && key4(t, next(t, rows[r])) == key4(t, m) {
            assert(0 <= rows[r] < n && 0 <= rows[d] < n);
            keys_step(t, rows[r]);
            keys_step(t, rows[d]);
            lead_is_shared(t, rows, r, d);
        }
    }
}

proof fn way_spells(t: Seq<u8>, rows: Seq<int>, e: Seq<u32>, m: int, index: int)
    requires
        sorts_contexts(t, rows),
        0 <= m <= t.len() <= 0x7f_ffff,
        0 <= index < t.len(),
        m < t.len() ==> next(t, rows[index]) == m,
        table_holds(t, rows, e, m),
    ensures
        st4_walked(e, index, e[index], (t.len() - m) as nat) == Some(t.skip(m)),
    decreases t.len() - m,
{
    if m == t.len() {
        assert(t.skip(m) =~= Seq::<u8>::empty());
    } else {
        let n = t.len() as int;
        way_leads_on(t, rows, e, m, index);
        let d = lead(t, rows, index);
        let to = slot(column(t, rows), d) + visits(t, key4(t, m), m);
        entry_bits(to as u32, t[rows[d]] as u32);
        entry_bits(d as u32, t[rows[index]] as u32);
        table_goes_on(t, rows, e, m, d);
        let used = e.update(d, e[d].wrapping_add(1));
        way_spells(t, rows, used, m + 1, to);
        last_byte(t, rows, used, m + 1, to);
        assert(seq![t[m]] + t.skip(m + 1) =~= t.skip(m));
    }
}

/// The byte of a row stands in its entry.
proof fn last_byte(t: Seq<u8>, rows: Seq<int>, e: Seq<u32>, m: int, r: int)
    requires
        sorts_contexts(t, rows),
        0 <= m <= t.len() <= 0x7f_ffff,
        table_holds(t, rows, e, m),
        0 <= r < t.len(),
    ensures
        (e[r] >> 24u32) as u8 == t[rows[r]],
{
    let g = key4(t, next(t, rows[r]));
    let b = t[rows[r]] as u32;
    assert(e[r] == entry_at(t, rows, r, visits(t, g, m)));
    lead_is(t, rows, r);
    if lead(t, rows, r) == r {
        slots_keep_keys(t, rows, r);
        let start = slot(column(t, rows), r);
        assert forall|k: int| 0 <= k < start implies key4(t, #[trigger] rows[k]) != g by {
            first3_goes_to_start(t, rows, r, k);
        }
        visited_stand_in_front(t, rows, start, g, m);
        visits_fit(t, rows, start, g, m);
        entry_bits((start + visits(t, g, m)) as u32, b);
    } else {
        entry_bits(lead(t, rows, r) as u32, b);
    }
}

proof fn visits_fit(t: Seq<u8>, rows: Seq<int>, start: int, g: int, m: int)
    requires
        sorts_contexts(t, rows),
        0 <= m <= t.len(),
        0 <= start < t.len(),
        key4(t, rows[start]) == g,
        forall|k: int| 0 <= k < start ==> key4(t, #[trigger] rows[k]) != g,
    ensures
        start + visits(t, g, m) <= t.len(),
    decreases m,
{
    if m > 0 {
        visits_fit(t, rows, start, g, m - 1);
        if key4(t, m - 1) == g {
            visited_stand_in_front(t, rows, start, g, m - 1);
            let y = some_row_holds(rows, m - 1);
            visited_row(t, rows, start, g, m - 1, y);
        }
    }
}

/// The sort transform of order 4 is undone: the bytes in the order of the rows, with the row
/// of the last place, give the string back.
pub proof fn sort_of_order_4_is_undone(t: Seq<u8>, rows: Seq<int>, first: int)
    requires
        t.len() <= 0x7f_ffff,
        sorts_contexts(t, rows),
        0 <= first < t.len(),
        rows[first] == t.len() - 1,
    ensures
        unsorted_st4(column(t, rows), first) == Some(t),
{
    let s = column(t, rows);
    let n = t.len() as int;
    table_is_built(t, rows, n);
    let e = st4_to(s, boundaries(s, n), n).entries;
    assert forall|r: int| 0 <= r < n implies #[trigger] e[r] == entry_at(
        t,
        rows,
        r,
        visits(t, key4(t, next(t, rows[r])), 0),
    ) by {}
    way_spells(t, rows, e, 0, first);
    assert(t.skip(0) =~= t);
}

} // verus!
