use vstd::prelude::*;

verus! {

// === counting =================================================================

/// How often `b` occurs among the first `k` bytes.
pub open spec fn occurrences(s: Seq<u8>, k: int, b: int) -> int
    decreases k,
{
    if k <= 0 {
        0
    } else {
        occurrences(s, k - 1, b) + (if s[k - 1] as int == b {
            1int
        } else {
            0int
        })
    }
}

/// How many of the first `k` bytes are below `b`.
pub open spec fn below(s: Seq<u8>, k: int, b: int) -> int
    decreases b,
{
    if b <= 0 {
        0
    } else {
        below(s, k, b - 1) + occurrences(s, k, b - 1)
    }
}

/// The place of byte `i` when the bytes are sorted, equal ones keeping their order.
pub open spec fn slot(s: Seq<u8>, i: int) -> int {
    below(s, s.len() as int, s[i] as int) + occurrences(s, i, s[i] as int)
}

/// The more places are looked at, the more often a byte occurs.
pub proof fn occurrences_bounds(s: Seq<u8>, j: int, k: int, b: int)
    requires
        j <= k,
    ensures
        0 <= occurrences(s, j, b) <= occurrences(s, k, b),
        k >= 0 ==> occurrences(s, k, b) <= k,
    decreases k,
{
    if k > 0 {
        if j < k {
            occurrences_bounds(s, j, k - 1, b);
        } else {
            occurrences_bounds(s, j - 1, k - 1, b);
        }
    }
}

proof fn below_step(s: Seq<u8>, k: int, b: int)
    requires
        k >= 0,
        b >= 0,
    ensures
        below(s, k + 1, b) == below(s, k, b) + (if (s[k] as int) < b {
            1int
        } else {
            0int
        }),
    decreases b,
{
    if b > 0 {
        below_step(s, k, b - 1);
    }
}

proof fn below_zero(s: Seq<u8>, b: int)
    ensures
        below(s, 0, b) == 0,
    decreases b,
{
    if b > 0 {
        below_zero(s, b - 1);
    }
}

proof fn below_all(s: Seq<u8>, k: int)
    requires
        k >= 0,
    ensures
        below(s, k, 256) == k,
    decreases k,
{
    if k == 0 {
        below_zero(s, 256);
    } else {
        below_all(s, k - 1);
        below_step(s, k - 1, 256);
    }
}

/// The larger the byte, the more bytes lie below it.
pub proof fn below_mono(s: Seq<u8>, k: int, a: int, b: int)
    requires
        a <= b,
    ensures
        0 <= below(s, k, a) <= below(s, k, b),
    decreases b,
{
    if b > 0 {
        occurrences_bounds(s, k, k, b - 1);
        if a < b {
            below_mono(s, k, a, b - 1);
        } else {
            below_mono(s, k, a - 1, b - 1);
        }
    }
}

/// Every byte has a place of its own within the sequence.
pub proof fn slot_in_range(s: Seq<u8>, i: int)
    requires
        0 <= i < s.len(),
    ensures
        0 <= slot(s, i) < s.len(),
{
    let b = s[i] as int;
    let n = s.len() as int;
    below_all(s, n);
    below_mono(s, n, b + 1, 256);
    below_mono(s, n, 0, b);
    occurrences_bounds(s, i + 1, n, b);
    occurrences_bounds(s, i, i, b);
}

/// No two bytes share a place.
pub proof fn slots_differ(s: Seq<u8>, i: int, j: int)
    requires
        0 <= i < s.len(),
        0 <= j < s.len(),
        i != j,
    ensures
        slot(s, i) != slot(s, j),
{
    let n = s.len() as int;
    let a = s[i] as int;
    let b = s[j] as int;
    if a == b {
        if i < j {
            occurrences_bounds(s, i + 1, j, a);
        } else {
            occurrences_bounds(s, j + 1, i, a);
        }
    } else if a < b {
        below_mono(s, n, a + 1, b);
        occurrences_bounds(s, i + 1, n, a);
        occurrences_bounds(s, j, j, b);
    } else {
        below_mono(s, n, b + 1, a);
        occurrences_bounds(s, j + 1, n, b);
        occurrences_bounds(s, i, i, a);
    }
}

// === inverse Burrows-Wheeler transform ========================================

/// The table that holds `i` at the place of byte `i`, filled for the first `k` bytes.
pub open spec fn links_to(s: Seq<u8>, k: int) -> Seq<int>
    decreases k,
{
    if k <= 0 {
        Seq::new(s.len(), |i: int| 0int)
    } else {
        links_to(s, k - 1).update(slot(s, k - 1), k - 1)
    }
}

/// For each row of the sorted rotations, the row whose byte comes next.
pub open spec fn links(s: Seq<u8>) -> Seq<int> {
    links_to(s, s.len() as int)
}

proof fn links_to_facts(s: Seq<u8>, k: int)
    requires
        0 <= k <= s.len(),
    ensures
        links_to(s, k).len() == s.len(),
        forall|r: int| 0 <= r < s.len() ==> 0 <= #[trigger] links_to(s, k)[r] < s.len(),
        forall|i: int| 0 <= i < k ==> links_to(s, k)[#[trigger] slot(s, i)] == i,
    decreases k,
{
    if k > 0 {
        links_to_facts(s, k - 1);
        slot_in_range(s, k - 1);
        assert forall|i: int| 0 <= i < k implies links_to(s, k)[#[trigger] slot(s, i)] == i by {
            slot_in_range(s, i);
            if i < k - 1 {
                slots_differ(s, i, k - 1);
            }
        }
    }
}

/// The links stay within the table, and following the link of a byte's place
/// leads back to the byte.
pub proof fn links_invert_places(s: Seq<u8>)
    ensures
        links(s).len() == s.len(),
        forall|r: int| 0 <= r < s.len() ==> 0 <= #[trigger] links(s)[r] < s.len(),
        forall|i: int| 0 <= i < s.len() ==> links(s)[#[trigger] slot(s, i)] == i,
{
    links_to_facts(s, s.len() as int);
}

/// The bytes met on `n` steps along the links from `t`.
pub open spec fn walked(s: Seq<u8>, links: Seq<int>, t: int, n: nat) -> Seq<u8>
    decreases n,
{
    if n == 0 {
        seq![]
    } else {
        seq![s[links[t]]] + walked(s, links, links[t], (n - 1) as nat)
    }
}

/// The string whose sorted rotations end in `s`, its own rotation being row `first`.
pub open spec fn unsorted_bwt(s: Seq<u8>, first: int) -> Seq<u8> {
    walked(s, links(s), first, s.len())
}

/// A walk of `n` steps yields `n` bytes.
pub proof fn walked_len(s: Seq<u8>, links: Seq<int>, t: int, n: nat)
    ensures
        walked(s, links, t, n).len() == n,
    decreases n,
{
    if n > 0 {
        walked_len(s, links, links[t], (n - 1) as nat);
    }
}

/// The transform keeps the number of bytes.
pub proof fn unsorting_keeps_length(s: Seq<u8>, first: int)
    ensures
        unsorted_bwt(s, first).len() == s.len(),
{
    walked_len(s, links(s), first, s.len());
}

pub open spec fn as_ints(v: Seq<usize>) -> Seq<int> {
    Seq::new(v.len(), |i: int| v[i] as int)
}

/// The occurrences of each byte value.
fn count_bytes(src: &[u8]) -> (r: Vec<usize>)
    ensures
        r@.len() == 256,
        forall|b: int| 0 <= b < 256 ==> #[trigger] r@[b] == occurrences(src@, src@.len() as int, b),
{
    let mut counts: Vec<usize> = vec![0usize; 256];
    let mut i: usize = 0;
    while i < src.len()
        invariant
            i <= src@.len(),
            counts@.len() == 256,
            forall|b: int| 0 <= b < 256 ==> #[trigger] counts@[b] == occurrences(src@, i as int, b),
        decreases src@.len() - i,
    {
        let b: usize = src[i] as usize;
        proof {
            occurrences_bounds(src@, i as int, i as int, b as int);
        }
        counts[b] = counts[b] + 1;
        i = i + 1;
    }
    counts
}

/// For each byte value, how many bytes are below it.
fn sum_below(src: &[u8], counts: &Vec<usize>) -> (r: Vec<usize>)
    requires
        counts@.len() == 256,
        forall|b: int| 0 <= b < 256 ==> #[trigger] counts@[b] == occurrences(src@, src@.len() as int, b),
    ensures
        r@.len() == 256,
        forall|b: int| 0 <= b < 256 ==> #[trigger] r@[b] == below(src@, src@.len() as int, b),
{
    let n: usize = src.len();
    let mut starts: Vec<usize> = Vec::new();
    let mut total: usize = 0;
    let mut b: usize = 0;
    while b < 256
        invariant
            b <= 256,
            n == src@.len(),
            counts@.len() == 256,
            forall|b: int| 0 <= b < 256 ==> #[trigger] counts@[b] == occurrences(src@, src@.len() as int, b),
            starts@.len() == b,
            total == below(src@, src@.len() as int, b as int),
            forall|c: int| 0 <= c < b ==> #[trigger] starts@[c] == below(src@, src@.len() as int, c),
        decreases 256 - b,
    {
        proof {
            below_all(src@, n as int);
            below_mono(src@, n as int, b + 1, 256);
        }
        starts.push(total);
        total = total + counts[b];
        b = b + 1;
    }
    starts
}

/// For each row of the sorted rotations, the row whose byte comes next.
pub fn calculate_inverse_bwt(src: &[u8]) -> (r: Vec<usize>)
    ensures
        as_ints(r@) == links(src@),
        r@.len() == src@.len(),
        forall|i: int| 0 <= i < r@.len() ==> (#[trigger] r@[i]) < src@.len(),
{
    let counts = count_bytes(src);
    let mut next: Vec<usize> = sum_below(src, &counts);
    let mut transform: Vec<usize> = vec![0usize; src.len()];
    let mut i: usize = 0;
    assert(as_ints(transform@) =~= links_to(src@, 0));
    while i < src.len()
        invariant
            i <= src@.len(),
            next@.len() == 256,
            transform@.len() == src@.len(),
            forall|b: int|
                0 <= b < 256 ==> #[trigger] next@[b] == below(src@, src@.len() as int, b) + occurrences(
                    src@,
                    i as int,
                    b,
                ),
            as_ints(transform@) == links_to(src@, i as int),
            forall|k: int| 0 <= k < transform@.len() ==> (#[trigger] transform@[k]) < src@.len(),
        decreases src@.len() - i,
    {
        let b: usize = src[i] as usize;
        proof {
            slot_in_range(src@, i as int);
        }
        let at: usize = next[b];
        transform[at] = i;
        next[b] = at + 1;
        i = i + 1;
        assert(as_ints(transform@) =~= links_to(src@, i as int));
    }
    transform
}

/// Undo the Burrows-Wheeler transform; `firstindex` is the row of the string itself.
pub fn unsort_bwt(src: &[u8], firstindex: usize) -> (r: Vec<u8>)
    requires
        src@.len() > 0 ==> firstindex < src@.len(),
    ensures
        r@ == unsorted_bwt(src@, firstindex as int),
        r@.len() == src@.len(),
{
    let transform = calculate_inverse_bwt(src);
    let mut out: Vec<u8> = Vec::new();
    let mut t: usize = firstindex;
    let mut k: usize = 0;
    proof {
        unsorting_keeps_length(src@, firstindex as int);
        assert(out@ + walked(src@, links(src@), t as int, src@.len()) =~= unsorted_bwt(src@, firstindex as int));
    }
    while k < src.len()
        invariant
            k <= src@.len(),
            src@.len() > 0 ==> t < src@.len(),
            as_ints(transform@) == links(src@),
            transform@.len() == src@.len(),
            forall|i: int| 0 <= i < transform@.len() ==> (#[trigger] transform@[i]) < src@.len(),
            out@ + walked(src@, links(src@), t as int, (src@.len() - k) as nat) == unsorted_bwt(
                src@,
                firstindex as int,
            ),
        decreases src@.len() - k,
    {
        let ghost out0 = out@;
        let ghost t0 = t as int;
        proof {
            assert(links(src@)[t as int] == transform@[t as int]);
        }
        t = transform[t];
        out.push(src[t]);
        k = k + 1;
        assert(out@ + walked(src@, links(src@), t as int, (src@.len() - k) as nat) =~= out0 + walked(
            src@,
            links(src@),
            t0,
            (src@.len() - k + 1) as nat,
        ));
    }
    assert(out@ =~= unsorted_bwt(src@, firstindex as int));
    out
}

// === inverse sort transform of order 4 ========================================

/// Marks a link that goes through another entry.
pub const ST4_INDIRECT: u32 = 0x0080_0000;

/// The part of an entry that is a place.
pub const ST4_INDEX: u32 = 0x007f_ffff;

/// The byte at place `p` of the sorted bytes, known to be `b` at least.
pub open spec fn sorted_byte_from(s: Seq<u8>, p: int, b: int) -> int
    decreases 255 - b,
{
    if b >= 255 || p < below(s, s.len() as int, b + 1) {
        b
    } else {
        sorted_byte_from(s, p, b + 1)
    }
}

/// The pair of bytes at place `p`: the byte there, and the byte there once sorted.
pub open spec fn pair_at(s: Seq<u8>, p: int) -> int {
    s[p] as int * 256 + sorted_byte_from(s, p, 0)
}

/// How often pair `k` occurs among the first `p` places.
pub open spec fn pairs(s: Seq<u8>, k: int, p: int) -> int
    decreases p,
{
    if p <= 0 {
        0
    } else {
        pairs(s, k, p - 1) + (if pair_at(s, p - 1) == k {
            1int
        } else {
            0int
        })
    }
}

/// How many of the first `p` places hold a pair below `k`.
pub open spec fn pairs_below(s: Seq<u8>, k: int, p: int) -> int
    decreases k,
{
    if k <= 0 {
        0
    } else {
        pairs_below(s, k - 1, p) + pairs(s, k - 1, p)
    }
}

/// Where the group of equal pairs starts that place `q` belongs to once the pairs
/// are sorted; the pairs below `k` are known to end before it.
pub open spec fn group_from(s: Seq<u8>, q: int, k: int) -> int
    decreases 65535 - k,
{
    let n = s.len() as int;
    if k >= 65535 || q < pairs_below(s, k + 1, n) {
        pairs_below(s, k, n)
    } else {
        group_from(s, q, k + 1)
    }
}

/// No place before `q` in its group holds the same byte.
pub open spec fn first_in_group(s: Seq<u8>, q: int) -> bool {
    forall|p: int| group_from(s, q, 0) <= p < q ==> #[trigger] s[p] != s[q]
}

/// The boundaries of the contexts: the places of those bytes, among the first `q`,
/// that are first in their group.
pub open spec fn boundaries(s: Seq<u8>, q: int) -> Seq<bool>
    decreases q,
{
    if q <= 0 {
        Seq::new(s.len(), |i: int| false)
    } else if first_in_group(s, q - 1) {
        boundaries(s, q - 1).update(slot(s, q - 1), true)
    } else {
        boundaries(s, q - 1)
    }
}

/// The entries under construction: the start of the current context, for each byte
/// the place after its last direct entry, and the entries.
pub struct St4State {
    pub start: int,
    pub last: Seq<u32>,
    pub entries: Seq<u32>,
}

/// The entries of the first `i` places. Within a context only the first of equal
/// bytes has the place to go to; the others go through it.
pub open spec fn st4_to(s: Seq<u8>, marks: Seq<bool>, i: int) -> St4State
    decreases i,
{
    if i <= 0 {
        St4State { start: 0, last: Seq::new(256, |b: int| 0u32), entries: seq![] }
    } else {
        let t = st4_to(s, marks, i - 1);
        let b = s[i - 1];
        let start = if marks[i - 1] {
            i - 1
        } else {
            t.start
        };
        if start < t.last[b as int] {
            St4State {
                start,
                last: t.last,
                entries: t.entries.push(((t.last[b as int] - 1) as u32 | ST4_INDIRECT) | ((b as u32) << 24u32)),
            }
        } else {
            St4State {
                start,
                last: t.last.update(b as int, i as u32),
                entries: t.entries.push((slot(s, i - 1) as u32) | ((b as u32) << 24u32)),
            }
        }
    }
}

/// `n` bytes met on the way from `index`, whose entry is `entry`, each step using up
/// one use of the place gone to; `None` if the way leaves the table.
pub open spec fn st4_walked(entries: Seq<u32>, index: int, entry: u32, n: nat) -> Option<Seq<u8>>
    decreases n,
{
    if n == 0 {
        Some(seq![])
    } else {
        let via = (entry & ST4_INDEX) as int;
        let indirect = entry & ST4_INDIRECT != 0;
        let from = if indirect {
            via
        } else {
            index
        };
        let to = if indirect {
            (entries[via] & ST4_INDEX) as int
        } else {
            via
        };
        if (indirect && via >= entries.len()) || to >= entries.len() {
            None
        } else {
            let used = entries.update(from, entries[from].wrapping_add(1));
            match st4_walked(used, to, used[to], (n - 1) as nat) {
                None => None,
                Some(rest) => Some(seq![(used[to] >> 24u32) as u8] + rest),
            }
        }
    }
}

/// The string behind the sorted `s`, its own row being `first`.
pub open spec fn unsorted_st4(s: Seq<u8>, first: int) -> Option<Seq<u8>> {
    if s.len() == 0 {
        Some(seq![])
    } else {
        let t = st4_to(s, boundaries(s, s.len() as int), s.len() as int);
        st4_walked(t.entries, first, t.entries[first], s.len())
    }
}

pub(crate) proof fn sorted_byte_is(s: Seq<u8>, p: int, b: int, c: int)
    requires
        0 <= c <= b < 256,
        below(s, s.len() as int, b) <= p < below(s, s.len() as int, b + 1),
    ensures
        sorted_byte_from(s, p, c) == b,
    decreases b - c,
{
    if c < b {
        below_mono(s, s.len() as int, c + 1, b);
        sorted_byte_is(s, p, b, c + 1);
    }
}

proof fn sorted_byte_range(s: Seq<u8>, p: int, b: int)
    requires
        0 <= b < 256,
    ensures
        b <= sorted_byte_from(s, p, b) < 256,
    decreases 255 - b,
{
    if !(b >= 255 || p < below(s, s.len() as int, b + 1)) {
        sorted_byte_range(s, p, b + 1);
    }
}

proof fn pairs_nonneg(s: Seq<u8>, k: int, p: int)
    ensures
        0 <= pairs(s, k, p),
        p >= 0 ==> pairs(s, k, p) <= p,
    decreases p,
{
    if p > 0 {
        pairs_nonneg(s, k, p - 1);
    }
}

pub(crate) proof fn pairs_below_step(s: Seq<u8>, k: int, p: int)
    requires
        p >= 0,
        k >= 0,
    ensures
        pairs_below(s, k, p + 1) == pairs_below(s, k, p) + (if 0 <= pair_at(s, p) < k {
            1int
        } else {
            0int
        }),
    decreases k,
{
    sorted_byte_range(s, p, 0);
    if k > 0 {
        pairs_below_step(s, k - 1, p);
    }
}

pub(crate) proof fn pairs_below_zero(s: Seq<u8>, k: int)
    ensures
        pairs_below(s, k, 0) == 0,
    decreases k,
{
    if k > 0 {
        pairs_below_zero(s, k - 1);
    }
}

proof fn pairs_below_all(s: Seq<u8>, p: int)
    requires
        p >= 0,
    ensures
        pairs_below(s, 65536, p) == p,
    decreases p,
{
    if p == 0 {
        pairs_below_zero(s, 65536);
    } else {
        pairs_below_all(s, p - 1);
        pairs_below_step(s, 65536, p - 1);
        sorted_byte_range(s, p - 1, 0);
    }
}

pub(crate) proof fn pairs_below_mono(s: Seq<u8>, a: int, b: int, p: int)
    requires
        a <= b,
    ensures
        0 <= pairs_below(s, a, p) <= pairs_below(s, b, p),
    decreases b,
{
    if b > 0 {
        pairs_nonneg(s, b - 1, p);
        if a < b {
            pairs_below_mono(s, a, b - 1, p);
        } else {
            pairs_below_mono(s, a - 1, b - 1, p);
        }
    }
}

pub(crate) proof fn group_is(s: Seq<u8>, q: int, k: int, c: int)
    requires
        0 <= c <= k < 65536,
        pairs_below(s, k, s.len() as int) <= q < pairs_below(s, k + 1, s.len() as int),
    ensures
        group_from(s, q, c) == pairs_below(s, k, s.len() as int),
    decreases k - c,
{
    if c < k {
        pairs_below_mono(s, c + 1, k, s.len() as int);
        group_is(s, q, k, c + 1);
    }
}

/// Count the pairs.
fn count_pairs(src: &[u8], starts: &Vec<usize>) -> (r: Vec<usize>)
    requires
        starts@.len() == 256,
        forall|b: int| 0 <= b < 256 ==> #[trigger] starts@[b] == below(src@, src@.len() as int, b),
    ensures
        r@.len() == 65536,
        forall|k: int| 0 <= k < 65536 ==> #[trigger] r@[k] == pairs(src@, k, src@.len() as int),
{
    let n: usize = src.len();
    let mut counts: Vec<usize> = vec![0usize; 65536];
    let mut b: usize = 0;
    let mut p: usize = 0;
    while b < 256
        invariant
            b <= 256,
            n == src@.len(),
            starts@.len() == 256,
            forall|b: int| 0 <= b < 256 ==> #[trigger] starts@[b] == below(src@, src@.len() as int, b),
            p == below(src@, n as int, b as int),
            counts@.len() == 65536,
            forall|k: int| 0 <= k < 65536 ==> #[trigger] counts@[k] == pairs(src@, k, p as int),
        decreases 256 - b,
    {
        proof {
            below_all(src@, n as int);
            below_mono(src@, n as int, b as int, b + 1);
            below_mono(src@, n as int, b + 1, 256);
        }
        let end: usize = if b < 255 {
            starts[b + 1]
        } else {
            n
        };
        assert(end == below(src@, n as int, b + 1));
        while p < end
            invariant
                b < 256,
                n == src@.len(),
                end == below(src@, n as int, b + 1),
                end <= n,
                below(src@, n as int, b as int) <= p <= end,
                counts@.len() == 65536,
                forall|k: int| 0 <= k < 65536 ==> #[trigger] counts@[k] == pairs(src@, k, p as int),
            decreases end - p,
        {
            let k: usize = src[p] as usize * 256 + b;
            proof {
                sorted_byte_is(src@, p as int, b as int, 0);
                assert(pair_at(src@, p as int) == k);
                pairs_nonneg(src@, k as int, p as int);
            }
            counts[k] = counts[k] + 1;
            p = p + 1;
        }
        b = b + 1;
    }
    proof {
        below_all(src@, n as int);
    }
    counts
}

/// Find the boundaries of the contexts.
fn find_boundaries(src: &[u8], starts: &Vec<usize>, counts: &Vec<usize>) -> (r: Vec<bool>)
    requires
        starts@.len() == 256,
        forall|b: int| 0 <= b < 256 ==> #[trigger] starts@[b] == below(src@, src@.len() as int, b),
        counts@.len() == 65536,
        forall|k: int| 0 <= k < 65536 ==> #[trigger] counts@[k] == pairs(src@, k, src@.len() as int),
    ensures
        r@ == boundaries(src@, src@.len() as int),
        r@.len() == src@.len(),
{
    let n: usize = src.len();
    let mut marks: Vec<bool> = vec![false; n];
    // For each byte, where it goes next and the place after its last occurrence.
    let mut next: Vec<usize> = Vec::new();
    let mut b: usize = 0;
    while b < 256
        invariant
            b <= 256,
            starts@.len() == 256,
            next@ == starts@.subrange(0, b as int),
        decreases 256 - b,
    {
        next.push(starts[b]);
        b = b + 1;
        assert(next@ =~= starts@.subrange(0, b as int));
    }
    assert(next@ =~= starts@);
    let mut seen: Vec<usize> = vec![0usize; 256];
    let mut k: usize = 0;
    let mut q: usize = 0;
    assert(marks@ =~= boundaries(src@, 0));
    while k < 65536
        invariant
            k <= 65536,
            n == src@.len(),
            counts@.len() == 65536,
            forall|k: int| 0 <= k < 65536 ==> #[trigger] counts@[k] == pairs(src@, k, src@.len() as int),
            q == pairs_below(src@, k as int, n as int),
            q <= n,
            marks@ == boundaries(src@, q as int),
            marks@.len() == n,
            next@.len() == 256,
            seen@.len() == 256,
            forall|b: int|
                0 <= b < 256 ==> #[trigger] next@[b] == below(src@, n as int, b) + occurrences(src@, q as int, b),
            forall|b: int| 0 <= b < 256 ==> (#[trigger] seen@[b]) <= q,
            forall|b: int, p: int| 0 <= b < 256 && seen@[b] <= p < q ==> #[trigger] src@[p] != #[trigger] (b as u8),
            forall|b: int| 0 <= b < 256 && (#[trigger] seen@[b]) > 0 ==> src@[seen@[b] - 1] == b,
        decreases 65536 - k,
    {
        proof {
            pairs_below_all(src@, n as int);
            pairs_below_mono(src@, k as int, k + 1, n as int);
            pairs_below_mono(src@, k + 1, 65536, n as int);
        }
        let start: usize = q;
        let end: usize = q + counts[k];
        while q < end
            invariant
                k < 65536,
                n == src@.len(),
                start == pairs_below(src@, k as int, n as int),
                end == pairs_below(src@, k + 1, n as int),
                end <= n,
                start <= q <= end,
                marks@ == boundaries(src@, q as int),
                marks@.len() == n,
                next@.len() == 256,
                seen@.len() == 256,
                forall|b: int|
                    0 <= b < 256 ==> #[trigger] next@[b] == below(src@, n as int, b) + occurrences(
                        src@,
                        q as int,
                        b,
                    ),
                forall|b: int| 0 <= b < 256 ==> (#[trigger] seen@[b]) <= q,
                forall|b: int, p: int|
                    0 <= b < 256 && seen@[b] <= p < q ==> #[trigger] src@[p] != #[trigger] (b as u8),
                forall|b: int| 0 <= b < 256 && (#[trigger] seen@[b]) > 0 ==> src@[seen@[b] - 1] == b,
            decreases end - q,
        {
            let byte: usize = src[q] as usize;
            proof {
                group_is(src@, q as int, k as int, 0);
                slot_in_range(src@, q as int);
                let v = byte as int;
                assert(v as u8 == src@[q as int]);
                if seen@[v] <= start {
                    assert forall|p: int| group_from(src@, q as int, 0) <= p < q implies #[trigger] src@[p]
                        != src@[q as int] by {
                        assert(src@[p] != (v as u8));
                    }
                    assert(first_in_group(src@, q as int));
                } else {
                    assert(src@[seen@[v] - 1] == src@[q as int]);
                    assert(!first_in_group(src@, q as int));
                }
            }
            let at: usize = next[byte];
            if seen[byte] <= start {
                marks[at] = true;
            }
            next[byte] = at + 1;
            seen[byte] = q + 1;
            q = q + 1;
            proof {
                assert(marks@ == boundaries(src@, q as int));
                assert forall|b: int, p: int| 0 <= b < 256 && seen@[b] <= p < q implies #[trigger] src@[p]
                    != #[trigger] (b as u8) by {
                    if b != byte && p == q - 1 {
                        assert(src@[p] == byte as u8);
                    }
                }
            }
        }
        k = k + 1;
    }
    proof {
        pairs_below_all(src@, n as int);
    }
    marks
}

/// Build the entries.
fn build_entries(src: &[u8], starts: &Vec<usize>, marks: &Vec<bool>) -> (r: Vec<u32>)
    requires
        src@.len() <= u32::MAX,
        starts@.len() == 256,
        forall|b: int| 0 <= b < 256 ==> #[trigger] starts@[b] == below(src@, src@.len() as int, b),
        marks@.len() == src@.len(),
    ensures
        r@ == st4_to(src@, marks@, src@.len() as int).entries,
        r@.len() == src@.len(),
{
    let mut next: Vec<usize> = Vec::new();
    let mut b: usize = 0;
    while b < 256
        invariant
            b <= 256,
            starts@.len() == 256,
            next@ == starts@.subrange(0, b as int),
        decreases 256 - b,
    {
        next.push(starts[b]);
        b = b + 1;
        assert(next@ =~= starts@.subrange(0, b as int));
    }
    assert(next@ =~= starts@);
    let mut last: Vec<u32> = vec![0u32; 256];
    let mut entries: Vec<u32> = Vec::new();
    let mut start: usize = 0;
    let mut i: usize = 0;
    assert(last@ =~= Seq::new(256, |b: int| 0u32));
    while i < src.len()
        invariant
            i <= src@.len(),
            src@.len() <= u32::MAX,
            marks@.len() == src@.len(),
            next@.len() == 256,
            last@.len() == 256,
            forall|b: int|
                0 <= b < 256 ==> #[trigger] next@[b] == below(src@, src@.len() as int, b) + occurrences(
                    src@,
                    i as int,
                    b,
                ),
            st4_to(src@, marks@, i as int) == (St4State { start: start as int, last: last@, entries: entries@ }),
            entries@.len() == i,
        decreases src@.len() - i,
    {
        if marks[i] {
            start = i;
        }
        let byte: usize = src[i] as usize;
        proof {
            slot_in_range(src@, i as int);
        }
        let at: usize = next[byte];
        let top: u32 = (src[i] as u32) << 24;
        if (start as u64) < last[byte] as u64 {
            entries.push(((last[byte] - 1) | ST4_INDIRECT) | top);
        } else {
            entries.push((at as u32) | top);
            last[byte] = (i + 1) as u32;
        }
        next[byte] = at + 1;
        i = i + 1;
    }
    entries
}

/// Undo the sort transform of order 4; `None` if the way leaves the table.
pub fn unsort_st4(src: &[u8], firstindex: usize) -> (r: Option<Vec<u8>>)
    requires
        src@.len() <= u32::MAX,
        src@.len() > 0 ==> firstindex < src@.len(),
    ensures
        match r {
            Some(v) => unsorted_st4(src@, firstindex as int) == Some(v@) && v@.len() == src@.len(),
            None => unsorted_st4(src@, firstindex as int) is None,
        },
{
    let n: usize = src.len();
    if n == 0 {
        return Some(Vec::new());
    }
    let bytes = count_bytes(src);
    let starts = sum_below(src, &bytes);
    let counts = count_pairs(src, &starts);
    let marks = find_boundaries(src, &starts, &counts);
    let mut entries = build_entries(src, &starts, &marks);
    let mut out: Vec<u8> = Vec::new();
    let mut index: usize = firstindex;
    let mut entry: u32 = entries[firstindex];
    let ghost goal = unsorted_st4(src@, firstindex as int);
    while out.len() < n
        invariant
            n == src@.len(),
            out@.len() <= n,
            entries@.len() == n,
            index < n,
            goal == unsorted_st4(src@, firstindex as int),
            match st4_walked(entries@, index as int, entry, (n - out@.len()) as nat) {
                Some(rest) => goal == Some(out@ + rest),
                None => goal is None,
            },
        decreases n - out@.len(),
    {
        let ghost before = out@;
        let via: usize = (entry & ST4_INDEX) as usize;
        if entry & ST4_INDIRECT != 0 {
            if via >= n {
                return None;
            }
            let to: usize = (entries[via] & ST4_INDEX) as usize;
            if to >= n {
                return None;
            }
            let used: u32 = entries[via].wrapping_add(1);
            entries[via] = used;
            index = to;
        } else {
            if via >= n {
                return None;
            }
            let used: u32 = entries[index].wrapping_add(1);
            entries[index] = used;
            index = via;
        }
        entry = entries[index];
        proof {
            top_byte_fits(entry);
        }
        let b: u8 = (entry >> 24) as u8;
        out.push(b);
        proof {
            match st4_walked(entries@, index as int, entry, (n - out@.len()) as nat) {
                Some(rest) => {
                    assert(before + (seq![b] + rest) =~= out@ + rest);
                },
                None => {},
            }
        }
    }
    assert(out@ + seq![] =~= out@);
    Some(out)
}

proof fn top_byte_fits(e: u32)
    by (bit_vector)
    ensures
        (e >> 24u32) < 0x100,
{
}

// === move to front ============================================================

/// The byte values in order.
pub open spec fn byte_values() -> Seq<u8> {
    Seq::new(256, |i: int| i as u8)
}

/// The table with its entry `k` moved to the front.
pub open spec fn moved_to_front(table: Seq<u8>, k: int) -> Seq<u8> {
    seq![table[k]] + table.subrange(0, k) + table.subrange(k + 1, table.len() as int)
}

/// The bytes that a sequence of table positions stands for.
pub open spec fn mtf_decoded(table: Seq<u8>, symbols: Seq<u8>) -> Seq<u8>
    decreases symbols.len(),
{
    if symbols.len() == 0 {
        seq![]
    } else {
        let k = symbols[0] as int;
        seq![table[k]] + mtf_decoded(moved_to_front(table, k), symbols.skip(1))
    }
}

/// The table positions at which the bytes of `data` are found.
pub open spec fn mtf_encoded(table: Seq<u8>, data: Seq<u8>) -> Seq<u8>
    decreases data.len(),
{
    if data.len() == 0 {
        seq![]
    } else {
        let k = table.index_of(data[0]);
        seq![k as u8] + mtf_encoded(moved_to_front(table, k), data.skip(1))
    }
}

/// The table holds every byte value once.
pub open spec fn is_byte_table(table: Seq<u8>) -> bool {
    &&& table.len() == 256
    &&& forall|b: u8| #[trigger] table.contains(b)
}

/// Moving a byte to the front loses none.
pub proof fn moving_keeps_byte_table(table: Seq<u8>, k: int)
    requires
        is_byte_table(table),
        0 <= k < 256,
    ensures
        is_byte_table(moved_to_front(table, k)),
{
    let t = moved_to_front(table, k);
    assert forall|b: u8| #[trigger] t.contains(b) by {
        assert(table.contains(b));
        let i = choose|i: int| 0 <= i < table.len() && table[i] == b;
        if i < k {
            assert(t[i + 1] == b);
        } else if i == k {
            assert(t[0] == b);
        } else {
            assert(t[i] == b);
        }
    }
}

/// All bytes in order are a table of them.
pub proof fn byte_values_are_a_table()
    ensures
        is_byte_table(byte_values()),
{
    assert forall|b: u8| #[trigger] byte_values().contains(b) by {
        assert(byte_values()[b as int] == b);
    }
}

/// Looking bytes up and decoding their positions gives the bytes back.
pub proof fn mtf_round_trip(table: Seq<u8>, data: Seq<u8>)
    requires
        is_byte_table(table),
    ensures
        mtf_decoded(table, mtf_encoded(table, data)) == data,
    decreases data.len(),
{
    if data.len() > 0 {
        let k = table.index_of(data[0]);
        assert(table.contains(data[0]));
        assert(0 <= k < table.len() && table[k] == data[0]);
        moving_keeps_byte_table(table, k);
        let rest = mtf_encoded(moved_to_front(table, k), data.skip(1));
        mtf_round_trip(moved_to_front(table, k), data.skip(1));
        let symbols = seq![k as u8] + rest;
        assert(symbols.skip(1) =~= rest);
        assert(symbols[0] as int == k);
        assert(seq![data[0]] + data.skip(1) =~= data);
    } else {
        assert(data =~= seq![]);
    }
}

/// A move-to-front decoder.
pub struct MtfState {
    table: Vec<u8>,
}

impl MtfState {
    pub closed spec fn view(&self) -> Seq<u8> {
        self.table@
    }

    /// A decoder whose table is the byte values in order.
    pub fn new() -> (r: Self)
        ensures
            r.view() == byte_values(),
            r.view().len() == 256,
    {
        let mut table: Vec<u8> = Vec::new();
        let mut n: u16 = 0;
        while n < 256
            invariant
                n <= 256,
                table@ == byte_values().subrange(0, n as int),
            decreases 256 - n,
        {
            table.push(n as u8);
            n = n + 1;
            assert(table@ =~= byte_values().subrange(0, n as int));
        }
        assert(table@ =~= byte_values());
        MtfState { table }
    }

    /// The byte at the front.
    pub fn front(&self) -> (r: u8)
        requires
            self.view().len() == 256,
        ensures
            r == self.view()[0],
    {
        self.table[0]
    }

    /// The byte at position `symbol`, which moves to the front.
    pub fn decode(&mut self, symbol: u8) -> (r: u8)
        requires
            old(self).view().len() == 256,
        ensures
            r == old(self).view()[symbol as int],
            final(self).view() == moved_to_front(old(self).view(), symbol as int),
            final(self).view().len() == 256,
    {
        let k: usize = symbol as usize;
        let res: u8 = self.table[k];
        let mut i: usize = k;
        while i > 0
            invariant
                i <= k < 256,
                self.table@.len() == 256,
                old(self).table@.len() == 256,
                forall|j: int| 0 <= j < i ==> #[trigger] self.table@[j] == old(self).table@[j],
                forall|j: int| i < j <= k ==> #[trigger] self.table@[j] == old(self).table@[j - 1],
                forall|j: int| k < j < 256 ==> #[trigger] self.table@[j] == old(self).table@[j],
            decreases i,
        {
            let above: u8 = self.table[i - 1];
            self.table[i] = above;
            i = i - 1;
        }
        self.table[0] = res;
        assert(self.table@ =~= moved_to_front(old(self).table@, k as int));
        res
    }

    /// The position at which `byte` stands.
    pub fn find(&self, byte: u8) -> (r: Option<usize>)
        ensures
            match r {
                Some(i) => i < self.view().len() && self.view()[i as int] == byte && (forall|j: int|
                    0 <= j < i ==> #[trigger] self.view()[j] != byte),
                None => !self.view().contains(byte),
            },
    {
        let mut i: usize = 0;
        while i < self.table.len()
            invariant
                i <= self.table@.len(),
                forall|j: int| 0 <= j < i ==> #[trigger] self.table@[j] != byte,
            decreases self.table@.len() - i,
        {
            if self.table[i] == byte {
                return Some(i);
            }
            i = i + 1;
        }
        None
    }
}

// === move to front, one step at a time ========================================

/// The table once position `k` has been used and the front was last used
/// `age` symbols ago: a byte moves to the second place first, and from there to
/// the front only if the front has not been used for `order` symbols.
pub open spec fn moved_forward(table: Seq<u8>, k: int, age: usize, order: usize) -> Seq<u8> {
    if k == 0 {
        table
    } else if k == 1 {
        if age >= order {
            table.update(0, table[1]).update(1, table[0])
        } else {
            table
        }
    } else {
        seq![table[0], table[k]] + table.subrange(1, k) + table.subrange(k + 1, table.len() as int)
    }
}

pub open spec fn next_age(k: int, age: usize) -> usize {
    (if k == 0 {
        0usize
    } else {
        age
    }).wrapping_add(1)
}

pub open spec fn m1ffn_from(table: Seq<u8>, symbols: Seq<u8>, age: usize, order: usize) -> Seq<u8>
    decreases symbols.len(),
{
    if symbols.len() == 0 {
        seq![]
    } else {
        let k = symbols[0] as int;
        seq![table[k]] + m1ffn_from(moved_forward(table, k, age, order), symbols.skip(1), next_age(k, age), order)
    }
}

/// The bytes that a sequence of positions stands for under the delayed rule.
pub open spec fn m1ffn_decoded(symbols: Seq<u8>, order: usize) -> Seq<u8> {
    m1ffn_from(byte_values(), symbols, order.wrapping_sub(1), order)
}

/// The positions at which the bytes of `data` are found under the delayed rule.
pub open spec fn m1ffn_encoded_from(table: Seq<u8>, data: Seq<u8>, age: usize, order: usize) -> Seq<u8>
    decreases data.len(),
{
    if data.len() == 0 {
        seq![]
    } else {
        let k = table.index_of(data[0]);
        seq![k as u8] + m1ffn_encoded_from(moved_forward(table, k, age, order), data.skip(1), next_age(k, age), order)
    }
}

proof fn moving_forward_keeps_byte_table(table: Seq<u8>, k: int, age: usize, order: usize)
    requires
        is_byte_table(table),
        0 <= k < 256,
    ensures
        is_byte_table(moved_forward(table, k, age, order)),
{
    let t = moved_forward(table, k, age, order);
    assert forall|b: u8| #[trigger] t.contains(b) by {
        assert(table.contains(b));
        let i = choose|i: int| 0 <= i < table.len() && table[i] == b;
        if k == 0 || (k == 1 && age < order) {
            assert(t[i] == b);
        } else if k == 1 {
            if i == 0 {
                assert(t[1] == b);
            } else if i == 1 {
                assert(t[0] == b);
            } else {
                assert(t[i] == b);
            }
        } else {
            if i == 0 {
                assert(t[0] == b);
            } else if i < k {
                assert(t[i + 1] == b);
            } else if i == k {
                assert(t[1] == b);
            } else {
                assert(t[i] == b);
            }
        }
    }
}

/// Looking bytes up under the delayed rule and decoding their positions gives
/// the bytes back, whatever the order.
pub proof fn m1ffn_round_trip(table: Seq<u8>, data: Seq<u8>, age: usize, order: usize)
    requires
        is_byte_table(table),
    ensures
        m1ffn_from(table, m1ffn_encoded_from(table, data, age, order), age, order) == data,
    decreases data.len(),
{
    if data.len() > 0 {
        let k = table.index_of(data[0]);
        assert(table.contains(data[0]));
        assert(0 <= k < table.len() && table[k] == data[0]);
        moving_forward_keeps_byte_table(table, k, age, order);
        let t = moved_forward(table, k, age, order);
        let rest = m1ffn_encoded_from(t, data.skip(1), next_age(k, age), order);
        m1ffn_round_trip(t, data.skip(1), next_age(k, age), order);
        let symbols = seq![k as u8] + rest;
        assert(symbols.skip(1) =~= rest);
        assert(symbols[0] as int == k);
        assert(seq![data[0]] + data.skip(1) =~= data);
    } else {
        assert(data =~= seq![]);
    }
}

/// Decode a block of positions in place under the delayed rule.
pub fn decode_m1ffn_block(block: &mut Vec<u8>, order: usize)
    ensures
        final(block)@ == m1ffn_decoded(old(block)@, order),
        final(block)@.len() == old(block)@.len(),
{
    let mut table: Vec<u8> = Vec::new();
    let mut n: u16 = 0;
    while n < 256
        invariant
            n <= 256,
            table@ == byte_values().subrange(0, n as int),
        decreases 256 - n,
    {
        table.push(n as u8);
        n = n + 1;
        assert(table@ =~= byte_values().subrange(0, n as int));
    }
    assert(table@ =~= byte_values());
    let mut lasthead: usize = order.wrapping_sub(1);
    let mut p: usize = 0;
    proof {
        assert(block@.skip(0) =~= block@);
        assert(block@.subrange(0, 0) + m1ffn_from(table@, block@.skip(0), lasthead, order) =~= m1ffn_decoded(
            old(block)@,
            order,
        ));
    }
    while p < block.len()
        invariant
            p <= block@.len(),
            block@.len() == old(block)@.len(),
            table@.len() == 256,
            block@.subrange(0, p as int) + m1ffn_from(table@, block@.skip(p as int), lasthead, order) == m1ffn_decoded(
                old(block)@,
                order,
            ),
        decreases block@.len() - p,
    {
        let ghost block0 = block@;
        let ghost table0 = table@;
        let ghost age0 = lasthead;
        let k: usize = block[p] as usize;
        block[p] = table[k];
        if k == 0 {
            lasthead = 0;
        } else if k == 1 {
            if lasthead >= order {
                let a: u8 = table[0];
                let b: u8 = table[1];
                table[0] = b;
                table[1] = a;
            }
        } else {
            let val: u8 = table[k];
            let mut i: usize = k;
            while i > 1
                invariant
                    1 <= i <= k < 256,
                    table@.len() == 256,
                    table0.len() == 256,
                    forall|j: int| 0 <= j < i ==> #[trigger] table@[j] == table0[j],
                    forall|j: int| i < j <= k ==> #[trigger] table@[j] == table0[j - 1],
                    forall|j: int| k < j < 256 ==> #[trigger] table@[j] == table0[j],
                decreases i,
            {
                let above: u8 = table[i - 1];
                table[i] = above;
                i = i - 1;
            }
            table[1] = val;
        }
        lasthead = lasthead.wrapping_add(1);
        proof {
            assert(table@ =~= moved_forward(table0, k as int, age0, order));
            assert(block0.skip(p as int)[0] == k as u8);
            assert(block0.skip(p as int).skip(1) =~= block@.skip(p + 1));
            let tail = m1ffn_from(table@, block@.skip(p + 1), lasthead, order);
            assert(block@.subrange(0, p + 1) + tail =~= block0.subrange(0, p as int) + (seq![table0[k as int]] + tail));
        }
        p = p + 1;
    }
    assert(block@.subrange(0, p as int) + m1ffn_from(table@, block@.skip(p as int), lasthead, order) =~= block@);
}

} // verus!
