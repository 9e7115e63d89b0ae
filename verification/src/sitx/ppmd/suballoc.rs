use vstd::prelude::*;

verus! {

/// The bytes in one unit.
pub const UNIT_SIZE: u32 = 12;

/// How many block sizes there are.
pub const N_INDEXES: usize = 38;

// === the heap as a value ======================================================

/// The heap: its bytes, the end of the part in use at the bottom, the start of the
/// part in use at the top, and for each block size the first free block. An offset
/// of 0 stands for nothing. `lost` tells that an offset outside the bytes has come
/// up.
pub struct Heap {
    pub bytes: Seq<u8>,
    pub low: u32,
    pub high: u32,
    pub free: Seq<u32>,
    pub lost: bool,
}

/// The units in a block of size number `index`.
pub open spec fn units_of(index: int) -> int {
    if index < 4 {
        1 + index
    } else if index < 8 {
        6 + 2 * (index - 4)
    } else if index < 12 {
        15 + 3 * (index - 8)
    } else {
        28 + 4 * (index - 12)
    }
}

/// The smallest size number whose blocks hold `units` units.
pub open spec fn index_for(units: int) -> int {
    if units <= 4 {
        units - 1
    } else if units <= 12 {
        4 + (units - 5) / 2
    } else if units <= 24 {
        8 + (units - 13) / 3
    } else {
        12 + (units - 25) / 4
    }
}

/// `index_for` picks a size that is large enough, and the next smaller is not.
pub proof fn index_for_is_tight(units: int)
    requires
        1 <= units <= 128,
    ensures
        0 <= index_for(units) < 38,
        units <= units_of(index_for(units)) <= 128,
        index_for(units) > 0 ==> units_of(index_for(units) - 1) < units,
{
}

/// The larger the class, the larger its blocks.
pub proof fn units_rise(a: int, b: int)
    requires
        0 <= a < b < 38,
    ensures
        1 <= units_of(a) < units_of(b) <= 128,
{
}

// === bytes ====================================================================

/// The byte at `off`, zero outside the heap.
#[verifier::opaque]
pub open spec fn get8(b: Seq<u8>, off: u32) -> u8 {
    if off < b.len() {
        b[off as int]
    } else {
        0
    }
}

/// The bytes with `v` at `off`; nothing changes outside the heap.
#[verifier::opaque]
pub open spec fn put8(b: Seq<u8>, off: u32, v: u8) -> Seq<u8> {
    if off < b.len() {
        b.update(off as int, v)
    } else {
        b
    }
}

#[verifier::opaque]
pub open spec fn get16(b: Seq<u8>, off: u32) -> u16 {
    (get8(b, off) + 0x100 * get8(b, off.wrapping_add(1))) as u16
}

#[verifier::opaque]
pub open spec fn put16(b: Seq<u8>, off: u32, v: u16) -> Seq<u8> {
    put8(put8(b, off, (v % 0x100) as u8), off.wrapping_add(1), (v / 0x100) as u8)
}

#[verifier::opaque]
pub open spec fn get32(b: Seq<u8>, off: u32) -> u32 {
    (get8(b, off) + 0x100 * get8(b, off.wrapping_add(1)) + 0x1_0000 * get8(b, off.wrapping_add(2)) + 0x100_0000 * get8(
        b,
        off.wrapping_add(3),
    )) as u32
}

#[verifier::opaque]
pub open spec fn put32(b: Seq<u8>, off: u32, v: u32) -> Seq<u8> {
    put8(
        put8(
            put8(put8(b, off, (v % 0x100) as u8), off.wrapping_add(1), ((v / 0x100) % 0x100) as u8),
            off.wrapping_add(2),
            ((v / 0x1_0000) % 0x100) as u8,
        ),
        off.wrapping_add(3),
        (v / 0x100_0000) as u8,
    )
}

/// The bytes with the `n` bytes at `src` copied to `dst`, as they were before.
#[verifier::opaque]
pub open spec fn moved(b: Seq<u8>, src: u32, dst: u32, n: u32) -> Seq<u8> {
    if src + n > b.len() || dst + n > b.len() {
        b
    } else {
        Seq::new(
            b.len(),
            |i: int|
                if dst <= i < dst + n {
                    b[src + (i - dst)]
                } else {
                    b[i]
                },
        )
    }
}

/// A number that was put is got back.
pub proof fn put_is_got_back(b: Seq<u8>, off: u32, v: u32)
    requires
        off + 4 <= b.len(),
        off <= 0xffff_fff0,
    ensures
        get32(put32(b, off, v), off) == v,
        get16(put16(b, off, (v % 0x1_0000) as u16), off) == v % 0x1_0000,
        get8(put8(b, off, (v % 0x100) as u8), off) == v % 0x100,
{
    reveal(get8);
    reveal(put8);
    reveal(get16);
    reveal(put16);
    reveal(get32);
    reveal(put32);
    assert(v == v % 0x100 + 0x100 * ((v / 0x100) % 0x100) + 0x1_0000 * ((v / 0x1_0000) % 0x100) + 0x100_0000 * (v
        / 0x100_0000));
}

// === blocks ===================================================================

/// Note whether the `n` bytes at `off` lie within the heap.
pub open spec fn touched(h: Heap, off: u32, n: int) -> Heap {
    Heap { lost: h.lost || off + n > h.bytes.len(), ..h }
}

/// A block put on the free list of its size.
pub open spec fn freed(h: Heap, p: u32, index: int) -> Heap {
    let t = touched(h, p, 4);
    Heap { bytes: put32(h.bytes, p, h.free[index]), free: h.free.update(index, p), ..t }
}

/// The first block taken off a free list.
pub open spec fn taken(h: Heap, index: int) -> (u32, Heap) {
    let node = h.free[index];
    let t = touched(h, node, 4);
    (node, Heap { free: h.free.update(index, get32(h.bytes, node)), ..t })
}

/// What a block of size `old` at `p` holds beyond size `new` put on the free lists,
/// in one piece or two.
pub open spec fn split(h: Heap, p: u32, old: int, new: int) -> Heap {
    let rest = p.wrapping_add((12 * units_of(new)) as u32);
    let diff = units_of(old) - units_of(new);
    let i = index_for(diff);
    if units_of(i) == diff {
        freed(h, rest, i)
    } else {
        freed(
            freed(h, rest, i - 1),
            rest.wrapping_add((12 * units_of(i - 1)) as u32),
            index_for(diff - units_of(i - 1)),
        )
    }
}

/// The first size from `i` on with a free block.
pub open spec fn first_free(h: Heap, i: int) -> Option<int>
    decreases 38 - i,
{
    if i >= 38 {
        None
    } else if h.free[i] != 0 {
        Some(i)
    } else {
        first_free(h, i + 1)
    }
}

/// A block of `units` units: a free one of its size, one from the bottom of the
/// heap, or a part of a larger free one; 0 if there is none.
pub open spec fn allocated(h: Heap, units: int) -> (u32, Heap) {
    let index = index_for(units);
    if h.free[index] != 0 {
        taken(h, index)
    } else if h.low + 12 * units_of(index) <= h.high {
        (h.low, Heap { low: (h.low + 12 * units_of(index)) as u32, ..h })
    } else {
        match first_free(h, index + 1) {
            None => (0u32, h),
            Some(i) => {
                let (p, h1) = taken(h, i);
                (p, split(h1, p, i, index))
            },
        }
    }
}

/// A unit for a context, from the top of the heap if there is room.
pub open spec fn context_allocated(h: Heap) -> (u32, Heap) {
    if h.high > h.low {
        (h.high.wrapping_sub(12), Heap { high: h.high.wrapping_sub(12), ..h })
    } else {
        allocated(h, 1)
    }
}

/// A block of `units` units made to hold one more; 0 if that cannot be.
pub open spec fn expanded(h: Heap, p: u32, units: int) -> (u32, Heap) {
    if index_for(units) == index_for(units + 1) {
        (p, h)
    } else {
        let (q, h1) = allocated(h, units + 1);
        if q == 0 {
            (q, h1)
        } else {
            (q, freed(copied(h1, p, q, (12 * units_of(index_for(units))) as u32), p, index_for(units)))
        }
    }
}

pub open spec fn copied(h: Heap, src: u32, dst: u32, n: u32) -> Heap {
    let t = touched(touched(h, src, n as int), dst, n as int);
    Heap { bytes: moved(h.bytes, src, dst, n), ..t }
}

/// A block of `old` units made to hold `new` units only.
pub open spec fn shrunk(h: Heap, p: u32, old: int, new: int) -> (u32, Heap) {
    let oi = index_for(old);
    let ni = index_for(new);
    if oi == ni {
        (p, h)
    } else if h.free[ni] != 0 {
        let (q, h1) = taken(h, ni);
        (q, freed(copied(h1, p, q, (12 * units_of(ni)) as u32), p, oi))
    } else {
        (p, split(h, p, oi, ni))
    }
}

/// An empty heap of `size` bytes behind one unit that is never given out.
pub open spec fn empty_heap(size: u32, lost: bool) -> Heap {
    Heap {
        bytes: Seq::new((12 + 12 * (size / 12)) as nat, |i: int| 0u8),
        low: 12,
        high: (12 + 12 * (size / 12)) as u32,
        free: Seq::new(38, |i: int| 0u32),
        lost,
    }
}

/// A block that has just been freed is the next one given out for its size, and
/// the free lists are then as they were.
pub proof fn freed_block_is_reused(h: Heap, p: u32, units: int)
    requires
        1 <= units <= 128,
        h.free.len() == 38,
        p != 0,
        p + 4 <= h.bytes.len(),
        p <= 0xffff_fff0,
    ensures
        allocated(freed(h, p, index_for(units)), units).0 == p,
        allocated(freed(h, p, index_for(units)), units).1.free == h.free,
        allocated(freed(h, p, index_for(units)), units).1.low == h.low,
        allocated(freed(h, p, index_for(units)), units).1.high == h.high,
{
    index_for_is_tight(units);
    let i = index_for(units);
    put_is_got_back(h.bytes, p, h.free[i]);
    let (q, t) = allocated(freed(h, p, i), units);
    assert(t.free =~= h.free);
}

// === the allocator ============================================================

/// The allocator.
pub struct BrimstoneAlloc {
    pub arena: Vec<u8>,
    pub sub_alloc_size: u32,
    pub index2units: Vec<u8>,
    pub units2index: Vec<u8>,
    pub low_unit: u32,
    pub high_unit: u32,
    pub free_list: Vec<u32>,
    pub lost: bool,
}

impl BrimstoneAlloc {
    pub open spec fn view(&self) -> Heap {
        Heap {
            bytes: self.arena@,
            low: self.low_unit,
            high: self.high_unit,
            free: self.free_list@,
            lost: self.lost,
        }
    }

    /// The tables of sizes are right.
    pub open spec fn wf(&self) -> bool {
        &&& self.index2units@.len() == 38
        &&& forall|i: int| 0 <= i < 38 ==> #[trigger] self.index2units@[i] == units_of(i)
        &&& self.units2index@.len() == 128
        &&& forall|n: int| 0 <= n < 128 ==> #[trigger] self.units2index@[n] == index_for(n + 1)
        &&& self.free_list@.len() == 38
        &&& self.sub_alloc_size < 0xffff_ff00
    }

    /// Nothing but the heap differs.
    pub open spec fn tables_same(&self, other: &Self) -> bool {
        &&& self.index2units@ == other.index2units@
        &&& self.units2index@ == other.units2index@
        &&& self.sub_alloc_size == other.sub_alloc_size
    }

    /// An allocator for a heap of `size` bytes, which is not there yet.
    pub fn new(size: u32) -> (r: Self)
        requires
            size < 0xffff_ff00,
        ensures
            r.wf(),
            r.sub_alloc_size == size,
            r.view() == (Heap {
                bytes: seq![],
                low: 0,
                high: 0,
                free: Seq::new(38, |i: int| 0u32),
                lost: false,
            }),
    {
        let mut index2units: Vec<u8> = Vec::new();
        let mut i: usize = 0;
        while i < N_INDEXES
            invariant
                i <= 38,
                index2units@.len() == i,
                forall|k: int| 0 <= k < i ==> #[trigger] index2units@[k] == units_of(k),
            decreases 38 - i,
        {
            let u: usize = if i < 4 {
                1 + i
            } else if i < 8 {
                6 + 2 * (i - 4)
            } else if i < 12 {
                15 + 3 * (i - 8)
            } else {
                28 + 4 * (i - 12)
            };
            index2units.push(u as u8);
            i = i + 1;
        }
        let mut units2index: Vec<u8> = Vec::new();
        let mut n: usize = 0;
        let mut index: usize = 0;
        while n < 128
            invariant
                n <= 128,
                index2units@.len() == 38,
                forall|k: int| 0 <= k < 38 ==> #[trigger] index2units@[k] == units_of(k),
                units2index@.len() == n,
                n == 0 ==> index == 0,
                n > 0 ==> index == index_for(n as int),
                forall|k: int| 0 <= k < n ==> #[trigger] units2index@[k] == index_for(k + 1),
            decreases 128 - n,
        {
            proof {
                index_for_is_tight(n + 1);
                if n > 0 {
                    index_for_is_tight(n as int);
                }
            }
            if (index2units[index] as usize) < n + 1 {
                index = index + 1;
            }
            units2index.push(index as u8);
            n = n + 1;
        }
        let free_list: Vec<u32> = vec![0u32; N_INDEXES];
        let arena: Vec<u8> = Vec::new();
        assert(free_list@ =~= Seq::new(38, |i: int| 0u32));
        assert(arena@ =~= seq![]);
        BrimstoneAlloc {
            arena,
            sub_alloc_size: size,
            index2units,
            units2index,
            low_unit: 0,
            high_unit: 0,
            free_list,
            lost: false,
        }
    }

    /// Make the heap empty.
    pub fn init(&mut self)
        requires
            old(self).wf(),
        ensures
            final(self).wf(),
            final(self).tables_same(old(self)),
            final(self).view() == empty_heap(old(self).sub_alloc_size, old(self).lost),
    {
        let heap: u32 = UNIT_SIZE * (self.sub_alloc_size / UNIT_SIZE);
        let arena: Vec<u8> = vec![0u8; (UNIT_SIZE + heap) as usize];
        let free_list: Vec<u32> = vec![0u32; N_INDEXES];
        self.arena = arena;
        self.free_list = free_list;
        self.low_unit = UNIT_SIZE;
        self.high_unit = UNIT_SIZE + heap;
        assert(self.arena@ =~= empty_heap(old(self).sub_alloc_size, old(self).lost).bytes);
        assert(self.free_list@ =~= empty_heap(old(self).sub_alloc_size, old(self).lost).free);
    }

    pub fn get_u8(&self, off: u32) -> (r: u8)
        ensures
            r == get8(self.view().bytes, off),
    {
        reveal(get8);
        if (off as u64) < self.arena.len() as u64 {
            self.arena[off as usize]
        } else {
            0
        }
    }

    pub fn put_u8(&mut self, off: u32, v: u8)
        ensures
            final(self).tables_same(old(self)),
            final(self).view() == (Heap { bytes: put8(old(self).view().bytes, off, v), ..old(self).view() }),
    {
        reveal(put8);
        if (off as u64) < self.arena.len() as u64 {
            self.arena[off as usize] = v;
        }
    }

    pub fn get_u16(&self, off: u32) -> (r: u16)
        ensures
            r == get16(self.view().bytes, off),
    {
        reveal(get16);
        self.get_u8(off) as u16 + 0x100 * self.get_u8(off.wrapping_add(1)) as u16
    }

    pub fn put_u16(&mut self, off: u32, v: u16)
        ensures
            final(self).tables_same(old(self)),
            final(self).view() == (Heap { bytes: put16(old(self).view().bytes, off, v), ..old(self).view() }),
    {
        reveal(put16);
        self.put_u8(off, (v % 0x100) as u8);
        self.put_u8(off.wrapping_add(1), (v / 0x100) as u8);
    }

    pub fn get_u32(&self, off: u32) -> (r: u32)
        ensures
            r == get32(self.view().bytes, off),
    {
        reveal(get32);
        self.get_u8(off) as u32 + 0x100 * self.get_u8(off.wrapping_add(1)) as u32 + 0x1_0000 * self.get_u8(
            off.wrapping_add(2),
        ) as u32 + 0x100_0000 * self.get_u8(off.wrapping_add(3)) as u32
    }

    pub fn put_u32(&mut self, off: u32, v: u32)
        ensures
            final(self).tables_same(old(self)),
            final(self).view() == (Heap { bytes: put32(old(self).view().bytes, off, v), ..old(self).view() }),
    {
        reveal(put32);
        self.put_u8(off, (v % 0x100) as u8);
        self.put_u8(off.wrapping_add(1), ((v / 0x100) % 0x100) as u8);
        self.put_u8(off.wrapping_add(2), ((v / 0x1_0000) % 0x100) as u8);
        self.put_u8(off.wrapping_add(3), (v / 0x100_0000) as u8);
    }

    /// Note whether the `n` bytes at `off` lie within the heap.
    pub fn touch(&mut self, off: u32, n: u32)
        ensures
            final(self).tables_same(old(self)),
            final(self).view() == touched(old(self).view(), off, n as int),
    {
        if off as u64 + n as u64 > self.arena.len() as u64 {
            self.lost = true;
        }
    }

    /// Copy `len` bytes within the heap; the two stretches may overlap.
    pub fn copy_within(&mut self, src: u32, dst: u32, len: u32)
        ensures
            final(self).tables_same(old(self)),
            final(self).view() == copied(old(self).view(), src, dst, len),
    {
        reveal(moved);
        self.touch(src, len);
        self.touch(dst, len);
        let size: u64 = self.arena.len() as u64;
        if src as u64 + len as u64 > size || dst as u64 + len as u64 > size {
            return;
        }
        let s: usize = src as usize;
        let d: usize = dst as usize;
        let n: usize = len as usize;
        let total: usize = self.arena.len();
        let ghost before = self.arena@;
        let ghost this = *self;
        if d <= s {
            let mut k: usize = 0;
            while k < n
                invariant
                    k <= n,
                    d <= s,
                    s + n <= total == before.len(),
                    self.arena@.len() == before.len(),
                    before.len() == this.arena@.len(),
                    self.tables_same(&this),
                    self.view() == (Heap { bytes: self.arena@, ..this.view() }),
                    forall|i: int|
                        0 <= i < before.len() ==> #[trigger] self.arena@[i] == (if d <= i < d + k {
                            before[s + (i - d)]
                        } else {
                            before[i]
                        }),
                decreases n - k,
            {
                let b: u8 = self.arena[s + k];
                self.arena[d + k] = b;
                k = k + 1;
            }
        } else {
            let mut k: usize = n;
            while k > 0
                invariant
                    k <= n,
                    s < d,
                    d + n <= total == before.len(),
                    self.arena@.len() == before.len(),
                    before.len() == this.arena@.len(),
                    self.tables_same(&this),
                    self.view() == (Heap { bytes: self.arena@, ..this.view() }),
                    forall|i: int|
                        0 <= i < before.len() ==> #[trigger] self.arena@[i] == (if d + k <= i < d + n {
                            before[s + (i - d)]
                        } else {
                            before[i]
                        }),
                decreases k,
            {
                k = k - 1;
                let b: u8 = self.arena[s + k];
                self.arena[d + k] = b;
            }
        }
        assert(self.arena@ =~= moved(before, src, dst, len));
    }

    /// The bytes in a block of size number `index`.
    fn i2b(&self, index: usize) -> (r: u32)
        requires
            self.wf(),
            index < 38,
        ensures
            r == 12 * units_of(index as int),
    {
        assert(self.index2units@[index as int] == units_of(index as int));
        UNIT_SIZE * self.index2units[index] as u32
    }

    /// The size number for `units` units.
    fn index_of(&self, units: u32) -> (r: usize)
        requires
            self.wf(),
            1 <= units <= 128,
        ensures
            r == index_for(units as int),
            r < 38,
    {
        proof {
            index_for_is_tight(units as int);
            assert(self.units2index@[units - 1] == index_for(units - 1 + 1));
        }
        self.units2index[(units - 1) as usize] as usize
    }

    /// Put a block on the free list of its size.
    fn insert_node(&mut self, p: u32, index: usize)
        requires
            old(self).wf(),
            index < 38,
        ensures
            final(self).wf(),
            final(self).tables_same(old(self)),
            final(self).view() == freed(old(self).view(), p, index as int),
    {
        self.touch(p, 4);
        let first: u32 = self.free_list[index];
        self.put_u32(p, first);
        self.free_list[index] = p;
    }

    /// Take the first block off a free list.
    fn remove_node(&mut self, index: usize) -> (r: u32)
        requires
            old(self).wf(),
            index < 38,
        ensures
            final(self).wf(),
            final(self).tables_same(old(self)),
            (r, final(self).view()) == taken(old(self).view(), index as int),
    {
        let node: u32 = self.free_list[index];
        self.touch(node, 4);
        let next: u32 = self.get_u32(node);
        self.free_list[index] = next;
        node
    }

    /// Free what a block holds beyond a smaller size.
    fn split_block(&mut self, pv: u32, oldindex: usize, newindex: usize)
        requires
            old(self).wf(),
            newindex < oldindex < 38,
        ensures
            final(self).wf(),
            final(self).tables_same(old(self)),
            final(self).view() == split(old(self).view(), pv, oldindex as int, newindex as int),
    {
        proof {
            units_rise(newindex as int, oldindex as int);
            assert(self.index2units@[oldindex as int] == units_of(oldindex as int));
            assert(self.index2units@[newindex as int] == units_of(newindex as int));
            index_for_is_tight(units_of(oldindex as int) - units_of(newindex as int));
        }
        let p: u32 = pv.wrapping_add(self.i2b(newindex));
        let diff: u32 = self.index2units[oldindex] as u32 - self.index2units[newindex] as u32;
        let i: usize = self.index_of(diff);
        assert(self.index2units@[i as int] == units_of(i as int));
        if self.index2units[i] as u32 == diff {
            self.insert_node(p, i);
        } else {
            proof {
                assert(i > 0);
                assert(self.index2units@[i - 1] == units_of(i - 1));
                units_rise(i - 1, i as int);
                index_for_is_tight(diff - units_of(i - 1));
            }
            let units: u32 = self.index2units[i - 1] as u32;
            let q: u32 = p.wrapping_add(self.i2b(i - 1));
            self.insert_node(p, i - 1);
            let j: usize = self.index_of(diff - units);
            self.insert_node(q, j);
        }
    }

    /// A unit for a context; 0 if there is none.
    pub fn alloc_context(&mut self) -> (r: u32)
        requires
            old(self).wf(),
        ensures
            final(self).wf(),
            final(self).tables_same(old(self)),
            (r, final(self).view()) == context_allocated(old(self).view()),
    {
        if self.high_unit > self.low_unit {
            self.high_unit = self.high_unit.wrapping_sub(UNIT_SIZE);
            return self.high_unit;
        }
        self.alloc_units(1)
    }

    /// A block of `num` units; 0 if there is none.
    pub fn alloc_units(&mut self, num: u32) -> (r: u32)
        requires
            old(self).wf(),
            1 <= num <= 128,
        ensures
            final(self).wf(),
            final(self).tables_same(old(self)),
            (r, final(self).view()) == allocated(old(self).view(), num as int),
    {
        let index: usize = self.index_of(num);
        if self.free_list[index] != 0 {
            return self.remove_node(index);
        }
        let size: u32 = self.i2b(index);
        if self.low_unit as u64 + size as u64 <= self.high_unit as u64 {
            let units: u32 = self.low_unit;
            self.low_unit = self.low_unit + size;
            return units;
        }
        let mut i: usize = index + 1;
        while i < N_INDEXES
            invariant
                index < i <= 38,
                self.wf(),
                *self == *old(self),
                index == index_for(num as int),
                self.free_list@[index as int] == 0,
                self.low_unit + 12 * units_of(index as int) > self.high_unit,
                first_free(self.view(), i as int) == first_free(self.view(), index + 1),
            decreases 38 - i,
        {
            if self.free_list[i] != 0 {
                let units: u32 = self.remove_node(i);
                self.split_block(units, i, index);
                return units;
            }
            i = i + 1;
        }
        0
    }

    /// Make a block of `oldnum` units hold one more; 0 if that cannot be.
    pub fn expand_units(&mut self, oldoffs: u32, oldnum: u32) -> (r: u32)
        requires
            old(self).wf(),
            1 <= oldnum < 128,
        ensures
            final(self).wf(),
            final(self).tables_same(old(self)),
            (r, final(self).view()) == expanded(old(self).view(), oldoffs, oldnum as int),
    {
        let oldindex: usize = self.index_of(oldnum);
        let newindex: usize = self.index_of(oldnum + 1);
        if oldindex == newindex {
            return oldoffs;
        }
        let offs: u32 = self.alloc_units(oldnum + 1);
        if offs != 0 {
            let n: u32 = self.i2b(oldindex);
            self.copy_within(oldoffs, offs, n);
            self.insert_node(oldoffs, oldindex);
        }
        offs
    }

    /// Make a block of `oldnum` units hold `newnum` units only.
    pub fn shrink_units(&mut self, oldoffs: u32, oldnum: u32, newnum: u32) -> (r: u32)
        requires
            old(self).wf(),
            1 <= newnum <= oldnum <= 128,
        ensures
            final(self).wf(),
            final(self).tables_same(old(self)),
            (r, final(self).view()) == shrunk(old(self).view(), oldoffs, oldnum as int, newnum as int),
    {
        let oldindex: usize = self.index_of(oldnum);
        let newindex: usize = self.index_of(newnum);
        proof {
            index_for_is_tight(oldnum as int);
            index_for_is_tight(newnum as int);
            assert(newindex <= oldindex);
        }
        if oldindex == newindex {
            return oldoffs;
        }
        if self.free_list[newindex] != 0 {
            let p: u32 = self.remove_node(newindex);
            let n: u32 = self.i2b(newindex);
            self.copy_within(oldoffs, p, n);
            self.insert_node(oldoffs, oldindex);
            p
        } else {
            self.split_block(oldoffs, oldindex, newindex);
            oldoffs
        }
    }

    /// Free a block of `num` units.
    pub fn free_units(&mut self, offs: u32, num: u32)
        requires
            old(self).wf(),
            1 <= num <= 128,
        ensures
            final(self).wf(),
            final(self).tables_same(old(self)),
            final(self).view() == freed(old(self).view(), offs, index_for(num as int)),
    {
        let index: usize = self.index_of(num);
        self.insert_node(offs, index);
    }
}

} // verus!
