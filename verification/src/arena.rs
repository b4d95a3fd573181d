//! Bump-pointer arena over a fixed byte region.
//!
//! A [`PtrArena`] owns no memory: it is the allocation discipline itself,
//! over an abstract address space. `base` is the address of a region of
//! `size` bytes supplied by the caller; `alloc` advances a monotone cursor
//! and returns addresses. A ghost history of every outstanding allocation
//! lets the contracts state alignment, bounds and pairwise disjointness.

use vstd::prelude::*;

use crate::error::AllocError;
use crate::ranges_disjoint;

verus! {

/// The cursor `off` rounded up to the next multiple of `align`.
pub open spec fn spec_align_up(off: int, align: int) -> int
    recommends
        align >= 1,
        off >= 0,
{
    if off % align == 0 {
        off
    } else {
        off + align - off % align
    }
}

pub proof fn lemma_align_up(off: int, align: int)
    requires
        align >= 1,
        off >= 0,
    ensures
        spec_align_up(off, align) >= off,
        spec_align_up(off, align) % align == 0,
        spec_align_up(off, align) < off + align,
{
    let r = off % align;
    assert(0 <= r < align) by (nonlinear_arith)
        requires align >= 1, off >= 0, r == off % align;
    if r != 0 {
        assert((off + align - r) % align == 0) by (nonlinear_arith)
            requires align >= 1, off >= 0, r == off % align, r != 0;
    }
}

/// Rounds `off` up to a multiple of `align`; `None` when the aligned value
/// does not fit in `usize`.
pub fn align_up(off: usize, align: usize) -> (r: Option<usize>)
    requires
        align >= 1,
    ensures
        match r {
            Some(v) => v == spec_align_up(off as int, align as int),
            None => spec_align_up(off as int, align as int) > usize::MAX,
        },
{
    let rem = off % align;
    if rem == 0 {
        Some(off)
    } else {
        off.checked_add(align - rem)
    }
}

/// One allocation on record: start address, length, requested alignment.
pub ghost struct AllocRecord {
    pub start: int,
    pub len: int,
    pub align: int,
}

/// The outstanding allocations of a record sequence, as a set of
/// `(address, length)` pairs.
pub open spec fn alloc_placements(recs: Seq<AllocRecord>) -> Set<(int, int)> {
    Set::new(
        |pr: (int, int)|
            exists|i: int|
                0 <= i < recs.len() && (#[trigger] recs[i]).start == pr.0 && recs[i].len == pr.1,
    )
}

/// Recording one more allocation adds exactly its placement.
pub proof fn lemma_alloc_placements_push(recs: Seq<AllocRecord>, r: AllocRecord)
    ensures
        alloc_placements(recs.push(r)) =~= alloc_placements(recs).insert((r.start, r.len)),
{
    let pushed = recs.push(r);
    assert forall|pr: (int, int)| #[trigger] alloc_placements(pushed).contains(pr) implies alloc_placements(
        recs,
    ).insert((r.start, r.len)).contains(pr) by {
        let i = choose|i: int|
            0 <= i < pushed.len() && (#[trigger] pushed[i]).start == pr.0 && pushed[i].len
                == pr.1;
        if i < recs.len() {
            assert(recs[i] == pushed[i]);
            assert(alloc_placements(recs).contains(pr));
        }
    }
    assert forall|pr: (int, int)|
        alloc_placements(recs).insert((r.start, r.len)).contains(pr) implies #[trigger] alloc_placements(
        pushed,
    ).contains(pr) by {
        if alloc_placements(recs).contains(pr) {
            let i = choose|i: int|
                0 <= i < recs.len() && (#[trigger] recs[i]).start == pr.0 && recs[i].len == pr.1;
            assert(pushed[i] == recs[i]);
        } else {
            assert(pushed[recs.len() as int] == r);
        }
    }
}

/// An empty record holds no placement.
pub proof fn lemma_alloc_placements_empty()
    ensures
        alloc_placements(Seq::<AllocRecord>::empty()) =~= Set::<(int, int)>::empty(),
{
}

/// An abstract arena allocator: a region-based allocator whose allocations
/// are freed collectively by `clear`, never one by one.
pub trait Arena: Sized {
    /// Total capacity in bytes of the region(s) the arena manages.
    spec fn spec_size(&self) -> int;

    /// Bytes committed so far (including alignment padding).
    spec fn spec_allocated(&self) -> int;

    /// Internal well-formedness.
    spec fn inv(&self) -> bool;

    /// Whether a request of `size` bytes at alignment `align` succeeds in
    /// the current state.
    spec fn can_alloc(&self, size: int, align: int) -> bool;

    /// The outstanding allocations, as `(address, length)` pairs.
    spec fn placements(&self) -> Set<(int, int)>;

    /// Reserve `size` bytes aligned to `align`; returns the address.
    /// Succeeds exactly when `can_alloc` holds; a refused request changes
    /// nothing the contract speaks of.
    fn arena_alloc(&mut self, size: usize, align: usize) -> (r: Result<usize, AllocError>)
        requires
            old(self).inv(),
            align >= 1,
        ensures
            final(self).inv(),
            final(self).spec_size() >= old(self).spec_size(),
            r.is_ok() <==> old(self).can_alloc(size as int, align as int),
            match r {
                Ok(p) => {
                    &&& p + size <= usize::MAX
                    &&& final(self).spec_allocated() >= old(self).spec_allocated() + size
                    &&& final(self).spec_allocated() <= final(self).spec_size()
                    &&& final(self).placements() =~= old(self).placements().insert(
                        (p as int, size as int),
                    )
                },
                Err(e) => {
                    &&& e == AllocError::OutOfMemory
                    &&& final(self).spec_allocated() == old(self).spec_allocated()
                    &&& final(self).spec_size() == old(self).spec_size()
                    &&& final(self).placements() =~= old(self).placements()
                },
            },
    ;

    /// Total capacity in bytes.
    fn size(&self) -> (r: usize)
        requires
            self.inv(),
        ensures
            r == self.spec_size(),
    ;

    /// Bytes committed so far.
    fn allocated(&self) -> (r: usize)
        requires
            self.inv(),
        ensures
            r == self.spec_allocated(),
    ;

    /// Reset the arena. Every address previously returned is invalidated;
    /// the caller must ensure no live reference into the arena survives.
    fn clear(&mut self)
        requires
            old(self).inv(),
        ensures
            final(self).inv(),
            final(self).spec_allocated() == 0,
            final(self).spec_size() == old(self).spec_size(),
            final(self).placements() =~= Set::<(int, int)>::empty(),
    ;

    /// True when nothing is committed.
    fn is_clear(&self) -> (r: bool)
        requires
            self.inv(),
        ensures
            r == (self.spec_allocated() == 0),
    ;
}

/// Bump allocator over a single caller-supplied region of `size` bytes
/// starting at address `base`. Does not own the region.
pub struct PtrArena {
    base: usize,
    size: usize,
    offset: usize,
    allocs: Ghost<Seq<AllocRecord>>,
}

impl PtrArena {
    /// Address of the start of the region.
    pub closed spec fn spec_base(&self) -> int {
        self.base as int
    }

    /// Capacity of the region in bytes.
    pub closed spec fn region_size(&self) -> int {
        self.size as int
    }

    /// Current cursor: bytes committed, padding included.
    pub closed spec fn offset(&self) -> int {
        self.offset as int
    }

    /// Every allocation returned since the last `clear`, in order.
    pub closed spec fn allocs(&self) -> Seq<AllocRecord> {
        self.allocs@
    }

    /// Well-formedness: the cursor stays within the region, the region fits
    /// the address space, and the recorded allocations are aligned, lie
    /// below the cursor, and follow one another without overlap.
    pub closed spec fn wf(&self) -> bool {
        &&& self.offset <= self.size
        &&& self.base + self.size <= usize::MAX
        &&& forall|i: int|
            0 <= i < self.allocs@.len() ==> {
                let a = #[trigger] self.allocs@[i];
                &&& a.len >= 0
                &&& a.align >= 1
                &&& self.base <= a.start
                &&& a.start + a.len <= self.base + self.offset
                &&& (a.start - self.base) % a.align == 0
            }
        &&& forall|i: int, j: int|
            0 <= i < j < self.allocs@.len()
                ==> #[trigger] self.allocs@[i].start + self.allocs@[i].len
                    <= #[trigger] self.allocs@[j].start
    }

    /// Wrap a caller-owned region of `size` bytes at address `base`.
    pub fn from_region(base: usize, size: usize) -> (a: PtrArena)
        requires
            base + size <= usize::MAX,
        ensures
            a.wf(),
            a.spec_base() == base,
            a.region_size() == size,
            a.offset() == 0,
            a.allocs() =~= Seq::<AllocRecord>::empty(),
    {
        PtrArena { base, size, offset: 0, allocs: Ghost(Seq::empty()) }
    }

    /// Carve a fresh region for this arena out of another arena.
    pub fn from_arena<A: Arena>(arena: &mut A, size: usize, align: usize) -> (r: Result<
        PtrArena,
        AllocError,
    >)
        requires
            old(arena).inv(),
            align >= 1,
        ensures
            final(arena).inv(),
            r.is_ok() <==> old(arena).can_alloc(size as int, align as int),
            match r {
                Ok(a) => {
                    &&& a.wf()
                    &&& a.region_size() == size
                    &&& a.offset() == 0
                    &&& a.allocs() =~= Seq::<AllocRecord>::empty()
                    &&& a.spec_base() + size <= usize::MAX
                    &&& final(arena).spec_allocated() >= old(arena).spec_allocated() + size
                    &&& final(arena).placements() =~= old(arena).placements().insert(
                        (a.spec_base(), size as int),
                    )
                },
                Err(e) => {
                    &&& e == AllocError::OutOfMemory
                    &&& final(arena).spec_allocated() == old(arena).spec_allocated()
                },
            },
    {
        match arena.arena_alloc(size, align) {
            Ok(p) => Ok(PtrArena::from_region(p, size)),
            Err(e) => Err(e),
        }
    }

    /// Address of the start of the region.
    pub fn as_ptr(&self) -> (r: usize)
        ensures
            r == self.spec_base(),
    {
        self.base
    }

    /// Reset the cursor to the start of the region and forget the
    /// allocation record. Every address previously returned is invalidated;
    /// the caller must ensure no live reference into the region survives.
    pub fn reset(&mut self)
        ensures
            old(self).wf() ==> final(self).wf(),
            final(self).spec_base() == old(self).spec_base(),
            final(self).region_size() == old(self).region_size(),
            final(self).offset() == 0,
            final(self).allocs() =~= Seq::<AllocRecord>::empty(),
    {
        self.offset = 0;
        proof {
            self.allocs@ = Seq::empty();
        }
    }

    /// True when the aligned cursor leaves room for `size` more bytes.
    pub fn fits(&self, size: usize, align: usize) -> (r: bool)
        requires
            self.wf(),
            align >= 1,
        ensures
            r == (spec_align_up(self.offset(), align as int) + size <= self.region_size()),
    {
        proof {
            lemma_align_up(self.offset as int, align as int);
        }
        match align_up(self.offset, align) {
            Some(aligned) => match aligned.checked_add(size) {
                Some(end) => end <= self.size,
                None => false,
            },
            None => false,
        }
    }

    /// Reserve `size` bytes aligned to `align`: the cursor is rounded up to
    /// `align` and advanced by `size`. Fails with `OutOfMemory`, without
    /// mutation, when the aligned cursor or the reservation would pass the
    /// end of the region. The returned address is aligned relative to
    /// `base`, lies inside the region, and is disjoint from every
    /// allocation already on record.
    pub fn arena_alloc(&mut self, size: usize, align: usize) -> (r: Result<usize, AllocError>)
        requires
            old(self).wf(),
            align >= 1,
        ensures
            final(self).wf(),
            final(self).spec_base() == old(self).spec_base(),
            final(self).region_size() == old(self).region_size(),
            r.is_ok() <==> spec_align_up(old(self).offset(), align as int) + size
                <= old(self).region_size(),
            match r {
                Ok(p) => {
                    let start = spec_align_up(old(self).offset(), align as int);
                    &&& p == old(self).spec_base() + start
                    &&& (p - old(self).spec_base()) % (align as int) == 0
                    &&& p + size <= old(self).spec_base() + old(self).region_size()
                    &&& p + size <= usize::MAX
                    &&& final(self).offset() == start + size
                    &&& final(self).allocs() =~= old(self).allocs().push(
                        AllocRecord { start: p as int, len: size as int, align: align as int },
                    )
                    &&& forall|i: int|
                        0 <= i < old(self).allocs().len() ==> ranges_disjoint(
                            #[trigger] old(self).allocs()[i].start,
                            old(self).allocs()[i].len,
                            p as int,
                            size as int,
                        )
                },
                Err(e) => {
                    &&& e == AllocError::OutOfMemory
                    &&& final(self).offset() == old(self).offset()
                    &&& final(self).allocs() =~= old(self).allocs()
                },
            },
    {
        proof {
            lemma_align_up(self.offset as int, align as int);
        }
        let aligned = match align_up(self.offset, align) {
            Some(v) => v,
            None => {
                return Err(AllocError::OutOfMemory);
            },
        };
        let new_offset = match aligned.checked_add(size) {
            Some(v) => v,
            None => {
                return Err(AllocError::OutOfMemory);
            },
        };
        if new_offset > self.size {
            return Err(AllocError::OutOfMemory);
        }
        let p = self.base + aligned;
        proof {
            let rec = AllocRecord { start: p as int, len: size as int, align: align as int };
            assert((p - self.base) % (align as int) == 0);
            self.allocs@ = self.allocs@.push(rec);
        }
        self.offset = new_offset;
        Ok(p)
    }
}

impl Arena for PtrArena {
    open spec fn spec_size(&self) -> int {
        self.region_size()
    }

    open spec fn spec_allocated(&self) -> int {
        self.offset()
    }

    open spec fn inv(&self) -> bool {
        self.wf()
    }

    open spec fn can_alloc(&self, size: int, align: int) -> bool {
        spec_align_up(self.offset(), align) + size <= self.region_size()
    }

    open spec fn placements(&self) -> Set<(int, int)> {
        alloc_placements(self.allocs())
    }

    fn arena_alloc(&mut self, size: usize, align: usize) -> (r: Result<usize, AllocError>) {
        let ghost pre = *self;
        let r = PtrArena::arena_alloc(self, size, align);
        proof {
            if let Ok(p) = r {
                lemma_alloc_placements_push(
                    pre.allocs(),
                    AllocRecord { start: p as int, len: size as int, align: align as int },
                );
            }
        }
        r
    }

    fn size(&self) -> (r: usize) {
        self.size
    }

    fn allocated(&self) -> (r: usize) {
        self.offset
    }

    fn clear(&mut self) {
        self.reset();
        proof {
            lemma_alloc_placements_empty();
        }
    }

    fn is_clear(&self) -> (r: bool) {
        self.offset == 0
    }
}

/// Bounds that well-formedness puts on the published quantities of a
/// [`PtrArena`].
pub broadcast proof fn lemma_wf_bounds(a: PtrArena)
    ensures
        #[trigger] a.wf() ==> {
            &&& 0 <= a.spec_base()
            &&& 0 <= a.offset() <= a.region_size()
            &&& a.spec_base() + a.region_size() <= usize::MAX
        },
{
}

/// The capacity of a [`PtrArena`] is a size, so it is never negative.
pub broadcast proof fn lemma_region_size_nonneg(a: PtrArena)
    ensures
        0 <= #[trigger] a.region_size(),
{
}

/// The cursor of a [`PtrArena`] is a byte count, so it is never negative.
pub broadcast proof fn lemma_offset_nonneg(a: PtrArena)
    ensures
        0 <= #[trigger] a.offset(),
{
}

/// The base of a [`PtrArena`] is an address, so it is never negative.
pub broadcast proof fn lemma_base_nonneg(a: PtrArena)
    ensures
        0 <= #[trigger] a.spec_base(),
{
}

/// On a region whose base is aligned to the request, an address aligned
/// relative to the base is aligned absolutely: `p % align == 0` follows
/// from `(p - base) % align == 0`.
pub proof fn lemma_absolute_alignment(base: int, p: int, align: int)
    requires
        align >= 1,
        base % align == 0,
        (p - base) % align == 0,
    ensures
        p % align == 0,
{
    let d = p - base;
    vstd::arithmetic::div_mod::lemma_fundamental_div_mod(base, align);
    vstd::arithmetic::div_mod::lemma_fundamental_div_mod(d, align);
    assert(p == ((base / align) + (d / align)) * align) by (nonlinear_arith)
        requires
            base == align * (base / align) + base % align,
            d == align * (d / align) + d % align,
            base % align == 0,
            d % align == 0,
            p == base + d,
    ;
    vstd::arithmetic::div_mod::lemma_mod_multiples_basic((base / align) + (d / align), align);
}

/// Allocations recorded by one arena are pairwise disjoint: each starts at
/// or after the end of every earlier one.
pub proof fn lemma_ptr_arena_allocs_disjoint(a: PtrArena, i: int, j: int)
    requires
        a.wf(),
        0 <= i < a.allocs().len(),
        0 <= j < a.allocs().len(),
        i != j,
    ensures
        ranges_disjoint(a.allocs()[i].start, a.allocs()[i].len, a.allocs()[j].start, a.allocs()[j].len),
{
}

/// Every allocation recorded by an arena lies inside its region, below the
/// committed cursor.
pub proof fn lemma_ptr_arena_allocs_in_bounds(a: PtrArena, i: int)
    requires
        a.wf(),
        0 <= i < a.allocs().len(),
    ensures
        a.spec_base() <= a.allocs()[i].start,
        a.allocs()[i].start + a.allocs()[i].len <= a.spec_base() + a.spec_allocated(),
        a.spec_allocated() <= a.spec_size(),
{
}

} // verus!
