//! Growing multi-chunk arena.
//!
//! A [`StandardArena`] allocates a head [`PtrArena`] chunk at
//! construction and chains further chunks behind it: allocation walks
//! the chain and, when every chunk is full, draws a fresh chunk from an
//! upstream allocator, doubling the page-rounded capacity of the tail.
//! `clear` resets every chunk but keeps them, so later allocations reuse
//! them without upstream traffic.
//!
//! The upstream is the [`UpstreamAlloc`] collaborator contract: it hands
//! out blocks at strictly increasing addresses, so chunks of one arena —
//! and of any two arenas drawing on disjoint upstreams — never overlap.

use vstd::prelude::*;

use crate::arena::{
    align_up, alloc_placements, lemma_align_up, lemma_alloc_placements_empty,
    lemma_alloc_placements_push, spec_align_up, AllocRecord, Arena, PtrArena,
};
use crate::error::AllocError;
use crate::ranges_disjoint;

verus! {

broadcast use crate::arena::lemma_wf_bounds, crate::arena::lemma_region_size_nonneg, crate::arena::lemma_offset_nonneg, crate::arena::lemma_base_nonneg;

/// Chunk capacities are rounded to this many bytes before doubling.
pub const PAGE_SIZE: usize = 4096;

/// Upstream byte allocator: hands out blocks of a requested size and
/// alignment, each at an address past the end of everything granted
/// before, so all granted blocks are pairwise disjoint. Reuse of
/// deallocated blocks may be deferred indefinitely.
pub trait UpstreamAlloc: Sized {
    /// Every block handed out so far, in order, as `(base, size)`.
    spec fn granted(&self) -> Seq<(int, int)>;

    /// Internal well-formedness.
    spec fn inv(&self) -> bool;

    /// Whether a block of `size` bytes at alignment `align` can be
    /// granted in the current state.
    spec fn can_grant(&self, size: int, align: int) -> bool;

    /// Allocate a block of `size` bytes aligned to `align`. Succeeds
    /// exactly when `can_grant` holds.
    fn alloc_block(&mut self, size: usize, align: usize) -> (r: Result<usize, AllocError>)
        requires
            old(self).inv(),
            align >= 1,
        ensures
            final(self).inv(),
            r.is_ok() <==> old(self).can_grant(size as int, align as int),
            match r {
                Ok(p) => {
                    &&& p + size <= usize::MAX
                    &&& (p as int) % (align as int) == 0
                    &&& final(self).granted() =~= old(self).granted().push(
                        (p as int, size as int),
                    )
                    &&& forall|i: int|
                        0 <= i < old(self).granted().len()
                            ==> #[trigger] old(self).granted()[i].0 + old(self).granted()[i].1
                                <= p
                },
                Err(e) => {
                    &&& e == AllocError::OutOfMemory
                    &&& final(self).granted() =~= old(self).granted()
                },
            },
    ;

    /// Return a block. The contract lets an upstream defer reuse, so a
    /// returned block never comes back while this value lives.
    fn dealloc_block(&mut self, base: usize, size: usize)
        requires
            old(self).inv(),
        ensures
            final(self).inv(),
            final(self).granted() =~= old(self).granted(),
    ;
}

/// Model upstream allocator: a watermark over the address range
/// `[next, limit)`. Blocks are granted at increasing addresses and never
/// reused.
pub struct MonotoneUpstream {
    next: usize,
    limit: usize,
    blocks: Ghost<Seq<(int, int)>>,
}

impl MonotoneUpstream {
    /// The next address that can be granted.
    pub closed spec fn spec_next(&self) -> int {
        self.next as int
    }

    /// The end of the address range this upstream administers.
    pub closed spec fn spec_limit(&self) -> int {
        self.limit as int
    }

    pub closed spec fn wf(&self) -> bool {
        &&& self.next <= self.limit
        &&& forall|i: int|
            0 <= i < self.blocks@.len() ==> {
                let b = #[trigger] self.blocks@[i];
                &&& b.1 >= 0
                &&& 0 <= b.0
                &&& b.0 + b.1 <= self.next
            }
    }

    /// An upstream over the address range `[start, limit)`.
    pub fn new(start: usize, limit: usize) -> (r: MonotoneUpstream)
        requires
            start <= limit,
        ensures
            r.wf(),
            r.spec_next() == start,
            r.spec_limit() == limit,
            r.granted() =~= Seq::<(int, int)>::empty(),
    {
        MonotoneUpstream { next: start, limit, blocks: Ghost(Seq::empty()) }
    }

    /// Grant the next aligned block if it fits under the limit; this is the
    /// exact success condition.
    pub fn take_block(&mut self, size: usize, align: usize) -> (r: Result<usize, AllocError>)
        requires
            old(self).wf(),
            align >= 1,
        ensures
            final(self).wf(),
            final(self).spec_limit() == old(self).spec_limit(),
            r.is_ok() <==> spec_align_up(old(self).spec_next(), align as int) + size
                <= old(self).spec_limit(),
            match r {
                Ok(p) => {
                    &&& p == spec_align_up(old(self).spec_next(), align as int)
                    &&& p + size <= usize::MAX
                    &&& (p as int) % (align as int) == 0
                    &&& final(self).spec_next() == p + size
                    &&& final(self).granted() =~= old(self).granted().push(
                        (p as int, size as int),
                    )
                    &&& forall|i: int|
                        0 <= i < old(self).granted().len()
                            ==> #[trigger] old(self).granted()[i].0 + old(self).granted()[i].1
                                <= p
                },
                Err(e) => {
                    &&& e == AllocError::OutOfMemory
                    &&& *final(self) == *old(self)
                },
            },
    {
        proof {
            lemma_align_up(self.next as int, align as int);
        }
        let aligned = match align_up(self.next, align) {
            Some(v) => v,
            None => {
                return Err(AllocError::OutOfMemory);
            },
        };
        let end = match aligned.checked_add(size) {
            Some(v) => v,
            None => {
                return Err(AllocError::OutOfMemory);
            },
        };
        if end > self.limit {
            return Err(AllocError::OutOfMemory);
        }
        proof {
            self.blocks@ = self.blocks@.push((aligned as int, size as int));
        }
        self.next = end;
        Ok(aligned)
    }
}

impl UpstreamAlloc for MonotoneUpstream {
    closed spec fn granted(&self) -> Seq<(int, int)> {
        self.blocks@
    }

    open spec fn inv(&self) -> bool {
        self.wf()
    }

    open spec fn can_grant(&self, size: int, align: int) -> bool {
        spec_align_up(self.spec_next(), align) + size <= self.spec_limit()
    }

    fn alloc_block(&mut self, size: usize, align: usize) -> (r: Result<usize, AllocError>) {
        self.take_block(size, align)
    }

    fn dealloc_block(&mut self, base: usize, size: usize) {
    }
}

/// Sum of the capacities of the first `n` chunks.
pub open spec fn sum_sizes_to(chunks: Seq<PtrArena>, n: int) -> int
    recommends
        0 <= n <= chunks.len(),
    decreases n,
{
    if n <= 0 {
        0
    } else {
        sum_sizes_to(chunks, n - 1) + chunks[n - 1].region_size()
    }
}

/// Sum of the committed cursors of the first `n` chunks.
pub open spec fn sum_offsets_to(chunks: Seq<PtrArena>, n: int) -> int
    recommends
        0 <= n <= chunks.len(),
    decreases n,
{
    if n <= 0 {
        0
    } else {
        sum_offsets_to(chunks, n - 1) + chunks[n - 1].offset()
    }
}

/// The region of chunk `i` is one of the blocks in `granted`.
pub open spec fn chunk_granted(chunks: Seq<PtrArena>, granted: Seq<(int, int)>, i: int) -> bool {
    exists|j: int|
        0 <= j < granted.len() && #[trigger] granted[j] == (
            chunks[i].spec_base(),
            chunks[i].region_size(),
        )
}

/// `chunk_granted` carries over to a grant list that extends the old one,
/// and to chunks with the same region.
proof fn lemma_chunk_granted_preserved(
    c1: Seq<PtrArena>,
    c2: Seq<PtrArena>,
    g1: Seq<(int, int)>,
    g2: Seq<(int, int)>,
    i: int,
)
    requires
        chunk_granted(c1, g1, i),
        g1.len() <= g2.len(),
        forall|j: int| 0 <= j < g1.len() ==> g2[j] == #[trigger] g1[j],
        c2[i].spec_base() == c1[i].spec_base(),
        c2[i].region_size() == c1[i].region_size(),
    ensures
        chunk_granted(c2, g2, i),
{
    let j = choose|j: int|
        0 <= j < g1.len() && #[trigger] g1[j] == (c1[i].spec_base(), c1[i].region_size());
    assert(g2[j] == (c2[i].spec_base(), c2[i].region_size()));
}

/// Whether the request fits the chunk as it stands.
pub open spec fn chunk_fits(c: PtrArena, size: int, align: int) -> bool {
    spec_align_up(c.offset(), align) + size <= c.region_size()
}

/// Capacity of the chunk grown after a miss: at least the request, and at
/// least double the page-rounded capacity of the tail chunk.
pub open spec fn grown_capacity(tail_cap: int, request: int) -> int {
    let doubled = spec_align_up(tail_cap, PAGE_SIZE as int) * 2;
    if request > doubled {
        request
    } else {
        doubled
    }
}

/// The outstanding allocations of the first `n` chunks, as
/// `(address, length)` pairs.
pub open spec fn placements_to(chunks: Seq<PtrArena>, n: int) -> Set<(int, int)>
    recommends
        0 <= n <= chunks.len(),
    decreases n,
{
    if n <= 0 {
        Set::empty()
    } else {
        placements_to(chunks, n - 1).union(alloc_placements(chunks[n - 1].allocs()))
    }
}

/// The placement union only reads the first `n` elements.
proof fn lemma_placements_agree(a: Seq<PtrArena>, b: Seq<PtrArena>, n: int)
    requires
        0 <= n <= a.len(),
        n <= b.len(),
        forall|j: int| 0 <= j < n ==> a[j] == #[trigger] b[j],
    ensures
        placements_to(a, n) == placements_to(b, n),
    decreases n,
{
    if n > 0 {
        lemma_placements_agree(a, b, n - 1);
        assert(a[n - 1] == b[n - 1]);
    }
}

/// Recording one allocation in chunk `i` adds exactly its placement to
/// the chain's outstanding set.
proof fn lemma_placements_update(
    a: Seq<PtrArena>,
    b: Seq<PtrArena>,
    i: int,
    n: int,
    rec: AllocRecord,
)
    requires
        0 <= i < n <= a.len(),
        n <= b.len(),
        forall|j: int| 0 <= j < n && j != i ==> a[j] == #[trigger] b[j],
        a[i].allocs() == b[i].allocs().push(rec),
    ensures
        placements_to(a, n) =~= placements_to(b, n).insert((rec.start, rec.len)),
    decreases n,
{
    if i == n - 1 {
        lemma_placements_agree(a, b, n - 1);
        lemma_alloc_placements_push(b[i].allocs(), rec);
        assert(placements_to(a, n) =~= placements_to(b, n).insert((rec.start, rec.len)));
    } else {
        lemma_placements_update(a, b, i, n - 1, rec);
        assert(a[n - 1] == b[n - 1]);
        assert(placements_to(a, n) =~= placements_to(b, n).insert((rec.start, rec.len)));
    }
}

/// A chain of reset chunks has no outstanding allocation.
proof fn lemma_placements_empty_chunks(chunks: Seq<PtrArena>, n: int)
    requires
        0 <= n <= chunks.len(),
        forall|j: int| 0 <= j < n ==> (#[trigger] chunks[j]).allocs() =~= Seq::<AllocRecord>::empty(),
    ensures
        placements_to(chunks, n) =~= Set::<(int, int)>::empty(),
    decreases n,
{
    if n > 0 {
        lemma_placements_empty_chunks(chunks, n - 1);
        lemma_alloc_placements_empty();
        assert(chunks[n - 1].allocs() =~= Seq::<AllocRecord>::empty());
        assert(alloc_placements(chunks[n - 1].allocs()) =~= Set::<(int, int)>::empty());
    }
}

/// The request was served in place: chunk `ci` is the first with room,
/// it alone advanced — by the aligned request — and every other chunk is
/// untouched; the address is the chunk's base plus its old aligned
/// cursor.
pub open spec fn served_first_fit<A: UpstreamAlloc>(
    pre: StandardArena<A>,
    post: StandardArena<A>,
    ci: int,
    p: int,
    size: int,
    align: int,
) -> bool {
    &&& 0 <= ci < pre.chunks().len()
    &&& chunk_fits(pre.chunks()[ci], size, align)
    &&& forall|j: int| 0 <= j < ci ==> !chunk_fits(#[trigger] pre.chunks()[j], size, align)
    &&& forall|j: int|
        0 <= j < pre.chunks().len() && j != ci ==> post.chunks()[j] == #[trigger] pre.chunks()[j]
    &&& post.chunks()[ci].spec_base() == pre.chunks()[ci].spec_base()
    &&& post.chunks()[ci].region_size() == pre.chunks()[ci].region_size()
    &&& post.chunks()[ci].offset() == spec_align_up(pre.chunks()[ci].offset(), align) + size
    &&& p == pre.chunks()[ci].spec_base() + spec_align_up(pre.chunks()[ci].offset(), align)
    &&& post.chunks()[ci].allocs() =~= pre.chunks()[ci].allocs().push(
        (AllocRecord { start: p, len: size, align }),
    )
}

/// A growing arena: a head chunk allocated at construction plus the
/// chunks grown after it, all drawn from the upstream allocator.
pub struct StandardArena<A: UpstreamAlloc> {
    chunks: Vec<PtrArena>,
    allocator: A,
}

impl<A: UpstreamAlloc> StandardArena<A> {
    /// The chunk chain, head first.
    pub closed spec fn chunks(&self) -> Seq<PtrArena> {
        self.chunks@
    }

    /// The upstream allocator.
    pub closed spec fn upstream(&self) -> A {
        self.allocator
    }

    /// Whether a request of `size` bytes at alignment `align` succeeds:
    /// either some chunk has room, or the grown capacity neither
    /// overflows nor is refused by the upstream.
    pub open spec fn spec_can_alloc(&self, size: int, align: int) -> bool {
        ||| exists|i: int|
            0 <= i < self.chunks().len() && chunk_fits(#[trigger] self.chunks()[i], size, align)
        ||| {
            let g = grown_capacity(self.chunks()[self.chunks().len() - 1].region_size(), size);
            &&& g <= usize::MAX
            &&& self.upstream().can_grant(g, 1)
        }
    }

    /// Well-formedness: at least the head chunk exists; each chunk is a
    /// well-formed arena; chunks sit at strictly increasing addresses (so
    /// they are pairwise disjoint); and every chunk region is a block the
    /// upstream granted.
    pub closed spec fn wf(&self) -> bool {
        &&& self.chunks@.len() >= 1
        &&& self.allocator.inv()
        &&& forall|i: int| 0 <= i < self.chunks@.len() ==> (#[trigger] self.chunks@[i]).wf()
        &&& forall|i: int, j: int|
            0 <= i < j < self.chunks@.len()
                ==> #[trigger] self.chunks@[i].spec_base() + self.chunks@[i].region_size()
                    <= #[trigger] self.chunks@[j].spec_base()
        &&& forall|i: int|
            0 <= i < self.chunks@.len() ==> #[trigger] chunk_granted(
                self.chunks@,
                self.allocator.granted(),
                i,
            )
    }

    /// Sum of chunk capacities.
    pub open spec fn spec_size(&self) -> int {
        sum_sizes_to(self.chunks(), self.chunks().len() as int)
    }

    /// Sum of chunk cursors.
    pub open spec fn spec_allocated(&self) -> int {
        sum_offsets_to(self.chunks(), self.chunks().len() as int)
    }

    /// An arena drawing on `allocator`, with its head chunk of `size`
    /// bytes allocated upstream at once. The upstream must have room for
    /// that head chunk; an upstream that cannot grant it would make the
    /// original construction fail outright.
    pub fn new_in(allocator: A, size: usize) -> (r: StandardArena<A>)
        requires
            allocator.inv(),
            allocator.can_grant(size as int, 1),
        ensures
            r.wf(),
            r.chunks().len() == 1,
            r.chunks()[0].region_size() == size,
            r.spec_size() == size,
            r.spec_allocated() == 0,
    {
        let mut allocator = allocator;
        let p = match allocator.alloc_block(size, 1) {
            Ok(p) => p,
            Err(_) => {
                proof {
                    assert(false);
                }
                0
            },
        };
        let head = PtrArena::from_region(p, size);
        let mut chunks: Vec<PtrArena> = Vec::new();
        chunks.push(head);
        let r = StandardArena { chunks, allocator };
        proof {
            assert(chunk_granted(r.chunks@, r.allocator.granted(), 0)) by {
                let g = r.allocator.granted();
                assert(g[g.len() - 1] == (p as int, size as int));
            }
            assert(r.chunks@[0] == head);
            assert(sum_sizes_to(r.chunks@, 0) == 0);
            assert(sum_offsets_to(r.chunks@, 0) == 0);
            assert(r.spec_size() == size);
            assert(r.spec_allocated() == 0);
        }
        r
    }
}

/// The capacity sum only reads the capacities of the first `n` elements.
pub proof fn lemma_sum_sizes_agree(a: Seq<PtrArena>, b: Seq<PtrArena>, n: int)
    requires
        0 <= n <= a.len(),
        n <= b.len(),
        forall|j: int| 0 <= j < n ==> #[trigger] a[j].region_size() == b[j].region_size(),
    ensures
        sum_sizes_to(a, n) == sum_sizes_to(b, n),
    decreases n,
{
    if n > 0 {
        lemma_sum_sizes_agree(a, b, n - 1);
        assert(a[n - 1].region_size() == b[n - 1].region_size());
    }
}

/// The cursor sum only reads the cursors of the first `n` elements.
pub proof fn lemma_sum_offsets_agree(a: Seq<PtrArena>, b: Seq<PtrArena>, n: int)
    requires
        0 <= n <= a.len(),
        n <= b.len(),
        forall|j: int| 0 <= j < n ==> #[trigger] a[j].offset() == b[j].offset(),
    ensures
        sum_offsets_to(a, n) == sum_offsets_to(b, n),
    decreases n,
{
    if n > 0 {
        lemma_sum_offsets_agree(a, b, n - 1);
        assert(a[n - 1].offset() == b[n - 1].offset());
    }
}

/// The two chunk sums only read the first `n` elements.
pub proof fn lemma_sums_agree(a: Seq<PtrArena>, b: Seq<PtrArena>, n: int)
    requires
        0 <= n <= a.len(),
        n <= b.len(),
        forall|j: int| 0 <= j < n ==> a[j] == #[trigger] b[j],
    ensures
        sum_sizes_to(a, n) == sum_sizes_to(b, n),
        sum_offsets_to(a, n) == sum_offsets_to(b, n),
    decreases n,
{
    if n > 0 {
        lemma_sums_agree(a, b, n - 1);
        assert(a[n - 1] == b[n - 1]);
    }
}

/// Chunk sums are non-negative, offsets stay under capacities, and the
/// size sum grows with the prefix.
pub proof fn lemma_sums_basic(chunks: Seq<PtrArena>, n: int)
    requires
        0 <= n <= chunks.len(),
        forall|i: int| 0 <= i < chunks.len() ==> (#[trigger] chunks[i]).wf(),
    ensures
        0 <= sum_offsets_to(chunks, n),
        sum_offsets_to(chunks, n) <= sum_sizes_to(chunks, n),
        sum_sizes_to(chunks, n) <= sum_sizes_to(chunks, chunks.len() as int),
    decreases n,
{
    if n > 0 {
        lemma_sums_basic(chunks, n - 1);
        assert(chunks[n - 1].wf());
    }
    lemma_sum_sizes_mono(chunks, n, chunks.len() as int);
}

/// The size sum over a longer prefix is no smaller.
pub proof fn lemma_sum_sizes_mono(chunks: Seq<PtrArena>, m: int, n: int)
    requires
        0 <= m <= n <= chunks.len(),
    ensures
        sum_sizes_to(chunks, m) <= sum_sizes_to(chunks, n),
    decreases n - m,
{
    if m < n {
        lemma_sum_sizes_mono(chunks, m, n - 1);
        assert(0 <= chunks[n - 1].region_size());
    }
}

/// For chunks at increasing addresses the capacities sum to no more than
/// the end of the last chunk, so the total fits in `usize`.
pub proof fn lemma_sum_sizes_bounded(chunks: Seq<PtrArena>, n: int)
    requires
        0 <= n <= chunks.len(),
        forall|i: int| 0 <= i < chunks.len() ==> (#[trigger] chunks[i]).wf(),
        forall|i: int, j: int|
            0 <= i < j < chunks.len() ==> #[trigger] chunks[i].spec_base()
                + chunks[i].region_size() <= #[trigger] chunks[j].spec_base(),
    ensures
        n == 0 ==> sum_sizes_to(chunks, n) == 0,
        n > 0 ==> sum_sizes_to(chunks, n) <= chunks[n - 1].spec_base() + chunks[n
            - 1].region_size(),
        sum_sizes_to(chunks, n) <= usize::MAX,
    decreases n,
{
    if n > 0 {
        lemma_sum_sizes_bounded(chunks, n - 1);
        assert(chunks[n - 1].wf());
        if n >= 2 {
            assert(chunks[n - 2].spec_base() + chunks[n - 2].region_size() <= chunks[n
                - 1].spec_base());
        }
    }
}

/// A chunk-offset sum is zero exactly when every cursor in the prefix is
/// zero.
pub proof fn lemma_sum_offsets_zero(chunks: Seq<PtrArena>, n: int)
    requires
        0 <= n <= chunks.len(),
        forall|i: int| 0 <= i < chunks.len() ==> (#[trigger] chunks[i]).wf(),
    ensures
        (sum_offsets_to(chunks, n) == 0) <==> (forall|i: int|
            0 <= i < n ==> (#[trigger] chunks[i]).offset() == 0),
    decreases n,
{
    if n > 0 {
        lemma_sum_offsets_zero(chunks, n - 1);
        lemma_sums_basic(chunks, n - 1);
        assert(chunks[n - 1].wf());
    }
}

impl<A: UpstreamAlloc> StandardArena<A> {
    /// Walk the chunks, allocating in the first with room; when none has
    /// room, draw exactly one fresh chunk from the upstream — of capacity
    /// `max(size, round_up_to_page(tail) * 2)` — and allocate there.
    /// Succeeds exactly when some chunk has room, or the grown capacity
    /// neither overflows nor is refused upstream. The returned address
    /// lies in the serving chunk, aligned relative to that chunk's base,
    /// disjoint from every allocation on record.
    pub fn arena_alloc(&mut self, size: usize, align: usize) -> (r: Result<usize, AllocError>)
        requires
            old(self).wf(),
            align >= 1,
        ensures
            final(self).wf(),
            final(self).spec_size() >= old(self).spec_size(),
            final(self).chunks().len() >= old(self).chunks().len(),
            final(self).chunks().len() <= old(self).chunks().len() + 1,
            r.is_ok() <==> old(self).spec_can_alloc(size as int, align as int),
            forall|i: int|
                0 <= i < old(self).chunks().len() ==> {
                    &&& (#[trigger] final(self).chunks()[i]).spec_base() == old(
                        self,
                    ).chunks()[i].spec_base()
                    &&& final(self).chunks()[i].region_size() == old(
                        self,
                    ).chunks()[i].region_size()
                },
            (exists|i: int|
                0 <= i < old(self).chunks().len() && spec_align_up(
                    (#[trigger] old(self).chunks()[i]).offset(),
                    align as int,
                ) + size <= old(self).chunks()[i].region_size()) ==> r.is_ok(),
            match r {
                Ok(p) => {
                    &&& p + size <= usize::MAX
                    &&& final(self).spec_allocated() >= old(self).spec_allocated() + size
                    &&& final(self).spec_allocated() <= final(self).spec_size()
                    &&& (final(self).chunks().len() == old(self).chunks().len() ==> exists|ci: int|
                        served_first_fit(*old(self), *final(self), ci, p as int, size as int, align as int))
                    &&& (final(self).chunks().len() == old(self).chunks().len() + 1 ==> {
                        let tail = final(self).chunks()[final(self).chunks().len() - 1];
                        &&& forall|j: int|
                            0 <= j < old(self).chunks().len() ==> !chunk_fits(
                                #[trigger] old(self).chunks()[j],
                                size as int,
                                align as int,
                            ) && final(self).chunks()[j] == old(self).chunks()[j]
                        &&& tail.region_size() == grown_capacity(
                            old(self).chunks()[old(self).chunks().len() - 1].region_size(),
                            size as int,
                        )
                        &&& tail.offset() == spec_align_up(0, align as int) + size
                        &&& p == tail.spec_base()
                        &&& tail.allocs() =~= Seq::<AllocRecord>::empty().push(
                            (AllocRecord {
                                start: p as int,
                                len: size as int,
                                align: align as int,
                            }),
                        )
                    })
                    &&& exists|ci: int|
                        0 <= ci < final(self).chunks().len() && {
                            let c = #[trigger] final(self).chunks()[ci];
                            &&& c.spec_base() <= p
                            &&& p + size <= c.spec_base() + c.region_size()
                            &&& (p - c.spec_base()) % (align as int) == 0
                        }
                    &&& forall|ci: int, ri: int|
                        0 <= ci < old(self).chunks().len() && 0 <= ri < (#[trigger] old(
                            self,
                        ).chunks()[ci]).allocs().len() ==> ranges_disjoint(
                            (#[trigger] old(self).chunks()[ci].allocs()[ri]).start,
                            old(self).chunks()[ci].allocs()[ri].len,
                            p as int,
                            size as int,
                        )
                },
                Err(e) => {
                    &&& e == AllocError::OutOfMemory
                    &&& final(self).chunks() =~= old(self).chunks()
                },
            },
    {
        let ghost init = *self;
        let n = self.chunks.len();
        let mut i: usize = 0;
        while i < n
            invariant
                init == *old(self),
                *self == init,
                init.wf(),
                align >= 1,
                n == self.chunks@.len(),
                0 <= i <= n,
                forall|j: int|
                    0 <= j < i ==> spec_align_up(
                        (#[trigger] self.chunks@[j]).offset(),
                        align as int,
                    ) + size > self.chunks@[j].region_size(),
            decreases n - i,
        {
            proof {
                assert(self.chunks@[i as int].wf());
            }
            if self.chunks[i].fits(size, align) {
                let mut c = self.chunks.remove(i);
                let r = c.arena_alloc(size, align);
                self.chunks.insert(i, c);
                proof {
                    assert(self.chunks@ =~= init.chunks().update(i as int, c));
                }
                match r {
                    Ok(p) => {
                        proof {
                            lemma_align_up(init.chunks()[i as int].offset(), align as int);
                            self.lemma_alloc_in_chunk(init, i as int, p as int, size as int);
                            assert(chunk_fits(init.chunks()[i as int], size as int, align as int));
                            assert(served_first_fit(
                                init,
                                *self,
                                i as int,
                                p as int,
                                size as int,
                                align as int,
                            ));
                        }
                        return Ok(p);
                    },
                    Err(_) => {
                        proof {
                            assert(false);
                        }
                        return Err(AllocError::OutOfMemory);
                    },
                }
            }
            i += 1;
        }
        // No chunk has room: draw a new one from the upstream.
        proof {
            assert(self.chunks@[n - 1].wf());
        }
        let tail_cap = Arena::size(&self.chunks[n - 1]);
        let ghost gc = grown_capacity(tail_cap as int, size as int);
        let rounded = match align_up(tail_cap, PAGE_SIZE) {
            Some(v) => v,
            None => {
                proof {
                    lemma_align_up(tail_cap as int, PAGE_SIZE as int);
                    assert(gc > usize::MAX);
                }
                return Err(AllocError::OutOfMemory);
            },
        };
        let grown: usize = match rounded.checked_mul(2) {
            Some(v) => v,
            None => {
                proof {
                    assert(gc > usize::MAX);
                }
                return Err(AllocError::OutOfMemory);
            },
        };
        let new_cap = if size > grown {
            size
        } else {
            grown
        };
        proof {
            assert(new_cap == gc);
        }
        let p = match self.allocator.alloc_block(new_cap, 1) {
            Ok(p) => p,
            Err(e) => {
                proof {
                    assert(!init.upstream().can_grant(gc, 1));
                    assert forall|i2: int| 0 <= i2 < self.chunks@.len() implies #[trigger] chunk_granted(
                        self.chunks@,
                        self.allocator.granted(),
                        i2,
                    ) by {
                        lemma_chunk_granted_preserved(
                            init.chunks(),
                            self.chunks@,
                            init.upstream().granted(),
                            self.allocator.granted(),
                            i2,
                        );
                    }
                }
                return Err(e);
            },
        };
        let mut c = PtrArena::from_region(p, new_cap);
        let r = c.arena_alloc(size, align);
        let q = match r {
            Ok(q) => q,
            Err(_) => {
                proof {
                    lemma_align_up(0, align as int);
                    assert(spec_align_up(0, align as int) == 0);
                    assert(false);
                }
                return Err(AllocError::OutOfMemory);
            },
        };
        self.chunks.push(c);
        proof {
            self.lemma_alloc_in_new_chunk(init, c, q as int, size as int);
            lemma_align_up(0, align as int);
            assert(q == c.spec_base());
            assert(self.chunks@[self.chunks@.len() - 1] == c);
        }
        Ok(q)
    }

    /// Proof for the in-place allocation path of `arena_alloc`.
    proof fn lemma_alloc_in_chunk(&self, init: StandardArena<A>, i: int, p: int, size: int)
        requires
            init.wf(),
            0 <= i < init.chunks().len(),
            self.chunks@.len() == init.chunks().len(),
            self.allocator == init.upstream(),
            forall|j: int|
                0 <= j < init.chunks().len() && j != i ==> self.chunks@[j] == #[trigger] init.chunks()[j],
            self.chunks@[i].wf(),
            self.chunks@[i].spec_base() == init.chunks()[i].spec_base(),
            self.chunks@[i].region_size() == init.chunks()[i].region_size(),
            self.chunks@[i].offset() >= init.chunks()[i].offset() + size,
            size >= 0,
            init.chunks()[i].spec_base() <= p,
            p + size <= init.chunks()[i].spec_base() + init.chunks()[i].region_size(),
            forall|ri: int|
                0 <= ri < init.chunks()[i].allocs().len() ==> ranges_disjoint(
                    (#[trigger] init.chunks()[i].allocs()[ri]).start,
                    init.chunks()[i].allocs()[ri].len,
                    p,
                    size,
                ),
        ensures
            self.wf(),
            self.spec_size() == init.spec_size(),
            self.spec_allocated() >= init.spec_allocated() + size,
            self.spec_allocated() <= self.spec_size(),
            forall|ci: int, ri: int|
                0 <= ci < init.chunks().len() && 0 <= ri < (#[trigger] init.chunks()[ci]).allocs().len()
                    ==> ranges_disjoint(
                    (#[trigger] init.chunks()[ci].allocs()[ri]).start,
                    init.chunks()[ci].allocs()[ri].len,
                    p,
                    size,
                ),
    {
        let n = init.chunks().len() as int;
        assert(sum_sizes_to(self.chunks@, n) == sum_sizes_to(init.chunks(), n)
            && sum_offsets_to(self.chunks@, n) >= sum_offsets_to(init.chunks(), n) + size) by {
            lemma_sums_suffix(self.chunks@, init.chunks(), i, n, size);
        }
        assert forall|i2: int| 0 <= i2 < self.chunks@.len() implies (#[trigger] self.chunks@[i2]).wf() by {
            if i2 != i {
                assert(init.chunks()[i2].wf());
            }
        }
        assert forall|x: int, y: int|
            0 <= x < y < self.chunks@.len() implies #[trigger] self.chunks@[x].spec_base()
            + self.chunks@[x].region_size() <= #[trigger] self.chunks@[y].spec_base() by {
            assert(init.chunks()[x].spec_base() + init.chunks()[x].region_size()
                <= init.chunks()[y].spec_base());
        }
        lemma_sums_basic(self.chunks@, n);
        assert forall|i2: int| 0 <= i2 < self.chunks@.len() implies #[trigger] chunk_granted(
            self.chunks@,
            self.allocator.granted(),
            i2,
        ) by {
            lemma_chunk_granted_preserved(
                init.chunks(),
                self.chunks@,
                init.upstream().granted(),
                self.allocator.granted(),
                i2,
            );
        }
        // Records held by other chunks lie in their chunk's region, which
        // is disjoint from chunk `i` where the new allocation lives.
        assert forall|ci: int, ri: int|
            0 <= ci < n && 0 <= ri < (#[trigger] init.chunks()[ci]).allocs().len() implies ranges_disjoint(
            (#[trigger] init.chunks()[ci].allocs()[ri]).start,
            init.chunks()[ci].allocs()[ri].len,
            p,
            size,
        ) by {
            if ci != i {
                let c = init.chunks()[ci];
                assert(c.wf());
                crate::arena::lemma_ptr_arena_allocs_in_bounds(c, ri);
                if ci < i {
                    assert(c.spec_base() + c.region_size() <= init.chunks()[i].spec_base());
                } else {
                    assert(init.chunks()[i].spec_base() + init.chunks()[i].region_size()
                        <= c.spec_base());
                }
            }
        }
    }

    /// Proof for the growth path of `arena_alloc`.
    proof fn lemma_alloc_in_new_chunk(&self, init: StandardArena<A>, c: PtrArena, p: int, size: int)
        requires
            init.wf(),
            self.chunks@ =~= init.chunks().push(c),
            c.wf(),
            size >= 0,
            c.spec_base() <= p,
            p + size <= c.spec_base() + c.region_size(),
            c.offset() >= size,
            self.allocator.inv(),
            self.allocator.granted() =~= init.upstream().granted().push(
                (c.spec_base(), c.region_size()),
            ),
            forall|j: int|
                0 <= j < init.upstream().granted().len()
                    ==> #[trigger] init.upstream().granted()[j].0
                        + init.upstream().granted()[j].1 <= c.spec_base(),
        ensures
            self.wf(),
            self.spec_size() >= init.spec_size(),
            self.spec_allocated() >= init.spec_allocated() + size,
            self.spec_allocated() <= self.spec_size(),
            forall|ci: int, ri: int|
                0 <= ci < init.chunks().len() && 0 <= ri < (#[trigger] init.chunks()[ci]).allocs().len()
                    ==> ranges_disjoint(
                    (#[trigger] init.chunks()[ci].allocs()[ri]).start,
                    init.chunks()[ci].allocs()[ri].len,
                    p,
                    size,
                ),
    {
        let n = init.chunks().len() as int;
        let granted0 = init.upstream().granted();
        // Every old chunk ends at or before the new chunk's base.
        assert forall|j: int| 0 <= j < n implies (#[trigger] init.chunks()[j]).spec_base()
            + init.chunks()[j].region_size() <= c.spec_base() by {
            assert(chunk_granted(init.chunks(), granted0, j));
            let gj = choose|g: int|
                0 <= g < granted0.len() && #[trigger] granted0[g] == (
                    init.chunks()[j].spec_base(),
                    init.chunks()[j].region_size(),
                );
            assert(granted0[gj].0 + granted0[gj].1 <= c.spec_base());
        }
        // Well-formedness of the extended chain.
        assert forall|i: int| 0 <= i < self.chunks@.len() implies (#[trigger] self.chunks@[i]).wf() by {
            if i < n {
                assert(init.chunks()[i].wf());
            }
        }
        assert forall|i: int| 0 <= i < self.chunks@.len() implies #[trigger] chunk_granted(
            self.chunks@,
            self.allocator.granted(),
            i,
        ) by {
            if i < n {
                lemma_chunk_granted_preserved(
                    init.chunks(),
                    self.chunks@,
                    granted0,
                    self.allocator.granted(),
                    i,
                );
            } else {
                assert(self.allocator.granted()[granted0.len() as int] == (
                    c.spec_base(),
                    c.region_size(),
                ));
            }
        }
        lemma_sums_agree(self.chunks@, init.chunks(), n);
        assert(sum_sizes_to(self.chunks@, n + 1) == sum_sizes_to(init.chunks(), n)
            + c.region_size());
        assert(sum_offsets_to(self.chunks@, n + 1) == sum_offsets_to(init.chunks(), n)
            + c.offset());
        lemma_sums_basic(self.chunks@, self.chunks@.len() as int);
        // Old records lie in old chunk regions, which end before the new
        // chunk begins.
        assert forall|ci: int, ri: int|
            0 <= ci < n && 0 <= ri < (#[trigger] init.chunks()[ci]).allocs().len() implies ranges_disjoint(
            (#[trigger] init.chunks()[ci].allocs()[ri]).start,
            init.chunks()[ci].allocs()[ri].len,
            p,
            size,
        ) by {
            let ch = init.chunks()[ci];
            assert(ch.wf());
            crate::arena::lemma_ptr_arena_allocs_in_bounds(ch, ri);
        }
    }
}

/// Replacing one chunk while keeping its capacity leaves the size sum
/// unchanged, and raises the offset sum by the cursor increase.
proof fn lemma_sums_suffix(a: Seq<PtrArena>, b: Seq<PtrArena>, i: int, n: int, size: int)
    requires
        0 <= i < n <= a.len(),
        n <= b.len(),
        forall|j: int| 0 <= j < n && j != i ==> a[j] == #[trigger] b[j],
        a[i].region_size() == b[i].region_size(),
        a[i].offset() >= b[i].offset() + size,
    ensures
        sum_sizes_to(a, n) == sum_sizes_to(b, n),
        sum_offsets_to(a, n) >= sum_offsets_to(b, n) + size,
    decreases n,
{
    if i == n - 1 {
        lemma_sums_agree(a, b, n - 1);
    } else {
        lemma_sums_suffix(a, b, i, n - 1, size);
    }
}

impl<A: UpstreamAlloc> StandardArena<A> {
    /// Reset every chunk. The chunks are kept, so later allocations reuse
    /// them without upstream traffic. Every address previously returned is
    /// invalidated; the caller must ensure no live reference survives.
    pub fn clear(&mut self)
        requires
            old(self).wf(),
        ensures
            final(self).wf(),
            final(self).spec_allocated() == 0,
            final(self).spec_size() == old(self).spec_size(),
            final(self).chunks().len() == old(self).chunks().len(),
            forall|i: int|
                0 <= i < old(self).chunks().len() ==> {
                    &&& (#[trigger] final(self).chunks()[i]).spec_base() == old(
                        self,
                    ).chunks()[i].spec_base()
                    &&& final(self).chunks()[i].region_size() == old(
                        self,
                    ).chunks()[i].region_size()
                    &&& final(self).chunks()[i].offset() == 0
                    &&& final(self).chunks()[i].allocs() =~= Seq::<AllocRecord>::empty()
                },
    {
        let ghost init = *self;
        let n = self.chunks.len();
        let mut i: usize = 0;
        while i < n
            invariant
                init == *old(self),
                init.wf(),
                n == self.chunks@.len(),
                n == init.chunks().len(),
                0 <= i <= n,
                self.allocator == init.upstream(),
                forall|j: int| i <= j < n ==> #[trigger] self.chunks@[j] == init.chunks()[j],
                forall|j: int|
                    0 <= j < i ==> {
                        let c = #[trigger] self.chunks@[j];
                        &&& c.wf()
                        &&& c.spec_base() == init.chunks()[j].spec_base()
                        &&& c.region_size() == init.chunks()[j].region_size()
                        &&& c.offset() == 0
                        &&& c.allocs() =~= Seq::<AllocRecord>::empty()
                    },
            decreases n - i,
        {
            proof {
                assert(self.chunks@[i as int] == init.chunks@[i as int]);
                assert(init.chunks@[i as int].wf());
            }
            let mut c = self.chunks.remove(i);
            c.reset();
            self.chunks.insert(i, c);
            i += 1;
        }
        proof {
            assert forall|x: int, y: int|
                0 <= x < y < self.chunks@.len() implies #[trigger] self.chunks@[x].spec_base()
                + self.chunks@[x].region_size() <= #[trigger] self.chunks@[y].spec_base() by {
                assert(init.chunks()[x].spec_base() + init.chunks()[x].region_size()
                    <= init.chunks()[y].spec_base());
            }
            assert forall|i2: int| 0 <= i2 < self.chunks@.len() implies #[trigger] chunk_granted(
                self.chunks@,
                self.allocator.granted(),
                i2,
            ) by {
                lemma_chunk_granted_preserved(
                    init.chunks(),
                    self.chunks@,
                    init.upstream().granted(),
                    self.allocator.granted(),
                    i2,
                );
            }
            assert forall|j: int|
                0 <= j < n implies (#[trigger] self.chunks@[j]).region_size()
                == init.chunks()[j].region_size() by {}
            lemma_sum_sizes_agree(self.chunks@, init.chunks(), n as int);
            lemma_sum_offsets_zero(self.chunks@, n as int);
        }
    }
}

impl<A: UpstreamAlloc> Arena for StandardArena<A> {
    open spec fn spec_size(&self) -> int {
        sum_sizes_to(self.chunks(), self.chunks().len() as int)
    }

    open spec fn spec_allocated(&self) -> int {
        sum_offsets_to(self.chunks(), self.chunks().len() as int)
    }

    open spec fn inv(&self) -> bool {
        self.wf()
    }

    open spec fn can_alloc(&self, size: int, align: int) -> bool {
        self.spec_can_alloc(size, align)
    }

    open spec fn placements(&self) -> Set<(int, int)> {
        placements_to(self.chunks(), self.chunks().len() as int)
    }

    fn arena_alloc(&mut self, size: usize, align: usize) -> (r: Result<usize, AllocError>) {
        let ghost pre = *self;
        let r = StandardArena::arena_alloc(self, size, align);
        proof {
            let n = pre.chunks().len() as int;
            match r {
                Ok(p) => {
                    let rec = AllocRecord {
                        start: p as int,
                        len: size as int,
                        align: align as int,
                    };
                    if self.chunks().len() == pre.chunks().len() {
                        let ci = choose|ci: int|
                            served_first_fit(pre, *self, ci, p as int, size as int, align as int);
                        lemma_placements_update(self.chunks(), pre.chunks(), ci, n, rec);
                    } else {
                        lemma_placements_agree(self.chunks(), pre.chunks(), n);
                        lemma_alloc_placements_push(Seq::<AllocRecord>::empty(), rec);
                        lemma_alloc_placements_empty();
                        let tail = self.chunks()[n];
                        assert(alloc_placements(tail.allocs()) =~= Set::<(int, int)>::empty().insert(
                            (p as int, size as int),
                        ));
                        assert(Arena::placements(self) =~= Arena::placements(&pre).insert(
                            (p as int, size as int),
                        ));
                    }
                },
                Err(_) => {
                    assert(self.chunks() == pre.chunks());
                },
            }
        }
        r
    }

    fn size(&self) -> (r: usize) {
        let n = self.chunks.len();
        let mut acc: usize = 0;
        let mut i: usize = 0;
        while i < n
            invariant
                self.wf(),
                n == self.chunks@.len(),
                0 <= i <= n,
                acc == sum_sizes_to(self.chunks@, i as int),
            decreases n - i,
        {
            proof {
                assert(self.chunks@[i as int].wf());
                lemma_sums_basic(self.chunks@, i as int);
                lemma_sum_sizes_mono(self.chunks@, i + 1, n as int);
                lemma_sum_sizes_bounded(self.chunks@, n as int);
            }
            acc = acc + Arena::size(&self.chunks[i]);
            i += 1;
        }
        acc
    }

    fn allocated(&self) -> (r: usize) {
        let n = self.chunks.len();
        let mut acc: usize = 0;
        let mut i: usize = 0;
        while i < n
            invariant
                self.wf(),
                n == self.chunks@.len(),
                0 <= i <= n,
                acc == sum_offsets_to(self.chunks@, i as int),
            decreases n - i,
        {
            proof {
                assert(self.chunks@[i as int].wf());
                lemma_sums_basic(self.chunks@, i + 1);
                lemma_sum_sizes_mono(self.chunks@, i + 1, n as int);
                lemma_sum_sizes_bounded(self.chunks@, n as int);
            }
            acc = acc + Arena::allocated(&self.chunks[i]);
            i += 1;
        }
        acc
    }

    fn clear(&mut self) {
        StandardArena::clear(self);
        proof {
            lemma_placements_empty_chunks(self.chunks(), self.chunks().len() as int);
        }
    }

    fn is_clear(&self) -> (r: bool) {
        let n = self.chunks.len();
        let mut i: usize = 0;
        while i < n
            invariant
                self.wf(),
                n == self.chunks@.len(),
                0 <= i <= n,
                forall|j: int| 0 <= j < i ==> (#[trigger] self.chunks@[j]).offset() == 0,
            decreases n - i,
        {
            proof {
                assert(self.chunks@[i as int].wf());
            }
            if !Arena::is_clear(&self.chunks[i]) {
                proof {
                    lemma_sum_offsets_zero(self.chunks@, n as int);
                }
                return false;
            }
            i += 1;
        }
        proof {
            lemma_sum_offsets_zero(self.chunks@, n as int);
        }
        true
    }
}

/// A chunked arena never reports less capacity than it has committed.
pub proof fn lemma_standard_arena_allocated_le_size<A: UpstreamAlloc>(a: StandardArena<A>)
    requires
        a.wf(),
    ensures
        a.spec_allocated() <= a.spec_size(),
        0 <= a.spec_allocated(),
{
    lemma_sums_basic(a.chunks(), a.chunks().len() as int);
}

/// Every allocation recorded by a chunked arena lies inside one of the
/// blocks its upstream granted.
pub proof fn lemma_standard_arena_allocs_within_granted<A: UpstreamAlloc>(
    a: StandardArena<A>,
    ci: int,
    ri: int,
)
    requires
        a.wf(),
        0 <= ci < a.chunks().len(),
        0 <= ri < a.chunks()[ci].allocs().len(),
    ensures
        exists|j: int|
            0 <= j < a.upstream().granted().len() && {
                let g = #[trigger] a.upstream().granted()[j];
                &&& g.0 <= a.chunks()[ci].allocs()[ri].start
                &&& a.chunks()[ci].allocs()[ri].start + a.chunks()[ci].allocs()[ri].len <= g.0
                    + g.1
            },
{
    let c = a.chunks()[ci];
    assert(c.wf());
    crate::arena::lemma_ptr_arena_allocs_in_bounds(c, ri);
    assert(chunk_granted(a.chunks(), a.upstream().granted(), ci));
    let j = choose|j: int|
        0 <= j < a.upstream().granted().len() && #[trigger] a.upstream().granted()[j] == (
            c.spec_base(),
            c.region_size(),
        );
    assert(a.upstream().granted()[j].0 <= a.chunks()[ci].allocs()[ri].start);
}

/// Two chunked arenas whose upstreams administer disjoint address ranges
/// never hand out overlapping allocations. This is the partitioning that
/// makes one arena per thread safe: each thread's arena draws on blocks of
/// its own, so addresses returned on one thread are disjoint from those
/// returned on another, and clearing one arena is a mutation of that value
/// alone.
pub proof fn lemma_partitioned_arenas_disjoint<A: UpstreamAlloc, B: UpstreamAlloc>(
    a: StandardArena<A>,
    b: StandardArena<B>,
    ci: int,
    ri: int,
    cj: int,
    rj: int,
)
    requires
        a.wf(),
        b.wf(),
        forall|x: int, y: int|
            0 <= x < a.upstream().granted().len() && 0 <= y < b.upstream().granted().len()
                ==> ranges_disjoint(
                (#[trigger] a.upstream().granted()[x]).0,
                a.upstream().granted()[x].1,
                (#[trigger] b.upstream().granted()[y]).0,
                b.upstream().granted()[y].1,
            ),
        0 <= ci < a.chunks().len(),
        0 <= ri < a.chunks()[ci].allocs().len(),
        0 <= cj < b.chunks().len(),
        0 <= rj < b.chunks()[cj].allocs().len(),
    ensures
        ranges_disjoint(
            a.chunks()[ci].allocs()[ri].start,
            a.chunks()[ci].allocs()[ri].len,
            b.chunks()[cj].allocs()[rj].start,
            b.chunks()[cj].allocs()[rj].len,
        ),
{
    lemma_standard_arena_allocs_within_granted(a, ci, ri);
    lemma_standard_arena_allocs_within_granted(b, cj, rj);
    let x = choose|j: int|
        0 <= j < a.upstream().granted().len() && {
            let g = #[trigger] a.upstream().granted()[j];
            &&& g.0 <= a.chunks()[ci].allocs()[ri].start
            &&& a.chunks()[ci].allocs()[ri].start + a.chunks()[ci].allocs()[ri].len <= g.0 + g.1
        };
    let y = choose|j: int|
        0 <= j < b.upstream().granted().len() && {
            let g = #[trigger] b.upstream().granted()[j];
            &&& g.0 <= b.chunks()[cj].allocs()[rj].start
            &&& b.chunks()[cj].allocs()[rj].start + b.chunks()[cj].allocs()[rj].len <= g.0 + g.1
        };
    assert(ranges_disjoint(
        a.upstream().granted()[x].0,
        a.upstream().granted()[x].1,
        b.upstream().granted()[y].0,
        b.upstream().granted()[y].1,
    ));
}

impl StandardArena<MonotoneUpstream> {
    /// An arena over the whole model address space, with a head chunk of
    /// `size` bytes.
    pub fn new(size: usize) -> (r: StandardArena<MonotoneUpstream>)
        ensures
            r.wf(),
            r.chunks().len() == 1,
            r.chunks()[0].region_size() == size,
            r.spec_size() == size,
            r.spec_allocated() == 0,
    {
        let up = MonotoneUpstream::new(0, usize::MAX);
        proof {
            assert(up.can_grant(size as int, 1));
        }
        StandardArena::new_in(up, size)
    }
}

} // verus!
