//! Fixed-slot pool allocator.
//!
//! A [`Pool`] interprets a byte region as `capacity = size / slot_size`
//! equally sized slots and hands them out one at a time: a frontier
//! counter covers the never-used slots, and an explicit free list recycles
//! released ones, most recently released first. A ghost set of the slots
//! currently handed out lets the contracts state that no slot is ever
//! handed out twice before it comes back.

use vstd::prelude::*;

use crate::arena::Arena;
use crate::error::AllocError;

verus! {

broadcast use vstd::set::axiom_set_insert_len, vstd::set::axiom_set_remove_len;

/// A pool allocator: hands out and recycles equally sized slots of a
/// region. The spec members expose the slot bookkeeping, so the methods'
/// contracts are as exact as the underlying pool's: a slot is never
/// handed out twice, success is owed exactly while a slot is free, and a
/// return succeeds exactly on a live allocation.
pub trait PoolAllocator: Sized {
    type Allocation;

    /// Internal well-formedness.
    spec fn inv(&self) -> bool;

    /// Slot indices currently handed out.
    spec fn spec_in_use(&self) -> Set<int>;

    /// Indices free for reuse, most recently returned last.
    spec fn spec_free_list(&self) -> Seq<int>;

    /// Total number of slots.
    spec fn pool_capacity(&self) -> int;

    /// First never-used slot index.
    spec fn pool_frontier(&self) -> int;

    /// The allocation that stands for slot `idx`.
    spec fn allocation_of(&self, idx: int) -> Self::Allocation;

    /// Whether `a` stands for a slot currently handed out.
    spec fn live(&self, a: Self::Allocation) -> bool;

    /// The slot `a` stands for.
    spec fn slot_of(&self, a: Self::Allocation) -> int;

    /// Obtain a free slot: the most recently returned one if any, else
    /// the next never-used one; fails exactly when every slot is handed
    /// out.
    fn allocate(&mut self) -> (r: Result<Self::Allocation, AllocError>)
        requires
            old(self).inv(),
        ensures
            final(self).inv(),
            final(self).pool_capacity() == old(self).pool_capacity(),
            r.is_ok() <==> old(self).spec_in_use().len() < old(self).pool_capacity(),
            match r {
                Ok(a) => {
                    let idx = if old(self).spec_free_list().len() > 0 {
                        old(self).spec_free_list().last()
                    } else {
                        old(self).pool_frontier()
                    };
                    &&& a == old(self).allocation_of(idx)
                    &&& 0 <= idx < old(self).pool_capacity()
                    &&& !old(self).spec_in_use().contains(idx)
                    &&& final(self).spec_in_use() =~= old(self).spec_in_use().insert(idx)
                    &&& final(self).spec_free_list() =~= if old(self).spec_free_list().len()
                        > 0 {
                        old(self).spec_free_list().drop_last()
                    } else {
                        old(self).spec_free_list()
                    }
                    &&& final(self).live(a)
                    &&& final(self).slot_of(a) == idx
                },
                Err(e) => {
                    &&& e == AllocError::OutOfMemory
                    &&& *final(self) == *old(self)
                },
            },
    ;

    /// Return a slot obtained from this pool; fails exactly when the
    /// allocation does not stand for a slot currently handed out.
    fn deallocate(&mut self, allocation: Self::Allocation) -> (r: Result<(), AllocError>)
        requires
            old(self).inv(),
        ensures
            final(self).inv(),
            final(self).pool_capacity() == old(self).pool_capacity(),
            r.is_ok() <==> old(self).live(allocation),
            match r {
                Ok(()) => {
                    &&& final(self).spec_in_use() =~= old(self).spec_in_use().remove(
                        old(self).slot_of(allocation),
                    )
                    &&& final(self).spec_free_list() =~= old(self).spec_free_list().push(
                        old(self).slot_of(allocation),
                    )
                },
                Err(e) => {
                    &&& e == AllocError::OutOfMemory
                    &&& *final(self) == *old(self)
                },
            },
    ;
}

/// Whether the free list holds the index `x`.
pub open spec fn free_holds(free: Seq<usize>, x: int) -> bool {
    exists|j: int| 0 <= j < free.len() && (#[trigger] free[j]) as int == x
}

/// Fixed-slot allocator over a caller-supplied region. Does not own the
/// region.
pub struct Pool {
    base: usize,
    slot_size: usize,
    capacity: usize,
    frontier: usize,
    free: Vec<usize>,
    lent: Ghost<Set<int>>,
}

impl Pool {
    /// Address of the start of the region.
    pub closed spec fn spec_base(&self) -> int {
        self.base as int
    }

    /// Bytes per slot.
    pub closed spec fn spec_slot_size(&self) -> int {
        self.slot_size as int
    }

    /// Number of slots in the region.
    pub closed spec fn spec_capacity(&self) -> int {
        self.capacity as int
    }

    /// Slot indices currently handed out.
    pub closed spec fn in_use(&self) -> Set<int> {
        self.lent@
    }

    /// Indices on the free list, oldest first; the top of the stack is the
    /// last element.
    pub closed spec fn free_list(&self) -> Seq<int> {
        self.free@.map_values(|v: usize| v as int)
    }

    /// First never-used slot index.
    pub closed spec fn spec_frontier(&self) -> int {
        self.frontier as int
    }

    /// The address of slot `idx`.
    pub open spec fn slot_addr(&self, idx: int) -> int {
        self.spec_base() + idx * self.spec_slot_size()
    }

    /// Well-formedness: the region fits the address space; every index
    /// below the frontier is either handed out or on the free list, never
    /// both, and the free list holds no index twice.
    pub closed spec fn wf(&self) -> bool {
        &&& self.slot_size >= 1
        &&& self.frontier <= self.capacity
        &&& self.base + self.capacity * self.slot_size <= usize::MAX
        &&& forall|k: int| 0 <= k < self.free@.len() ==> #[trigger] self.free@[k] < self.frontier
        &&& forall|k: int, l: int|
            0 <= k < l < self.free@.len() ==> #[trigger] self.free@[k] != #[trigger] self.free@[l]
        &&& forall|k: int|
            0 <= k < self.free@.len() ==> !self.lent@.contains(#[trigger] self.free@[k] as int)
        &&& self.lent@.finite()
        &&& forall|x: int| self.lent@.contains(x) ==> 0 <= x < self.frontier
        &&& forall|x: int|
            0 <= x < self.frontier && !(#[trigger] self.lent@.contains(x)) ==> free_holds(
                self.free@,
                x,
            )
        &&& self.lent@.len() + self.free@.len() == self.frontier
    }

    /// Interpret `size` bytes at `base` as `size / slot_size` slots.
    pub fn from_region(base: usize, size: usize, slot_size: usize) -> (r: Pool)
        requires
            slot_size >= 1,
            size % slot_size == 0,
            base + size <= usize::MAX,
        ensures
            r.wf(),
            r.spec_base() == base,
            r.spec_slot_size() == slot_size,
            r.spec_capacity() == size / slot_size,
            r.in_use() =~= Set::<int>::empty(),
            r.free_list() =~= Seq::<int>::empty(),
            r.spec_frontier() == 0,
    {
        let capacity = size / slot_size;
        proof {
            assert(capacity * slot_size == size) by (nonlinear_arith)
                requires
                    slot_size >= 1,
                    size % slot_size == 0,
                    capacity == size / slot_size,
            ;
        }
        Pool {
            base,
            slot_size,
            capacity,
            frontier: 0,
            free: Vec::new(),
            lent: Ghost(Set::empty()),
        }
    }

    /// Carve the pool's region out of an arena.
    pub fn from_arena<A: Arena>(arena: &mut A, size: usize, slot_size: usize, align: usize) -> (r:
        Result<Pool, AllocError>)
        requires
            old(arena).inv(),
            align >= 1,
            slot_size >= 1,
            size % slot_size == 0,
        ensures
            final(arena).inv(),
            r.is_ok() <==> old(arena).can_alloc(size as int, align as int),
            match r {
                Ok(p) => {
                    &&& p.wf()
                    &&& p.spec_slot_size() == slot_size
                    &&& p.spec_capacity() == size / slot_size
                    &&& p.in_use() =~= Set::<int>::empty()
                    &&& p.free_list() =~= Seq::<int>::empty()
                    &&& p.spec_frontier() == 0
                    &&& final(arena).spec_allocated() >= old(arena).spec_allocated() + size
                },
                Err(e) => {
                    &&& e == AllocError::OutOfMemory
                    &&& final(arena).spec_allocated() == old(arena).spec_allocated()
                },
            },
    {
        match arena.arena_alloc(size, align) {
            Ok(p) => Ok(Pool::from_region(p, size, slot_size)),
            Err(e) => Err(e),
        }
    }

    /// Address of the start of the region.
    pub fn as_ptr(&self) -> (r: usize)
        ensures
            r == self.spec_base(),
    {
        self.base
    }

    /// Obtain a free slot: the most recently released one if any, else the
    /// next never-used one; fails with `OutOfMemory` exactly when every
    /// slot is handed out. The returned address is `base + idx *
    /// slot_size` for a slot `idx` that was not handed out before.
    pub fn acquire(&mut self) -> (r: Result<usize, AllocError>)
        requires
            old(self).wf(),
        ensures
            final(self).wf(),
            final(self).spec_base() == old(self).spec_base(),
            final(self).spec_slot_size() == old(self).spec_slot_size(),
            final(self).spec_capacity() == old(self).spec_capacity(),
            r.is_ok() <==> old(self).in_use().len() < old(self).spec_capacity(),
            match r {
                Ok(p) => {
                    let idx = if old(self).free_list().len() > 0 {
                        old(self).free_list().last()
                    } else {
                        old(self).spec_frontier()
                    };
                    &&& p == old(self).slot_addr(idx)
                    &&& 0 <= idx < old(self).spec_capacity()
                    &&& !old(self).in_use().contains(idx)
                    &&& final(self).in_use() =~= old(self).in_use().insert(idx)
                    &&& final(self).free_list() =~= if old(self).free_list().len() > 0 {
                        old(self).free_list().drop_last()
                    } else {
                        old(self).free_list()
                    }
                },
                Err(e) => {
                    &&& e == AllocError::OutOfMemory
                    &&& *final(self) == *old(self)
                },
            },
    {
        let idx = if self.free.len() > 0 {
            match self.free.pop() {
                Some(v) => v,
                None => {
                    proof {
                        assert(false);
                    }
                    return Err(AllocError::OutOfMemory);
                },
            }
        } else if self.frontier < self.capacity {
            let v = self.frontier;
            self.frontier = self.frontier + 1;
            v
        } else {
            proof {
                assert(self.lent@.len() == self.frontier as int);
            }
            return Err(AllocError::OutOfMemory);
        };
        proof {
            let ghost before = *self;
            self.lent@ = self.lent@.insert(idx as int);
            assert forall|x: int|
                0 <= x < self.frontier && !(#[trigger] self.lent@.contains(x)) implies free_holds(
                self.free@,
                x,
            ) by {
                assert(free_holds(old(self).free@, x));
                let j = choose|j: int|
                    0 <= j < old(self).free@.len() && (#[trigger] old(self).free@[j]) as int == x;
                assert(j < old(self).free@.len() - 1);
                assert((self.free@[j]) as int == x);
            }
            assert((idx as int) * (self.slot_size as int) + self.slot_size
                <= (self.capacity as int) * (self.slot_size as int)) by (nonlinear_arith)
                requires
                    0 <= (idx as int) < (self.capacity as int),
                    self.slot_size >= 1,
            ;
        }
        let p = self.base + idx * self.slot_size;
        Ok(p)
    }

    /// Return the slot at address `p`, which must have been handed out by
    /// this pool and not yet released. The slot goes on top of the free
    /// list.
    pub fn release(&mut self, p: usize) -> (r: Result<(), AllocError>)
        requires
            old(self).wf(),
            p >= old(self).spec_base(),
            (p - old(self).spec_base()) % old(self).spec_slot_size() == 0,
            old(self).in_use().contains((p - old(self).spec_base()) / old(self).spec_slot_size()),
        ensures
            final(self).wf(),
            final(self).spec_base() == old(self).spec_base(),
            final(self).spec_slot_size() == old(self).spec_slot_size(),
            final(self).spec_capacity() == old(self).spec_capacity(),
            r.is_ok(),
            final(self).in_use() =~= old(self).in_use().remove(
                (p - old(self).spec_base()) / old(self).spec_slot_size(),
            ),
            final(self).free_list() =~= old(self).free_list().push(
                (p - old(self).spec_base()) / old(self).spec_slot_size(),
            ),
    {
        let idx = (p - self.base) / self.slot_size;
        proof {
            assert((p - self.base) as int / self.slot_size as int == (p as int - self.base as int)
                / self.slot_size as int);
            assert(idx < self.frontier) by {
                assert(self.lent@.contains(idx as int));
            }
            self.lent@ = self.lent@.remove(idx as int);
        }
        self.free.push(idx);
        proof {
            assert forall|x: int|
                0 <= x < self.frontier && !(#[trigger] self.lent@.contains(x)) implies free_holds(
                self.free@,
                x,
            ) by {
                if x == idx as int {
                    assert((self.free@[self.free@.len() - 1]) as int == x);
                } else {
                    assert(free_holds(old(self).free@, x));
                    let j = choose|j: int|
                        0 <= j < old(self).free@.len() && (#[trigger] old(self).free@[j]) as int
                            == x;
                    assert((self.free@[j]) as int == x);
                }
            }
        }
        Ok(())
    }

    /// Like [`Pool::release`], but checks at run time that `p` is an
    /// address this pool could have handed out — in range, on a slot
    /// boundary, below the frontier, and not already free — and fails with
    /// `OutOfMemory` instead of requiring it. Success is owed exactly when
    /// `p` is the address of a slot currently handed out.
    pub fn try_release(&mut self, p: usize) -> (r: Result<(), AllocError>)
        requires
            old(self).wf(),
        ensures
            final(self).wf(),
            final(self).spec_base() == old(self).spec_base(),
            final(self).spec_slot_size() == old(self).spec_slot_size(),
            final(self).spec_capacity() == old(self).spec_capacity(),
            r.is_ok() <==> (p >= old(self).spec_base() && (p - old(self).spec_base()) % old(
                self,
            ).spec_slot_size() == 0 && old(self).in_use().contains(
                (p - old(self).spec_base()) / old(self).spec_slot_size(),
            )),
            match r {
                Ok(()) => {
                    &&& final(self).in_use() =~= old(self).in_use().remove(
                        (p - old(self).spec_base()) / old(self).spec_slot_size(),
                    )
                    &&& final(self).free_list() =~= old(self).free_list().push(
                        (p - old(self).spec_base()) / old(self).spec_slot_size(),
                    )
                },
                Err(e) => {
                    &&& e == AllocError::OutOfMemory
                    &&& *final(self) == *old(self)
                },
            },
    {
        if p < self.base {
            return Err(AllocError::OutOfMemory);
        }
        if (p - self.base) % self.slot_size != 0 {
            return Err(AllocError::OutOfMemory);
        }
        let idx = (p - self.base) / self.slot_size;
        if idx >= self.frontier {
            proof {
                if self.lent@.contains(idx as int) {
                    assert(false);
                }
            }
            return Err(AllocError::OutOfMemory);
        }
        // Scan the free list: an index below the frontier is handed out
        // exactly when it is not free.
        let n = self.free.len();
        let mut k: usize = 0;
        while k < n
            invariant
                *self == *old(self),
                self.wf(),
                idx == (p - self.spec_base()) / self.spec_slot_size(),
                p >= self.spec_base(),
                (p - self.spec_base()) % self.spec_slot_size() == 0,
                idx < self.frontier,
                n == self.free@.len(),
                0 <= k <= n,
                forall|j: int| 0 <= j < k ==> #[trigger] self.free@[j] != idx,
            decreases n - k,
        {
            if self.free[k] == idx {
                proof {
                    assert(!self.lent@.contains(idx as int));
                }
                return Err(AllocError::OutOfMemory);
            }
            k += 1;
        }
        proof {
            self.lemma_below_frontier_split(idx as int);
        }
        self.release(p)
    }

    /// An index below the frontier that is not on the free list is handed
    /// out.
    proof fn lemma_below_frontier_split(&self, idx: int)
        requires
            self.wf(),
            0 <= idx < self.spec_frontier(),
            forall|j: int| 0 <= j < self.free@.len() ==> (#[trigger] self.free@[j]) as int != idx,
        ensures
            self.in_use().contains(idx),
    {
        if !self.lent@.contains(idx) {
            assert(free_holds(self.free@, idx));
        }
    }
}

impl PoolAllocator for Pool {
    type Allocation = usize;

    open spec fn inv(&self) -> bool {
        self.wf()
    }

    open spec fn spec_in_use(&self) -> Set<int> {
        self.in_use()
    }

    open spec fn spec_free_list(&self) -> Seq<int> {
        self.free_list()
    }

    open spec fn pool_capacity(&self) -> int {
        self.spec_capacity()
    }

    open spec fn pool_frontier(&self) -> int {
        self.spec_frontier()
    }

    open spec fn allocation_of(&self, idx: int) -> usize {
        self.slot_addr(idx) as usize
    }

    open spec fn live(&self, a: usize) -> bool {
        &&& a >= self.spec_base()
        &&& (a - self.spec_base()) % self.spec_slot_size() == 0
        &&& self.in_use().contains((a - self.spec_base()) / self.spec_slot_size())
    }

    open spec fn slot_of(&self, a: usize) -> int {
        (a - self.spec_base()) / self.spec_slot_size()
    }

    fn allocate(&mut self) -> (r: Result<usize, AllocError>) {
        let ghost pre = *self;
        let r = self.acquire();
        proof {
            if let Ok(a) = r {
                let idx = if pre.free_list().len() > 0 {
                    pre.free_list().last()
                } else {
                    pre.spec_frontier()
                };
                lemma_slot_addr_round_trip(
                    pre.spec_base(),
                    pre.spec_slot_size(),
                    pre.spec_capacity(),
                    idx,
                );
                assert(self.live(a));
                assert(self.slot_of(a) == idx);
            }
        }
        r
    }

    fn deallocate(&mut self, allocation: usize) -> (r: Result<(), AllocError>) {
        self.try_release(allocation)
    }
}

/// A slot's address leads back to its index: adding `idx * slot_size` to
/// the base lands on a slot boundary, and dividing recovers `idx`.
proof fn lemma_slot_addr_round_trip(base: int, slot_size: int, capacity: int, idx: int)
    requires
        slot_size >= 1,
        0 <= idx < capacity,
        base >= 0,
    ensures
        base + idx * slot_size >= base,
        (base + idx * slot_size - base) % slot_size == 0,
        (base + idx * slot_size - base) / slot_size == idx,
{
    assert(idx * slot_size >= 0 && (idx * slot_size) % slot_size == 0 && (idx * slot_size)
        / slot_size == idx) by (nonlinear_arith)
        requires
            slot_size >= 1,
            0 <= idx,
    ;
}

/// A slot handed out while `s` is outstanding differs from every slot in
/// `s`: the pool never hands the same slot out twice without a release in
/// between.
pub proof fn lemma_acquire_returns_fresh_slot(s: Set<int>, held: int, fresh: int)
    requires
        s.contains(held),
        !s.contains(fresh),
    ensures
        fresh != held,
{
}

} // verus!
