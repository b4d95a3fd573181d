//! Ordered set view over the red-black tree, with set algebra.
//!
//! [`RBTreeSet`] stores keys with unit values in an [`RBTreeMap`]. The
//! algebra operations — difference, intersection, union and symmetric
//! difference — walk the trees once at construction and hand back
//! sequence walkers; each walker's contract pins down exactly which keys
//! it yields.

use vstd::prelude::*;

use crate::map::RBTreeMap;
use crate::order::{lt, TotalOrder};

verus! {

/// Key-only view over the red-black tree.
pub struct RBTreeSet<K: TotalOrder> {
    base: RBTreeMap<K, ()>,
}

impl<K: TotalOrder> View for RBTreeSet<K> {
    type V = Set<K>;

    closed spec fn view(&self) -> Set<K> {
        self.base@.dom()
    }
}

/// The keys a walker built from `items` yields.
pub open spec fn ref_key_seq<K>(items: Seq<&K>) -> Seq<K> {
    Seq::new(items.len(), |i: int| *items[i])
}

/// Positions `from` up to `to` of `m` hold exactly the elements of `a`
/// that are not in `b`, in strictly ascending order.
pub open spec fn range_difference<K: TotalOrder>(
    m: Seq<K>,
    from: int,
    to: int,
    a: Set<K>,
    b: Set<K>,
) -> bool {
    &&& from <= to <= m.len()
    &&& forall|j1: int, j2: int| from <= j1 < j2 < to ==> lt(#[trigger] m[j1], #[trigger] m[j2])
    &&& forall|j: int| from <= j < to ==> a.contains(#[trigger] m[j]) && !b.contains(m[j])
    &&& forall|x: K|
        a.contains(x) && !b.contains(x) ==> exists|j: int| from <= j < to && #[trigger] m[j] == x
}

impl<K: TotalOrder> RBTreeSet<K> {
    /// Well-formedness of the underlying map.
    pub closed spec fn inv(&self) -> bool {
        self.base.inv()
    }

    /// Number of elements.
    pub closed spec fn spec_len(&self) -> int {
        self.base.spec_len()
    }

    /// The elements in ascending order.
    pub closed spec fn key_seq(&self) -> Seq<K> {
        Seq::new(self.base.inorder_seq().len(), |i: int| self.base.inorder_seq()[i].0)
    }

    /// An empty set.
    pub fn new() -> (s: RBTreeSet<K>)
        ensures
            s.inv(),
            s@ =~= Set::<K>::empty(),
            s.spec_len() == 0,
    {
        RBTreeSet { base: RBTreeMap::new() }
    }

    /// An empty set; see [`RBTreeMap::new_in`].
    pub fn new_in() -> (s: RBTreeSet<K>)
        ensures
            s.inv(),
            s@ =~= Set::<K>::empty(),
            s.spec_len() == 0,
    {
        RBTreeSet { base: RBTreeMap::new_in() }
    }

    /// Insert `key`; reports whether an equal key was already present.
    pub fn insert(&mut self, key: K) -> (r: bool)
        requires
            old(self).inv(),
            old(self).spec_len() < usize::MAX,
        ensures
            final(self).inv(),
            final(self)@ =~= old(self)@.insert(key),
            r == old(self)@.contains(key),
            final(self).spec_len() == old(self).spec_len() + if old(self)@.contains(key) {
                0int
            } else {
                1int
            },
    {
        let r = self.base.insert(key, ());
        proof {
            assert(final(self)@ =~= old(self)@.insert(key));
        }
        r.is_some()
    }

    /// The stored key equal to `key`, if present.
    pub fn get(&self, key: &K) -> (r: Option<&K>)
        requires
            self.inv(),
        ensures
            match r {
                Some(k) => self@.contains(*key) && *k == *key,
                None => !self@.contains(*key),
            },
    {
        match self.base.get_key_value(key) {
            Some(p) => Some(p.0),
            None => None,
        }
    }

    /// Remove `key`; reports whether it was present.
    pub fn remove(&mut self, key: &K) -> (r: bool)
        requires
            old(self).inv(),
        ensures
            final(self).inv(),
            final(self)@ =~= old(self)@.remove(*key),
            r == old(self)@.contains(*key),
            final(self).spec_len() == old(self).spec_len() - if old(self)@.contains(*key) {
                1int
            } else {
                0int
            },
    {
        let r = self.base.remove(key);
        proof {
            assert(final(self)@ =~= old(self)@.remove(*key));
        }
        r.is_some()
    }

    /// Whether `key` is an element.
    pub fn contains(&self, key: &K) -> (r: bool)
        requires
            self.inv(),
        ensures
            r == self@.contains(*key),
    {
        self.base.contains_key(key)
    }

    /// Whether `key` is an element.
    pub fn contains_key(&self, key: &K) -> (r: bool)
        requires
            self.inv(),
        ensures
            r == self@.contains(*key),
    {
        self.base.contains_key(key)
    }

    /// Number of elements.
    pub fn len(&self) -> (r: usize)
        requires
            self.inv(),
        ensures
            r == self.spec_len(),
            r == self@.len(),
    {
        proof {
            crate::map::lemma_map_iteration_sorted(&self.base);
        }
        self.base.len()
    }

    /// True when the set holds nothing.
    pub fn is_clear(&self) -> (r: bool)
        requires
            self.inv(),
        ensures
            r == (self.spec_len() == 0),
    {
        self.base.is_clear()
    }

    /// Drop every element.
    pub fn clear(&mut self)
        requires
            old(self).inv(),
        ensures
            final(self).inv(),
            final(self)@ =~= Set::<K>::empty(),
            final(self).spec_len() == 0,
    {
        self.base.clear();
        proof {
            assert(final(self)@ =~= Set::<K>::empty());
        }
    }

    /// Walk the elements in ascending order.
    pub fn iter<'a>(&'a self) -> (it: Iter<'a, K>)
        requires
            self.inv(),
        ensures
            it.wf(),
            it.position() == 0,
            it.model() =~= self.key_seq(),
    {
        let mut items: Vec<&'a K> = Vec::new();
        append_all(self, &mut items);
        let it = Iter { items, pos: 0 };
        proof {
            assert forall|i: int|
                0 <= i < it.model().len() implies it.model()[i] == self.key_seq()[i] by {
                assert(*(it.items@[0 + i]) == self.key_seq()[i]);
            }
        }
        it
    }

    /// Walk the elements of `self` that are not in `other`, in ascending
    /// order.
    pub fn difference<'a>(&'a self, other: &'a RBTreeSet<K>) -> (d: Difference<'a, K>)
        requires
            self.inv(),
            other.inv(),
        ensures
            d.wf(),
            d.position() == 0,
            forall|i: int, j: int|
                0 <= i < j < d.model().len() ==> lt(#[trigger] d.model()[i], #[trigger] d.model()[j]),
            forall|x: K|
                #[trigger] d.model().contains(x) <==> (self@.contains(x) && !other@.contains(x)),
    {
        let mut items: Vec<&'a K> = Vec::new();
        append_not_in(self, other, &mut items);
        let d = Difference { items, pos: 0 };
        proof {
            lemma_walker_set(d.items@, self@, other@);
        }
        d
    }

    /// Walk the elements common to `self` and `other`, in ascending
    /// order. The smaller set is walked; the larger is probed.
    pub fn intersection<'a>(&'a self, other: &'a RBTreeSet<K>) -> (d: Intersection<'a, K>)
        requires
            self.inv(),
            other.inv(),
        ensures
            d.wf(),
            d.position() == 0,
            forall|i: int, j: int|
                0 <= i < j < d.model().len() ==> lt(#[trigger] d.model()[i], #[trigger] d.model()[j]),
            forall|x: K|
                #[trigger] d.model().contains(x) <==> (self@.contains(x) && other@.contains(x)),
    {
        let mut items: Vec<&'a K> = Vec::new();
        if self.len() <= other.len() {
            append_in(self, other, &mut items);
        } else {
            append_in(other, self, &mut items);
        }
        let d = Intersection { items, pos: 0 };
        proof {
            lemma_walker_set_in(d.items@, self@, other@);
        }
        d
    }

    /// Walk the union of `self` and `other`: the larger set first in
    /// ascending order, then the rest of the smaller one in ascending
    /// order; each element exactly once.
    pub fn union<'a>(&'a self, other: &'a RBTreeSet<K>) -> (d: Union<'a, K>)
        requires
            self.inv(),
            other.inv(),
        ensures
            d.wf(),
            d.position() == 0,
            forall|i: int, j: int|
                0 <= i < j < d.model().len() ==> #[trigger] d.model()[i] != #[trigger] d.model()[j],
            forall|x: K|
                #[trigger] d.model().contains(x) <==> (self@.contains(x) || other@.contains(x)),
            self.spec_len() >= other.spec_len() ==> {
                &&& d.model().len() >= self.key_seq().len()
                &&& d.model().take(self.key_seq().len() as int) =~= self.key_seq()
                &&& range_difference(
                    d.model(),
                    self.key_seq().len() as int,
                    d.model().len() as int,
                    other@,
                    self@,
                )
            },
            self.spec_len() < other.spec_len() ==> {
                &&& d.model().len() >= other.key_seq().len()
                &&& d.model().take(other.key_seq().len() as int) =~= other.key_seq()
                &&& range_difference(
                    d.model(),
                    other.key_seq().len() as int,
                    d.model().len() as int,
                    self@,
                    other@,
                )
            },
    {
        let mut items: Vec<&'a K> = Vec::new();
        if self.len() >= other.len() {
            append_all(self, &mut items);
            let ghost mid = items@;
            append_not_in(other, self, &mut items);
            let d = Union { items, pos: 0 };
            proof {
                lemma_key_seq_facts(self);
                assert forall|j: int|
                    0 <= j < self.key_seq().len() implies *(#[trigger] d.items@[j])
                    == self.key_seq()[j] by {
                    assert(*(mid[0 + j]) == self.key_seq()[j]);
                    assert(d.items@[j] == mid[j]);
                }
                lemma_walker_union(d.items@, self@, other@, self.key_seq());
                lemma_union_order(d.items@, mid.len() as int, self.key_seq(), other@, self@);
            }
            d
        } else {
            append_all(other, &mut items);
            let ghost mid = items@;
            append_not_in(self, other, &mut items);
            let d = Union { items, pos: 0 };
            proof {
                lemma_key_seq_facts(other);
                assert forall|j: int|
                    0 <= j < other.key_seq().len() implies *(#[trigger] d.items@[j])
                    == other.key_seq()[j] by {
                    assert(*(mid[0 + j]) == other.key_seq()[j]);
                    assert(d.items@[j] == mid[j]);
                }
                lemma_walker_union(d.items@, other@, self@, other.key_seq());
                lemma_union_order(d.items@, mid.len() as int, other.key_seq(), self@, other@);
                assert forall|x: K|
                    #[trigger] ref_key_seq(d.items@).contains(x) <==> (self@.contains(x)
                        || other@.contains(x)) by {}
            }
            d
        }
    }

    /// Walk the elements in exactly one of `self` and `other`: first
    /// those only in `self` in ascending order, then those only in
    /// `other` in ascending order; each exactly once.
    pub fn symmetric_difference<'a>(&'a self, other: &'a RBTreeSet<K>) -> (d: SymmetricDifference<
        'a,
        K,
    >)
        requires
            self.inv(),
            other.inv(),
        ensures
            d.wf(),
            d.position() == 0,
            forall|i: int, j: int|
                0 <= i < j < d.model().len() ==> #[trigger] d.model()[i] != #[trigger] d.model()[j],
            forall|x: K|
                #[trigger] d.model().contains(x) <==> (self@.contains(x) != other@.contains(x)),
            exists|n: int|
                #[trigger] range_difference(d.model(), 0, n, self@, other@) && range_difference(
                    d.model(),
                    n,
                    d.model().len() as int,
                    other@,
                    self@,
                ),
    {
        let mut items: Vec<&'a K> = Vec::new();
        append_not_in(self, other, &mut items);
        let ghost first = items@;
        append_not_in(other, self, &mut items);
        let d = SymmetricDifference { items, pos: 0 };
        proof {
            lemma_walker_symm(d.items@, first, self@, other@);
            let n = first.len() as int;
            assert forall|j1: int, j2: int|
                0 <= j1 < j2 < n implies lt(
                *(#[trigger] d.items@[j1]),
                *(#[trigger] d.items@[j2]),
            ) by {
                assert(d.items@[j1] == first[j1] && d.items@[j2] == first[j2]);
                assert(lt(*(first[j1]), *(first[j2])));
            }
            assert forall|j: int|
                0 <= j < n implies self@.contains(*(#[trigger] d.items@[j])) && !other@.contains(
                *d.items@[j],
            ) by {
                assert(d.items@[j] == first[j]);
            }
            assert forall|x: K|
                self@.contains(x) && !other@.contains(x) implies exists|j: int|
                0 <= j < n && *(#[trigger] d.items@[j]) == x by {
                let j = choose|j: int| 0 <= j < first.len() && *(#[trigger] first[j]) == x;
                assert(d.items@[j] == first[j]);
            }
            lemma_range_difference_from_items(d.items@, 0, n, self@, other@);
            lemma_range_difference_from_items(
                d.items@,
                n,
                d.items@.len() as int,
                other@,
                self@,
            );
            assert(range_difference(d.model(), 0, n, self@, other@));
        }
        d
    }
}

/// The first `n` entries of a walker vector cover the stated set exactly.
spec fn part_covers<K: TotalOrder>(
    items: Seq<&K>,
    from: int,
    to: int,
    a: Set<K>,
    b: Set<K>,
) -> bool {
    &&& forall|j: int|
        from <= j < to ==> a.contains(*(#[trigger] items[j])) && !b.contains(*items[j])
    &&& forall|x: K|
        a.contains(x) && !b.contains(x) ==> exists|j: int| from <= j < to && *(#[trigger] items[j]) == x
}

/// The element sequence of a set is exactly the set: it has as many
/// entries as the set has elements, each entry is an element, the
/// entries ascend strictly, and every element appears. This ties the
/// walker handed out by [`RBTreeSet::iter`] — whose model is
/// [`RBTreeSet::key_seq`] — to the abstract set view.
pub proof fn lemma_key_seq_facts<K: TotalOrder>(a: &RBTreeSet<K>)
    requires
        a.inv(),
    ensures
        a.key_seq().len() == a.spec_len(),
        forall|i: int| 0 <= i < a.key_seq().len() ==> a@.contains(#[trigger] a.key_seq()[i]),
        forall|i: int, j: int|
            0 <= i < j < a.key_seq().len() ==> lt(
                #[trigger] a.key_seq()[i],
                #[trigger] a.key_seq()[j],
            ),
        forall|x: K|
            #[trigger] a@.contains(x) ==> exists|i: int|
                0 <= i < a.key_seq().len() && #[trigger] a.key_seq()[i] == x,
        a@.finite(),
        a@.len() == a.spec_len(),
{
    crate::map::lemma_map_iteration_sorted(&a.base);
    assert forall|i: int| 0 <= i < a.key_seq().len() implies a@.contains(
        #[trigger] a.key_seq()[i],
    ) by {
        assert(a.key_seq()[i] == (a.base.inorder_seq()[i]).0);
    }
    assert forall|i: int, j: int|
        0 <= i < j < a.key_seq().len() implies lt(
        #[trigger] a.key_seq()[i],
        #[trigger] a.key_seq()[j],
    ) by {
        assert(a.key_seq()[i] == (a.base.inorder_seq()[i]).0);
        assert(a.key_seq()[j] == (a.base.inorder_seq()[j]).0);
    }
    assert forall|x: K| #[trigger] a@.contains(x) implies exists|i: int|
        0 <= i < a.key_seq().len() && #[trigger] a.key_seq()[i] == x by {
        let i = choose|i: int|
            0 <= i < a.base.inorder_seq().len() && (#[trigger] a.base.inorder_seq()[i]).0 == x;
        assert(a.key_seq()[i] == x);
    }
}

/// Append every element of `a`, in ascending order.
fn append_all<'a, K: TotalOrder>(a: &'a RBTreeSet<K>, out: &mut Vec<&'a K>)
    requires
        a.inv(),
    ensures
        final(out)@.len() == old(out)@.len() + a.key_seq().len(),
        forall|i: int| 0 <= i < old(out)@.len() ==> final(out)@[i] == #[trigger] old(out)@[i],
        forall|j: int|
            0 <= j < a.key_seq().len() ==> *(#[trigger] final(out)@[old(out)@.len() + j])
                == a.key_seq()[j],
{
    let mut it = a.base.keys();
    loop
        invariant
            it.wf(),
            it.model() == a.base.inorder_seq(),
            a.inv(),
            0 <= it.position() <= it.model().len(),
            out@.len() == old(out)@.len() + it.position(),
            forall|i: int| 0 <= i < old(out)@.len() ==> out@[i] == #[trigger] old(out)@[i],
            forall|j: int|
                0 <= j < it.position() ==> *(#[trigger] out@[old(out)@.len() + j])
                    == a.key_seq()[j],
        ensures
            it.position() == it.model().len(),
        decreases it.model().len() - it.position(),
    {
        match it.next_inner() {
            Some(k) => {
                let ghost pos0 = it.position() - 1;
                out.push(k);
                proof {
                    assert(*k == a.key_seq()[pos0]);
                    assert(out@[old(out)@.len() + pos0] == k);
                }
            },
            None => {
                break ;
            },
        }
    }
}

/// Append the elements of `a` for which membership in `b` matches
/// `wanted`, in ascending order.
#[verifier::spinoff_prover]
#[verifier::rlimit(100)]
fn append_matching<'a, K: TotalOrder>(
    a: &'a RBTreeSet<K>,
    b: &RBTreeSet<K>,
    wanted: bool,
    out: &mut Vec<&'a K>,
)
    requires
        a.inv(),
        b.inv(),
    ensures
        final(out)@.len() >= old(out)@.len(),
        forall|i: int| 0 <= i < old(out)@.len() ==> final(out)@[i] == #[trigger] old(out)@[i],
        forall|j1: int, j2: int|
            old(out)@.len() <= j1 < j2 < final(out)@.len() ==> lt(
                *(#[trigger] final(out)@[j1]),
                *(#[trigger] final(out)@[j2]),
            ),
        forall|j: int|
            old(out)@.len() <= j < final(out)@.len() ==> a@.contains(*(#[trigger] final(out)@[j]))
                && b@.contains(*final(out)@[j]) == wanted,
        forall|x: K|
            a@.contains(x) && b@.contains(x) == wanted ==> exists|j: int|
                old(out)@.len() <= j < final(out)@.len() && *(#[trigger] final(out)@[j]) == x,
{
    proof {
        lemma_key_seq_facts(a);
    }
    let mut it = a.base.keys();
    loop
        invariant_except_break
            forall|j: int|
                old(out)@.len() <= j < out@.len() ==> exists|i: int|
                    0 <= i < it.position() && *(#[trigger] out@[j]) == a.key_seq()[i],
        invariant
            it.wf(),
            it.model() == a.base.inorder_seq(),
            a.inv(),
            b.inv(),
            0 <= it.position() <= it.model().len(),
            out@.len() >= old(out)@.len(),
            forall|i: int| 0 <= i < old(out)@.len() ==> out@[i] == #[trigger] old(out)@[i],
            forall|j1: int, j2: int|
                old(out)@.len() <= j1 < j2 < out@.len() ==> lt(
                    *(#[trigger] out@[j1]),
                    *(#[trigger] out@[j2]),
                ),
            forall|j: int|
                old(out)@.len() <= j < out@.len() ==> a@.contains(*(#[trigger] out@[j]))
                    && b@.contains(*out@[j]) == wanted,
            forall|i: int|
                0 <= i < it.position() && b@.contains(#[trigger] a.key_seq()[i]) == wanted
                    ==> exists|j: int|
                    old(out)@.len() <= j < out@.len() && *(#[trigger] out@[j]) == a.key_seq()[i],
        ensures
            out@.len() >= old(out)@.len(),
            forall|i: int| 0 <= i < old(out)@.len() ==> out@[i] == #[trigger] old(out)@[i],
            forall|j1: int, j2: int|
                old(out)@.len() <= j1 < j2 < out@.len() ==> lt(
                    *(#[trigger] out@[j1]),
                    *(#[trigger] out@[j2]),
                ),
            forall|j: int|
                old(out)@.len() <= j < out@.len() ==> a@.contains(*(#[trigger] out@[j]))
                    && b@.contains(*out@[j]) == wanted,
            forall|x: K|
                a@.contains(x) && b@.contains(x) == wanted ==> exists|j: int|
                    old(out)@.len() <= j < out@.len() && *(#[trigger] out@[j]) == x,
        decreases it.model().len() - it.position(),
    {
        proof {
            lemma_key_seq_facts(a);
        }
        match it.next_inner() {
            Some(k) => {
                let ghost pos0 = it.position() - 1;
                proof {
                    assert(*k == a.key_seq()[pos0]);
                    assert(a@.contains(*k));
                }
                let hit = b.contains(k);
                if hit == wanted {
                    let ghost out_before = out@;
                    out.push(k);
                    proof {
                        assert(*(out@[out@.len() - 1]) == a.key_seq()[pos0]);
                        assert forall|j1: int, j2: int|
                            old(out)@.len() <= j1 < j2 < out@.len() implies lt(
                            *(#[trigger] out@[j1]),
                            *(#[trigger] out@[j2]),
                        ) by {
                            if j2 == out@.len() - 1 {
                                let i1 = choose|i: int|
                                    0 <= i < pos0 + 1 && *(#[trigger] out_before[j1])
                                        == a.key_seq()[i];
                                assert(i1 < pos0);
                                assert(lt(a.key_seq()[i1], a.key_seq()[pos0]));
                            } else {
                                assert(lt(*(out_before[j1]), *(out_before[j2])));
                            }
                        }
                        assert forall|j: int|
                            old(out)@.len() <= j < out@.len() implies exists|i: int|
                            0 <= i < it.position() && *(#[trigger] out@[j]) == a.key_seq()[i] by {
                            if j == out@.len() - 1 {
                                assert(*(out@[j]) == a.key_seq()[pos0]);
                            } else {
                                let i = choose|i: int|
                                    0 <= i < pos0 + 1 && *(#[trigger] out_before[j])
                                        == a.key_seq()[i];
                                assert(*(out@[j]) == a.key_seq()[i]);
                            }
                        }
                        assert forall|i: int|
                            0 <= i < it.position() && b@.contains(#[trigger] a.key_seq()[i])
                                == wanted implies exists|j: int|
                            old(out)@.len() <= j < out@.len() && *(#[trigger] out@[j])
                                == a.key_seq()[i] by {
                            if i == pos0 {
                                assert(*(out@[out@.len() - 1]) == a.key_seq()[pos0]);
                            } else {
                                let j = choose|j: int|
                                    old(out)@.len() <= j < out_before.len() && *(
                                    #[trigger] out_before[j]) == a.key_seq()[i];
                                assert(*(out@[j]) == a.key_seq()[i]);
                            }
                        }
                    }
                } else {
                    proof {
                        assert(b@.contains(a.key_seq()[pos0]) == hit);
                        assert forall|i: int|
                            0 <= i < it.position() && b@.contains(#[trigger] a.key_seq()[i])
                                == wanted implies exists|j: int|
                            old(out)@.len() <= j < out@.len() && *(#[trigger] out@[j])
                                == a.key_seq()[i] by {
                            assert(i != pos0);
                        }
                    }
                }
            },
            None => {
                proof {
                    assert forall|x: K|
                        a@.contains(x) && b@.contains(x) == wanted implies exists|j: int|
                        old(out)@.len() <= j < out@.len() && *(#[trigger] out@[j]) == x by {
                        let i = choose|i: int|
                            0 <= i < a.key_seq().len() && #[trigger] a.key_seq()[i] == x;
                        assert(b@.contains(a.key_seq()[i]) == wanted);
                    }
                }
                break ;
            },
        }
    }
}

/// Append the elements of `a` that are not in `b`, in ascending order.
fn append_not_in<'a, K: TotalOrder>(a: &'a RBTreeSet<K>, b: &RBTreeSet<K>, out: &mut Vec<&'a K>)
    requires
        a.inv(),
        b.inv(),
    ensures
        final(out)@.len() >= old(out)@.len(),
        forall|i: int| 0 <= i < old(out)@.len() ==> final(out)@[i] == #[trigger] old(out)@[i],
        forall|j1: int, j2: int|
            old(out)@.len() <= j1 < j2 < final(out)@.len() ==> lt(
                *(#[trigger] final(out)@[j1]),
                *(#[trigger] final(out)@[j2]),
            ),
        part_covers(final(out)@, old(out)@.len() as int, final(out)@.len() as int, a@, b@),
{
    append_matching(a, b, false, out)
}

/// Append the elements of `a` that are also in `b`, in ascending order.
fn append_in<'a, K: TotalOrder>(a: &'a RBTreeSet<K>, b: &RBTreeSet<K>, out: &mut Vec<&'a K>)
    requires
        a.inv(),
        b.inv(),
    ensures
        final(out)@.len() >= old(out)@.len(),
        forall|i: int| 0 <= i < old(out)@.len() ==> final(out)@[i] == #[trigger] old(out)@[i],
        forall|j1: int, j2: int|
            old(out)@.len() <= j1 < j2 < final(out)@.len() ==> lt(
                *(#[trigger] final(out)@[j1]),
                *(#[trigger] final(out)@[j2]),
            ),
        forall|j: int|
            old(out)@.len() <= j < final(out)@.len() ==> a@.contains(*(#[trigger] final(out)@[j]))
                && b@.contains(*final(out)@[j]),
        forall|x: K|
            a@.contains(x) && b@.contains(x) ==> exists|j: int|
                old(out)@.len() <= j < final(out)@.len() && *(#[trigger] final(out)@[j]) == x,
{
    append_matching(a, b, true, out)
}

/// The walker of a union: its first part reads back the big side's key
/// sequence, and its tail is the ascending difference of the small side.
proof fn lemma_union_order<K: TotalOrder>(
    items: Seq<&K>,
    mid_len: int,
    big_keys: Seq<K>,
    small: Set<K>,
    big: Set<K>,
)
    requires
        mid_len == big_keys.len(),
        big_keys.len() <= items.len(),
        forall|j: int| 0 <= j < big_keys.len() ==> *(#[trigger] items[j]) == big_keys[j],
        forall|j1: int, j2: int|
            mid_len <= j1 < j2 < items.len() ==> lt(
                *(#[trigger] items[j1]),
                *(#[trigger] items[j2]),
            ),
        forall|j: int|
            mid_len <= j < items.len() ==> small.contains(*(#[trigger] items[j])) && !big.contains(
                *items[j],
            ),
        forall|x: K|
            small.contains(x) && !big.contains(x) ==> exists|j: int|
                mid_len <= j < items.len() && *(#[trigger] items[j]) == x,
    ensures
        ref_key_seq(items).take(big_keys.len() as int) =~= big_keys,
        range_difference(ref_key_seq(items), mid_len, ref_key_seq(items).len() as int, small, big),
{
    let m = ref_key_seq(items);
    assert forall|j: int| 0 <= j < big_keys.len() implies m.take(big_keys.len() as int)[j]
        == big_keys[j] by {
        assert(m[j] == *(items[j]));
    }
    assert forall|j1: int, j2: int| mid_len <= j1 < j2 < m.len() implies lt(
        #[trigger] m[j1],
        #[trigger] m[j2],
    ) by {
        assert(m[j1] == *(items[j1]) && m[j2] == *(items[j2]));
    }
    assert forall|j: int| mid_len <= j < m.len() implies small.contains(#[trigger] m[j])
        && !big.contains(m[j]) by {
        assert(m[j] == *(items[j]));
    }
    assert forall|x: K| small.contains(x) && !big.contains(x) implies exists|j: int|
        mid_len <= j < m.len() && #[trigger] m[j] == x by {
        let j = choose|j: int| mid_len <= j < items.len() && *(#[trigger] items[j]) == x;
        assert(m[j] == x);
    }
}

/// Lift range facts from a walker's reference vector to its key model.
proof fn lemma_range_difference_from_items<K: TotalOrder>(
    items: Seq<&K>,
    from: int,
    to: int,
    a: Set<K>,
    b: Set<K>,
)
    requires
        0 <= from <= to <= items.len(),
        forall|j1: int, j2: int|
            from <= j1 < j2 < to ==> lt(*(#[trigger] items[j1]), *(#[trigger] items[j2])),
        forall|j: int|
            from <= j < to ==> a.contains(*(#[trigger] items[j])) && !b.contains(*items[j]),
        forall|x: K|
            a.contains(x) && !b.contains(x) ==> exists|j: int|
                from <= j < to && *(#[trigger] items[j]) == x,
    ensures
        range_difference(ref_key_seq(items), from, to, a, b),
{
    let m = ref_key_seq(items);
    assert forall|j1: int, j2: int| from <= j1 < j2 < to implies lt(
        #[trigger] m[j1],
        #[trigger] m[j2],
    ) by {
        assert(m[j1] == *(items[j1]) && m[j2] == *(items[j2]));
    }
    assert forall|j: int| from <= j < to implies a.contains(#[trigger] m[j]) && !b.contains(
        m[j],
    ) by {
        assert(m[j] == *(items[j]));
    }
    assert forall|x: K| a.contains(x) && !b.contains(x) implies exists|j: int|
        from <= j < to && #[trigger] m[j] == x by {
        let j = choose|j: int| from <= j < to && *(#[trigger] items[j]) == x;
        assert(m[j] == x);
    }
}

/// Membership characterisation for a difference walker.
proof fn lemma_walker_set<K: TotalOrder>(items: Seq<&K>, a: Set<K>, b: Set<K>)
    requires
        part_covers(items, 0, items.len() as int, a, b),
    ensures
        forall|x: K| #[trigger] ref_key_seq(items).contains(x) <==> (a.contains(x) && !b.contains(x)),
{
    assert forall|x: K|
        #[trigger] ref_key_seq(items).contains(x) <==> (a.contains(x) && !b.contains(x)) by {
        if ref_key_seq(items).contains(x) {
            let j = choose|j: int|
                0 <= j < ref_key_seq(items).len() && ref_key_seq(items)[j] == x;
            assert(*(items[j]) == x);
        }
        if a.contains(x) && !b.contains(x) {
            let j = choose|j: int| 0 <= j < items.len() && *(#[trigger] items[j]) == x;
            assert(ref_key_seq(items)[j] == x);
        }
    }
}

/// Membership characterisation for an intersection walker.
proof fn lemma_walker_set_in<K: TotalOrder>(items: Seq<&K>, a: Set<K>, b: Set<K>)
    requires
        forall|j: int|
            0 <= j < items.len() ==> a.contains(*(#[trigger] items[j])) && b.contains(*items[j]),
        forall|x: K|
            (a.contains(x) && b.contains(x)) || (b.contains(x) && a.contains(x)) ==> exists|j: int|
                0 <= j < items.len() && *(#[trigger] items[j]) == x,
    ensures
        forall|x: K| #[trigger] ref_key_seq(items).contains(x) <==> (a.contains(x) && b.contains(x)),
{
    assert forall|x: K|
        #[trigger] ref_key_seq(items).contains(x) <==> (a.contains(x) && b.contains(x)) by {
        if ref_key_seq(items).contains(x) {
            let j = choose|j: int|
                0 <= j < ref_key_seq(items).len() && ref_key_seq(items)[j] == x;
            assert(*(items[j]) == x);
        }
        if a.contains(x) && b.contains(x) {
            let j = choose|j: int| 0 <= j < items.len() && *(#[trigger] items[j]) == x;
            assert(ref_key_seq(items)[j] == x);
        }
    }
}

/// Distinctness and membership for a union walker: the big side's keys,
/// then the small side's leftovers.
proof fn lemma_walker_union<K: TotalOrder>(
    items: Seq<&K>,
    big: Set<K>,
    small: Set<K>,
    big_keys: Seq<K>,
)
    requires
        big_keys.len() <= items.len(),
        forall|j: int| 0 <= j < big_keys.len() ==> *(#[trigger] items[j]) == big_keys[j],
        forall|i: int, j: int|
            0 <= i < j < big_keys.len() ==> lt(#[trigger] big_keys[i], #[trigger] big_keys[j]),
        forall|i: int| 0 <= i < big_keys.len() ==> big.contains(#[trigger] big_keys[i]),
        forall|x: K|
            #[trigger] big.contains(x) ==> exists|i: int|
                0 <= i < big_keys.len() && #[trigger] big_keys[i] == x,
        forall|j1: int, j2: int|
            big_keys.len() <= j1 < j2 < items.len() ==> lt(
                *(#[trigger] items[j1]),
                *(#[trigger] items[j2]),
            ),
        part_covers(items, big_keys.len() as int, items.len() as int, small, big),
    ensures
        forall|i: int, j: int|
            0 <= i < j < items.len() ==> *(#[trigger] items[i]) != *(#[trigger] items[j]),
        forall|x: K|
            #[trigger] ref_key_seq(items).contains(x) <==> (big.contains(x) || small.contains(x)),
{
    assert forall|i: int, j: int|
        0 <= i < j < items.len() implies *(#[trigger] items[i]) != *(#[trigger] items[j]) by {
        if j < big_keys.len() {
            assert(lt(big_keys[i], big_keys[j]));
        } else if i >= big_keys.len() {
            assert(lt(*(items[i]), *(items[j])));
        } else {
            assert(big.contains(*(items[i])));
            assert(!big.contains(*(items[j])));
        }
    }
    assert forall|x: K|
        #[trigger] ref_key_seq(items).contains(x) <==> (big.contains(x) || small.contains(x)) by {
        if ref_key_seq(items).contains(x) {
            let j = choose|j: int|
                0 <= j < ref_key_seq(items).len() && ref_key_seq(items)[j] == x;
            assert(*(items[j]) == x);
            if j < big_keys.len() {
                assert(big.contains(x));
            } else {
                assert(small.contains(x));
            }
        }
        if big.contains(x) {
            let i = choose|i: int| 0 <= i < big_keys.len() && #[trigger] big_keys[i] == x;
            assert(*(items[i]) == x);
            assert(ref_key_seq(items)[i] == x);
        } else if small.contains(x) {
            let j = choose|j: int|
                big_keys.len() <= j < items.len() && *(#[trigger] items[j]) == x;
            assert(ref_key_seq(items)[j] == x);
        }
    }
}

/// Distinctness and membership for a symmetric-difference walker.
proof fn lemma_walker_symm<K: TotalOrder>(items: Seq<&K>, first: Seq<&K>, a: Set<K>, b: Set<K>)
    requires
        first.len() <= items.len(),
        forall|j: int| 0 <= j < first.len() ==> #[trigger] items[j] == first[j],
        forall|j1: int, j2: int|
            0 <= j1 < j2 < first.len() ==> lt(*(#[trigger] first[j1]), *(#[trigger] first[j2])),
        part_covers(first, 0, first.len() as int, a, b),
        forall|j1: int, j2: int|
            first.len() <= j1 < j2 < items.len() ==> lt(
                *(#[trigger] items[j1]),
                *(#[trigger] items[j2]),
            ),
        part_covers(items, first.len() as int, items.len() as int, b, a),
    ensures
        forall|i: int, j: int|
            0 <= i < j < items.len() ==> *(#[trigger] items[i]) != *(#[trigger] items[j]),
        forall|x: K|
            #[trigger] ref_key_seq(items).contains(x) <==> (a.contains(x) != b.contains(x)),
{
    assert forall|i: int, j: int|
        0 <= i < j < items.len() implies *(#[trigger] items[i]) != *(#[trigger] items[j]) by {
        if j < first.len() {
            assert(lt(*(first[i]), *(first[j])));
        } else if i >= first.len() {
            assert(lt(*(items[i]), *(items[j])));
        } else {
            assert(a.contains(*(first[i])) && !b.contains(*(first[i])));
            assert(b.contains(*(items[j])) && !a.contains(*(items[j])));
        }
    }
    assert forall|x: K|
        #[trigger] ref_key_seq(items).contains(x) <==> (a.contains(x) != b.contains(x)) by {
        if ref_key_seq(items).contains(x) {
            let j = choose|j: int|
                0 <= j < ref_key_seq(items).len() && ref_key_seq(items)[j] == x;
            assert(*(items[j]) == x);
            if j < first.len() {
                assert(a.contains(x) && !b.contains(x));
            } else {
                assert(b.contains(x) && !a.contains(x));
            }
        }
        if a.contains(x) && !b.contains(x) {
            let j = choose|j: int| 0 <= j < first.len() && *(#[trigger] first[j]) == x;
            assert(items[j] == first[j]);
            assert(ref_key_seq(items)[j] == x);
        }
        if b.contains(x) && !a.contains(x) {
            let j = choose|j: int|
                first.len() <= j < items.len() && *(#[trigger] items[j]) == x;
            assert(ref_key_seq(items)[j] == x);
        }
    }
}

/// Walker over the elements of one set.
pub struct Iter<'a, K: TotalOrder> {
    items: Vec<&'a K>,
    pos: usize,
}

impl<'a, K: TotalOrder> Iter<'a, K> {
    /// The full sequence of keys this walker yields.
    pub closed spec fn model(&self) -> Seq<K> {
        ref_key_seq(self.items@)
    }

    /// How many keys have been yielded.
    pub closed spec fn position(&self) -> int {
        self.pos as int
    }

    pub closed spec fn wf(&self) -> bool {
        self.pos <= self.items@.len()
    }

    /// The next key, or `None` when the walk is done.
    pub fn next_inner(&mut self) -> (r: Option<&'a K>)
        requires
            old(self).wf(),
        ensures
            final(self).wf(),
            final(self).model() =~= old(self).model(),
            match r {
                Some(k) => {
                    &&& old(self).position() < old(self).model().len()
                    &&& *k == old(self).model()[old(self).position()]
                    &&& final(self).position() == old(self).position() + 1
                },
                None => {
                    &&& old(self).position() == old(self).model().len()
                    &&& final(self).position() == old(self).position()
                },
            },
    {
        if self.pos < self.items.len() {
            let k = self.items[self.pos];
            self.pos = self.pos + 1;
            Some(k)
        } else {
            None
        }
    }
}

/// Walker over a set difference.
pub struct Difference<'a, K: TotalOrder> {
    items: Vec<&'a K>,
    pos: usize,
}

impl<'a, K: TotalOrder> Difference<'a, K> {
    /// The full sequence of keys this walker yields.
    pub closed spec fn model(&self) -> Seq<K> {
        ref_key_seq(self.items@)
    }

    /// How many keys have been yielded.
    pub closed spec fn position(&self) -> int {
        self.pos as int
    }

    pub closed spec fn wf(&self) -> bool {
        self.pos <= self.items@.len()
    }

    /// The next key, or `None` when the walk is done.
    pub fn next_inner(&mut self) -> (r: Option<&'a K>)
        requires
            old(self).wf(),
        ensures
            final(self).wf(),
            final(self).model() =~= old(self).model(),
            match r {
                Some(k) => {
                    &&& old(self).position() < old(self).model().len()
                    &&& *k == old(self).model()[old(self).position()]
                    &&& final(self).position() == old(self).position() + 1
                },
                None => {
                    &&& old(self).position() == old(self).model().len()
                    &&& final(self).position() == old(self).position()
                },
            },
    {
        if self.pos < self.items.len() {
            let k = self.items[self.pos];
            self.pos = self.pos + 1;
            Some(k)
        } else {
            None
        }
    }
}

/// Walker over a set intersection.
pub struct Intersection<'a, K: TotalOrder> {
    items: Vec<&'a K>,
    pos: usize,
}

impl<'a, K: TotalOrder> Intersection<'a, K> {
    /// The full sequence of keys this walker yields.
    pub closed spec fn model(&self) -> Seq<K> {
        ref_key_seq(self.items@)
    }

    /// How many keys have been yielded.
    pub closed spec fn position(&self) -> int {
        self.pos as int
    }

    pub closed spec fn wf(&self) -> bool {
        self.pos <= self.items@.len()
    }

    /// The next key, or `None` when the walk is done.
    pub fn next_inner(&mut self) -> (r: Option<&'a K>)
        requires
            old(self).wf(),
        ensures
            final(self).wf(),
            final(self).model() =~= old(self).model(),
            match r {
                Some(k) => {
                    &&& old(self).position() < old(self).model().len()
                    &&& *k == old(self).model()[old(self).position()]
                    &&& final(self).position() == old(self).position() + 1
                },
                None => {
                    &&& old(self).position() == old(self).model().len()
                    &&& final(self).position() == old(self).position()
                },
            },
    {
        if self.pos < self.items.len() {
            let k = self.items[self.pos];
            self.pos = self.pos + 1;
            Some(k)
        } else {
            None
        }
    }
}

/// Walker over a set union.
pub struct Union<'a, K: TotalOrder> {
    items: Vec<&'a K>,
    pos: usize,
}

impl<'a, K: TotalOrder> Union<'a, K> {
    /// The full sequence of keys this walker yields.
    pub closed spec fn model(&self) -> Seq<K> {
        ref_key_seq(self.items@)
    }

    /// How many keys have been yielded.
    pub closed spec fn position(&self) -> int {
        self.pos as int
    }

    pub closed spec fn wf(&self) -> bool {
        self.pos <= self.items@.len()
    }

    /// The next key, or `None` when the walk is done.
    pub fn next_inner(&mut self) -> (r: Option<&'a K>)
        requires
            old(self).wf(),
        ensures
            final(self).wf(),
            final(self).model() =~= old(self).model(),
            match r {
                Some(k) => {
                    &&& old(self).position() < old(self).model().len()
                    &&& *k == old(self).model()[old(self).position()]
                    &&& final(self).position() == old(self).position() + 1
                },
                None => {
                    &&& old(self).position() == old(self).model().len()
                    &&& final(self).position() == old(self).position()
                },
            },
    {
        if self.pos < self.items.len() {
            let k = self.items[self.pos];
            self.pos = self.pos + 1;
            Some(k)
        } else {
            None
        }
    }
}

/// Walker over a symmetric difference.
pub struct SymmetricDifference<'a, K: TotalOrder> {
    items: Vec<&'a K>,
    pos: usize,
}

impl<'a, K: TotalOrder> SymmetricDifference<'a, K> {
    /// The full sequence of keys this walker yields.
    pub closed spec fn model(&self) -> Seq<K> {
        ref_key_seq(self.items@)
    }

    /// How many keys have been yielded.
    pub closed spec fn position(&self) -> int {
        self.pos as int
    }

    pub closed spec fn wf(&self) -> bool {
        self.pos <= self.items@.len()
    }

    /// The next key, or `None` when the walk is done.
    pub fn next_inner(&mut self) -> (r: Option<&'a K>)
        requires
            old(self).wf(),
        ensures
            final(self).wf(),
            final(self).model() =~= old(self).model(),
            match r {
                Some(k) => {
                    &&& old(self).position() < old(self).model().len()
                    &&& *k == old(self).model()[old(self).position()]
                    &&& final(self).position() == old(self).position() + 1
                },
                None => {
                    &&& old(self).position() == old(self).model().len()
                    &&& final(self).position() == old(self).position()
                },
            },
    {
        if self.pos < self.items.len() {
            let k = self.items[self.pos];
            self.pos = self.pos + 1;
            Some(k)
        } else {
            None
        }
    }
}

/// Union is commutative as sets.
pub proof fn lemma_union_commutes<K: TotalOrder>(a: Set<K>, b: Set<K>)
    ensures
        a.union(b) =~= b.union(a),
{
}

/// An intersection is contained in either operand.
pub proof fn lemma_intersection_subset<K: TotalOrder>(a: Set<K>, b: Set<K>)
    ensures
        a.intersect(b).subset_of(a),
        a.intersect(b).subset_of(b),
{
}

/// A difference holds no element of the subtrahend.
pub proof fn lemma_difference_excludes<K: TotalOrder>(a: Set<K>, b: Set<K>)
    ensures
        forall|x: K| #[trigger] a.difference(b).contains(x) ==> !b.contains(x),
        a.difference(b).subset_of(a),
{
}

/// The symmetric difference is the union of the two one-sided
/// differences, and holds exactly the elements in one operand but not
/// the other.
pub proof fn lemma_symmetric_difference<K: TotalOrder>(a: Set<K>, b: Set<K>)
    ensures
        a.difference(b).union(b.difference(a)) =~= Set::new(
            |x: K| a.contains(x) != b.contains(x),
        ),
{
}

} // verus!
