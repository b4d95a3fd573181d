//! Ordered map view over the red-black tree.
//!
//! [`RBTreeMap`] is a thin layer: every operation delegates to the tree
//! and keeps its contract, stated against the abstract [`Map`] view.

use vstd::prelude::*;

use crate::order::TotalOrder;
use crate::rbtree::{lemma_iteration_sorted, lemma_len_is_dom_size, RBTree, RBTreeIterator};

verus! {

/// Key-to-value view over the red-black tree.
pub struct RBTreeMap<K: TotalOrder, V> {
    base: RBTree<K, V>,
}

impl<K: TotalOrder, V> View for RBTreeMap<K, V> {
    type V = Map<K, V>;

    closed spec fn view(&self) -> Map<K, V> {
        self.base@
    }
}

impl<K: TotalOrder, V> RBTreeMap<K, V> {
    /// Well-formedness of the underlying tree.
    pub closed spec fn inv(&self) -> bool {
        self.base.inv()
    }

    /// Number of bindings.
    pub closed spec fn spec_len(&self) -> int {
        self.base.spec_len()
    }

    /// The bindings in ascending key order.
    pub closed spec fn inorder_seq(&self) -> Seq<(K, V)> {
        self.base.inorder_seq()
    }

    /// An empty map.
    pub fn new() -> (m: RBTreeMap<K, V>)
        ensures
            m.inv(),
            m@ =~= Map::<K, V>::empty(),
            m.spec_len() == 0,
    {
        RBTreeMap { base: RBTree::new() }
    }

    /// An empty map; see [`RBTree::new_in`].
    pub fn new_in() -> (m: RBTreeMap<K, V>)
        ensures
            m.inv(),
            m@ =~= Map::<K, V>::empty(),
            m.spec_len() == 0,
    {
        RBTreeMap { base: RBTree::new_in() }
    }

    /// Insert `key -> value`; an existing binding for an equal key is
    /// overwritten and its value handed back.
    pub fn insert(&mut self, key: K, value: V) -> (r: Option<V>)
        requires
            old(self).inv(),
            old(self).spec_len() < usize::MAX,
        ensures
            final(self).inv(),
            final(self)@ =~= old(self)@.insert(key, value),
            match r {
                Some(ov) => old(self)@.dom().contains(key) && ov == old(self)@[key],
                None => !old(self)@.dom().contains(key),
            },
            final(self).spec_len() == old(self).spec_len() + if old(self)@.dom().contains(key) {
                0int
            } else {
                1int
            },
    {
        self.base.insert(key, value)
    }

    /// The value bound to `key`, if any.
    pub fn get(&self, key: &K) -> (r: Option<&V>)
        requires
            self.inv(),
        ensures
            match r {
                Some(val) => self@.dom().contains(*key) && *val == self@[*key],
                None => !self@.dom().contains(*key),
            },
    {
        self.base.get(key)
    }

    /// The stored key and value for `key`, if bound.
    pub fn get_key_value(&self, key: &K) -> (r: Option<(&K, &V)>)
        requires
            self.inv(),
        ensures
            match r {
                Some(p) => {
                    &&& self@.dom().contains(*key)
                    &&& *p.0 == *key
                    &&& *p.1 == self@[*key]
                },
                None => !self@.dom().contains(*key),
            },
    {
        self.base.get_key_value(key)
    }

    /// Remove `key` and hand its value back, or report absence.
    pub fn remove(&mut self, key: &K) -> (r: Option<V>)
        requires
            old(self).inv(),
        ensures
            final(self).inv(),
            final(self)@ =~= old(self)@.remove(*key),
            match r {
                Some(v) => old(self)@.dom().contains(*key) && v == old(self)@[*key],
                None => !old(self)@.dom().contains(*key),
            },
            final(self).spec_len() == old(self).spec_len() - if old(self)@.dom().contains(*key) {
                1int
            } else {
                0int
            },
    {
        self.base.remove(key)
    }

    /// Whether `key` is bound.
    pub fn contains_key(&self, key: &K) -> (r: bool)
        requires
            self.inv(),
        ensures
            r == self@.dom().contains(*key),
    {
        self.base.contains(key)
    }

    /// Number of bindings.
    pub fn len(&self) -> (r: usize)
        requires
            self.inv(),
        ensures
            r == self.spec_len(),
    {
        self.base.len()
    }

    /// True when the map holds nothing.
    pub fn is_clear(&self) -> (r: bool)
        requires
            self.inv(),
        ensures
            r == (self.spec_len() == 0),
    {
        self.base.is_clear()
    }

    /// Drop every binding.
    pub fn clear(&mut self)
        requires
            old(self).inv(),
        ensures
            final(self).inv(),
            final(self)@ =~= Map::<K, V>::empty(),
            final(self).spec_len() == 0,
    {
        self.base.clear()
    }

    /// An in-order iterator over the bindings.
    pub fn iter<'a>(&'a self) -> (it: RBTreeIterator<'a, K, V>)
        requires
            self.inv(),
        ensures
            it.wf(),
            it.model() =~= self.inorder_seq(),
            it.position() == 0,
    {
        self.base.iter()
    }

    /// An in-order iterator over the values.
    pub fn values<'a>(&'a self) -> (it: Values<'a, K, V>)
        requires
            self.inv(),
        ensures
            it.wf(),
            it.model() =~= self.inorder_seq(),
            it.position() == 0,
    {
        Values { it: self.base.iter() }
    }

    /// An in-order iterator over the keys.
    pub fn keys<'a>(&'a self) -> (it: Keys<'a, K, V>)
        requires
            self.inv(),
        ensures
            it.wf(),
            it.model() =~= self.inorder_seq(),
            it.position() == 0,
    {
        Keys { it: self.base.iter() }
    }
}

/// The bindings of a map, in ascending key order, are exactly its
/// abstract view: sorted keys, one entry per binding, every binding
/// present. The map's length is the cardinality of its domain.
pub proof fn lemma_map_iteration_sorted<K: TotalOrder, V>(m: &RBTreeMap<K, V>)
    requires
        m.inv(),
    ensures
        m.inorder_seq().len() == m.spec_len(),
        forall|i: int|
            0 <= i < m.inorder_seq().len() ==> m@.dom().contains(
                (#[trigger] m.inorder_seq()[i]).0,
            ) && m@[m.inorder_seq()[i].0] == m.inorder_seq()[i].1,
        forall|i: int, j: int|
            0 <= i < j < m.inorder_seq().len() ==> crate::order::lt(
                (#[trigger] m.inorder_seq()[i]).0,
                (#[trigger] m.inorder_seq()[j]).0,
            ),
        forall|q: K|
            #[trigger] m@.dom().contains(q) ==> exists|i: int|
                0 <= i < m.inorder_seq().len() && (#[trigger] m.inorder_seq()[i]).0 == q,
        m@.dom().finite(),
        m@.dom().len() == m.spec_len(),
{
    lemma_iteration_sorted(&m.base);
    lemma_len_is_dom_size(&m.base);
    assert forall|q: K| #[trigger] m@.dom().contains(q) implies exists|i: int|
        0 <= i < m.inorder_seq().len() && (#[trigger] m.inorder_seq()[i]).0 == q by {
        let i = choose|i: int|
            0 <= i < m.base.inorder_seq().len() && (#[trigger] m.base.inorder_seq()[i]).0 == q;
        assert((m.inorder_seq()[i]).0 == q);
    }
}

/// Reading back what was inserted: after `insert(k, v)` the map holds
/// `v` at `k`, which is what `get(k)` returns and what a second insert
/// at `k` reports as the replaced value.
pub proof fn lemma_insert_get_round_trip<K: TotalOrder, V>(m: Map<K, V>, k: K, v: V)
    ensures
        m.insert(k, v).dom().contains(k),
        m.insert(k, v)[k] == v,
{
}

/// Iterator over the values of a map, in ascending key order.
pub struct Values<'a, K: TotalOrder, V> {
    it: RBTreeIterator<'a, K, V>,
}

impl<'a, K: TotalOrder, V> Values<'a, K, V> {
    /// The underlying sequence of bindings.
    pub closed spec fn model(&self) -> Seq<(K, V)> {
        self.it.model()
    }

    /// How many values have been yielded.
    pub closed spec fn position(&self) -> int {
        self.it.position()
    }

    pub closed spec fn wf(&self) -> bool {
        self.it.wf() && 0 <= self.it.position()
    }

    /// The next value in key order.
    pub fn next_inner(&mut self) -> (r: Option<&'a V>)
        requires
            old(self).wf(),
        ensures
            final(self).wf(),
            final(self).model() =~= old(self).model(),
            match r {
                Some(v) => {
                    &&& old(self).position() < old(self).model().len()
                    &&& *v == old(self).model()[old(self).position()].1
                    &&& final(self).position() == old(self).position() + 1
                },
                None => {
                    &&& old(self).position() == old(self).model().len()
                    &&& final(self).position() == old(self).position()
                },
            },
    {
        match self.it.next_inner() {
            Some(p) => Some(p.1),
            None => None,
        }
    }
}

/// Iterator over the keys of a map, in ascending order.
pub struct Keys<'a, K: TotalOrder, V> {
    it: RBTreeIterator<'a, K, V>,
}

impl<'a, K: TotalOrder, V> Keys<'a, K, V> {
    /// The underlying sequence of bindings.
    pub closed spec fn model(&self) -> Seq<(K, V)> {
        self.it.model()
    }

    /// How many keys have been yielded.
    pub closed spec fn position(&self) -> int {
        self.it.position()
    }

    pub closed spec fn wf(&self) -> bool {
        self.it.wf() && 0 <= self.it.position()
    }

    /// The next key in order.
    pub fn next_inner(&mut self) -> (r: Option<&'a K>)
        requires
            old(self).wf(),
        ensures
            final(self).wf(),
            final(self).model() =~= old(self).model(),
            match r {
                Some(k) => {
                    &&& old(self).position() < old(self).model().len()
                    &&& *k == old(self).model()[old(self).position()].0
                    &&& final(self).position() == old(self).position() + 1
                },
                None => {
                    &&& old(self).position() == old(self).model().len()
                    &&& final(self).position() == old(self).position()
                },
            },
    {
        match self.it.next_inner() {
            Some(p) => Some(p.0),
            None => None,
        }
    }
}

} // verus!
