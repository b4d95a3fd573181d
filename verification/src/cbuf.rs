//! Fixed-capacity circular buffer.
//!
//! A first-in, first-out queue over a preallocated ring of `capacity`
//! slots: `push` refuses new elements once `len == capacity`, and `get`
//! takes the oldest element out. The abstract view is the sequence of
//! queued elements, oldest first. `empty` holds exactly when nothing is
//! queued, `full` exactly when every slot is taken.

use std::collections::VecDeque;

use vstd::prelude::*;

use crate::error::CollectionError;

verus! {

/// Fixed-size circular buffer.
pub struct CircularBuffer<T> {
    buf: VecDeque<T>,
    capacity: usize,
}

impl<T> View for CircularBuffer<T> {
    type V = Seq<T>;

    closed spec fn view(&self) -> Seq<T> {
        self.buf@
    }
}

impl<T> CircularBuffer<T> {
    /// Number of slots.
    pub closed spec fn spec_capacity(&self) -> int {
        self.capacity as int
    }

    /// No more elements queued than there are slots.
    pub closed spec fn wf(&self) -> bool {
        self.buf@.len() <= self.capacity
    }

    /// An empty buffer of `count` slots.
    pub fn new(count: usize) -> (b: CircularBuffer<T>)
        ensures
            b.wf(),
            b.spec_capacity() == count,
            b@ =~= Seq::<T>::empty(),
    {
        CircularBuffer { buf: VecDeque::with_capacity(count), capacity: count }
    }

    /// True when every slot is taken.
    pub fn full(&self) -> (r: bool)
        requires
            self.wf(),
        ensures
            r == (self@.len() == self.spec_capacity()),
    {
        self.buf.len() == self.capacity
    }

    /// True when nothing is queued.
    pub fn empty(&self) -> (r: bool)
        requires
            self.wf(),
        ensures
            r == (self@.len() == 0),
    {
        self.buf.len() == 0
    }

    /// Number of slots.
    pub fn capacity(&self) -> (r: usize)
        ensures
            r == self.spec_capacity(),
    {
        self.capacity
    }

    /// Number of queued elements.
    pub fn len(&self) -> (r: usize)
        ensures
            r == self@.len(),
    {
        self.buf.len()
    }

    /// Queue `value` behind the newest element; refused with
    /// `CapacityFull` exactly when every slot is taken.
    pub fn push(&mut self, value: T) -> (r: Result<(), CollectionError>)
        requires
            old(self).wf(),
        ensures
            final(self).wf(),
            final(self).spec_capacity() == old(self).spec_capacity(),
            r.is_ok() <==> old(self)@.len() < old(self).spec_capacity(),
            match r {
                Ok(()) => final(self)@ =~= old(self)@.push(value),
                Err(e) => {
                    &&& e == CollectionError::CapacityFull
                    &&& final(self)@ =~= old(self)@
                },
            },
    {
        if self.buf.len() == self.capacity {
            return Err(CollectionError::CapacityFull);
        }
        self.buf.push_back(value);
        Ok(())
    }

    /// Take the oldest element out; `None` exactly when nothing is
    /// queued.
    pub fn get(&mut self) -> (r: Option<T>)
        requires
            old(self).wf(),
        ensures
            final(self).wf(),
            final(self).spec_capacity() == old(self).spec_capacity(),
            match r {
                Some(v) => {
                    &&& old(self)@.len() > 0
                    &&& v == old(self)@[0]
                    &&& final(self)@ =~= old(self)@.drop_first()
                },
                None => {
                    &&& old(self)@.len() == 0
                    &&& final(self)@ =~= old(self)@
                },
            },
    {
        self.buf.pop_front()
    }
}

} // verus!
