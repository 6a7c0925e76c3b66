//! A sequence-of-T abstraction usable both where growth is acceptable and
//! where memory is constrained.
//!
//! A [`BoundedVec`] is created with a capacity policy: either growable, with
//! no fixed limit, or bounded, with a fixed maximum element count.  Under the
//! bounded policy an insertion beyond capacity fails explicitly instead of
//! reallocating, which is the behaviour a fixed-capacity deployment needs.

use vstd::prelude::*;

use crate::utils::Error;

verus! {

/// A sequence with an explicit element-capacity policy.
#[derive(Debug, Clone, PartialEq)]
pub struct BoundedVec<T> {
    items: Vec<T>,
    limit: Option<usize>,
}

impl<T> View for BoundedVec<T> {
    type V = Seq<T>;

    closed spec fn view(&self) -> Seq<T> {
        self.items@
    }
}

impl<T> BoundedVec<T> {
    /// The capacity policy: `None` grows without bound, `Some(c)` holds at
    /// most `c` elements.
    pub closed spec fn spec_limit(self) -> Option<usize> {
        self.limit
    }

    /// The stored elements never exceed the policy's limit.  Constructors
    /// establish this and every method preserves it.
    pub closed spec fn wf(self) -> bool {
        match self.limit {
            Some(c) => self.items@.len() <= c,
            None => true,
        }
    }

    /// An empty sequence under the growable policy.
    pub fn growable() -> (r: BoundedVec<T>)
        ensures
            r@ == Seq::<T>::empty(),
            r.spec_limit() is None,
            r.wf(),
    {
        BoundedVec { items: Vec::new(), limit: None }
    }

    /// An empty sequence that will hold at most `limit` elements.
    pub fn bounded(limit: usize) -> (r: BoundedVec<T>)
        ensures
            r@ == Seq::<T>::empty(),
            r.spec_limit() == Some(limit),
            r.wf(),
    {
        BoundedVec { items: Vec::new(), limit: Some(limit) }
    }

    /// Appends an element.  Under the bounded policy this fails explicitly
    /// once the limit is reached, and the sequence is left unchanged.
    pub fn push(&mut self, value: T) -> (r: Result<(), Error>)
        requires
            old(self).wf(),
        ensures
            final(self).wf(),
            r is Ok <==> (old(self).spec_limit() matches Some(c) ==> old(self)@.len() < c),
            r is Ok ==> final(self)@ == old(self)@.push(value),
            r is Err ==> final(self)@ == old(self)@ && r == Result::<(), Error>::Err(
                Error::WriteZero,
            ),
            final(self).spec_limit() == old(self).spec_limit(),
    {
        match self.limit {
            Some(c) => {
                if self.items.len() < c {
                    self.items.push(value);
                    Ok(())
                } else {
                    Err(Error::WriteZero)
                }
            },
            None => {
                self.items.push(value);
                Ok(())
            },
        }
    }

    /// Number of stored elements.
    pub fn len(&self) -> (r: usize)
        ensures
            r == self@.len(),
    {
        self.items.len()
    }

    /// The element at index `i`.
    pub fn get(&self, i: usize) -> (r: &T)
        requires
            i < self@.len(),
        ensures
            *r == self@[i as int],
    {
        &self.items[i]
    }
}

} // verus!
