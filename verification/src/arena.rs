//! An arena of nodes: ids are handed out in order, and a node never moves once
//! pushed.
use vstd::prelude::*;

verus! {

/// Nodes an arena has room for; ids stay below this bound.
pub const MAX_NODES: usize = 0x8000_0000;

/// Nodes named by the order they were pushed in.
pub struct Arena<T> {
    v: Vec<T>,
}

impl<T> Arena<T> {
    /// The nodes.
    pub closed spec fn view(&self) -> Seq<T> {
        self.v@
    }

    /// Every id is below the bound.
    pub open spec fn wf(&self) -> bool {
        self@.len() <= MAX_NODES
    }

    pub fn new() -> (r: Self)
        ensures
            r@ == Seq::<T>::empty(),
    {
        Arena { v: Vec::new() }
    }

    pub fn len(&self) -> (r: usize)
        ensures
            r == self@.len(),
    {
        self.v.len()
    }

    pub fn push(&mut self, x: T)
        requires
            old(self)@.len() < MAX_NODES,
        ensures
            final(self)@ == old(self)@.push(x),
    {
        self.v.push(x);
    }

    /// Keep the first `n` nodes.
    pub fn truncate(&mut self, n: usize)
        ensures
            final(self)@ == (if n < old(self)@.len() {
                old(self)@.take(n as int)
            } else {
                old(self)@
            }),
    {
        self.v.truncate(n);
    }

    pub fn index(&self, i: usize) -> (r: &T)
        requires
            i < self@.len(),
        ensures
            *r == self@[i as int],
    {
        &self.v[i]
    }

    pub fn index_mut(&mut self, i: usize) -> (r: &mut T)
        requires
            i < old(self)@.len(),
        ensures
            *r == old(self)@[i as int],
            final(self)@ == old(self)@.update(i as int, *final(r)),
    {
        &mut self.v[i]
    }
}

} // verus!
