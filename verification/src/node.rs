//! Node records.
//!
//! A node has an immutable identity, a weight derived from that identity at
//! creation time, and a degree counter that the owning graph keeps equal to
//! the number of distinct edges incident to the node.

use vstd::prelude::*;

verus! {

/// A node record: identity, derived weight and a degree counter maintained
/// by the owning graph.
#[derive(Clone, Copy, Debug)]
pub struct Node {
    pub id: usize,
    pub weight: u32,
    pub degree: usize,
}

impl Node {
    pub fn new(id: usize, weight: u32) -> (n: Node)
        ensures
            n.id == id,
            n.weight == weight,
            n.degree == 0,
    {
        Node { id, weight, degree: 0 }
    }

    pub fn get_weight(&self) -> (w: u32)
        ensures
            w == self.weight,
    {
        self.weight
    }

    pub fn get_id(&self) -> (i: usize)
        ensures
            i == self.id,
    {
        self.id
    }

    /// Adjusts the degree counter up by exactly one.  The counter has no
    /// saturation check, so the caller must know it is below its maximum.
    pub fn increment_degree(&mut self)
        requires
            old(self).degree < usize::MAX,
        ensures
            final(self).id == old(self).id,
            final(self).weight == old(self).weight,
            final(self).degree == old(self).degree + 1,
    {
        self.degree = self.degree + 1;
    }

    /// Adjusts the degree counter down by exactly one.  The counter is
    /// unsigned, so the caller must know it is positive.
    pub fn decrement_degree(&mut self)
        requires
            old(self).degree > 0,
        ensures
            final(self).id == old(self).id,
            final(self).weight == old(self).weight,
            final(self).degree == old(self).degree - 1,
    {
        self.degree = self.degree - 1;
    }

    pub fn get_degree(&self) -> (d: usize)
        ensures
            d == self.degree,
    {
        self.degree
    }
}

} // verus!
