//! Edge descriptors.
//!
//! An undirected edge between `a` and `b` is stored as two descriptors: one
//! in `a`'s edge set pointing at `b`, and one in `b`'s edge set pointing at
//! `a`.  Within one node's edge set a descriptor is identified by its
//! destination alone; the weight is payload.

use vstd::prelude::*;

verus! {

/// One endpoint's view of an undirected edge: the neighbour it leads to and
/// the weight of the edge.
#[derive(Clone, Copy, Debug)]
pub struct Edge {
    pub dest: usize,
    pub weight: i32,
}

impl Edge {
    pub fn new(dest: usize, weight: i32) -> (e: Edge)
        ensures
            e.dest == dest,
            e.weight == weight,
    {
        Edge { dest, weight }
    }

    pub fn get_dest(&self) -> (d: usize)
        ensures
            d == self.dest,
    {
        self.dest
    }

    pub fn get_weight(&self) -> (w: i32)
        ensures
            w == self.weight,
    {
        self.weight
    }
}

} // verus!
