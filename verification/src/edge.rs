use vstd::prelude::*;
use crate::bezier::{EdgeGeometry, build_edge, edge_between};
use crate::point::Point;

verus! {

/// The connection of a commit, at `from`, with one of its parents, at `to`.
#[derive(Clone, Copy, Debug, PartialEq, Eq, Structural)]
pub struct Edge {
    pub from: Point,
    pub to: Point,
}

impl Edge {
    /// An edge that starts at (`x`, `y`) and ends, for now, at the origin.
    pub fn new(x: u128, y: u128) -> (edge: Self)
        ensures
            edge == (Edge { from: Point { x, y }, to: Point { x: 0, y: 0 } }),
    {
        Self { from: Point { x, y }, to: Point { x: 0, y: 0 } }
    }

    /// The shape to draw the edge with.
    pub fn geometry(&self) -> (shape: EdgeGeometry)
        ensures
            shape == edge_between(self.to, self.from),
    {
        build_edge(self.to, self.from)
    }
}

/// The edges of a graph, in the order in which they were added.
#[derive(Debug)]
pub struct EdgeManager {
    pub edges: Vec<Edge>,
}

impl EdgeManager {
    /// No edges.
    pub fn new() -> (manager: Self)
        ensures
            manager.edges@ == Seq::<Edge>::empty(),
    {
        Self { edges: Vec::new() }
    }

    /// Adds the edge from `from` to `to` behind those that are there.
    pub fn add(&mut self, from: Point, to: Point)
        ensures
            final(self).edges@ == old(self).edges@.push(Edge { from, to }),
    {
        self.edges.push(Edge { from, to });
    }
}

impl Default for EdgeManager {
    fn default() -> (manager: Self)
        ensures
            manager.edges@ == Seq::<Edge>::empty(),
    {
        EdgeManager::new()
    }
}

impl Clone for EdgeManager {
    fn clone(&self) -> (copy: Self)
        ensures
            copy.edges@ == self.edges@,
    {
        let mut edges: Vec<Edge> = Vec::new();
        let mut i: usize = 0;
        while i < self.edges.len()
            invariant
                i <= self.edges.len(),
                edges@ == self.edges@.take(i as int),
            decreases self.edges.len() - i,
        {
            edges.push(self.edges[i]);
            assert(self.edges@.take(i + 1) =~= self.edges@.take(i as int).push(
                self.edges@[i as int],
            ));
            i += 1;
        }
        assert(self.edges@.take(i as int) =~= self.edges@);
        EdgeManager { edges }
    }
}

} // verus!
