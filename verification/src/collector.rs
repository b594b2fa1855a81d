//! The boundary points found so far, in the order in which they were found.

use crate::grid::GridIndex;
use vstd::prelude::*;

verus! {

/// An append-only sequence of boundary points.
pub struct BoundaryCollector {
    points: Vec<GridIndex>,
}

impl View for BoundaryCollector {
    type V = Seq<GridIndex>;

    closed spec fn view(&self) -> Seq<GridIndex> {
        self.points@
    }
}

impl BoundaryCollector {
    /// A collector that holds no point.
    pub fn new() -> (collector: BoundaryCollector)
        ensures
            collector@ == Seq::<GridIndex>::empty(),
    {
        BoundaryCollector { points: Vec::new() }
    }

    /// Adds `p` behind the points that are already held.
    pub fn append(&mut self, p: GridIndex)
        ensures
            final(self)@ == old(self)@.push(p),
    {
        self.points.push(p);
    }

    /// The number of points held.
    pub fn count(&self) -> (count: usize)
        ensures
            count == self@.len(),
    {
        self.points.len()
    }

    /// Hands the points out, in the order in which they were appended.
    pub fn into_points(self) -> (points: Vec<GridIndex>)
        ensures
            points@ == self@,
    {
        self.points
    }
}

} // verus!
