use vstd::prelude::*;

verus! {

/// An edge between two pooled vertex indices.
///
/// A *canonical* edge satisfies `from < to`; the canonical form of an
/// undirected edge is obtained with [`Edge::norm`], which rejects self-loops.
#[derive(Clone, Copy, PartialEq, Eq, Structural, Debug)]
pub struct Edge {
    pub from: usize,
    pub to: usize,
}

impl Edge {
    /// The canonical member standing for the undirected edge `{from, to}`,
    /// or `None` for a self-loop.
    pub open spec fn canon(from: usize, to: usize) -> Option<Edge> {
        if from < to {
            Some(Edge { from, to })
        } else if from > to {
            Some(Edge { from: to, to: from })
        } else {
            None
        }
    }

    pub open spec fn is_canonical(self) -> bool {
        self.from < self.to
    }

    pub fn new(from: usize, to: usize) -> (e: Edge)
        ensures
            e == (Edge { from, to }),
    {
        Self { from, to }
    }

    /// Canonicalize: order the endpoints, reject self-loops.
    pub fn norm(&self) -> (r: Option<Edge>)
        ensures
            r == Edge::canon(self.from, self.to),
    {
        let from = self.from;
        let to = self.to;
        if from < to {
            Some(Edge::new(from, to))
        } else if from > to {
            Some(Edge::new(to, from))
        } else {
            None
        }
    }
}

/// Canonicalization does not depend on the order in which the two endpoints
/// are given.
pub proof fn lemma_canon_symmetric(x: usize, y: usize)
    ensures
        Edge::canon(x, y) == Edge::canon(y, x),
{
}

} // verus!
