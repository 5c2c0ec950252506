use vstd::prelude::*;

verus! {

/// Where a point lies along a reference geodesic arc, as the merge sees it.
///
/// The geometric classifier measures a position as a parameter on the arc,
/// with the arc's own endpoints at the start and end. The merge never does
/// arithmetic on such a parameter: it only compares positions, so an interior
/// position is carried as a key whose `u64` order agrees with the parameter
/// order, and positions outside the arc keep only their side.
#[derive(Clone, Copy, PartialEq, Eq, Structural, Debug)]
pub enum ArcParam {
    /// Strictly before the arc's start.
    Before,
    /// Exactly at the arc's start.
    Start,
    /// Strictly between the endpoints; the key preserves the parameter order.
    Inside(u64),
    /// Exactly at the arc's end.
    End,
    /// Strictly past the arc's end.
    After,
}

/// Coarse position of an `ArcParam` along the arc, ignoring interior keys.
pub open spec fn param_rank(p: ArcParam) -> int {
    match p {
        ArcParam::Before => 0,
        ArcParam::Start => 1,
        ArcParam::Inside(_) => 2,
        ArcParam::End => 3,
        ArcParam::After => 4,
    }
}

/// Strict order on arc positions: by coarse position, and by key among
/// interior positions.
pub open spec fn param_lt(a: ArcParam, b: ArcParam) -> bool {
    ||| param_rank(a) < param_rank(b)
    ||| (a matches ArcParam::Inside(x) && b matches ArcParam::Inside(y) && x < y)
}

impl ArcParam {
    /// Whether `self` lies strictly before `other` on the arc.
    pub fn lt(&self, other: &ArcParam) -> (r: bool)
        ensures
            r == param_lt(*self, *other),
    {
        match (self, other) {
            (ArcParam::Inside(x), ArcParam::Inside(y)) => *x < *y,
            _ => {
                let ra: u8 = match self {
                    ArcParam::Before => 0,
                    ArcParam::Start => 1,
                    ArcParam::Inside(_) => 2,
                    ArcParam::End => 3,
                    ArcParam::After => 4,
                };
                let rb: u8 = match other {
                    ArcParam::Before => 0,
                    ArcParam::Start => 1,
                    ArcParam::Inside(_) => 2,
                    ArcParam::End => 3,
                    ArcParam::After => 4,
                };
                ra < rb
            },
        }
    }

}

/// How two geodesic arcs meet: the first arc is a member of the running edge
/// set, the second is the edge being merged in. Each endpoint id names a
/// pooled vertex.
#[derive(Clone, Copy, Debug)]
pub enum ArcIntersectionResult {
    /// Overlap: the arcs are co-planar and share a sub-segment. Each pair is
    /// an endpoint id of the first arc with its position along the second.
    I((usize, ArcParam), (usize, ArcParam)),
    /// T-junction: an endpoint of the first arc lies inside the second; its
    /// id, and its position along the second.
    T1(usize, ArcParam),
    /// T-junction, the other way: an endpoint of the second arc lies inside
    /// the first; its id, and its position along the first.
    T2(usize, ArcParam),
    /// Shared endpoint: an endpoint id of the first arc, then the matching
    /// endpoint id of the second.
    L(usize, usize),
    /// Transversal crossing: a new point, at the given position along the
    /// second arc. Its coordinates stay with the geometric caller; the merge
    /// allocates the pooled id.
    X(ArcParam),
    /// No intersection.
    N,
    /// The arcs are identical.
    S,
}

} // verus!
