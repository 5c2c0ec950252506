use vstd::prelude::*;

use crate::edge::Edge;

verus! {

/// Strict ordering of edges: lexicographic by `(from, to)`.
pub open spec fn edge_lt(a: Edge, b: Edge) -> bool {
    a.from < b.from || (a.from == b.from && a.to < b.to)
}

/// A deduplicated set of canonical undirected edges.
///
/// The edges are kept in ascending `(from, to)` order, so membership alone
/// determines the whole sequence; [`EdgeSet::iter`] hands the members out in
/// that order.
#[derive(Clone, Debug)]
pub struct EdgeSet {
    edges: Vec<Edge>,
}

impl View for EdgeSet {
    type V = Seq<Edge>;

    closed spec fn view(&self) -> Seq<Edge> {
        self.edges@
    }
}

impl EdgeSet {
    /// Every member is canonical and the sequence is strictly ascending,
    /// so no undirected edge occurs twice.
    pub open spec fn wf(self) -> bool {
        &&& forall|i: int, j: int|
            0 <= i < j < self@.len() ==> edge_lt(self@[i], self@[j])
        &&& forall|i: int| 0 <= i < self@.len() ==> self@[i].is_canonical()
    }

    pub fn new() -> (s: EdgeSet)
        ensures
            s@ == Seq::<Edge>::empty(),
            s.wf(),
    {
        let s = Self { edges: Vec::new() };
        proof {
            assert(s@ =~= Seq::<Edge>::empty());
        }
        s
    }

    /// The members in ascending `(from, to)` order, as a fresh vector.
    pub fn iter(&self) -> (r: Vec<Edge>)
        ensures
            r@ == self@,
    {
        let mut r: Vec<Edge> = Vec::new();
        let mut i: usize = 0;
        while i < self.edges.len()
            invariant
                i <= self.edges.len(),
                r@ == self.edges@.subrange(0, i as int),
            decreases self.edges.len() - i,
        {
            r.push(self.edges[i]);
            proof {
                assert(r@ =~= self.edges@.subrange(0, i + 1));
            }
            i += 1;
        }
        proof {
            assert(r@ =~= self.edges@);
        }
        r
    }

    /// Index of the first member not below `e`; the members before it are
    /// exactly those below `e`.
    fn lower_bound(&self, e: &Edge) -> (i: usize)
        requires
            self.wf(),
        ensures
            i <= self@.len(),
            forall|j: int| 0 <= j < i ==> edge_lt(self@[j], *e),
            forall|j: int| i <= j < self@.len() ==> !edge_lt(self@[j], *e),
    {
        let mut i: usize = 0;
        while i < self.edges.len() && (self.edges[i].from < e.from || (self.edges[i].from
            == e.from && self.edges[i].to < e.to))
            invariant
                i <= self.edges.len(),
                forall|j: int| 0 <= j < i ==> edge_lt(self.edges@[j], *e),
            decreases self.edges.len() - i,
        {
            i += 1;
        }
        proof {
            assert forall|j: int| i <= j < self@.len() implies !edge_lt(self@[j], *e) by {
                if !edge_lt(self@[i as int], *e) && i < j {
                    assert(edge_lt(self@[i as int], self@[j]));
                }
            }
        }
        i
    }

    /// Add the undirected edge `{from, to}`; self-loops are rejected.
    ///
    /// Returns whether the set grew: `true` exactly when the edge is no
    /// self-loop and its canonical member was not yet present.
    pub fn add(&mut self, from: usize, to: usize) -> (grew: bool)
        requires
            old(self).wf(),
        ensures
            final(self).wf(),
            Edge::canon(from, to) is None ==> !grew && final(self)@ == old(self)@,
            Edge::canon(from, to) matches Some(e) ==> {
                &&& grew == !old(self)@.contains(e)
                &&& final(self)@.contains(e)
                &&& forall|x: Edge|
                    final(self)@.contains(x) <==> old(self)@.contains(x) || x == e
                &&& final(self)@.len() == old(self)@.len() + (if grew { 1int } else { 0int })
                &&& !grew ==> final(self)@ == old(self)@
            },
    {
        if from == to {
            return false;
        }
        let e = if from < to {
            Edge::new(from, to)
        } else {
            Edge::new(to, from)
        };
        let i = self.lower_bound(&e);
        if i < self.edges.len() && self.edges[i] == e {
            proof {
                assert(old(self)@.contains(e));
            }
            return false;
        }
        proof {
            assert forall|k: int| 0 <= k < self@.len() implies self@[k] != e by {
                if k < i {
                    assert(edge_lt(self@[k], e));
                }
            }
            assert(!old(self)@.contains(e));
        }
        self.edges.insert(i, e);
        proof {
            let s = self@;
            let prev = old(self)@;
            assert forall|p: int, q: int| 0 <= p < q < s.len() implies edge_lt(s[p], s[q]) by {
                if q < i {
                    assert(edge_lt(prev[p], prev[q]));
                } else if p > i {
                    assert(edge_lt(prev[p - 1], prev[q - 1]));
                } else if p < i && q == i {
                    assert(edge_lt(prev[p], e));
                } else if p == i && q > i {
                    assert(!edge_lt(prev[q - 1], e));
                    assert(prev[q - 1] != e);
                } else if p < i && q > i {
                    assert(edge_lt(prev[p], e));
                    assert(!edge_lt(prev[q - 1], e));
                    assert(prev[q - 1] != e);
                }
            }
            assert forall|x: Edge| self@.contains(x) <==> prev.contains(x) || x == e by {
                if self@.contains(x) {
                    let k = choose|k: int| 0 <= k < s.len() && s[k] == x;
                    if k < i {
                        assert(prev[k] == x);
                        assert(prev.contains(x));
                    } else if k > i {
                        assert(prev[k - 1] == x);
                        assert(prev.contains(x));
                    }
                }
                if prev.contains(x) {
                    let k = choose|k: int| 0 <= k < prev.len() && prev[k] == x;
                    if k < i {
                        assert(s[k] == x);
                    } else {
                        assert(s[k + 1] == x);
                    }
                    assert(self@.contains(x));
                }
                if x == e {
                    assert(s[i as int] == x);
                    assert(self@.contains(x));
                }
            }
            assert(self@.contains(e));
        }
        true
    }

    /// Add an edge given as an `Edge` value, canonicalizing it first.
    pub fn insert(&mut self, edge: &Edge) -> (grew: bool)
        requires
            old(self).wf(),
        ensures
            final(self).wf(),
            Edge::canon(edge.from, edge.to) is None ==> !grew && final(self)@ == old(self)@,
            Edge::canon(edge.from, edge.to) matches Some(e) ==> {
                &&& grew == !old(self)@.contains(e)
                &&& final(self)@.contains(e)
                &&& forall|x: Edge|
                    final(self)@.contains(x) <==> old(self)@.contains(x) || x == e
                &&& final(self)@.len() == old(self)@.len() + (if grew { 1int } else { 0int })
                &&& !grew ==> final(self)@ == old(self)@
            },
    {
        self.add(edge.from, edge.to)
    }

    /// Remove the canonical member of `{edge.from, edge.to}`, if present.
    ///
    /// Returns whether the set shrank.
    pub fn remove(&mut self, edge: &Edge) -> (shrank: bool)
        requires
            old(self).wf(),
        ensures
            final(self).wf(),
            Edge::canon(edge.from, edge.to) is None ==> !shrank && final(self)@ == old(self)@,
            Edge::canon(edge.from, edge.to) matches Some(e) ==> {
                &&& shrank == old(self)@.contains(e)
                &&& !final(self)@.contains(e)
                &&& forall|x: Edge|
                    final(self)@.contains(x) <==> old(self)@.contains(x) && x != e
                &&& old(self)@.len() == final(self)@.len() + (if shrank { 1int } else { 0int })
                &&& !shrank ==> final(self)@ == old(self)@
            },
    {
        let norm = edge.norm();
        let e = match norm {
            Some(e) => e,
            None => {
                return false;
            },
        };
        let i = self.lower_bound(&e);
        if i < self.edges.len() && self.edges[i] == e {
            self.edges.remove(i);
            proof {
                let s = self@;
                let prev = old(self)@;
                assert(prev.contains(e));
                assert forall|p: int, q: int| 0 <= p < q < s.len() implies edge_lt(s[p], s[q]) by {
                    if q < i {
                        assert(edge_lt(prev[p], prev[q]));
                    } else if p >= i {
                        assert(edge_lt(prev[p + 1], prev[q + 1]));
                    } else {
                        assert(edge_lt(prev[p], prev[q + 1]));
                    }
                }
                assert forall|x: Edge| s.contains(x) <==> prev.contains(x) && x != e by {
                    if s.contains(x) {
                        let k = choose|k: int| 0 <= k < s.len() && s[k] == x;
                        if k < i {
                            assert(prev[k] == x);
                            assert(edge_lt(x, e));
                        } else {
                            assert(prev[k + 1] == x);
                            assert(!edge_lt(prev[k + 1], e));
                            assert(edge_lt(prev[i as int], prev[k + 1]));
                        }
                        assert(prev.contains(x));
                    }
                    if prev.contains(x) && x != e {
                        let k = choose|k: int| 0 <= k < prev.len() && prev[k] == x;
                        if k < i {
                            assert(s[k] == x);
                        } else if k > i {
                            assert(s[k - 1] == x);
                        }
                        assert(s.contains(x));
                    }
                }
            }
            true
        } else {
            proof {
                assert forall|k: int| 0 <= k < self@.len() implies self@[k] != e by {
                    if k < i {
                        assert(edge_lt(self@[k], e));
                    }
                }
                assert(!old(self)@.contains(e));
            }
            false
        }
    }
}

/// Two strictly ascending sequences with the same members are equal.
proof fn lemma_sorted_unique(a: Seq<Edge>, b: Seq<Edge>)
    requires
        forall|i: int, j: int| 0 <= i < j < a.len() ==> edge_lt(a[i], a[j]),
        forall|i: int, j: int| 0 <= i < j < b.len() ==> edge_lt(b[i], b[j]),
        forall|x: Edge| a.contains(x) <==> b.contains(x),
    ensures
        a == b,
    decreases a.len(),
{
    if a.len() == 0 {
        if b.len() > 0 {
            assert(b.contains(b[0]));
            assert(a.contains(b[0]));
            assert(false);
        }
        assert(a =~= b);
    } else {
        assert(a.contains(a[0]));
        assert(b.contains(a[0]));
        let j = choose|j: int| 0 <= j < b.len() && b[j] == a[0];
        if j != 0 {
            assert(edge_lt(b[0], b[j]));
            assert(b.contains(b[0]));
            assert(a.contains(b[0]));
            let i = choose|i: int| 0 <= i < a.len() && a[i] == b[0];
            if i != 0 {
                assert(edge_lt(a[0], a[i]));
            }
            assert(false);
        }
        let ta = a.subrange(1, a.len() as int);
        let tb = b.subrange(1, b.len() as int);
        assert forall|x: Edge| ta.contains(x) <==> tb.contains(x) by {
            if ta.contains(x) {
                let k = choose|k: int| 0 <= k < ta.len() && ta[k] == x;
                assert(a[k + 1] == x);
                assert(edge_lt(a[0], x));
                assert(a.contains(x));
                assert(b.contains(x));
                let k2 = choose|k2: int| 0 <= k2 < b.len() && b[k2] == x;
                assert(k2 != 0);
                assert(tb[k2 - 1] == x);
                assert(tb.contains(x));
            }
            if tb.contains(x) {
                let k = choose|k: int| 0 <= k < tb.len() && tb[k] == x;
                assert(b[k + 1] == x);
                assert(edge_lt(b[0], x));
                assert(b.contains(x));
                assert(a.contains(x));
                let k2 = choose|k2: int| 0 <= k2 < a.len() && a[k2] == x;
                assert(k2 != 0);
                assert(ta[k2 - 1] == x);
                assert(ta.contains(x));
            }
        }
        lemma_sorted_unique(ta, tb);
        assert forall|k: int| 0 <= k < a.len() implies a[k] == b[k] by {
            if k > 0 {
                assert(ta[k - 1] == tb[k - 1]);
            }
        }
        assert(a =~= b);
    }
}

/// A well-formed edge set is determined by its members: whatever order the
/// endpoints or the edges were given in, equal membership means the very
/// same canonical sequence.
pub proof fn lemma_canonical_representation(a: EdgeSet, b: EdgeSet)
    requires
        a.wf(),
        b.wf(),
        forall|x: Edge| a@.contains(x) <==> b@.contains(x),
    ensures
        a@ == b@,
{
    lemma_sorted_unique(a@, b@);
}

} // verus!
