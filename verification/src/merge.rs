use vstd::prelude::*;

use crate::arc::{param_lt, ArcIntersectionResult, ArcParam};
use crate::edge::Edge;
use crate::edge_set::EdgeSet;

verus! {

/// Where a pooled vertex of the merged sphere domain comes from.
#[derive(Clone, Copy, PartialEq, Eq, Structural, Debug)]
pub enum VertexOrigin {
    /// Vertex of the start mesh, with its index there.
    Start(usize),
    /// Vertex of the end mesh, with its index there.
    End(usize),
    /// Allocated at an arc crossing; it belongs to neither mesh.
    Crossing,
}

/// Strict order on cut points: by position along the edge being merged,
/// then by pooled vertex id.
pub open spec fn cut_lt(a: (ArcParam, usize), b: (ArcParam, usize)) -> bool {
    param_lt(a.0, b.0) || (a.0 == b.0 && a.1 < b.1)
}

/// Strict order used to sort cut points: by cut point, then by collection
/// position, so ties keep collection order.
pub open spec fn cut_tag_lt(a: ((ArcParam, usize), usize), b: ((ArcParam, usize), usize)) -> bool {
    cut_lt(a.0, b.0) || (a.0 == b.0 && a.1 < b.1)
}

/// `p` lists the positions `0..cuts.len()`, each exactly once, ordered by
/// cut point ascending, earlier-collected cuts first among equals.
pub open spec fn is_cut_order(p: Seq<int>, cuts: Seq<(ArcParam, usize)>) -> bool {
    &&& p.len() == cuts.len()
    &&& forall|j: int| 0 <= j < p.len() ==> 0 <= #[trigger] p[j] < cuts.len()
    &&& forall|a: int, b: int|
        0 <= a < b < p.len() ==> cut_lt(cuts[#[trigger] p[a]], cuts[#[trigger] p[b]]) || (cuts[p[a]]
            == cuts[p[b]] && p[a] < p[b])
    &&& forall|v: int| 0 <= v < cuts.len() ==> p.contains(v)
}

/// `x` is the canonical edge between two cut ids that are consecutive once
/// the cuts are sorted into the order `p`.
pub open spec fn chain_member(cuts: Seq<(ArcParam, usize)>, p: Seq<int>, x: Edge) -> bool {
    exists|i: int|
        0 <= i < p.len() - 1 && #[trigger] Edge::canon(cuts[p[i]].1, cuts[p[i + 1]].1) == Some(x)
}

/// The members of `es` are those of `base` plus the canonical edges between
/// cut ids consecutive in the order `p`, among the first `upto` links.
spec fn chain_prefix(
    es: Seq<Edge>,
    base: Seq<Edge>,
    cuts: Seq<(ArcParam, usize)>,
    p: Seq<int>,
    upto: int,
) -> bool {
    forall|x: Edge|
        es.contains(x) <==> base.contains(x) || exists|t: int|
            0 <= t < upto && #[trigger] Edge::canon(cuts[p[t]].1, cuts[p[t + 1]].1) == Some(x)
}

/// The running state of the edge-merge pass: the pooled vertices seen so
/// far, the running set of canonical sphere edges, and the cut points
/// collected along the edge currently being merged in.
///
/// The geometric caller owns the coordinates; this state machine makes every
/// combinatorial decision. One edge of the end mesh is processed by
/// `begin_dst_edge`, one `apply` per edge of a snapshot of the running set
/// with the classified intersection outcome, and a closing `end_dst_edge`,
/// which splices the edge's sub-segments into the running set.
pub struct MergeState {
    origins: Vec<VertexOrigin>,
    edges: EdgeSet,
    cur_from: usize,
    cur_to: usize,
    intersections: Vec<(ArcParam, usize)>,
    skip_add: bool,
}

impl MergeState {
    /// Origin of each pooled vertex; the pool only ever grows.
    pub closed spec fn origins(self) -> Seq<VertexOrigin> {
        self.origins@
    }

    /// The running set of canonical edges, ascending.
    pub closed spec fn edge_view(self) -> Seq<Edge> {
        self.edges@
    }

    /// Cut points on the edge currently being merged: position, pooled id.
    pub closed spec fn cuts(self) -> Seq<(ArcParam, usize)> {
        self.intersections@
    }

    /// Start vertex id of the edge currently being merged.
    pub closed spec fn dst_from(self) -> usize {
        self.cur_from
    }

    /// End vertex id of the edge currently being merged.
    pub closed spec fn dst_to(self) -> usize {
        self.cur_to
    }

    /// Whether the current edge coincides with a present edge and must not
    /// be spliced in.
    pub closed spec fn skipping(self) -> bool {
        self.skip_add
    }

    pub closed spec fn wf(self) -> bool {
        &&& self.edges.wf()
        &&& forall|x: Edge|
            #[trigger] self.edges@.contains(x) ==> x.from < self.origins@.len() && x.to
                < self.origins@.len()
        &&& forall|k: int|
            0 <= k < self.intersections@.len() ==> (#[trigger] self.intersections@[k]).1
                < self.origins@.len()
    }

    /// A pool holding the `n` vertices of the start mesh, then the `m`
    /// vertices of the end mesh, and no edges.
    pub fn new(n: usize, m: usize) -> (s: MergeState)
        requires
            n + m <= usize::MAX,
        ensures
            s.wf(),
            s.origins().len() == n + m,
            forall|i: int| 0 <= i < n ==> s.origins()[i] == VertexOrigin::Start(i as usize),
            forall|i: int| 0 <= i < m ==> #[trigger] s.origins()[n + i] == VertexOrigin::End(i as usize),
            s.edge_view() == Seq::<Edge>::empty(),
            s.cuts() == Seq::<(ArcParam, usize)>::empty(),
            !s.skipping(),
    {
        let mut origins: Vec<VertexOrigin> = Vec::new();
        let mut i: usize = 0;
        while i < n
            invariant
                i <= n,
                origins@.len() == i,
                forall|k: int| 0 <= k < i ==> origins@[k] == VertexOrigin::Start(k as usize),
            decreases n - i,
        {
            origins.push(VertexOrigin::Start(i));
            i += 1;
        }
        let mut j: usize = 0;
        while j < m
            invariant
                j <= m,
                n + m <= usize::MAX,
                origins@.len() == n + j,
                forall|k: int| 0 <= k < n ==> origins@[k] == VertexOrigin::Start(k as usize),
                forall|k: int| 0 <= k < j ==> #[trigger] origins@[n + k] == VertexOrigin::End(k as usize),
            decreases m - j,
        {
            origins.push(VertexOrigin::End(j));
            j += 1;
        }
        let s = MergeState {
            origins,
            edges: EdgeSet::new(),
            cur_from: 0,
            cur_to: 0,
            intersections: Vec::new(),
            skip_add: false,
        };
        proof {
            assert(s.cuts() =~= Seq::<(ArcParam, usize)>::empty());
        }
        s
    }

    /// Number of pooled vertices so far.
    pub fn nvertexes(&self) -> (n: usize)
        ensures
            n == self.origins().len(),
    {
        self.origins.len()
    }

    /// Origin of pooled vertex `i`.
    pub fn origin(&self, i: usize) -> (o: VertexOrigin)
        requires
            i < self.origins().len(),
        ensures
            o == self.origins()[i as int],
    {
        self.origins[i]
    }

    /// Whether the current edge was found to coincide with a present edge.
    pub fn is_skipped(&self) -> (r: bool)
        ensures
            r == self.skipping(),
    {
        self.skip_add
    }

    /// The running set of edges, ascending: a snapshot unaffected by later
    /// merge steps.
    pub fn edges_snapshot(&self) -> (r: Vec<Edge>)
        ensures
            r@ == self.edge_view(),
    {
        self.edges.iter()
    }

    /// The cut points collected on the current edge, in collection order.
    pub fn cut_points(&self) -> (r: Vec<(ArcParam, usize)>)
        ensures
            r@ == self.cuts(),
    {
        let mut r: Vec<(ArcParam, usize)> = Vec::new();
        let mut i: usize = 0;
        while i < self.intersections.len()
            invariant
                i <= self.intersections@.len(),
                r@ == self.intersections@.subrange(0, i as int),
            decreases self.intersections@.len() - i,
        {
            r.push(self.intersections[i]);
            proof {
                assert(r@ =~= self.intersections@.subrange(0, i + 1));
            }
            i += 1;
        }
        proof {
            assert(r@ =~= self.intersections@);
        }
        r
    }

    /// Seed the running set with an edge of the start mesh.
    pub fn insert_edge(&mut self, edge: &Edge) -> (grew: bool)
        requires
            old(self).wf(),
            edge.from < old(self).origins().len(),
            edge.to < old(self).origins().len(),
        ensures
            final(self).wf(),
            final(self).origins() == old(self).origins(),
            final(self).cuts() == old(self).cuts(),
            final(self).skipping() == old(self).skipping(),
            final(self).dst_from() == old(self).dst_from(),
            final(self).dst_to() == old(self).dst_to(),
            Edge::canon(edge.from, edge.to) is None ==> !grew && final(self).edge_view() == old(self).edge_view(),
            Edge::canon(edge.from, edge.to) matches Some(e) ==> {
                &&& grew == !old(self).edge_view().contains(e)
                &&& forall|x: Edge|
                    final(self).edge_view().contains(x) <==> old(self).edge_view().contains(x) || x
                        == e
                &&& final(self).edge_view().len() == old(self).edge_view().len() + (if grew {
                    1int
                } else {
                    0int
                })
                &&& !grew ==> final(self).edge_view() == old(self).edge_view()
            },
    {
        self.edges.insert(edge)
    }

    /// Apply one intersection outcome between an edge of the running-set
    /// snapshot and the edge being merged.
    ///
    /// A T-junction on the current edge records a cut point; one on the
    /// snapshot edge splits that edge at the junction vertex. A crossing
    /// allocates a new pooled vertex, splits the snapshot edge there, and
    /// records the cut; the allocated id is returned so the caller can
    /// record the crossing's coordinates. An overlap removes the snapshot
    /// edge, records its interior endpoints as cuts and re-adds the portions
    /// that reach past the current edge. A shared endpoint unifies the two
    /// ids; identical edges mark the current edge as skipped.
    pub fn apply(&mut self, src_edge: &Edge, event: ArcIntersectionResult) -> (ret: Option<usize>)
        requires
            old(self).wf(),
            old(self).cuts().len() >= 2,
            src_edge.from < old(self).origins().len(),
            src_edge.to < old(self).origins().len(),
            match event {
                ArcIntersectionResult::T1(index, _) => index < old(self).origins().len(),
                ArcIntersectionResult::T2(index, _) => index < old(self).origins().len(),
                ArcIntersectionResult::L(id1, _) => id1 < old(self).origins().len(),
                ArcIntersectionResult::I((id1, _), (id2, _)) => id1 < old(self).origins().len()
                    && id2 < old(self).origins().len(),
                _ => true,
            },
        ensures
            final(self).wf(),
            final(self).cuts().len() >= old(self).cuts().len(),
            final(self).dst_from() == old(self).dst_from(),
            final(self).dst_to() == old(self).dst_to(),
            match event {
                ArcIntersectionResult::T1(index, k) => {
                    &&& ret is None
                    &&& final(self).origins() == old(self).origins()
                    &&& final(self).edge_view() == old(self).edge_view()
                    &&& final(self).cuts() == old(self).cuts().push((k, index))
                    &&& final(self).skipping() == old(self).skipping()
                },
                ArcIntersectionResult::T2(index, _) => {
                    &&& ret is None
                    &&& final(self).origins() == old(self).origins()
                    &&& final(self).cuts() == old(self).cuts()
                    &&& final(self).skipping() == old(self).skipping()
                    &&& forall|x: Edge|
                        final(self).edge_view().contains(x) <==> ((old(self).edge_view().contains(x) && Edge::canon(src_edge.from, src_edge.to)
                            != Some(x)) || Edge::canon(src_edge.from, index) == Some(x)
                            || Edge::canon(src_edge.to, index) == Some(x))
                },
                ArcIntersectionResult::X(k) => {
                    &&& ret matches Some(id) && id == old(self).origins().len()
                    &&& final(self).origins() == old(self).origins().push(VertexOrigin::Crossing)
                    &&& final(self).cuts() == old(self).cuts().push(
                        (k, old(self).origins().len() as usize),
                    )
                    &&& final(self).skipping() == old(self).skipping()
                    &&& forall|x: Edge|
                        final(self).edge_view().contains(x) <==> ((old(self).edge_view().contains(x) && Edge::canon(src_edge.from, src_edge.to)
                            != Some(x)) || Edge::canon(
                            src_edge.from,
                            old(self).origins().len() as usize,
                        ) == Some(x) || Edge::canon(
                            src_edge.to,
                            old(self).origins().len() as usize,
                        ) == Some(x))
                },
                ArcIntersectionResult::I((id1, k1), (id2, k2)) => {
                    &&& ret is None
                    &&& final(self).origins() == old(self).origins()
                    &&& final(self).skipping() == old(self).skipping()
                    &&& final(self).cuts() == old(self).cuts() + (if param_lt(ArcParam::Start, k1) {
                        seq![(k1, id1)]
                    } else {
                        Seq::<(ArcParam, usize)>::empty()
                    }) + (if param_lt(k2, ArcParam::End) {
                        seq![(k2, id2)]
                    } else {
                        Seq::<(ArcParam, usize)>::empty()
                    })
                    &&& forall|x: Edge|
                        final(self).edge_view().contains(x) <==> ((old(self).edge_view().contains(x) && Edge::canon(src_edge.from, src_edge.to)
                            != Some(x)) || (param_lt(k1, ArcParam::Start) && Edge::canon(
                            id1,
                            old(self).cuts()[0].1,
                        ) == Some(x)) || (param_lt(ArcParam::End, k2) && Edge::canon(
                            id2,
                            old(self).cuts()[1].1,
                        ) == Some(x)))
                },
                ArcIntersectionResult::L(id1, id2) => {
                    &&& ret is None
                    &&& final(self).origins() == old(self).origins()
                    &&& final(self).edge_view() == old(self).edge_view()
                    &&& final(self).skipping() == old(self).skipping()
                    &&& final(self).cuts() == (if id2 == old(self).dst_from() {
                        old(self).cuts().update(0, (old(self).cuts()[0].0, id1))
                    } else if id2 == old(self).dst_to() {
                        old(self).cuts().update(1, (old(self).cuts()[1].0, id1))
                    } else {
                        old(self).cuts()
                    })
                },
                ArcIntersectionResult::S => {
                    &&& ret is None
                    &&& final(self).origins() == old(self).origins()
                    &&& final(self).edge_view() == old(self).edge_view()
                    &&& final(self).cuts() == old(self).cuts()
                    &&& final(self).skipping()
                },
                ArcIntersectionResult::N => {
                    &&& ret is None
                    &&& final(self).origins() == old(self).origins()
                    &&& final(self).edge_view() == old(self).edge_view()
                    &&& final(self).cuts() == old(self).cuts()
                    &&& final(self).skipping() == old(self).skipping()
                },
            },
    {
        match event {
            ArcIntersectionResult::T1(index, k) => {
                self.intersections.push((k, index));
                None
            },
            ArcIntersectionResult::T2(index, _) => {
                self.edges.remove(src_edge);
                self.edges.add(src_edge.from, index);
                self.edges.add(src_edge.to, index);
                None
            },
            ArcIntersectionResult::X(k) => {
                let id = self.origins.len();
                self.origins.push(VertexOrigin::Crossing);
                self.edges.remove(src_edge);
                self.edges.add(src_edge.from, id);
                self.edges.add(src_edge.to, id);
                self.intersections.push((k, id));
                Some(id)
            },
            ArcIntersectionResult::I((id1, k1), (id2, k2)) => {
                self.edges.remove(src_edge);
                if ArcParam::Start.lt(&k1) {
                    self.intersections.push((k1, id1));
                } else if k1.lt(&ArcParam::Start) {
                    let anchor = self.intersections[0].1;
                    self.edges.add(id1, anchor);
                }
                if k2.lt(&ArcParam::End) {
                    self.intersections.push((k2, id2));
                } else if ArcParam::End.lt(&k2) {
                    let anchor = self.intersections[1].1;
                    self.edges.add(id2, anchor);
                }
                None
            },
            ArcIntersectionResult::L(id1, id2) => {
                if id2 == self.cur_from {
                    self.intersections[0].1 = id1;
                } else if id2 == self.cur_to {
                    self.intersections[1].1 = id1;
                }
                None
            },
            ArcIntersectionResult::S => {
                self.skip_add = true;
                None
            },
            ArcIntersectionResult::N => None,
        }
    }

    /// Open the merge of one edge of the end mesh: its endpoints become the
    /// first two cut points, at the start and end positions.
    pub fn begin_dst_edge(&mut self, from: usize, to: usize)
        requires
            old(self).wf(),
            from < old(self).origins().len(),
            to < old(self).origins().len(),
        ensures
            final(self).wf(),
            final(self).origins() == old(self).origins(),
            final(self).edge_view() == old(self).edge_view(),
            final(self).cuts() == seq![(ArcParam::Start, from), (ArcParam::End, to)],
            final(self).dst_from() == from,
            final(self).dst_to() == to,
            !final(self).skipping(),
    {
        self.cur_from = from;
        self.cur_to = to;
        self.intersections = Vec::new();
        self.intersections.push((ArcParam::Start, from));
        self.intersections.push((ArcParam::End, to));
        self.skip_add = false;
        proof {
            assert(self.cuts() =~= seq![(ArcParam::Start, from), (ArcParam::End, to)]);
        }
    }

    /// Close the merge of the current edge: sort its cut points by position
    /// along the edge and splice the consecutive sub-edges into the running
    /// set, unless the edge was marked as coinciding with a present edge.
    /// Either way the cut list is cleared for the next edge.
    pub fn end_dst_edge(&mut self)
        requires
            old(self).wf(),
            old(self).cuts().len() >= 2,
        ensures
            final(self).wf(),
            final(self).origins() == old(self).origins(),
            final(self).cuts().len() == 0,
            !final(self).skipping(),
            old(self).skipping() ==> final(self).edge_view() == old(self).edge_view(),
            !old(self).skipping() ==> exists|p: Seq<int>|
                is_cut_order(p, old(self).cuts()) && (forall|x: Edge|
                    final(self).edge_view().contains(x) <==> old(self).edge_view().contains(x)
                        || chain_member(old(self).cuts(), p, x)),
    {
        if self.skip_add {
            self.intersections = Vec::new();
            self.skip_add = false;
            proof {
                assert(self.cuts() =~= Seq::<(ArcParam, usize)>::empty());
            }
            return;
        }
        let ghost cuts0 = self.intersections@;
        let ghost eview0 = self.edges@;
        let m = self.intersections.len();
        let mut sorted: Vec<((ArcParam, usize), usize)> = Vec::new();
        let mut j: usize = 0;
        while j < m
            invariant
                j <= m,
                m == self.intersections@.len(),
                cuts0 == self.intersections@,
                sorted@.len() == j,
                forall|a: int, b: int|
                    0 <= a < b < j ==> cut_tag_lt(#[trigger] sorted@[a], #[trigger] sorted@[b]),
                forall|x: ((ArcParam, usize), usize)|
                    #[trigger] sorted@.contains(x) <==> x.1 < j && x.0 == cuts0[x.1 as int],
            decreases m - j,
        {
            let e = (self.intersections[j], j);
            let mut i: usize = 0;
            while i < sorted.len() && cut_tag_before(&sorted[i], &e)
                invariant
                    i <= sorted@.len(),
                    forall|k: int| 0 <= k < i ==> cut_tag_lt(#[trigger] sorted@[k], e),
                decreases sorted@.len() - i,
            {
                i += 1;
            }
            let ghost prev = sorted@;
            let ghost ii = i as int;
            sorted.insert(i, e);
            proof {
                assert forall|k: int| ii <= k < prev.len() implies !cut_tag_lt(prev[k], e) by {
                    assert(prev.contains(prev[k]));
                    assert(prev[k].1 < j && e.1 == j);
                    if k > ii {
                        assert(cut_tag_lt(prev[ii], prev[k]));
                    }
                }
                assert forall|a: int, b: int|
                    0 <= a < b < sorted@.len() implies cut_tag_lt(sorted@[a], sorted@[b]) by {
                    if b < ii {
                        assert(sorted@[a] == prev[a] && sorted@[b] == prev[b]);
                    } else if a > ii {
                        assert(sorted@[a] == prev[a - 1] && sorted@[b] == prev[b - 1]);
                    } else if a < ii && b == ii {
                        assert(sorted@[a] == prev[a] && sorted@[b] == e);
                    } else if a == ii && b > ii {
                        assert(sorted@[a] == e && sorted@[b] == prev[b - 1]);
                        assert(prev.contains(prev[b - 1]));
                        assert(prev[b - 1].1 != e.1);
                    } else {
                        assert(sorted@[a] == prev[a] && sorted@[b] == prev[b - 1]);
                        assert(cut_tag_lt(prev[a], e));
                        assert(prev.contains(prev[b - 1]));
                        assert(prev[b - 1].1 != e.1);
                    }
                }
                assert forall|x: ((ArcParam, usize), usize)|
                    #[trigger] sorted@.contains(x) <==> (x.1 < j + 1 && x.0 == cuts0[x.1 as int]) by {
                    if sorted@.contains(x) {
                        let k = choose|k: int| 0 <= k < sorted@.len() && sorted@[k] == x;
                        if k < ii {
                            assert(prev[k] == x);
                            assert(prev.contains(x));
                        } else if k > ii {
                            assert(prev[k - 1] == x);
                            assert(prev.contains(x));
                        }
                    }
                    if x.1 < j + 1 && x.0 == cuts0[x.1 as int] {
                        if x.1 < j {
                            assert(prev.contains(x));
                            let k = choose|k: int| 0 <= k < prev.len() && prev[k] == x;
                            if k < ii {
                                assert(sorted@[k] == x);
                            } else {
                                assert(sorted@[k + 1] == x);
                            }
                            assert(sorted@.contains(x));
                        } else {
                            assert(x == e);
                            assert(sorted@[ii] == x);
                            assert(sorted@.contains(x));
                        }
                    }
                }
            }
            j += 1;
        }
        let ghost p = Seq::new(m as nat, |t: int| sorted@[t].1 as int);
        proof {
            assert forall|t: int| 0 <= t < m implies 0 <= p[t] < m && sorted@[t].0 == cuts0[p[t]] by {
                assert(sorted@.contains(sorted@[t]));
            }
            assert forall|a: int, b: int|
                0 <= a < b < p.len() implies cut_lt(cuts0[p[a]], cuts0[p[b]]) || (cuts0[p[a]]
                == cuts0[p[b]] && p[a] < p[b]) by {
                assert(cut_tag_lt(sorted@[a], sorted@[b]));
                assert(sorted@[a].0 == cuts0[p[a]] && sorted@[a].1 == p[a] as usize);
                assert(sorted@[b].0 == cuts0[p[b]] && sorted@[b].1 == p[b] as usize);
            }
            assert forall|v: int| 0 <= v < m implies p.contains(v) by {
                let x = (cuts0[v], v as usize);
                assert(sorted@.contains(x));
                let k = choose|k: int| 0 <= k < sorted@.len() && sorted@[k] == x;
                assert(p[k] == v);
            }
            assert(is_cut_order(p, cuts0));
        }
        let mut i: usize = 0;
        while i + 1 < m
            invariant
                m >= 2,
                i < m,
                m == sorted@.len(),
                m == cuts0.len(),
                self.wf(),
                self.origins@ == old(self).origins(),
                self.intersections@ == cuts0,
                self.skip_add == old(self).skipping(),
                is_cut_order(p, cuts0),
                forall|t: int|
                    0 <= t < m ==> #[trigger] p[t] == sorted@[t].1 as int && sorted@[t].0
                        == cuts0[p[t]],
                chain_prefix(self.edges@, eview0, cuts0, p, i as int),
            decreases m - i,
        {
            let a = sorted[i].0.1;
            let b = sorted[i + 1].0.1;
            let ghost before = self.edges@;
            self.edges.add(a, b);
            proof {
                assert(0 <= p[i as int] < m && 0 <= p[i as int + 1] < m);
                assert(sorted@[i as int].0 == cuts0[p[i as int]]);
                assert(sorted@[i as int + 1].0 == cuts0[p[i as int + 1]]);
                assert(a == cuts0[p[i as int]].1 && b == cuts0[p[i + 1]].1);
                assert forall|x: Edge|
                    self.edges@.contains(x) <==> eview0.contains(x) || exists|t: int|
                        0 <= t < i + 1 && #[trigger] Edge::canon(cuts0[p[t]].1, cuts0[p[t + 1]].1)
                            == Some(x) by {
                    assert(chain_prefix(before, eview0, cuts0, p, i as int));
                    if self.edges@.contains(x) {
                        if before.contains(x) {
                            if !eview0.contains(x) {
                                let t = choose|t: int|
                                    0 <= t < i && #[trigger] Edge::canon(
                                        cuts0[p[t]].1,
                                        cuts0[p[t + 1]].1,
                                    ) == Some(x);
                                assert(Edge::canon(cuts0[p[t]].1, cuts0[p[t + 1]].1) == Some(x));
                            }
                        } else {
                            assert(Edge::canon(a, b) == Some(x));
                            assert(Edge::canon(cuts0[p[i as int]].1, cuts0[p[i as int + 1]].1)
                                == Some(x));
                        }
                    }
                    if eview0.contains(x) {
                        assert(before.contains(x));
                        assert(self.edges@.contains(x));
                    }
                    if exists|t: int|
                        0 <= t < i + 1 && #[trigger] Edge::canon(cuts0[p[t]].1, cuts0[p[t + 1]].1)
                            == Some(x) {
                        let t = choose|t: int|
                            0 <= t < i + 1 && #[trigger] Edge::canon(cuts0[p[t]].1, cuts0[p[t + 1]].1)
                                == Some(x);
                        if t < i {
                            assert(before.contains(x));
                        } else {
                            assert(Edge::canon(a, b) == Some(x));
                        }
                        assert(self.edges@.contains(x));
                    }
                }
            }
            i += 1;
        }
        proof {
            assert(chain_prefix(self.edges@, eview0, cuts0, p, m - 1));
            assert forall|x: Edge|
                self.edges@.contains(x) <==> eview0.contains(x) || chain_member(cuts0, p, x) by {
                if self.edges@.contains(x) && !eview0.contains(x) {
                    let t = choose|t: int|
                        0 <= t < m - 1 && #[trigger] Edge::canon(cuts0[p[t]].1, cuts0[p[t + 1]].1)
                            == Some(x);
                    assert(Edge::canon(cuts0[p[t]].1, cuts0[p[t + 1]].1) == Some(x));
                    assert(chain_member(cuts0, p, x));
                }
                if chain_member(cuts0, p, x) {
                    let t = choose|t: int|
                        0 <= t < p.len() - 1 && #[trigger] Edge::canon(cuts0[p[t]].1, cuts0[p[t + 1]].1)
                            == Some(x);
                    assert(exists|t2: int|
                        0 <= t2 < m - 1 && #[trigger] Edge::canon(cuts0[p[t2]].1, cuts0[p[t2 + 1]].1)
                            == Some(x));
                    assert(self.edges@.contains(x));
                }
            }
        }
        self.intersections = Vec::new();
        self.skip_add = false;
        proof {
            assert(self.cuts() =~= Seq::<(ArcParam, usize)>::empty());
        }
    }
}

/// Whether cut tag `a` sorts strictly before cut tag `b`.
fn cut_tag_before(a: &((ArcParam, usize), usize), b: &((ArcParam, usize), usize)) -> (r: bool)
    ensures
        r == cut_tag_lt(*a, *b),
{
    if a.0.0.lt(&b.0.0) {
        true
    } else if a.0.0 == b.0.0 {
        if a.0.1 < b.0.1 {
            true
        } else if a.0.1 == b.0.1 {
            a.1 < b.1
        } else {
            false
        }
    } else {
        false
    }
}

} // verus!
