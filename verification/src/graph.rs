use vstd::prelude::*;

use crate::edge::Edge;
use crate::edge_set::EdgeSet;

verus! {

/// A directed edge of the half-edge graph, stored in an arena and addressed
/// by its index there (its *handle*).
#[derive(Clone, Copy, PartialEq, Eq, Structural, Debug)]
pub struct GraphEdge {
    pub from: usize,
    pub to: usize,
    /// Handle of the oppositely directed twin.
    pub oppo: usize,
    /// Handle of the face successor around `from`; points back at the twin
    /// until the fan around `from` has been ordered.
    pub next: usize,
    /// Whether the face walk has traversed this edge.
    pub visited: bool,
}

impl GraphEdge {
    /// A directed edge with placeholder links; the graph sets `oppo` and
    /// `next` when the edge enters the arena.
    pub fn new(from: usize, to: usize) -> (e: GraphEdge)
        ensures
            e == (GraphEdge { from, to, oppo: 0, next: 0, visited: false }),
    {
        GraphEdge { from, to, oppo: 0, next: 0, visited: false }
    }
}

/// Strict order used to sort a fan: by angle key, then by fan position.
pub open spec fn keyed_lt(a: (u64, usize), b: (u64, usize)) -> bool {
    a.0 < b.0 || (a.0 == b.0 && a.1 < b.1)
}

/// `p` lists the positions `0..keys.len()`, each exactly once, sorted
/// strictly by `(key, position)`: the stable ascending order of the keys.
pub open spec fn is_key_order(p: Seq<int>, keys: Seq<u64>) -> bool {
    &&& p.len() == keys.len()
    &&& forall|j: int| 0 <= j < p.len() ==> 0 <= #[trigger] p[j] < keys.len()
    &&& forall|j: int, k: int|
        0 <= j < k < p.len() ==> keyed_lt(
            (keys[#[trigger] p[j]], p[j] as usize),
            (keys[#[trigger] p[k]], p[k] as usize),
        )
    &&& forall|v: int| 0 <= v < keys.len() ==> p.contains(v)
}

/// The two directed edges agree on everything but the face-successor link.
pub open spec fn same_but_next(a: GraphEdge, b: GraphEdge) -> bool {
    b.from == a.from && b.to == a.to && b.oppo == a.oppo && b.visited == a.visited
}

/// In graph `g`, the fan entries follow each other cyclically in the order
/// given by the position permutation `p`.
pub open spec fn ring_linked(g: Graph, fan: Seq<usize>, p: Seq<int>) -> bool {
    forall|j: int|
        0 <= j < p.len() ==> g.edges()[fan[#[trigger] p[j]] as int].next == fan[p[if j + 1
            == p.len() {
            0int
        } else {
            j + 1
        }]]
}

/// The two directed edges agree on everything but the visited flag.
pub open spec fn same_but_visited(a: GraphEdge, b: GraphEdge) -> bool {
    b.from == a.from && b.to == a.to && b.oppo == a.oppo && b.next == a.next
}

/// How many directed edges the face walk has not yet traversed.
pub open spec fn count_unvisited(s: Seq<GraphEdge>) -> nat
    decreases s.len(),
{
    if s.len() == 0 {
        0
    } else {
        count_unvisited(s.drop_last()) + (if s.last().visited {
            0nat
        } else {
            1nat
        })
    }
}

/// Marking one unvisited edge visited lowers the count by exactly one.
pub proof fn lemma_count_unvisited_update(s: Seq<GraphEdge>, k: int, e: GraphEdge)
    requires
        0 <= k < s.len(),
        !s[k].visited,
        e.visited,
    ensures
        count_unvisited(s.update(k, e)) + 1 == count_unvisited(s),
    decreases s.len(),
{
    let t = s.update(k, e);
    if k == s.len() - 1 {
        assert(t.drop_last() =~= s.drop_last());
    } else {
        assert(t.drop_last() =~= s.drop_last().update(k, e));
        lemma_count_unvisited_update(s.drop_last(), k, e);
        assert(t.last() == s.last());
    }
}

/// Combined length of a list of faces.
pub open spec fn total_len(faces: Seq<Vec<usize>>) -> int
    decreases faces.len(),
{
    if faces.len() == 0 {
        0
    } else {
        total_len(faces.drop_last()) + faces.last()@.len()
    }
}

pub proof fn lemma_total_len_push(faces: Seq<Vec<usize>>, f: Vec<usize>)
    ensures
        total_len(faces.push(f)) == total_len(faces) + f@.len(),
{
    assert(faces.push(f).drop_last() =~= faces);
    assert(faces.push(f).last() == f);
}

/// The canonical edge of pair `k` of `edges`, its endpoints sent through
/// the representative map `rep`.
pub open spec fn mapped_canon(rep: Seq<usize>, edges: Seq<Edge>, k: int) -> Option<Edge> {
    Edge::canon(rep[edges[k].from as int], rep[edges[k].to as int])
}

/// The members of `u` are those of `base` plus the canonical mapped edges
/// of the first `upto` pairs of `edges`.
spec fn unique_prefix(
    u: Seq<Edge>,
    base: Seq<Edge>,
    rep: Seq<usize>,
    edges: Seq<Edge>,
    upto: int,
) -> bool {
    forall|x: Edge|
        u.contains(x) <==> base.contains(x) || exists|k: int|
            0 <= k < upto && #[trigger] mapped_canon(rep, edges, k) == Some(x)
}

/// Arena entry `h` of `g` is a fresh directed edge of one twin pair for a
/// mapped input pair, sitting in the fan of its source vertex, its `next`
/// still the placeholder twin link.
pub open spec fn new_twin(g: Graph, rep: Seq<usize>, edges: Seq<Edge>, h: int) -> bool {
    let ge = g.edges()[h];
    &&& !ge.visited
    &&& ge.oppo < g.edges().len()
    &&& ge.oppo != h
    &&& g.edges()[ge.oppo as int].from == ge.to
    &&& g.edges()[ge.oppo as int].to == ge.from
    &&& g.edges()[ge.oppo as int].oppo == h
    &&& ge.next == ge.oppo
    &&& exists|k: int|
        0 <= k < edges.len() && #[trigger] mapped_canon(rep, edges, k) == Edge::canon(
            ge.from,
            ge.to,
        )
    &&& g.adj(ge.from as int).contains(h as usize)
}

/// `g` is `g0` grown by twin pairs for the mapped input pairs: the old
/// arena and the old fans are untouched prefixes, and every new arena entry
/// is such a twin.
pub open spec fn graph_grown(g0: Graph, g: Graph, rep: Seq<usize>, edges: Seq<Edge>) -> bool {
    &&& g0.edges().len() <= g.edges().len()
    &&& forall|h: int| 0 <= h < g0.edges().len() ==> #[trigger] g.edges()[h] == g0.edges()[h]
    &&& forall|v: int| 0 <= v < g0.nodes() ==> g0.adj(v).len() <= #[trigger] g.adj(v).len()
    &&& forall|v: int, k: int|
        0 <= v < g0.nodes() && 0 <= k < g0.adj(v).len() ==> #[trigger] g.adj(v)[k] == g0.adj(v)[k]
    &&& forall|h: int|
        g0.edges().len() <= h < g.edges().len() ==> #[trigger] new_twin(g, rep, edges, h)
}

/// A twin entry keeps its meaning while the arena only grows and the fans
/// only gain entries.
proof fn lemma_new_twin_grow(a: Graph, b: Graph, rep: Seq<usize>, edges: Seq<Edge>, h: int)
    requires
        new_twin(a, rep, edges, h),
        0 <= h < a.edges().len(),
        a.edges().len() <= b.edges().len(),
        forall|x: int| 0 <= x < a.edges().len() ==> #[trigger] b.edges()[x] == a.edges()[x],
        a.nodes() == b.nodes(),
        0 <= a.edges()[h].from < a.nodes(),
        forall|v: int| 0 <= v < a.nodes() ==> a.adj(v).len() <= #[trigger] b.adj(v).len(),
        forall|v: int, k: int|
            0 <= v < a.nodes() && 0 <= k < a.adj(v).len() ==> #[trigger] b.adj(v)[k] == a.adj(
                v,
            )[k],
    ensures
        new_twin(b, rep, edges, h),
{
    let ge = a.edges()[h];
    assert(b.edges()[h] == ge);
    assert(b.edges()[ge.oppo as int] == a.edges()[ge.oppo as int]);
    let k = choose|k: int|
        0 <= k < edges.len() && #[trigger] mapped_canon(rep, edges, k) == Edge::canon(
            ge.from,
            ge.to,
        );
    assert(mapped_canon(rep, edges, k) == Edge::canon(ge.from, ge.to));
    let v = ge.from as int;
    let idx = choose|idx: int| 0 <= idx < a.adj(v).len() && a.adj(v)[idx] == h as usize;
    assert(b.adj(v)[idx] == h as usize);
    assert(b.adj(v).contains(h as usize));
}

/// The face successor of handle `h`: the `next` link of its twin.
pub open spec fn succ_of(g: Graph, h: int) -> int {
    g.edges()[g.edges()[h].oppo as int].next as int
}

/// `hs` is a walk of valid handles in which each handle is followed by its
/// face successor.
pub open spec fn succ_path(g: Graph, hs: Seq<int>) -> bool {
    &&& forall|j: int| 0 <= j < hs.len() ==> 0 <= #[trigger] hs[j] < g.edges().len()
    &&& forall|j: int| 0 <= j < hs.len() - 1 ==> hs[j + 1] == #[trigger] succ_of(g, hs[j])
}

/// Handle `h` occurs in one of the walks.
pub open spec fn walked(walks: Seq<Seq<int>>, h: int) -> bool {
    exists|w: int, t: int|
        0 <= w < walks.len() && 0 <= t < walks[w].len() && #[trigger] walks[w][t] == h
}

/// No handle occurs twice across the walks.
pub open spec fn walks_distinct(walks: Seq<Seq<int>>) -> bool {
    forall|w1: int, t1: int, w2: int, t2: int|
        0 <= w1 < walks.len() && 0 <= t1 < walks[w1].len() && 0 <= w2 < walks.len() && 0 <= t2
            < walks[w2].len() && (w1 != w2 || t1 != t2) ==> #[trigger] walks[w1][t1]
            != #[trigger] walks[w2][t2]
}

/// Combined length of the walks.
pub open spec fn walks_total(walks: Seq<Seq<int>>) -> int
    decreases walks.len(),
{
    if walks.len() == 0 {
        0
    } else {
        walks_total(walks.drop_last()) + walks.last().len()
    }
}

pub proof fn lemma_walks_total_push(walks: Seq<Seq<int>>, c: Seq<int>)
    ensures
        walks_total(walks.push(c)) == walks_total(walks) + c.len(),
{
    assert(walks.push(c).drop_last() =~= walks);
    assert(walks.push(c).last() == c);
}

/// A sequence in which every edge is visited has no unvisited edge.
pub proof fn lemma_count_unvisited_zero(s: Seq<GraphEdge>)
    requires
        forall|h: int| 0 <= h < s.len() ==> (#[trigger] s[h]).visited,
    ensures
        count_unvisited(s) == 0,
    decreases s.len(),
{
    if s.len() > 0 {
        lemma_count_unvisited_zero(s.drop_last());
    }
}

/// Walk `w` could not have gone on: the successor of its last handle was
/// already traversed, in `g` or by a walk up to and including `w` itself.
pub open spec fn walk_closed(g: Graph, walks: Seq<Seq<int>>, w: int) -> bool {
    walks[w].len() > 0 ==> {
        let c = succ_of(g, walks[w].last());
        ||| g.edges()[c].visited
        ||| exists|w2: int, t: int|
            0 <= w2 <= w && 0 <= t < walks[w2].len() && #[trigger] walks[w2][t] == c
    }
}

/// Every walk ran until it hit an already traversed edge.
pub open spec fn walks_closed(g: Graph, walks: Seq<Seq<int>>) -> bool {
    forall|w: int| 0 <= w < walks.len() ==> #[trigger] walk_closed(g, walks, w)
}

/// The faces are exactly the long walks: `keep` points, in order, at the
/// walks of length above two, and each face lists the heads of its walk.
pub open spec fn keep_matches(
    g: Graph,
    walks: Seq<Seq<int>>,
    keep: Seq<int>,
    faces: Seq<Vec<usize>>,
) -> bool {
    &&& keep.len() == faces.len()
    &&& forall|f1: int, f2: int|
        0 <= f1 < f2 < keep.len() ==> #[trigger] keep[f1] < #[trigger] keep[f2]
    &&& forall|f: int| 0 <= f < keep.len() ==> 0 <= #[trigger] keep[f] < walks.len()
    &&& forall|f: int| 0 <= f < keep.len() ==> walks[#[trigger] keep[f]].len() > 2
    &&& forall|f: int|
        0 <= f < faces.len() ==> walks[keep[f]].len() == (#[trigger] faces[f])@.len()
    &&& forall|f: int, t: int|
        0 <= f < faces.len() && 0 <= t < faces[f]@.len() ==> #[trigger] faces[f]@[t]
            == g.edges()[walks[keep[f]][t]].to
    &&& forall|w: int|
        0 <= w < walks.len() && (#[trigger] walks[w]).len() > 2 ==> keep.contains(w)
}

/// One complete face-extraction pass over graph `g`: the walks follow the
/// face-successor rule, start from the edges not yet traversed in `g`, and
/// together traverse each of them exactly once; the faces are the heads of
/// the walks longer than two, in order, and nothing else.
pub open spec fn walk_cover(
    g: Graph,
    walks: Seq<Seq<int>>,
    keep: Seq<int>,
    faces: Seq<Vec<usize>>,
) -> bool {
    &&& forall|w: int| 0 <= w < walks.len() ==> succ_path(g, #[trigger] walks[w])
    &&& forall|w: int, t: int|
        0 <= w < walks.len() && 0 <= t < walks[w].len() ==> !g.edges()[#[trigger] walks[w][t]].visited
    &&& walks_distinct(walks)
    &&& forall|h: int|
        0 <= h < g.edges().len() && !(#[trigger] g.edges()[h]).visited ==> walked(walks, h)
    &&& walks_total(walks) == count_unvisited(g.edges())
    &&& walks_closed(g, walks)
    &&& keep_matches(g, walks, keep, faces)
}

/// Mid-pass walk bookkeeping: the walks so far (`walks`) follow the
/// successor rule of `g` over edges untraversed in `g`, pairwise distinct,
/// all traversed by now (`cur_g`); every edge traversed since `g` is in a
/// walk, and the lengths account exactly for the traversals so far.
spec fn walk_inv(g: Graph, cur_g: Graph, walks: Seq<Seq<int>>) -> bool {
    &&& forall|w: int| 0 <= w < walks.len() ==> succ_path(g, #[trigger] walks[w])
    &&& forall|w: int, t: int|
        0 <= w < walks.len() && 0 <= t < walks[w].len() ==> !g.edges()[#[trigger] walks[w][t]].visited
    &&& forall|w: int, t: int|
        0 <= w < walks.len() && 0 <= t < walks[w].len() ==> cur_g.edges()[#[trigger] walks[w][t]].visited
    &&& walks_distinct(walks)
    &&& forall|h: int|
        0 <= h < g.edges().len() && !(#[trigger] g.edges()[h]).visited && cur_g.edges()[h].visited
            ==> walked(walks, h)
    &&& walks_total(walks) + count_unvisited(cur_g.edges()) == count_unvisited(g.edges())
}

/// Opening a fresh, empty walk disturbs nothing.
proof fn lemma_walk_inv_open(g: Graph, cur_g: Graph, walks: Seq<Seq<int>>)
    requires
        walk_inv(g, cur_g, walks),
    ensures
        walk_inv(g, cur_g, walks.push(Seq::<int>::empty())),
{
    let wn = walks.push(Seq::<int>::empty());
    lemma_walks_total_push(walks, Seq::<int>::empty());
    assert forall|w: int| 0 <= w < wn.len() implies succ_path(g, #[trigger] wn[w]) by {
        if w < walks.len() {
            assert(wn[w] == walks[w]);
        } else {
            let c = wn[w];
            assert(c.len() == 0);
            assert(succ_path(g, c));
        }
    }
    assert forall|h: int|
        0 <= h < g.edges().len() && !(#[trigger] g.edges()[h]).visited && cur_g.edges()[h].visited
        implies walked(wn, h) by {
        assert(walked(walks, h));
        let (w, t) = choose|w: int, t: int|
            0 <= w < walks.len() && 0 <= t < walks[w].len() && #[trigger] walks[w][t] == h;
        assert(wn[w][t] == h);
    }
}

/// Traversing one more edge extends the current walk: the edge was fresh
/// in `g` and untraversed until now, and it is the successor of the walk's
/// last handle.
proof fn lemma_walk_inv_extend(
    g: Graph,
    pre: Graph,
    post: Graph,
    walks: Seq<Seq<int>>,
    cur: Seq<int>,
    e: int,
)
    requires
        walk_inv(g, pre, walks.push(cur)),
        0 <= e < g.edges().len(),
        g.edges().len() == pre.edges().len(),
        pre.edges().len() == post.edges().len(),
        !pre.edges()[e].visited,
        post.edges()[e].visited,
        forall|h: int|
            0 <= h < pre.edges().len() && h != e ==> #[trigger] post.edges()[h] == pre.edges()[h],
        forall|h: int|
            0 <= h < g.edges().len() ==> ((#[trigger] g.edges()[h]).visited
                ==> pre.edges()[h].visited),
        cur.len() > 0 ==> e == succ_of(g, cur.last()),
        count_unvisited(post.edges()) + 1 == count_unvisited(pre.edges()),
    ensures
        walk_inv(g, post, walks.push(cur.push(e))),
{
    let wo = walks.push(cur);
    let cn = cur.push(e);
    let wn = walks.push(cn);
    lemma_walks_total_push(walks, cur);
    lemma_walks_total_push(walks, cn);
    assert(!g.edges()[e].visited);
    assert(wo[wo.len() - 1] == cur);
    assert(succ_path(g, cur));
    assert forall|w: int| 0 <= w < wn.len() implies succ_path(g, #[trigger] wn[w]) by {
        if w < walks.len() {
            assert(wn[w] == walks[w] && wo[w] == walks[w]);
            assert(succ_path(g, wo[w]));
        } else {
            assert(wn[w] == cn);
            assert forall|t: int| 0 <= t < cn.len() implies 0 <= #[trigger] cn[t]
                < g.edges().len() by {
                if t < cur.len() {
                    assert(cn[t] == cur[t]);
                }
            }
            assert forall|t: int|
                0 <= t < cn.len() - 1 implies cn[t + 1] == #[trigger] succ_of(g, cn[t]) by {
                if t < cur.len() - 1 {
                    assert(cn[t] == cur[t] && cn[t + 1] == cur[t + 1]);
                    assert(cur[t + 1] == succ_of(g, cur[t]));
                } else {
                    assert(t == cur.len() - 1);
                    assert(cn[t] == cur.last() && cn[t + 1] == e);
                }
            }
            assert(succ_path(g, cn));
        }
    }
    assert forall|w: int, t: int|
        0 <= w < wn.len() && 0 <= t < wn[w].len() implies !g.edges()[#[trigger] wn[w][t]].visited
            && post.edges()[wn[w][t]].visited by {
        if w < walks.len() {
            assert(wn[w] == wo[w]);
            assert(pre.edges()[wo[w][t]].visited);
            if wo[w][t] != e {
                assert(post.edges()[wo[w][t]] == pre.edges()[wo[w][t]]);
            }
        } else {
            if t < cur.len() {
                assert(wn[w][t] == cur[t] && wo[wo.len() - 1][t] == cur[t]);
                assert(pre.edges()[cur[t]].visited);
                if cur[t] != e {
                    assert(post.edges()[cur[t]] == pre.edges()[cur[t]]);
                }
            } else {
                assert(wn[w][t] == e);
            }
        }
    }
    assert forall|w1: int, t1: int, w2: int, t2: int|
        0 <= w1 < wn.len() && 0 <= t1 < wn[w1].len() && 0 <= w2 < wn.len() && 0 <= t2
            < wn[w2].len() && (w1 != w2 || t1 != t2) implies #[trigger] wn[w1][t1]
        != #[trigger] wn[w2][t2] by {
        let in_old1 = w1 < walks.len() || t1 < cur.len();
        let in_old2 = w2 < walks.len() || t2 < cur.len();
        if in_old1 && in_old2 {
            assert(wn[w1][t1] == wo[w1][t1] && wn[w2][t2] == wo[w2][t2]);
        } else if in_old1 {
            assert(wn[w2][t2] == e && wn[w1][t1] == wo[w1][t1]);
            assert(pre.edges()[wo[w1][t1]].visited);
        } else if in_old2 {
            assert(wn[w1][t1] == e && wn[w2][t2] == wo[w2][t2]);
            assert(pre.edges()[wo[w2][t2]].visited);
        }
    }
    assert forall|h: int|
        0 <= h < g.edges().len() && !(#[trigger] g.edges()[h]).visited && post.edges()[h].visited
        implies walked(wn, h) by {
        if h == e {
            assert(wn[wn.len() - 1][cn.len() - 1] == e);
        } else {
            assert(pre.edges()[h] == post.edges()[h]);
            assert(walked(wo, h));
            let (w, t) = choose|w: int, t: int|
                0 <= w < wo.len() && 0 <= t < wo[w].len() && #[trigger] wo[w][t] == h;
            if w < walks.len() {
                assert(wn[w][t] == h);
            } else {
                assert(wo[w][t] == cur[t]);
                assert(wn[wn.len() - 1][t] == h);
            }
        }
    }
}

/// Closing a walk long enough to keep: the walk enters the list, its index
/// enters `keep`, and its heads become the new face.
proof fn lemma_keep_push(
    g: Graph,
    walks: Seq<Seq<int>>,
    keep: Seq<int>,
    faces: Seq<Vec<usize>>,
    cur: Seq<int>,
    face: Vec<usize>,
)
    requires
        keep_matches(g, walks, keep, faces),
        cur.len() == face@.len(),
        cur.len() > 2,
        forall|t: int| 0 <= t < cur.len() ==> face@[t] == g.edges()[#[trigger] cur[t]].to,
    ensures
        keep_matches(g, walks.push(cur), keep.push(walks.len() as int), faces.push(face)),
{
    let wn = walks.push(cur);
    let kn = keep.push(walks.len() as int);
    let fcs = faces.push(face);
    assert forall|f: int| 0 <= f < kn.len() implies 0 <= #[trigger] kn[f] < wn.len()
        && wn[kn[f]].len() > 2 by {
        if f < keep.len() {
            assert(kn[f] == keep[f]);
            assert(wn[keep[f]] == walks[keep[f]]);
        } else {
            assert(kn[f] == walks.len() as int);
            assert(wn[walks.len() as int] == cur);
        }
    }
    assert forall|f: int|
        0 <= f < fcs.len() implies wn[kn[f]].len() == (#[trigger] fcs[f])@.len() by {
        if f < faces.len() {
            assert(kn[f] == keep[f] && fcs[f] == faces[f] && wn[keep[f]] == walks[keep[f]]);
        } else {
            assert(wn[kn[f]] == cur && fcs[f] == face);
        }
    }
    assert forall|f: int, t: int|
        0 <= f < fcs.len() && 0 <= t < fcs[f]@.len() implies #[trigger] fcs[f]@[t] == g.edges()[
        wn[kn[f]][t]].to by {
        if f < faces.len() {
            assert(kn[f] == keep[f] && fcs[f] == faces[f] && wn[keep[f]] == walks[keep[f]]);
        } else {
            assert(wn[kn[f]] == cur && fcs[f] == face);
        }
    }
    assert forall|w: int|
        0 <= w < wn.len() && (#[trigger] wn[w]).len() > 2 implies kn.contains(w) by {
        if w < walks.len() {
            assert(wn[w] == walks[w]);
            assert(keep.contains(w));
            let f = choose|f: int| 0 <= f < keep.len() && keep[f] == w;
            assert(kn[f] == w);
        } else {
            assert(kn[kn.len() - 1] == w);
        }
    }
}

/// Closing a walk too short to keep: the walk enters the list and the faces
/// stay as they are.
proof fn lemma_keep_push_short(
    g: Graph,
    walks: Seq<Seq<int>>,
    keep: Seq<int>,
    faces: Seq<Vec<usize>>,
    cur: Seq<int>,
)
    requires
        keep_matches(g, walks, keep, faces),
        cur.len() <= 2,
    ensures
        keep_matches(g, walks.push(cur), keep, faces),
{
    let wn = walks.push(cur);
    assert forall|f: int| 0 <= f < keep.len() implies 0 <= #[trigger] keep[f] < wn.len()
        && wn[keep[f]].len() > 2 by {
        assert(wn[keep[f]] == walks[keep[f]]);
    }
    assert forall|f: int|
        0 <= f < faces.len() implies wn[keep[f]].len() == (#[trigger] faces[f])@.len() by {
        assert(wn[keep[f]] == walks[keep[f]]);
    }
    assert forall|f: int, t: int|
        0 <= f < faces.len() && 0 <= t < faces[f]@.len() implies #[trigger] faces[f]@[t]
            == g.edges()[wn[keep[f]][t]].to by {
        assert(wn[keep[f]] == walks[keep[f]]);
    }
    assert forall|w: int|
        0 <= w < wn.len() && (#[trigger] wn[w]).len() > 2 implies keep.contains(w) by {
        assert(w < walks.len());
        assert(wn[w] == walks[w]);
    }
}

/// `b` is `a` after some face walking: same structure, with possibly more
/// edges marked visited.
pub open spec fn walk_evolves(a: Graph, b: Graph) -> bool {
    &&& b.nodes() == a.nodes()
    &&& b.rep() == a.rep()
    &&& b.unique() == a.unique()
    &&& forall|v: int| 0 <= v < a.nodes() ==> b.adj(v) == a.adj(v)
    &&& b.edges().len() == a.edges().len()
    &&& forall|h: int|
        0 <= h < a.edges().len() ==> same_but_visited(#[trigger] a.edges()[h], b.edges()[h])
    &&& forall|h: int|
        0 <= h < a.edges().len() ==> (a.edges()[h].visited ==> (#[trigger] b.edges()[h]).visited)
}

/// Directed-edge adjacency over a pool of vertices: an edge arena in which
/// twins are linked by `oppo`, a fan of outgoing handles per vertex, and a
/// face-successor link `next` set by angular ordering.
///
/// Distinct pool indices can stand for the same geometric vertex; the
/// representative map sends each index to the first index with an equal
/// position, and both endpoints of every added pair are routed through it.
pub struct Graph {
    arena: Vec<GraphEdge>,
    fans: Vec<Vec<usize>>,
    index_map: Vec<usize>,
    nr_nodes: usize,
    unique_edges: EdgeSet,
}

impl Graph {
    /// Number of pooled vertices.
    pub closed spec fn nodes(self) -> int {
        self.nr_nodes as int
    }

    /// The edge arena; a handle is an index into this sequence.
    pub closed spec fn edges(self) -> Seq<GraphEdge> {
        self.arena@
    }

    /// Handles of the edges leaving vertex `v`, in insertion order.
    pub closed spec fn adj(self, v: int) -> Seq<usize> {
        self.fans@[v]@
    }

    /// The representative map: each vertex index points at the first index
    /// that stands for the same position.
    pub closed spec fn rep(self) -> Seq<usize> {
        self.index_map@
    }

    /// The canonical undirected edges present, ascending.
    pub closed spec fn unique(self) -> Seq<Edge> {
        self.unique_edges@
    }

    /// Handle `h` occurs in the fan of vertex `v`.
    closed spec fn fan_has(self, v: int, h: int) -> bool {
        exists|k: int| 0 <= k < self.fans@[v]@.len() && #[trigger] self.fans@[v]@[k] == h
    }

    /// Every arena handle sits in the fan of its source vertex: no directed
    /// edge is orphaned, so the face walk reaches them all.
    closed spec fn fan_covers(self) -> bool {
        forall|h: int|
            0 <= h < self.arena@.len() ==> self.fan_has(
                (#[trigger] self.arena@[h]).from as int,
                h,
            )
    }

    pub closed spec fn wf(self) -> bool {
        &&& self.fans@.len() == self.nr_nodes
        &&& self.index_map@.len() == self.nr_nodes
        &&& forall|i: int| 0 <= i < self.index_map@.len() ==> self.index_map@[i] <= i
        &&& forall|h: int|
            0 <= h < self.arena@.len() ==> {
                let e = #[trigger] self.arena@[h];
                &&& e.from < self.nr_nodes
                &&& e.to < self.nr_nodes
                &&& e.oppo < self.arena@.len()
                &&& e.next < self.arena@.len()
                &&& e.oppo != h
                &&& self.arena@[e.oppo as int].oppo == h
                &&& self.arena@[e.oppo as int].from == e.to
                &&& self.arena@[e.oppo as int].to == e.from
            }
        &&& forall|v: int, k: int|
            0 <= v < self.fans@.len() && 0 <= k < self.fans@[v]@.len() ==> {
                let h = #[trigger] self.fans@[v]@[k];
                h < self.arena@.len() && self.arena@[h as int].from == v
            }
        &&& forall|v: int, k1: int, k2: int|
            0 <= v < self.fans@.len() && 0 <= k1 < k2 < self.fans@[v]@.len()
                ==> #[trigger] self.fans@[v]@[k1] != #[trigger] self.fans@[v]@[k2]
        &&& self.fan_covers()
        &&& self.unique_edges.wf()
    }

    /// Fan coverage only depends on the fans and the arena's source
    /// vertices, so it survives changes to links and visited flags.
    proof fn lemma_fan_covers_same_structure(a: Graph, b: Graph)
        requires
            a.fan_covers(),
            b.fans@ == a.fans@,
            b.arena@.len() == a.arena@.len(),
            forall|h: int|
                0 <= h < a.arena@.len() ==> (#[trigger] b.arena@[h]).from == a.arena@[h].from,
        ensures
            b.fan_covers(),
    {
        assert forall|h: int| 0 <= h < b.arena@.len() implies b.fan_has(
            (#[trigger] b.arena@[h]).from as int,
            h,
        ) by {
            let v = a.arena@[h].from as int;
            assert(a.fan_has(v, h));
            let k = choose|k: int| 0 <= k < a.fans@[v]@.len() && #[trigger] a.fans@[v]@[k] == h;
            assert(b.fans@[v]@[k] == h);
        }
    }

    /// A graph over `index_map.len()` pooled vertices with no edges yet.
    ///
    /// `index_map[i]` must be the first vertex index carrying the same
    /// position as `i` (so in particular `index_map[i] <= i`); a caller with
    /// no duplicate positions passes the identity map.
    pub fn new(index_map: Vec<usize>) -> (g: Graph)
        requires
            forall|i: int| 0 <= i < index_map@.len() ==> index_map@[i] <= i,
        ensures
            g.wf(),
            g.nodes() == index_map@.len(),
            g.rep() == index_map@,
            g.edges() == Seq::<GraphEdge>::empty(),
            forall|v: int| 0 <= v < g.nodes() ==> g.adj(v) == Seq::<usize>::empty(),
            g.unique() == Seq::<Edge>::empty(),
    {
        let n = index_map.len();
        let mut fans: Vec<Vec<usize>> = Vec::new();
        let mut i: usize = 0;
        while i < n
            invariant
                i <= n,
                fans@.len() == i,
                forall|v: int| 0 <= v < i ==> fans@[v]@ == Seq::<usize>::empty(),
            decreases n - i,
        {
            let fan: Vec<usize> = Vec::new();
            proof {
                assert(fan@ =~= Seq::<usize>::empty());
            }
            fans.push(fan);
            i += 1;
        }
        let g = Graph {
            arena: Vec::new(),
            fans,
            index_map,
            nr_nodes: n,
            unique_edges: EdgeSet::new(),
        };
        proof {
            assert(g.edges() =~= Seq::<GraphEdge>::empty());
        }
        g
    }

    /// Add the undirected edge between the representatives of `from` and
    /// `to`: two twinned directed edges enter the arena and the two fans.
    /// A pair that maps to a self-loop, or whose canonical edge is already
    /// present, changes nothing.
    pub fn add_pair(&mut self, from: usize, to: usize)
        requires
            old(self).wf(),
            from < old(self).nodes(),
            to < old(self).nodes(),
            old(self).edges().len() + 2 <= usize::MAX,
        ensures
            final(self).wf(),
            final(self).nodes() == old(self).nodes(),
            final(self).rep() == old(self).rep(),
            ({
                let f = old(self).rep()[from as int];
                let t = old(self).rep()[to as int];
                let l = old(self).edges().len() as usize;
                match Edge::canon(f, t) {
                    Option::None => {
                        &&& final(self).edges() == old(self).edges()
                        &&& final(self).unique() == old(self).unique()
                        &&& forall|v: int|
                            0 <= v < old(self).nodes() ==> final(self).adj(v) == old(self).adj(v)
                    },
                    Option::Some(e) => {
                        if old(self).unique().contains(e) {
                            &&& final(self).edges() == old(self).edges()
                            &&& final(self).unique() == old(self).unique()
                            &&& forall|v: int|
                                0 <= v < old(self).nodes() ==> final(self).adj(v) == old(self).adj(v)
                        } else {
                            &&& final(self).edges() == old(self).edges() + seq![
                                GraphEdge {
                                    from: f,
                                    to: t,
                                    oppo: (l + 1) as usize,
                                    next: (l + 1) as usize,
                                    visited: false,
                                },
                                GraphEdge {
                                    from: t,
                                    to: f,
                                    oppo: l,
                                    next: l,
                                    visited: false,
                                },
                            ]
                            &&& final(self).adj(f as int) == old(self).adj(f as int).push(l)
                            &&& final(self).adj(t as int) == old(self).adj(t as int).push(
                                (l + 1) as usize,
                            )
                            &&& forall|v: int|
                                0 <= v < old(self).nodes() && v != f && v != t ==> final(self).adj(v) == old(self).adj(v)
                            &&& forall|x: Edge|
                                final(self).unique().contains(x) <==> old(self).unique().contains(x) || x == e
                            &&& final(self).unique().len() == old(self).unique().len() + 1
                        }
                    },
                }
            }),
    {
        let f = self.index_map[from];
        let t = self.index_map[to];
        if !self.unique_edges.add(f, t) {
            proof {
                Self::lemma_fan_covers_same_structure(*old(self), *self);
            }
            return;
        }
        let l = self.arena.len();
        let e1 = GraphEdge { from: f, to: t, oppo: l + 1, next: l + 1, visited: false };
        let e2 = GraphEdge { from: t, to: f, oppo: l, next: l, visited: false };
        self.arena.push(e1);
        self.arena.push(e2);
        self.fans[f].push(l);
        self.fans[t].push(l + 1);
        proof {
            assert forall|h: int| 0 <= h < self.arena@.len() implies self.fan_has(
                (#[trigger] self.arena@[h]).from as int,
                h,
            ) by {
                if h < old(self).arena@.len() {
                    let v = old(self).arena@[h].from as int;
                    assert(old(self).fan_has(v, h));
                    let k = choose|k: int|
                        0 <= k < old(self).fans@[v]@.len() && #[trigger] old(self).fans@[v]@[k]
                            == h;
                    assert(self.fans@[v]@[k] == h);
                } else if h == l {
                    assert(self.fans@[f as int]@[self.fans@[f as int]@.len() - 1] == l);
                } else {
                    assert(self.fans@[t as int]@[self.fans@[t as int]@.len() - 1] == (l
                        + 1) as usize);
                }
            }
        }
    }

    /// How many directed edges leave vertex `index`.
    pub fn neighbors_count(&self, index: usize) -> (n: usize)
        requires
            self.wf(),
            index < self.nodes(),
        ensures
            n == self.adj(index as int).len(),
    {
        self.fans[index].len()
    }

    /// The handles of the directed edges leaving vertex `index`.
    pub fn neighbors(&self, index: usize) -> (fan: &Vec<usize>)
        requires
            self.wf(),
            index < self.nodes(),
        ensures
            fan@ == self.adj(index as int),
    {
        &self.fans[index]
    }

    /// The directed edge behind a handle.
    pub fn edge(&self, handle: usize) -> (e: GraphEdge)
        requires
            self.wf(),
            handle < self.edges().len(),
        ensures
            e == self.edges()[handle as int],
    {
        self.arena[handle]
    }

    /// Sort the fan of `index` by the given angle keys (ties keep fan order)
    /// and link each member's face successor to the next member, cyclically.
    ///
    /// The keys are the signed tangential angles of the fan's neighbors,
    /// measured by the geometric caller and encoded so that `u64` order
    /// agrees with angle order; entry `k` of `keys` belongs to fan entry `k`.
    /// Only the `next` links of this fan's edges change.
    #[verifier::rlimit(50)]
    pub fn order_neighbors(&mut self, index: usize, keys: &Vec<u64>)
        requires
            old(self).wf(),
            index < old(self).nodes(),
            keys@.len() == old(self).adj(index as int).len(),
        ensures
            final(self).wf(),
            final(self).nodes() == old(self).nodes(),
            final(self).rep() == old(self).rep(),
            final(self).unique() == old(self).unique(),
            forall|v: int| 0 <= v < old(self).nodes() ==> final(self).adj(v) == old(self).adj(v),
            final(self).edges().len() == old(self).edges().len(),
            forall|h: int|
                0 <= h < old(self).edges().len() ==> same_but_next(
                    old(self).edges()[h],
                    final(self).edges()[h],
                ),
            forall|h: int|
                0 <= h < old(self).edges().len() && !old(self).adj(index as int).contains(
                    h as usize,
                ) ==> final(self).edges()[h] == old(self).edges()[h],
            exists|p: Seq<int>|
                is_key_order(p, keys@) && ring_linked(*final(self), old(self).adj(index as int), p),
    {
        let ghost fan = old(self).adj(index as int);
        let m = self.fans[index].len();
        if m == 0 {
            proof {
                let p = Seq::<int>::empty();
                assert(is_key_order(p, keys@));
                assert(ring_linked(*self, fan, p));
            }
            return;
        }
        let mut sorted: Vec<(u64, usize)> = Vec::new();
        let mut j: usize = 0;
        while j < m
            invariant
                j <= m,
                m == keys@.len(),
                sorted@.len() == j,
                forall|a: int, b: int|
                    0 <= a < b < j ==> keyed_lt(#[trigger] sorted@[a], #[trigger] sorted@[b]),
                forall|x: (u64, usize)|
                    #[trigger] sorted@.contains(x) <==> x.1 < j && x.0 == keys@[x.1 as int],
            decreases m - j,
        {
            let e = (keys[j], j);
            let mut i: usize = 0;
            while i < sorted.len() && (sorted[i].0 < e.0 || (sorted[i].0 == e.0 && sorted[i].1
                < e.1))
                invariant
                    i <= sorted@.len(),
                    forall|k: int| 0 <= k < i ==> keyed_lt(#[trigger] sorted@[k], e),
                decreases sorted@.len() - i,
            {
                i += 1;
            }
            let ghost prev = sorted@;
            let ghost ii = i as int;
            sorted.insert(i, e);
            proof {
                assert forall|k: int| ii <= k < prev.len() implies !keyed_lt(prev[k], e) by {
                    assert(prev.contains(prev[k]));
                    assert(prev[k].1 < j && e.1 == j);
                    if k > ii {
                        assert(keyed_lt(prev[ii], prev[k]));
                    }
                }
                assert forall|a: int, b: int|
                    0 <= a < b < sorted@.len() implies keyed_lt(sorted@[a], sorted@[b]) by {
                    if b < ii {
                        assert(sorted@[a] == prev[a] && sorted@[b] == prev[b]);
                    } else if a > ii {
                        assert(sorted@[a] == prev[a - 1] && sorted@[b] == prev[b - 1]);
                    } else if a < ii && b == ii {
                        assert(sorted@[a] == prev[a] && sorted@[b] == e);
                    } else if a == ii && b > ii {
                        assert(sorted@[a] == e && sorted@[b] == prev[b - 1]);
                        assert(prev.contains(prev[b - 1]));
                        assert(prev[b - 1].1 != e.1);
                    } else {
                        assert(sorted@[a] == prev[a] && sorted@[b] == prev[b - 1]);
                        assert(keyed_lt(prev[a], e));
                        assert(prev.contains(prev[b - 1]));
                        assert(prev[b - 1].1 != e.1);
                    }
                }
                assert forall|x: (u64, usize)|
                    #[trigger] sorted@.contains(x) <==> (x.1 < j + 1 && x.0 == keys@[x.1 as int]) by {
                    if sorted@.contains(x) {
                        let k = choose|k: int| 0 <= k < sorted@.len() && sorted@[k] == x;
                        if k < ii {
                            assert(prev[k] == x);
                            assert(prev.contains(x));
                        } else if k > ii {
                            assert(prev[k - 1] == x);
                            assert(prev.contains(x));
                        }
                    }
                    if x.1 < j + 1 && x.0 == keys@[x.1 as int] {
                        if x.1 < j {
                            assert(prev.contains(x));
                            let k = choose|k: int| 0 <= k < prev.len() && prev[k] == x;
                            if k < ii {
                                assert(sorted@[k] == x);
                            } else {
                                assert(sorted@[k + 1] == x);
                            }
                            assert(sorted@.contains(x));
                        } else {
                            assert(x.1 == j && x.0 == keys@[j as int]);
                            assert(x == e);
                            assert(sorted@[ii] == x);
                            assert(sorted@.contains(x));
                        }
                    }
                }
            }
            j += 1;
        }
        let ghost p = Seq::new(m as nat, |t: int| sorted@[t].1 as int);
        proof {
            assert forall|t: int| 0 <= t < m implies 0 <= p[t] < m && sorted@[t].0
                == keys@[p[t]] by {
                assert(sorted@.contains(sorted@[t]));
            }
            assert forall|a: int, b: int|
                0 <= a < b < p.len() implies keyed_lt(
                (keys@[p[a]], p[a] as usize),
                (keys@[p[b]], p[b] as usize),
            ) by {
                assert(keyed_lt(sorted@[a], sorted@[b]));
                assert(sorted@[a].0 == keys@[p[a]] && sorted@[a].1 == p[a] as usize);
                assert(sorted@[b].0 == keys@[p[b]] && sorted@[b].1 == p[b] as usize);
            }
            assert forall|v: int| 0 <= v < m implies p.contains(v) by {
                let x = (keys@[v], v as usize);
                assert(sorted@.contains(x));
                let k = choose|k: int| 0 <= k < sorted@.len() && sorted@[k] == x;
                assert(p[k] == v);
            }
            assert(is_key_order(p, keys@));
        }
        let mut j: usize = 0;
        while j < m
            invariant
                j <= m,
                m == keys@.len(),
                self.wf(),
                index < self.nodes(),
                self.nodes() == old(self).nodes(),
                self.rep() == old(self).rep(),
                self.unique() == old(self).unique(),
                forall|v: int| 0 <= v < old(self).nodes() ==> self.adj(v) == old(self).adj(v),
                fan == old(self).adj(index as int),
                fan.len() == m,
                self.edges().len() == old(self).edges().len(),
                forall|h: int|
                    0 <= h < old(self).edges().len() ==> same_but_next(
                        old(self).edges()[h],
                        self.edges()[h],
                    ),
                forall|h: int|
                    0 <= h < old(self).edges().len() && !fan.contains(h as usize) ==> self.edges()[h]
                        == old(self).edges()[h],
                is_key_order(p, keys@),
                forall|t: int| 0 <= t < m ==> p[t] == sorted@[t].1 as int,
                sorted@.len() == m,
                forall|t: int|
                    0 <= t < j ==> self.edges()[fan[#[trigger] p[t]] as int].next == fan[p[if t + 1
                        == m {
                        0int
                    } else {
                        t + 1
                    }]],
            decreases m - j,
        {
            let pos = sorted[j].1;
            let npos = if j == m - 1 {
                sorted[0].1
            } else {
                sorted[j + 1].1
            };
            proof {
                assert(0 <= p[j as int] < m && 0 <= p[if j + 1 == m {
                    0int
                } else {
                    j + 1
                }] < m);
            }
            let h = self.fans[index][pos];
            let nh = self.fans[index][npos];
            let ghost before = *self;
            self.arena[h].next = nh;
            proof {
                Self::lemma_fan_covers_same_structure(before, *self);
                assert(self.fans == before.fans);
                assert(fan == self.adj(index as int));
                assert(fan[p[j as int]] == h);
                assert(fan.contains(h as usize)) by {
                    assert(fan[p[j as int]] == h);
                }
                assert forall|a: int, b: int| 0 <= a < b < m implies p[a] != p[b] by {
                    if p[a] == p[b] {
                        assert(keyed_lt(
                            (keys@[p[a]], p[a] as usize),
                            (keys@[p[b]], p[b] as usize),
                        ));
                    }
                }
                assert forall|t: int|
                    0 <= t < j + 1 implies self.edges()[fan[#[trigger] p[t]] as int].next == fan[
                    p[if t + 1 == m {
                        0int
                    } else {
                        t + 1
                    }]] by {
                    if t < j {
                        assert(p[t] != p[j as int]);
                        assert(fan[p[t]] != fan[p[j as int]]);
                        assert(self.edges()[fan[p[t]] as int] == before.edges()[fan[p[t]] as int]);
                    } else {
                        assert(fan[p[if j + 1 == m as int {
                            0int
                        } else {
                            j + 1
                        }]] == nh);
                    }
                }
            }
            j += 1;
        }
        proof {
            assert(ring_linked(*self, fan, p));
        }
    }

    /// Extract the faces: repeatedly take an untraversed directed edge and
    /// follow twin-then-successor links until an already traversed edge is
    /// reached, collecting the heads on the way; loops of length at most two
    /// are discarded as degenerate.
    ///
    /// The walks traverse every directed edge that was still untraversed,
    /// each exactly once (`walk_cover`): the returned faces are the head
    /// lists of the walks longer than two, in walk order, and the kept and
    /// discarded walks together account for every such edge.
    pub fn walk_faces(&mut self) -> (faces: Vec<Vec<usize>>)
        requires
            old(self).wf(),
        ensures
            final(self).wf(),
            walk_evolves(*old(self), *final(self)),
            forall|f: int| 0 <= f < faces@.len() ==> (#[trigger] faces@[f])@.len() >= 3,
            forall|f: int, k: int|
                0 <= f < faces@.len() && 0 <= k < faces@[f]@.len() ==> #[trigger] faces@[f]@[k]
                    < old(self).nodes(),
            total_len(faces@) <= count_unvisited(old(self).edges()),
            forall|h: int|
                0 <= h < old(self).edges().len() ==> (#[trigger] final(self).edges()[h]).visited,
            exists|walks: Seq<Seq<int>>, ks: Seq<int>| walk_cover(*old(self), walks, ks, faces@),
    {
        let n = self.fans.len();
        let mut faces: Vec<Vec<usize>> = Vec::new();
        let ghost mut walks: Seq<Seq<int>> = Seq::empty();
        let ghost mut kept: Seq<int> = Seq::empty();
        let mut i: usize = 0;
        while i < n
            invariant
                i <= n,
                self.wf(),
                n == self.nodes(),
                walk_evolves(*old(self), *self),
                forall|f: int| 0 <= f < faces@.len() ==> (#[trigger] faces@[f])@.len() >= 3,
                forall|f: int, k: int|
                    0 <= f < faces@.len() && 0 <= k < faces@[f]@.len() ==> #[trigger] faces@[f]@[k]
                        < self.nodes(),
                total_len(faces@) + count_unvisited(self.edges()) <= count_unvisited(
                    old(self).edges(),
                ),
                forall|v: int, k: int|
                    0 <= v < i && 0 <= k < self.adj(v).len() ==> self.edges()[#[trigger] self.adj(
                        v,
                    )[k] as int].visited,
                walk_inv(*old(self), *self, walks),
                keep_matches(*old(self), walks, kept, faces@),
                walks_closed(*old(self), walks),
            decreases n - i,
        {
            let fan_len = self.fans[i].len();
            let mut j: usize = 0;
            while j < fan_len
                invariant
                    i < n,
                    j <= fan_len,
                    self.wf(),
                    n == self.nodes(),
                    fan_len == self.adj(i as int).len(),
                    walk_evolves(*old(self), *self),
                    forall|f: int| 0 <= f < faces@.len() ==> (#[trigger] faces@[f])@.len() >= 3,
                    forall|f: int, k: int|
                        0 <= f < faces@.len() && 0 <= k < faces@[f]@.len() ==> #[trigger] faces@[f]@[k]
                            < self.nodes(),
                    total_len(faces@) + count_unvisited(self.edges()) <= count_unvisited(
                        old(self).edges(),
                    ),
                    forall|v: int, k: int|
                        0 <= v < i && 0 <= k < self.adj(v).len() ==> self.edges()[#[trigger] self.adj(
                            v,
                        )[k] as int].visited,
                    forall|k: int|
                        0 <= k < j ==> self.edges()[#[trigger] self.adj(i as int)[k] as int].visited,
                    walk_inv(*old(self), *self, walks),
                    keep_matches(*old(self), walks, kept, faces@),
                    walks_closed(*old(self), walks),
                decreases fan_len - j,
            {
                let mut e: usize = self.fans[i][j];
                let ghost start_h = e;
                let mut one_face: Vec<usize> = Vec::new();
                let ghost mut cur: Seq<int> = Seq::empty();
                proof {
                    lemma_walk_inv_open(*old(self), *self, walks);
                }
                while !self.arena[e].visited
                    invariant
                        self.wf(),
                        n == self.nodes(),
                        e < self.edges().len(),
                        walk_evolves(*old(self), *self),
                        forall|f: int| 0 <= f < faces@.len() ==> (#[trigger] faces@[f])@.len() >= 3,
                        forall|f: int, k: int|
                            0 <= f < faces@.len() && 0 <= k < faces@[f]@.len() ==> #[trigger] faces@[f]@[k]
                                < self.nodes(),
                        forall|k: int|
                            0 <= k < one_face@.len() ==> #[trigger] one_face@[k] < self.nodes(),
                        total_len(faces@) + one_face@.len() + count_unvisited(self.edges())
                            <= count_unvisited(old(self).edges()),
                        i < n,
                        j < fan_len,
                        fan_len == self.adj(i as int).len(),
                        start_h == self.adj(i as int)[j as int],
                        forall|v: int, k: int|
                            0 <= v < i && 0 <= k < self.adj(v).len() ==> self.edges()[#[trigger] self.adj(
                                v,
                            )[k] as int].visited,
                        forall|k: int|
                            0 <= k < j ==> self.edges()[#[trigger] self.adj(i as int)[k] as int].visited,
                        self.edges()[start_h as int].visited || e == start_h,
                        walk_inv(*old(self), *self, walks.push(cur)),
                        keep_matches(*old(self), walks, kept, faces@),
                        cur.len() == one_face@.len(),
                        forall|t: int|
                            0 <= t < cur.len() ==> #[trigger] one_face@[t] == old(self).edges()[cur[t]].to,
                        cur.len() > 0 ==> e as int == succ_of(*old(self), cur.last()),
                    decreases count_unvisited(self.edges()),
                {
                    let p = self.arena[e].to;
                    one_face.push(p);
                    let ghost before = *self;
                    self.arena[e].visited = true;
                    proof {
                        lemma_count_unvisited_update(
                            before.edges(),
                            e as int,
                            self.edges()[e as int],
                        );
                        Self::lemma_fan_covers_same_structure(before, *self);
                        assert forall|v: int, k: int|
                            0 <= v < i && 0 <= k < self.adj(v).len() implies self.edges()[
                        #[trigger] self.adj(v)[k] as int].visited by {
                            assert(self.adj(v) == before.adj(v));
                            assert(before.edges()[before.adj(v)[k] as int].visited);
                        }
                        assert forall|k: int|
                            0 <= k < j implies self.edges()[
                        #[trigger] self.adj(i as int)[k] as int].visited by {
                            assert(self.adj(i as int) == before.adj(i as int));
                            assert(before.edges()[before.adj(i as int)[k] as int].visited);
                        }
                        assert(same_but_visited(old(self).edges()[e as int], before.edges()[e as int]));
                        assert(p == old(self).edges()[e as int].to);
                        assert forall|h: int|
                            0 <= h < before.edges().len() && h != e implies #[trigger] self.edges()[h]
                                == before.edges()[h] by {}
                        lemma_walk_inv_extend(*old(self), before, *self, walks, cur, e as int);
                        cur = cur.push(e as int);
                        assert forall|t: int|
                            0 <= t < cur.len() implies #[trigger] one_face@[t] == old(self).edges()[
                        cur[t]].to by {
                            if t < cur.len() - 1 {
                                assert(cur[t] == cur.drop_last()[t]);
                            }
                        }
                    }
                    let o = self.arena[e].oppo;
                    e = self.arena[o].next;
                    proof {
                        assert(same_but_visited(
                            old(self).edges()[cur.last()],
                            self.edges()[cur.last()],
                        ));
                        assert(same_but_visited(old(self).edges()[o as int], self.edges()[o as int]));
                        assert(e as int == succ_of(*old(self), cur.last()));
                    }
                }
                proof {
                    let wnew = walks.push(cur);
                    assert forall|w: int|
                        0 <= w < wnew.len() implies #[trigger] walk_closed(
                        *old(self),
                        wnew,
                        w,
                    ) by {
                        if w < walks.len() {
                            assert(walk_closed(*old(self), walks, w));
                            assert(wnew[w] == walks[w]);
                            if walks[w].len() > 0 {
                                let c = succ_of(*old(self), walks[w].last());
                                if !old(self).edges()[c].visited {
                                    let (w2, t) = choose|w2: int, t: int|
                                        0 <= w2 <= w && 0 <= t < walks[w2].len()
                                            && #[trigger] walks[w2][t] == c;
                                    assert(wnew[w2][t] == c);
                                }
                            }
                        } else {
                            assert(wnew[w] == cur);
                            if cur.len() > 0 {
                                let c = succ_of(*old(self), cur.last());
                                assert(c == e as int);
                                assert(self.edges()[e as int].visited);
                                if !old(self).edges()[c].visited {
                                    assert(walked(wnew, c));
                                    let (w2, t) = choose|w2: int, t: int|
                                        0 <= w2 < wnew.len() && 0 <= t < wnew[w2].len()
                                            && #[trigger] wnew[w2][t] == c;
                                    assert(0 <= w2 <= w);
                                }
                            }
                        }
                    }
                    assert(walks_closed(*old(self), wnew));
                }
                if one_face.len() > 2 {
                    proof {
                        lemma_total_len_push(faces@, one_face);
                        lemma_keep_push(*old(self), walks, kept, faces@, cur, one_face);
                        kept = kept.push(walks.len() as int);
                        walks = walks.push(cur);
                    }
                    faces.push(one_face);
                } else {
                    proof {
                        lemma_keep_push_short(*old(self), walks, kept, faces@, cur);
                        walks = walks.push(cur);
                    }
                }
                j += 1;
            }
            i += 1;
        }
        proof {
            assert forall|h: int|
                0 <= h < self.edges().len() implies (#[trigger] self.edges()[h]).visited by {
                let v = self.arena@[h].from as int;
                assert(self.fan_has(v, h));
                let k = choose|k: int|
                    0 <= k < self.fans@[v]@.len() && #[trigger] self.fans@[v]@[k] == h;
                assert(self.edges()[self.adj(v)[k] as int].visited);
            }
            lemma_count_unvisited_zero(self.edges());
            assert forall|h: int|
                0 <= h < old(self).edges().len() && !(#[trigger] old(self).edges()[h]).visited
                implies walked(walks, h) by {
                assert(self.edges()[h].visited);
            }
            assert(walk_cover(*old(self), walks, kept, faces@));
        }
        faces
    }

    /// Add every edge of a set, routing both endpoints through the
    /// representative map.
    pub fn add_edges(&mut self, edges: &Vec<Edge>)
        requires
            old(self).wf(),
            forall|i: int|
                0 <= i < edges@.len() ==> edges@[i].from < old(self).nodes() && edges@[i].to < old(self).nodes(),
            old(self).edges().len() + 2 * edges@.len() <= usize::MAX,
        ensures
            final(self).wf(),
            final(self).nodes() == old(self).nodes(),
            final(self).rep() == old(self).rep(),
            forall|x: Edge|
                final(self).unique().contains(x) <==> old(self).unique().contains(x) || exists|
                    k: int,
                |
                    0 <= k < edges@.len() && #[trigger] mapped_canon(old(self).rep(), edges@, k)
                        == Some(x),
            final(self).edges().len() == old(self).edges().len() + 2 * (final(self).unique().len() - old(self).unique().len()),
            graph_grown(*old(self), *final(self), old(self).rep(), edges@),
    {
        proof {
            assert(graph_grown(*old(self), *self, old(self).rep(), edges@));
        }
        let mut i: usize = 0;
        while i < edges.len()
            invariant
                i <= edges.len(),
                self.wf(),
                self.nodes() == old(self).nodes(),
                self.rep() == old(self).rep(),
                forall|k: int|
                    0 <= k < edges@.len() ==> edges@[k].from < self.nodes() && edges@[k].to
                        < self.nodes(),
                self.edges().len() <= old(self).edges().len() + 2 * i,
                old(self).edges().len() + 2 * edges@.len() <= usize::MAX,
                unique_prefix(self.unique(), old(self).unique(), old(self).rep(), edges@, i as int),
                self.unique().len() >= old(self).unique().len(),
                self.edges().len() == old(self).edges().len() + 2 * (self.unique().len() - old(self).unique().len()),
                graph_grown(*old(self), *self, old(self).rep(), edges@),
            decreases edges.len() - i,
        {
            let ghost gb = *self;
            self.add_pair(edges[i].from, edges[i].to);
            proof {
                let rep = old(self).rep();
                let base = old(self).unique();
                let c = mapped_canon(rep, edges@, i as int);
                assert forall|x: Edge|
                    self.unique().contains(x) <==> base.contains(x) || exists|k: int|
                        0 <= k < i + 1 && #[trigger] mapped_canon(rep, edges@, k) == Some(x) by {
                    if self.unique().contains(x) {
                        if gb.unique().contains(x) {
                            if !base.contains(x) {
                                let k = choose|k: int|
                                    0 <= k < i && #[trigger] mapped_canon(rep, edges@, k) == Some(
                                        x,
                                    );
                                assert(mapped_canon(rep, edges@, k) == Some(x));
                            }
                        } else {
                            assert(c == Some(x));
                        }
                    }
                    if base.contains(x) {
                        assert(gb.unique().contains(x));
                        assert(self.unique().contains(x));
                    }
                    if exists|k: int|
                        0 <= k < i + 1 && #[trigger] mapped_canon(rep, edges@, k) == Some(x) {
                        let k = choose|k: int|
                            0 <= k < i + 1 && #[trigger] mapped_canon(rep, edges@, k) == Some(x);
                        if k < i {
                            assert(gb.unique().contains(x));
                            assert(self.unique().contains(x));
                        } else {
                            assert(c == Some(x));
                            assert(self.unique().contains(x));
                        }
                    }
                }
                assert(unique_prefix(self.unique(), base, rep, edges@, i + 1));
                let g0 = *old(self);
                assert forall|x: int|
                    0 <= x < gb.edges().len() implies #[trigger] self.edges()[x] == gb.edges()[x] by {}
                assert forall|v: int|
                    0 <= v < gb.nodes() implies gb.adj(v).len() <= #[trigger] self.adj(v).len() by {}
                assert forall|v: int, k: int|
                    0 <= v < gb.nodes() && 0 <= k < gb.adj(v).len() implies #[trigger] self.adj(
                    v,
                )[k] == gb.adj(v)[k] by {}
                assert forall|h: int|
                    g0.edges().len() <= h < self.edges().len() implies #[trigger] new_twin(
                    *self,
                    rep,
                    edges@,
                    h,
                ) by {
                    if h < gb.edges().len() {
                        assert(new_twin(gb, rep, edges@, h));
                        assert(0 <= gb.edges()[h].from < gb.nodes());
                        lemma_new_twin_grow(gb, *self, rep, edges@, h);
                    } else {
                        let f = gb.rep()[edges@[i as int].from as int];
                        let t = gb.rep()[edges@[i as int].to as int];
                        let l = gb.edges().len() as int;
                        assert(mapped_canon(rep, edges@, i as int) == Edge::canon(f, t));
                        if h == l {
                            let ge = self.edges()[h];
                            assert(ge == (GraphEdge {
                                from: f,
                                to: t,
                                oppo: (l + 1) as usize,
                                next: (l + 1) as usize,
                                visited: false,
                            }));
                            assert(Edge::canon(ge.from, ge.to) == Edge::canon(f, t));
                            assert(self.adj(f as int)[self.adj(f as int).len() - 1] == l as usize);
                            assert(self.adj(f as int).contains(h as usize));
                        } else {
                            assert(h == l + 1);
                            let ge = self.edges()[h];
                            assert(ge == (GraphEdge {
                                from: t,
                                to: f,
                                oppo: l as usize,
                                next: l as usize,
                                visited: false,
                            }));
                            assert(Edge::canon(ge.from, ge.to) == Edge::canon(f, t));
                            assert(self.adj(t as int)[self.adj(t as int).len() - 1] == ((l
                                + 1) as usize));
                            assert(self.adj(t as int).contains(h as usize));
                        }
                    }
                }
                assert(graph_grown(g0, *self, rep, edges@));
            }
            i += 1;
        }
        proof {
            assert forall|x: Edge|
                self.unique().contains(x) <==> old(self).unique().contains(x) || exists|k: int|
                    0 <= k < edges@.len() && #[trigger] mapped_canon(old(self).rep(), edges@, k)
                        == Some(x) by {
                assert(unique_prefix(
                    self.unique(),
                    old(self).unique(),
                    old(self).rep(),
                    edges@,
                    edges@.len() as int,
                ));
            }
        }
    }
}

} // verus!
