use morphing::arc::{ArcIntersectionResult, ArcParam};
use morphing::edge::Edge;
use morphing::graph::Graph;
use morphing::merge::{MergeState, VertexOrigin};
use morphing::triangulate::triangulate_faces;

fn edge_pairs(s: &MergeState) -> Vec<(usize, usize)> {
    s.edges_snapshot().iter().map(|e| (e.from, e.to)).collect()
}

#[test]
fn pool_lists_start_then_end_vertices() {
    let s = MergeState::new(2, 3);
    assert_eq!(s.nvertexes(), 5);
    assert!(matches!(s.origin(0), VertexOrigin::Start(0)));
    assert!(matches!(s.origin(1), VertexOrigin::Start(1)));
    assert!(matches!(s.origin(2), VertexOrigin::End(0)));
    assert!(matches!(s.origin(4), VertexOrigin::End(2)));
}

#[test]
fn disjoint_edge_is_spliced_whole() {
    let mut s = MergeState::new(2, 2);
    s.insert_edge(&Edge::new(0, 1));
    s.begin_dst_edge(2, 3);
    for e in s.edges_snapshot() {
        s.apply(&e, ArcIntersectionResult::N);
    }
    s.end_dst_edge();
    assert_eq!(edge_pairs(&s), vec![(0, 1), (2, 3)]);
}

#[test]
fn crossing_splits_both_edges() {
    let mut s = MergeState::new(2, 2);
    s.insert_edge(&Edge::new(0, 1));
    s.begin_dst_edge(2, 3);
    let snapshot = s.edges_snapshot();
    let id = s
        .apply(
            &snapshot[0],
            ArcIntersectionResult::X(ArcParam::Inside(500)),
        )
        .unwrap();
    assert_eq!(id, 4);
    s.end_dst_edge();
    assert!(matches!(s.origin(4), VertexOrigin::Crossing));
    assert_eq!(edge_pairs(&s), vec![(0, 4), (1, 4), (2, 4), (3, 4)]);
}

#[test]
fn junction_on_current_edge_records_cut() {
    let mut s = MergeState::new(2, 2);
    s.insert_edge(&Edge::new(0, 1));
    s.begin_dst_edge(2, 3);
    let snapshot = s.edges_snapshot();
    s.apply(
        &snapshot[0],
        ArcIntersectionResult::T1(0, ArcParam::Inside(500)),
    );
    let cuts = s.cut_points();
    assert_eq!(cuts.len(), 3);
    assert_eq!(cuts[2], (ArcParam::Inside(500), 0));
    s.end_dst_edge();
    // the chain runs start, junction, end
    assert_eq!(edge_pairs(&s), vec![(0, 1), (0, 2), (0, 3)]);
}

#[test]
fn junction_on_snapshot_edge_splits_it() {
    let mut s = MergeState::new(2, 2);
    s.insert_edge(&Edge::new(0, 1));
    s.begin_dst_edge(2, 3);
    let snapshot = s.edges_snapshot();
    s.apply(
        &snapshot[0],
        ArcIntersectionResult::T2(2, ArcParam::Inside(500)),
    );
    s.end_dst_edge();
    assert_eq!(edge_pairs(&s), vec![(0, 2), (1, 2), (2, 3)]);
}

#[test]
fn shared_endpoint_unifies_ids() {
    let mut s = MergeState::new(2, 2);
    s.insert_edge(&Edge::new(0, 1));
    s.begin_dst_edge(2, 3);
    let snapshot = s.edges_snapshot();
    // the current edge's start is the same point as pooled vertex 0
    s.apply(&snapshot[0], ArcIntersectionResult::L(0, 2));
    let cuts = s.cut_points();
    assert_eq!(cuts[0], (ArcParam::Start, 0));
    s.end_dst_edge();
    assert_eq!(edge_pairs(&s), vec![(0, 1), (0, 3)]);
}

#[test]
fn identical_edge_is_skipped() {
    let mut s = MergeState::new(2, 2);
    s.insert_edge(&Edge::new(0, 1));
    s.begin_dst_edge(2, 3);
    let snapshot = s.edges_snapshot();
    assert!(!s.is_skipped());
    s.apply(&snapshot[0], ArcIntersectionResult::S);
    assert!(s.is_skipped());
    s.end_dst_edge();
    assert_eq!(edge_pairs(&s), vec![(0, 1)]);
}

#[test]
fn interior_overlap_chains_cut_points() {
    let mut s = MergeState::new(2, 2);
    s.insert_edge(&Edge::new(0, 1));
    s.begin_dst_edge(2, 3);
    let snapshot = s.edges_snapshot();
    s.apply(
        &snapshot[0],
        ArcIntersectionResult::I(
            (0, ArcParam::Inside(100)),
            (1, ArcParam::Inside(200)),
        ),
    );
    s.end_dst_edge();
    assert_eq!(edge_pairs(&s), vec![(0, 1), (0, 2), (1, 3)]);
}

#[test]
fn overlap_reaching_before_start_reanchors() {
    let mut s = MergeState::new(2, 2);
    s.insert_edge(&Edge::new(0, 1));
    s.begin_dst_edge(2, 3);
    let snapshot = s.edges_snapshot();
    s.apply(
        &snapshot[0],
        ArcIntersectionResult::I((0, ArcParam::Before), (1, ArcParam::Inside(200))),
    );
    s.end_dst_edge();
    assert_eq!(edge_pairs(&s), vec![(0, 2), (1, 2), (1, 3)]);
}

#[test]
fn overlap_reaching_past_end_reanchors() {
    let mut s = MergeState::new(2, 2);
    s.insert_edge(&Edge::new(0, 1));
    s.begin_dst_edge(2, 3);
    let snapshot = s.edges_snapshot();
    s.apply(
        &snapshot[0],
        ArcIntersectionResult::I((0, ArcParam::Inside(100)), (1, ArcParam::After)),
    );
    s.end_dst_edge();
    assert_eq!(edge_pairs(&s), vec![(0, 2), (0, 3), (1, 3)]);
}

#[test]
fn shared_endpoint_at_edge_end_unifies() {
    let mut s = MergeState::new(2, 2);
    s.insert_edge(&Edge::new(0, 1));
    s.begin_dst_edge(2, 3);
    let snapshot = s.edges_snapshot();
    // the current edge's end is the same point as pooled vertex 1
    s.apply(&snapshot[0], ArcIntersectionResult::L(1, 3));
    let cuts = s.cut_points();
    assert_eq!(cuts[1], (ArcParam::End, 1));
    s.end_dst_edge();
    assert_eq!(edge_pairs(&s), vec![(0, 1), (1, 2)]);
}

#[test]
fn merging_tetrahedron_with_itself_adds_nothing() {
    // both meshes carry the same four vertices, so every edge of the end
    // mesh coincides with an edge of the start mesh
    let tetra = [(0, 1), (0, 2), (0, 3), (1, 2), (1, 3), (2, 3)];
    let mut s = MergeState::new(4, 4);
    for (a, b) in tetra {
        s.insert_edge(&Edge::new(a, b));
    }
    for (a, b) in tetra {
        s.begin_dst_edge(a + 4, b + 4);
        for e in s.edges_snapshot() {
            if (e.from, e.to) == (a, b) {
                s.apply(&e, ArcIntersectionResult::S);
            } else {
                s.apply(&e, ArcIntersectionResult::N);
            }
            if s.is_skipped() {
                break;
            }
        }
        s.end_dst_edge();
    }
    assert_eq!(s.nvertexes(), 8);
    assert_eq!(edge_pairs(&s).len(), 6);

    // each end-mesh vertex coincides with its start-mesh twin, so the face
    // resolution maps it onto the same pooled node
    let mut g = Graph::new(vec![0, 1, 2, 3, 0, 1, 2, 3]);
    g.add_edges(&s.edges_snapshot());
    g.order_neighbors(0, &vec![1u64, 0u64, 2u64]);
    g.order_neighbors(1, &vec![0u64, 1u64, 2u64]);
    g.order_neighbors(2, &vec![1u64, 0u64, 2u64]);
    g.order_neighbors(3, &vec![1u64, 2u64, 0u64]);
    let faces = g.walk_faces();
    let tris = triangulate_faces(&faces);
    assert_eq!(tris.len(), 4);
}

#[test]
fn crossing_edges_increase_the_edge_count() {
    // two crossings on one merged edge: the running set must grow past the
    // seeded edges
    let mut s = MergeState::new(4, 2);
    s.insert_edge(&Edge::new(0, 1));
    s.insert_edge(&Edge::new(2, 3));
    s.begin_dst_edge(4, 5);
    let snapshot = s.edges_snapshot();
    let a = s
        .apply(&snapshot[0], ArcIntersectionResult::X(ArcParam::Inside(100)))
        .unwrap();
    let b = s
        .apply(&snapshot[1], ArcIntersectionResult::X(ArcParam::Inside(200)))
        .unwrap();
    assert_eq!((a, b), (6, 7));
    s.end_dst_edge();
    let pairs = edge_pairs(&s);
    assert_eq!(pairs.len(), 7);
    assert_eq!(
        pairs,
        vec![(0, 6), (1, 6), (2, 7), (3, 7), (4, 6), (5, 7), (6, 7)]
    );
}
