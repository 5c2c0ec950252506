use morphing::edge::Edge;
use morphing::graph::Graph;

fn identity_map(n: usize) -> Vec<usize> {
    (0..n).collect()
}

fn face_set(face: &[usize]) -> Vec<usize> {
    let mut v = face.to_vec();
    v.sort();
    v
}

#[test]
fn add_pair_deduplicates() {
    let mut g = Graph::new(identity_map(3));
    g.add_pair(0, 1);
    g.add_pair(1, 0);
    g.add_pair(0, 1);
    assert_eq!(g.neighbors_count(0), 1);
    assert_eq!(g.neighbors_count(1), 1);
    assert_eq!(g.neighbors_count(2), 0);
}

#[test]
fn add_pair_ignores_self_loops() {
    let mut g = Graph::new(identity_map(2));
    g.add_pair(1, 1);
    assert_eq!(g.neighbors_count(1), 0);
}

#[test]
fn index_map_unifies_duplicate_vertices() {
    // vertices 2 and 3 carry the same position as 0 and 1
    let mut g = Graph::new(vec![0, 1, 0, 1]);
    g.add_pair(2, 3);
    assert_eq!(g.neighbors_count(0), 1);
    assert_eq!(g.neighbors_count(1), 1);
    assert_eq!(g.neighbors_count(2), 0);
    assert_eq!(g.neighbors_count(3), 0);
    // the representative edge is already present
    g.add_pair(0, 1);
    assert_eq!(g.neighbors_count(0), 1);
}

#[test]
fn twin_links_are_mutual() {
    let mut g = Graph::new(identity_map(2));
    g.add_pair(0, 1);
    let h = g.neighbors(0)[0];
    let e = g.edge(h);
    assert_eq!((e.from, e.to), (0, 1));
    let t = g.edge(e.oppo);
    assert_eq!((t.from, t.to), (1, 0));
    assert_eq!(t.oppo, h);
}

#[test]
fn triangle_walk_gives_both_sides() {
    let mut g = Graph::new(identity_map(3));
    let edges = vec![Edge::new(0, 1), Edge::new(0, 2), Edge::new(1, 2)];
    g.add_edges(&edges);
    for v in 0..3 {
        let keys = vec![0u64, 1u64];
        g.order_neighbors(v, &keys);
    }
    let faces = g.walk_faces();
    assert_eq!(faces.len(), 2);
    for f in &faces {
        assert_eq!(f.len(), 3);
        assert_eq!(face_set(f), vec![0, 1, 2]);
    }
}

#[test]
fn tetrahedron_walk_gives_four_triangles() {
    let mut g = Graph::new(identity_map(4));
    let edges = vec![
        Edge::new(0, 1),
        Edge::new(0, 2),
        Edge::new(0, 3),
        Edge::new(1, 2),
        Edge::new(1, 3),
        Edge::new(2, 3),
    ];
    g.add_edges(&edges);
    // a rotation system of the tetrahedron: fans ordered so that the walk
    // closes the four oriented faces
    g.order_neighbors(0, &vec![1u64, 0u64, 2u64]);
    g.order_neighbors(1, &vec![0u64, 1u64, 2u64]);
    g.order_neighbors(2, &vec![1u64, 0u64, 2u64]);
    g.order_neighbors(3, &vec![1u64, 2u64, 0u64]);
    let faces = g.walk_faces();
    assert_eq!(faces.len(), 4);
    let mut sets: Vec<Vec<usize>> = faces.iter().map(|f| face_set(f)).collect();
    sets.sort();
    assert_eq!(
        sets,
        vec![vec![0, 1, 2], vec![0, 1, 3], vec![0, 2, 3], vec![1, 2, 3]]
    );
}

#[test]
fn graph_edge_new_is_unlinked() {
    let e = morphing::graph::GraphEdge::new(4, 9);
    assert_eq!((e.from, e.to), (4, 9));
    assert_eq!((e.oppo, e.next), (0, 0));
    assert!(!e.visited);
}

#[test]
fn equal_angle_keys_keep_fan_order() {
    let mut g = Graph::new(identity_map(4));
    g.add_pair(0, 1);
    g.add_pair(0, 2);
    g.add_pair(0, 3);
    let fan: Vec<usize> = g.neighbors(0).clone();
    g.order_neighbors(0, &vec![7u64, 7u64, 7u64]);
    // ties keep the fan's own order, so the ring follows insertion order
    assert_eq!(g.edge(fan[0]).next, fan[1]);
    assert_eq!(g.edge(fan[1]).next, fan[2]);
    assert_eq!(g.edge(fan[2]).next, fan[0]);
}

#[test]
fn angle_keys_reorder_the_ring() {
    let mut g = Graph::new(identity_map(4));
    g.add_pair(0, 1);
    g.add_pair(0, 2);
    g.add_pair(0, 3);
    let fan: Vec<usize> = g.neighbors(0).clone();
    g.order_neighbors(0, &vec![2u64, 0u64, 1u64]);
    assert_eq!(g.edge(fan[1]).next, fan[2]);
    assert_eq!(g.edge(fan[2]).next, fan[0]);
    assert_eq!(g.edge(fan[0]).next, fan[1]);
}

#[test]
fn second_walk_finds_nothing() {
    let mut g = Graph::new(identity_map(3));
    g.add_edges(&vec![Edge::new(0, 1), Edge::new(0, 2), Edge::new(1, 2)]);
    for v in 0..3 {
        g.order_neighbors(v, &vec![0u64, 1u64]);
    }
    assert_eq!(g.walk_faces().len(), 2);
    // every directed edge is already traversed, so no walk remains
    assert!(g.walk_faces().is_empty());
}

#[test]
fn unordered_fans_walk_as_degenerate_loops() {
    let mut g = Graph::new(identity_map(2));
    g.add_pair(0, 1);
    // without angular ordering the successor links point back at the twin,
    // so every walk is a two-edge loop and is discarded
    let faces = g.walk_faces();
    assert!(faces.is_empty());
}
