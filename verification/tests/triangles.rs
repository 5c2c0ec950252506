use morphing::triangulate::triangulate_faces;

#[test]
fn quadrilateral_yields_two_triangles() {
    let faces = vec![vec![0, 1, 2, 3]];
    let tris = triangulate_faces(&faces);
    assert_eq!(tris.len(), 2);
    assert_eq!(tris[0], vec![0, 1, 2]);
    assert_eq!(tris[1], vec![0, 2, 3]);
}

#[test]
fn triangle_passes_through_sorted() {
    let faces = vec![vec![2, 0, 1]];
    let tris = triangulate_faces(&faces);
    assert_eq!(tris, vec![vec![0, 1, 2]]);
}

#[test]
fn shared_triangle_is_kept_once() {
    let faces = vec![vec![0, 1, 2], vec![2, 1, 0], vec![1, 2, 3]];
    let tris = triangulate_faces(&faces);
    assert_eq!(tris.len(), 2);
    assert_eq!(tris[0], vec![0, 1, 2]);
    assert_eq!(tris[1], vec![1, 2, 3]);
}

#[test]
fn degenerate_fan_corners_are_skipped() {
    // both fan triangles repeat the face's first vertex
    let faces = vec![vec![0, 1, 0, 2]];
    let tris = triangulate_faces(&faces);
    assert!(tris.is_empty());
}

#[test]
fn pentagon_fans_into_three_triangles() {
    let faces = vec![vec![4, 1, 0, 3, 2]];
    let tris = triangulate_faces(&faces);
    assert_eq!(tris.len(), 3);
    for t in &tris {
        assert_eq!(t.len(), 3);
        assert!(t[0] <= t[1] && t[1] <= t[2]);
    }
    assert!(tris.contains(&vec![0, 1, 4]));
    assert!(tris.contains(&vec![0, 3, 4]));
    assert!(tris.contains(&vec![2, 3, 4]));
}

#[test]
fn no_duplicates_under_rotation() {
    let faces = vec![
        vec![0, 1, 2, 3],
        vec![1, 2, 3, 0],
        vec![3, 2, 1],
        vec![0, 1, 2],
    ];
    let tris = triangulate_faces(&faces);
    for a in 0..tris.len() {
        for b in 0..tris.len() {
            if a != b {
                for r in 0..3 {
                    let rot = vec![
                        tris[b][r % 3],
                        tris[b][(r + 1) % 3],
                        tris[b][(r + 2) % 3],
                    ];
                    assert_ne!(tris[a], rot);
                }
            }
        }
    }
}
