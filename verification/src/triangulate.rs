use vstd::prelude::*;

verus! {

/// The three corner ids `a`, `b`, `c` in ascending order.
pub open spec fn spec_sort3(a: usize, b: usize, c: usize) -> Seq<usize> {
    if a <= b {
        if b <= c {
            seq![a, b, c]
        } else if a <= c {
            seq![a, c, b]
        } else {
            seq![c, a, b]
        }
    } else {
        if a <= c {
            seq![b, a, c]
        } else if b <= c {
            seq![b, c, a]
        } else {
            seq![c, b, a]
        }
    }
}

/// The fan triangle of face `f` at fan position `t`, if any: the corners
/// `f[0], f[t], f[t+1]`, sorted. A fan triangle whose apex coincides with
/// the face's first vertex is skipped; a face that is already a triangle
/// contributes itself, whatever its corners.
pub open spec fn fan_triple(f: Seq<usize>, t: int) -> Option<Seq<usize>> {
    if f.len() == 3 {
        if t == 1 {
            Some(spec_sort3(f[0], f[1], f[2]))
        } else {
            None
        }
    } else if f.len() > 3 && 1 <= t < f.len() - 1 {
        if f[0] == f[t] || f[0] == f[t + 1] {
            None
        } else {
            Some(spec_sort3(f[0], f[t], f[t + 1]))
        }
    } else {
        None
    }
}

/// `x` is a fan triangle of one of the faces.
pub open spec fn is_fan_triple(faces: Seq<Vec<usize>>, x: Seq<usize>) -> bool {
    exists|i: int, t: int|
        0 <= i < faces.len() && #[trigger] fan_triple(faces[i]@, t) == Some(x)
}

/// The triangle list holds `x`.
pub open spec fn tris_contain(tris: Seq<Vec<usize>>, x: Seq<usize>) -> bool {
    exists|k: int| 0 <= k < tris.len() && (#[trigger] tris[k])@ == x
}

/// The fan triangles seen strictly before face `i`, fan position `t`.
spec fn seen_fan_triple(faces: Seq<Vec<usize>>, i: int, t: int, x: Seq<usize>) -> bool {
    exists|i2: int, t2: int|
        0 <= i2 < faces.len() && (i2 < i || (i2 == i && t2 < t)) && #[trigger] fan_triple(
            faces[i2]@,
            t2,
        ) == Some(x)
}

/// The triangle list holds exactly the fan triangles seen strictly before
/// face `i`, fan position `t`.
spec fn tri_list_matches(tris: Seq<Vec<usize>>, faces: Seq<Vec<usize>>, i: int, t: int) -> bool {
    forall|x: Seq<usize>| tris_contain(tris, x) <==> seen_fan_triple(faces, i, t, x)
}

proof fn lemma_sort3_shape(a: usize, b: usize, c: usize)
    ensures
        spec_sort3(a, b, c).len() == 3,
        spec_sort3(a, b, c)[0] <= spec_sort3(a, b, c)[1] <= spec_sort3(a, b, c)[2],
        spec_sort3(a, b, c).contains(a),
        spec_sort3(a, b, c).contains(b),
        spec_sort3(a, b, c).contains(c),
        forall|k: int|
            0 <= k < 3 ==> spec_sort3(a, b, c)[k] == a || spec_sort3(a, b, c)[k] == b || spec_sort3(
                a,
                b,
                c,
            )[k] == c,
{
    let s = spec_sort3(a, b, c);
    assert(s.contains(a) && s.contains(b) && s.contains(c)) by {
        assert(s.len() == 3);
        assert(s[0] == a || s[1] == a || s[2] == a);
        assert(s[0] == b || s[1] == b || s[2] == b);
        assert(s[0] == c || s[1] == c || s[2] == c);
    }
}

fn sort3(a: usize, b: usize, c: usize) -> (r: Vec<usize>)
    ensures
        r@ == spec_sort3(a, b, c),
{
    let r = if a <= b {
        if b <= c {
            vec![a, b, c]
        } else if a <= c {
            vec![a, c, b]
        } else {
            vec![c, a, b]
        }
    } else {
        if a <= c {
            vec![b, a, c]
        } else if b <= c {
            vec![b, c, a]
        } else {
            vec![c, b, a]
        }
    };
    proof {
        assert(r@ =~= spec_sort3(a, b, c));
    }
    r
}

fn tri_eq(a: &Vec<usize>, b: &Vec<usize>) -> (r: bool)
    ensures
        r == (a@ == b@),
{
    if a.len() != b.len() {
        return false;
    }
    let mut k: usize = 0;
    while k < a.len()
        invariant
            k <= a@.len(),
            a@.len() == b@.len(),
            forall|k2: int| 0 <= k2 < k ==> a@[k2] == b@[k2],
        decreases a@.len() - k,
    {
        if a[k] != b[k] {
            return false;
        }
        k += 1;
    }
    proof {
        assert(a@ =~= b@);
    }
    true
}

fn contains_tri(tris: &Vec<Vec<usize>>, t: &Vec<usize>) -> (r: bool)
    ensures
        r == tris_contain(tris@, t@),
{
    let mut k: usize = 0;
    while k < tris.len()
        invariant
            k <= tris@.len(),
            forall|k2: int| 0 <= k2 < k ==> (#[trigger] tris@[k2])@ != t@,
        decreases tris@.len() - k,
    {
        if tri_eq(&tris[k], t) {
            proof {
                assert(tris_contain(tris@, t@)) by {
                    assert((tris@[k as int])@ == t@);
                }
            }
            return true;
        }
        k += 1;
    }
    proof {
        if tris_contain(tris@, t@) {
            let k2 = choose|k2: int| 0 <= k2 < tris@.len() && (#[trigger] tris@[k2])@ == t@;
            assert(false);
        }
    }
    false
}

/// Fan-triangulate every face from its first vertex, skipping fan triangles
/// whose apex repeats the first vertex, and keep each triangle once: two
/// faces regenerating the same sorted corner triple contribute one entry.
///
/// The result holds exactly the fan triangles of the faces, each a sorted
/// triple, no two entries equal.
pub fn triangulate_faces(faces: &Vec<Vec<usize>>) -> (tris: Vec<Vec<usize>>)
    requires
        forall|i: int| 0 <= i < faces@.len() ==> (#[trigger] faces@[i])@.len() >= 3,
    ensures
        forall|k: int| 0 <= k < tris@.len() ==> (#[trigger] tris@[k])@.len() == 3,
        forall|k: int|
            0 <= k < tris@.len() ==> (#[trigger] tris@[k])@[0] <= tris@[k]@[1] <= tris@[k]@[2],
        forall|k1: int, k2: int|
            0 <= k1 < k2 < tris@.len() ==> (#[trigger] tris@[k1])@ != (#[trigger] tris@[k2])@,
        forall|x: Seq<usize>| tris_contain(tris@, x) <==> is_fan_triple(faces@, x),
{
    let mut tris: Vec<Vec<usize>> = Vec::new();
    let mut i: usize = 0;
    while i < faces.len()
        invariant
            i <= faces@.len(),
            forall|i2: int| 0 <= i2 < faces@.len() ==> (#[trigger] faces@[i2])@.len() >= 3,
            forall|k: int| 0 <= k < tris@.len() ==> (#[trigger] tris@[k])@.len() == 3,
            forall|k: int|
                0 <= k < tris@.len() ==> (#[trigger] tris@[k])@[0] <= tris@[k]@[1] <= tris@[k]@[2],
            forall|k1: int, k2: int|
                0 <= k1 < k2 < tris@.len() ==> (#[trigger] tris@[k1])@ != (#[trigger] tris@[k2])@,
            tri_list_matches(tris@, faces@, i as int, 1),
        decreases faces@.len() - i,
    {
        let flen = faces[i].len();
        let mut t: usize = 1;
        while t < flen - 1
            invariant
                i < faces@.len(),
                forall|i2: int| 0 <= i2 < faces@.len() ==> (#[trigger] faces@[i2])@.len() >= 3,
                flen == faces@[i as int]@.len(),
                1 <= t,
                t <= flen - 1,
                forall|k: int| 0 <= k < tris@.len() ==> (#[trigger] tris@[k])@.len() == 3,
                forall|k: int|
                    0 <= k < tris@.len() ==> (#[trigger] tris@[k])@[0] <= tris@[k]@[1]
                        <= tris@[k]@[2],
                forall|k1: int, k2: int|
                    0 <= k1 < k2 < tris@.len() ==> (#[trigger] tris@[k1])@ != (#[trigger] tris@[k2])@,
                tri_list_matches(tris@, faces@, i as int, t as int),
            decreases flen - t,
        {
            let ghost tris0 = tris@;
            let a = faces[i][0];
            let b = faces[i][t];
            let c = faces[i][t + 1];
            let skip = flen > 3 && (a == b || a == c);
            if !skip {
                let tri = sort3(a, b, c);
                proof {
                    assert(fan_triple(faces@[i as int]@, t as int) == Some(tri@));
                    lemma_sort3_shape(a, b, c);
                }
                if !contains_tri(&tris, &tri) {
                    tris.push(tri);
                }
            } else {
                proof {
                    assert(fan_triple(faces@[i as int]@, t as int) is None);
                }
            }
            proof {
                let new_opt = fan_triple(faces@[i as int]@, t as int);
                assert forall|x: Seq<usize>|
                    tris_contain(tris@, x) <==> seen_fan_triple(faces@, i as int, t + 1, x) by {
                    if tris_contain(tris@, x) {
                        let k = choose|k: int| 0 <= k < tris@.len() && (#[trigger] tris@[k])@ == x;
                        if k < tris0.len() {
                            assert((tris0[k])@ == x);
                            assert(tris_contain(tris0, x));
                            assert(seen_fan_triple(faces@, i as int, t as int, x));
                            let (i2, t2) = choose|i2: int, t2: int|
                                0 <= i2 < faces@.len() && (i2 < i as int || (i2 == i as int && t2
                                    < t as int)) && #[trigger] fan_triple(faces@[i2]@, t2) == Some(
                                    x,
                                );
                            assert(fan_triple(faces@[i2]@, t2) == Some(x));
                            assert(seen_fan_triple(faces@, i as int, t + 1, x));
                        } else {
                            assert(new_opt == Some(x));
                            assert(fan_triple(faces@[i as int]@, t as int) == Some(x));
                            assert(seen_fan_triple(faces@, i as int, t + 1, x));
                        }
                    }
                    if seen_fan_triple(faces@, i as int, t + 1, x) {
                        let (i2, t2) = choose|i2: int, t2: int|
                            0 <= i2 < faces@.len() && (i2 < i as int || (i2 == i as int && t2 < t
                                + 1)) && #[trigger] fan_triple(faces@[i2]@, t2) == Some(x);
                        if i2 < i as int || t2 < t as int {
                            assert(seen_fan_triple(faces@, i as int, t as int, x));
                            assert(tris_contain(tris0, x));
                            let k = choose|k: int| 0 <= k < tris0.len() && (#[trigger] tris0[k])@
                                == x;
                            assert((tris@[k])@ == x);
                            assert(tris_contain(tris@, x));
                        } else {
                            assert(t2 == t as int && i2 == i as int);
                            assert(new_opt == Some(x));
                            if tris_contain(tris0, x) {
                                let k = choose|k: int| 0 <= k < tris0.len() && (#[trigger] tris0[k])@
                                    == x;
                                assert((tris@[k])@ == x);
                                assert(tris_contain(tris@, x));
                            } else {
                                assert((tris@[tris@.len() - 1])@ == x);
                                assert(tris_contain(tris@, x));
                            }
                        }
                    }
                }
            }
            t += 1;
        }
        proof {
            assert forall|x: Seq<usize>|
                seen_fan_triple(faces@, i as int, t as int, x) <==> seen_fan_triple(
                faces@,
                i + 1,
                1,
                x,
            ) by {
                if seen_fan_triple(faces@, i as int, t as int, x) {
                    let (i2, t2) = choose|i2: int, t2: int|
                        0 <= i2 < faces@.len() && (i2 < i as int || (i2 == i as int && t2
                            < t as int)) && #[trigger] fan_triple(faces@[i2]@, t2) == Some(x);
                    assert(seen_fan_triple(faces@, i + 1, 1, x));
                }
                if seen_fan_triple(faces@, i + 1, 1, x) {
                    let (i2, t2) = choose|i2: int, t2: int|
                        0 <= i2 < faces@.len() && (i2 < i + 1 || (i2 == i + 1 && t2 < 1))
                            && #[trigger] fan_triple(faces@[i2]@, t2) == Some(x);
                    if i2 == i as int {
                        assert(fan_triple(faces@[i2]@, t2) is Some);
                        assert(t2 < t as int);
                        assert(seen_fan_triple(faces@, i as int, t as int, x));
                    } else if i2 == i + 1 {
                        assert(t2 < 1);
                        assert(fan_triple(faces@[i2]@, t2) is None);
                        assert(false);
                    } else {
                        assert(seen_fan_triple(faces@, i as int, t as int, x));
                    }
                }
            }
        }
        i += 1;
    }
    proof {
        assert forall|x: Seq<usize>|
            tris_contain(tris@, x) <==> is_fan_triple(faces@, x) by {
            if tris_contain(tris@, x) {
                assert(seen_fan_triple(faces@, i as int, 1, x));
                let (i2, t2) = choose|i2: int, t2: int|
                    0 <= i2 < faces@.len() && (i2 < i as int || (i2 == i as int && t2 < 1))
                        && #[trigger] fan_triple(faces@[i2]@, t2) == Some(x);
                assert(is_fan_triple(faces@, x));
            }
            if is_fan_triple(faces@, x) {
                let (i2, t2) = choose|i2: int, t2: int|
                    0 <= i2 < faces@.len() && #[trigger] fan_triple(faces@[i2]@, t2) == Some(x);
                assert(i2 < i as int);
                assert(seen_fan_triple(faces@, i as int, 1, x));
                assert(tris_contain(tris@, x));
            }
        }
    }
    tris
}

/// One cyclic rotation of a three-entry corner list by `r` places.
pub open spec fn rotate3(t: Seq<usize>, r: int) -> Seq<usize> {
    seq![t[r % 3], t[(r + 1) % 3], t[(r + 2) % 3]]
}

/// A triangle list as `triangulate_faces` returns it — sorted triples, no
/// two entries equal — contains no duplicate triangle under any rotation of
/// its three vertex ids.
pub proof fn lemma_no_duplicate_triangles(tris: Seq<Vec<usize>>, a: int, b: int, r: int)
    requires
        forall|k: int| 0 <= k < tris.len() ==> (#[trigger] tris[k])@.len() == 3,
        forall|k: int| 0 <= k < tris.len() ==> (#[trigger] tris[k])@[0] <= tris[k]@[1] <= tris[k]@[2],
        forall|k1: int, k2: int|
            0 <= k1 < k2 < tris.len() ==> (#[trigger] tris[k1])@ != (#[trigger] tris[k2])@,
        0 <= a < tris.len(),
        0 <= b < tris.len(),
        a != b,
        0 <= r < 3,
    ensures
        tris[a]@ != rotate3(tris[b]@, r),
{
    let ta = tris[a]@;
    let tb = tris[b]@;
    if ta == rotate3(tb, r) {
        if r == 0 {
            assert(ta =~= tb);
        } else if r == 1 {
            assert(tb[1] <= tb[2] <= tb[0]);
            assert(tb[0] == tb[1] && tb[1] == tb[2]);
            assert(ta =~= tb);
        } else {
            assert(tb[2] <= tb[0] <= tb[1]);
            assert(tb[0] == tb[1] && tb[1] == tb[2]);
            assert(ta =~= tb);
        }
        if a < b {
            assert(tris[a]@ != tris[b]@);
        } else {
            assert(tris[b]@ != tris[a]@);
        }
        assert(false);
    }
}

/// Fan triangulation of a single quadrilateral face with four pairwise
/// distinct corners yields exactly two triangles.
pub proof fn lemma_quad_triangulation(faces: Seq<Vec<usize>>, tris: Seq<Vec<usize>>)
    requires
        faces.len() == 1,
        faces[0]@.len() == 4,
        forall|p: int, q: int| 0 <= p < q < 4 ==> faces[0]@[p] != faces[0]@[q],
        forall|k1: int, k2: int|
            0 <= k1 < k2 < tris.len() ==> (#[trigger] tris[k1])@ != (#[trigger] tris[k2])@,
        forall|x: Seq<usize>| tris_contain(tris, x) <==> is_fan_triple(faces, x),
    ensures
        tris.len() == 2,
{
    let f = faces[0]@;
    let s1 = spec_sort3(f[0], f[1], f[2]);
    let s2 = spec_sort3(f[0], f[2], f[3]);
    assert(fan_triple(faces[0]@, 1) == Some(s1));
    assert(fan_triple(faces[0]@, 2) == Some(s2));
    lemma_sort3_shape(f[0], f[1], f[2]);
    lemma_sort3_shape(f[0], f[2], f[3]);
    assert(s1 != s2) by {
        if s1 == s2 {
            assert(s1.contains(f[1]));
            let k = choose|k: int| 0 <= k < s1.len() && s1[k] == f[1];
            assert(s2[k] == f[0] || s2[k] == f[2] || s2[k] == f[3]);
            assert(false);
        }
    }
    assert forall|x: Seq<usize>| is_fan_triple(faces, x) <==> (x == s1 || x == s2) by {
        if is_fan_triple(faces, x) {
            let (i2, t2) = choose|i2: int, t2: int|
                0 <= i2 < faces.len() && #[trigger] fan_triple(faces[i2]@, t2) == Some(x);
            assert(i2 == 0);
            assert(t2 == 1 || t2 == 2);
        }
        if x == s1 {
            assert(is_fan_triple(faces, x));
        }
        if x == s2 {
            assert(is_fan_triple(faces, x));
        }
    }
    assert(tris_contain(tris, s1));
    assert(tris_contain(tris, s2));
    let k1 = choose|k: int| 0 <= k < tris.len() && (#[trigger] tris[k])@ == s1;
    let k2 = choose|k: int| 0 <= k < tris.len() && (#[trigger] tris[k])@ == s2;
    assert(k1 != k2);
    assert(tris.len() >= 2);
    if tris.len() >= 3 {
        assert(tris_contain(tris, tris[0]@)) by {
            assert((tris[0])@ == tris[0]@);
        }
        assert(tris_contain(tris, tris[1]@)) by {
            assert((tris[1])@ == tris[1]@);
        }
        assert(tris_contain(tris, tris[2]@)) by {
            assert((tris[2])@ == tris[2]@);
        }
        assert(tris[0]@ == s1 || tris[0]@ == s2);
        assert(tris[1]@ == s1 || tris[1]@ == s2);
        assert(tris[2]@ == s1 || tris[2]@ == s2);
        assert(false);
    }
}

} // verus!
