//! Mesh cleanup: keep only the largest connected component of a triangle mesh.
//!
//! Adaptive refinement can leave small disconnected surface patches at
//! different octree depths; these are artifacts, not geometry.
use vstd::prelude::*;

verus! {

// ------------------------------------------------------------------------
// Connectivity of a face list
// ------------------------------------------------------------------------

/// The two vertices joined by link `p`: face `p / 2` links its first vertex to
/// its second (even `p`) or to its third (odd `p`).
pub open spec fn link_ends(faces: Seq<[i64; 3]>, p: int) -> (int, int) {
    let f = faces[p / 2];
    (f[0] as int, if p % 2 == 0 {
        f[1] as int
    } else {
        f[2] as int
    })
}

/// Vertices `i` and `j` are joined by the first `e` links: the equivalence
/// relation that these links generate, built one link at a time.
pub open spec fn joined(faces: Seq<[i64; 3]>, e: int, i: int, j: int) -> bool
    decreases e,
{
    if e <= 0 {
        i == j
    } else {
        let (a, b) = link_ends(faces, e - 1);
        ||| joined(faces, e - 1, i, j)
        ||| (joined(faces, e - 1, i, a) && joined(faces, e - 1, b, j))
        ||| (joined(faces, e - 1, i, b) && joined(faces, e - 1, a, j))
    }
}

/// Vertices `i` and `j` lie in the same connected component of the mesh.
pub open spec fn mesh_connected(faces: Seq<[i64; 3]>, i: int, j: int) -> bool {
    joined(faces, 2 * faces.len() as int, i, j)
}

/// The number of the first `n` faces whose first vertex lies in the component of `v`.
pub open spec fn faces_in_component(faces: Seq<[i64; 3]>, v: int, n: int) -> int
    decreases n,
{
    if n <= 0 {
        0
    } else {
        faces_in_component(faces, v, n - 1) + if mesh_connected(faces, faces[n - 1][0] as int, v) {
            1int
        } else {
            0int
        }
    }
}

/// The faces (among the first `n`, in order) whose first vertex lies in the component of `v`.
pub open spec fn component_faces(faces: Seq<[i64; 3]>, v: int, n: int) -> Seq<[i64; 3]>
    decreases n,
{
    if n <= 0 {
        Seq::empty()
    } else {
        let before = component_faces(faces, v, n - 1);
        if mesh_connected(faces, faces[n - 1][0] as int, v) {
            before.push(faces[n - 1])
        } else {
            before
        }
    }
}

/// Vertex `v` is used by one of the faces.
pub open spec fn vertex_used(faces: Seq<[i64; 3]>, v: int) -> bool {
    exists|k: int, t: int| 0 <= k < faces.len() && 0 <= t < 3 && #[trigger] faces[k][t] == v
}

/// The number of used vertices below `v`: the new index of vertex `v`.
pub open spec fn used_below(faces: Seq<[i64; 3]>, v: int) -> int
    decreases v,
{
    if v <= 0 {
        0
    } else {
        used_below(faces, v - 1) + if vertex_used(faces, v - 1) {
            1int
        } else {
            0int
        }
    }
}

/// Every vertex index of every face lies in `[0, nv)`.
pub open spec fn faces_in_range(faces: Seq<[i64; 3]>, nv: int) -> bool {
    forall|k: int, t: int| 0 <= k < faces.len() && 0 <= t < 3 ==> 0 <= #[trigger] faces[k][t] < nv
}

// ------------------------------------------------------------------------
// Union-find over the vertices
// ------------------------------------------------------------------------

/// Every parent index is at most its own index, so following parents ends at a root.
spec fn forest(p: Seq<usize>) -> bool {
    forall|i: int| 0 <= i < p.len() ==> #[trigger] p[i] as int <= i
}

/// The root reached by following parents from `i`.
spec fn root_of(p: Seq<usize>, i: int) -> int
    decreases i,
{
    if 0 <= i < p.len() && (p[i] as int) < i {
        root_of(p, p[i] as int)
    } else {
        i
    }
}

proof fn lemma_root_is_root(p: Seq<usize>, i: int)
    requires
        forest(p),
        0 <= i < p.len(),
    ensures
        0 <= root_of(p, i) <= i,
        p[root_of(p, i)] as int == root_of(p, i),
    decreases i,
{
    if (p[i] as int) < i {
        lemma_root_is_root(p, p[i] as int);
    }
}

/// Pointing `x` at its grandparent keeps every root.
proof fn lemma_halving_keeps_roots(p: Seq<usize>, x: int, y: int)
    requires
        forest(p),
        0 <= x < p.len(),
        0 <= y < p.len(),
    ensures
        forest(p.update(x, p[p[x] as int])),
        root_of(p.update(x, p[p[x] as int]), y) == root_of(p, y),
    decreases y,
{
    let q = p.update(x, p[p[x] as int]);
    assert(p[p[x] as int] <= p[x]);
    assert(forest(q)) by {
        assert forall|i: int| 0 <= i < q.len() implies #[trigger] q[i] as int <= i by {
            if i == x {
                assert(p[p[x] as int] <= p[x]);
            }
        }
    }
    if y == x {
        if (p[x] as int) < x {
            let g = p[p[x] as int] as int;
            if g < x {
                lemma_halving_keeps_roots(p, x, g);
            }
            if (p[p[x] as int] as int) < p[x] as int {
                assert(root_of(p, p[x] as int) == root_of(p, g));
            }
        }
    } else if (p[y] as int) < y {
        lemma_halving_keeps_roots(p, x, p[y] as int);
    }
}

/// Pointing root `rb` at root `ra < rb` sends every node of `rb`'s tree to `ra`
/// and keeps every other root.
proof fn lemma_link_roots(p: Seq<usize>, ra: int, rb: int, y: int)
    requires
        forest(p),
        0 <= ra < rb < p.len(),
        p[ra] as int == ra,
        p[rb] as int == rb,
        0 <= y < p.len(),
    ensures
        forest(p.update(rb, ra as usize)),
        root_of(p.update(rb, ra as usize), y) == if root_of(p, y) == rb {
            ra
        } else {
            root_of(p, y)
        },
    decreases y,
{
    let q = p.update(rb, ra as usize);
    assert(forest(q)) by {
        assert forall|i: int| 0 <= i < q.len() implies #[trigger] q[i] as int <= i by {}
    }
    if y == rb {
        assert(root_of(q, ra) == ra);
    } else if (p[y] as int) < y {
        lemma_link_roots(p, ra, rb, p[y] as int);
    }
}

/// Finds the root of `x`, halving the path on the way.
fn find(parent: &mut Vec<usize>, x: usize) -> (r: usize)
    requires
        forest(old(parent)@),
        x < old(parent).len(),
    ensures
        final(parent).len() == old(parent).len(),
        forest(final(parent)@),
        r as int == root_of(old(parent)@, x as int),
        forall|y: int| 0 <= y < old(parent).len() ==> #[trigger] root_of(final(parent)@, y) == root_of(old(parent)@, y),
{
    let ghost p0 = parent@;
    let ghost x0 = x;
    let mut x = x;
    while parent[x] != x
        invariant
            parent.len() == p0.len(),
            forest(parent@),
            x < parent.len(),
            root_of(parent@, x as int) == root_of(p0, x0 as int),
            forall|y: int| 0 <= y < p0.len() ==> #[trigger] root_of(parent@, y) == root_of(p0, y),
        decreases x,
    {
        let ghost before = parent@;
        let px = parent[x];
        let g = parent[px];
        proof {
            assert(before[x as int] as int <= x as int);
            assert(before[px as int] as int <= px as int);
            assert forall|y: int| 0 <= y < p0.len() implies #[trigger] root_of(before.update(x as int, g), y)
                == root_of(before, y) by {
                lemma_halving_keeps_roots(before, x as int, y);
            }
            lemma_halving_keeps_roots(before, x as int, x as int);
        }
        parent.set(x, g);
        proof {
            assert(parent@ == before.update(x as int, g));
            assert(root_of(before, x as int) == root_of(before, px as int));
            if (g as int) < (px as int) {
                assert(root_of(before, px as int) == root_of(before, g as int));
            }
        }
        x = g;
    }
    proof {
        lemma_root_is_root(parent@, x as int);
        assert(root_of(parent@, x as int) == x as int);
    }
    x
}

/// Merges the sets of `a` and `b`; the higher-numbered root is pointed at the
/// lower one.
fn union(parent: &mut Vec<usize>, a: usize, b: usize)
    requires
        forest(old(parent)@),
        a < old(parent).len(),
        b < old(parent).len(),
    ensures
        final(parent).len() == old(parent).len(),
        forest(final(parent)@),
        forall|y: int, z: int|
            0 <= y < old(parent).len() && 0 <= z < old(parent).len() ==> (root_of(final(parent)@, y) == root_of(
                final(parent)@,
                z,
            ) <==> {
                ||| root_of(old(parent)@, y) == root_of(old(parent)@, z)
                ||| (root_of(old(parent)@, y) == root_of(old(parent)@, a as int) && root_of(old(parent)@, z)
                    == root_of(old(parent)@, b as int))
                ||| (root_of(old(parent)@, y) == root_of(old(parent)@, b as int) && root_of(old(parent)@, z)
                    == root_of(old(parent)@, a as int))
            }),
{
    let ra = find(parent, a);
    let rb = find(parent, b);
    let ghost p1 = parent@;
    proof {
        lemma_root_is_root(p1, a as int);
        lemma_root_is_root(p1, b as int);
    }
    if ra != rb {
        if ra < rb {
            parent.set(rb, ra);
            proof {
                assert(parent@ == p1.update(rb as int, ra));
                assert forall|y: int| 0 <= y < p1.len() implies #[trigger] root_of(parent@, y) == if root_of(p1, y)
                    == rb as int {
                    ra as int
                } else {
                    root_of(p1, y)
                } by {
                    lemma_link_roots(p1, ra as int, rb as int, y);
                }
                lemma_link_roots(p1, ra as int, rb as int, 0);
            }
        } else {
            parent.set(ra, rb);
            proof {
                assert(parent@ == p1.update(ra as int, rb));
                assert forall|y: int| 0 <= y < p1.len() implies #[trigger] root_of(parent@, y) == if root_of(p1, y)
                    == ra as int {
                    rb as int
                } else {
                    root_of(p1, y)
                } by {
                    lemma_link_roots(p1, rb as int, ra as int, y);
                }
                lemma_link_roots(p1, rb as int, ra as int, 0);
            }
        }
    }
}

/// `joined` is an equivalence relation after any number of links.
proof fn lemma_joined_equiv(faces: Seq<[i64; 3]>, e: int)
    ensures
        forall|i: int| #[trigger] joined(faces, e, i, i),
        forall|i: int, j: int| #[trigger] joined(faces, e, i, j) ==> joined(faces, e, j, i),
        forall|i: int, j: int, k: int|
            #[trigger] joined(faces, e, i, j) && #[trigger] joined(faces, e, j, k) ==> joined(faces, e, i, k),
    decreases e,
{
    if e > 0 {
        lemma_joined_equiv(faces, e - 1);
        let (a, b) = link_ends(faces, e - 1);
        assert forall|i: int, j: int| #[trigger] joined(faces, e, i, j) == (joined(faces, e - 1, i, j) || (joined(
            faces,
            e - 1,
            i,
            a,
        ) && joined(faces, e - 1, b, j)) || (joined(faces, e - 1, i, b) && joined(faces, e - 1, a, j))) by {}
        assert forall|i: int| #[trigger] joined(faces, e, i, i) by {
            assert(joined(faces, e - 1, i, i));
        }
        assert forall|i: int, j: int| #[trigger] joined(faces, e, i, j) implies joined(faces, e, j, i) by {
            if joined(faces, e - 1, i, j) {
                assert(joined(faces, e - 1, j, i));
            } else if joined(faces, e - 1, i, a) && joined(faces, e - 1, b, j) {
                assert(joined(faces, e - 1, j, b));
                assert(joined(faces, e - 1, a, i));
            } else {
                assert(joined(faces, e - 1, j, a));
                assert(joined(faces, e - 1, b, i));
            }
        }
        assert forall|i: int, j: int, k: int|
            #[trigger] joined(faces, e, i, j) && #[trigger] joined(faces, e, j, k) implies joined(faces, e, i, k) by {
            assert(joined(faces, e - 1, a, a));
            assert(joined(faces, e - 1, b, b));
            if joined(faces, e - 1, i, j) {
                if joined(faces, e - 1, j, k) {
                    assert(joined(faces, e - 1, i, k));
                } else if joined(faces, e - 1, j, a) && joined(faces, e - 1, b, k) {
                    assert(joined(faces, e - 1, i, a));
                } else {
                    assert(joined(faces, e - 1, j, b) && joined(faces, e - 1, a, k));
                    assert(joined(faces, e - 1, i, b));
                }
            } else if joined(faces, e - 1, i, a) && joined(faces, e - 1, b, j) {
                if joined(faces, e - 1, j, k) {
                    assert(joined(faces, e - 1, b, k));
                } else if joined(faces, e - 1, j, a) && joined(faces, e - 1, b, k) {
                } else {
                    assert(joined(faces, e - 1, j, b) && joined(faces, e - 1, a, k));
                    assert(joined(faces, e - 1, i, k));
                }
            } else {
                assert(joined(faces, e - 1, i, b) && joined(faces, e - 1, a, j));
                if joined(faces, e - 1, j, k) {
                    assert(joined(faces, e - 1, a, k));
                } else if joined(faces, e - 1, j, a) && joined(faces, e - 1, b, k) {
                    assert(joined(faces, e - 1, i, k));
                } else {
                    assert(joined(faces, e - 1, j, b) && joined(faces, e - 1, a, k));
                }
            }
        }
    }
}

/// The roots of `p` group the vertices exactly as the first `e` links join them.
spec fn roots_match(faces: Seq<[i64; 3]>, p: Seq<usize>, e: int) -> bool {
    forall|a: int, b: int|
        0 <= a < p.len() && 0 <= b < p.len() ==> ((root_of(p, a) == root_of(p, b)) <==> #[trigger] joined(
            faces,
            e,
            a,
            b,
        ))
}

/// Merging the ends of link `e` makes the roots match the first `e + 1` links.
proof fn lemma_union_matches(faces: Seq<[i64; 3]>, p0: Seq<usize>, p1: Seq<usize>, e: int)
    requires
        0 <= e,
        roots_match(faces, p0, e),
        p1.len() == p0.len(),
        0 <= link_ends(faces, e).0 < p0.len(),
        0 <= link_ends(faces, e).1 < p0.len(),
        forall|y: int, z: int|
            0 <= y < p0.len() && 0 <= z < p0.len() ==> (root_of(p1, y) == root_of(p1, z) <==> {
                ||| root_of(p0, y) == root_of(p0, z)
                ||| (root_of(p0, y) == root_of(p0, link_ends(faces, e).0) && root_of(p0, z) == root_of(
                    p0,
                    link_ends(faces, e).1,
                ))
                ||| (root_of(p0, y) == root_of(p0, link_ends(faces, e).1) && root_of(p0, z) == root_of(
                    p0,
                    link_ends(faces, e).0,
                ))
            }),
    ensures
        roots_match(faces, p1, e + 1),
{
    lemma_joined_equiv(faces, e);
    let (a, b) = link_ends(faces, e);
    assert forall|y: int, z: int| 0 <= y < p1.len() && 0 <= z < p1.len() implies ((root_of(p1, y) == root_of(p1, z))
        <==> #[trigger] joined(faces, e + 1, y, z)) by {
        assert(joined(faces, e + 1, y, z) == (joined(faces, e, y, z) || (joined(faces, e, y, a) && joined(faces, e, b, z))
            || (joined(faces, e, y, b) && joined(faces, e, a, z))));
        assert(joined(faces, e, y, z) == (root_of(p0, y) == root_of(p0, z)));
        assert(joined(faces, e, y, a) == (root_of(p0, y) == root_of(p0, a)));
        assert(joined(faces, e, y, b) == (root_of(p0, y) == root_of(p0, b)));
        assert(joined(faces, e, z, a) == (root_of(p0, z) == root_of(p0, a)));
        assert(joined(faces, e, z, b) == (root_of(p0, z) == root_of(p0, b)));
        if joined(faces, e, b, z) {
            assert(joined(faces, e, z, b));
        }
        if joined(faces, e, z, b) {
            assert(joined(faces, e, b, z));
        }
        if joined(faces, e, a, z) {
            assert(joined(faces, e, z, a));
        }
        if joined(faces, e, z, a) {
            assert(joined(faces, e, a, z));
        }
    }
}

/// The number of the first `n` faces whose first vertex has root `r`.
spec fn faces_at_root(faces: Seq<[i64; 3]>, p: Seq<usize>, r: int, n: int) -> int
    decreases n,
{
    if n <= 0 {
        0
    } else {
        faces_at_root(faces, p, r, n - 1) + if root_of(p, faces[n - 1][0] as int) == r {
            1int
        } else {
            0int
        }
    }
}

/// The faces among the first `n` whose first vertex has root `r`, in order.
spec fn faces_with_root(faces: Seq<[i64; 3]>, p: Seq<usize>, r: int, n: int) -> Seq<[i64; 3]>
    decreases n,
{
    if n <= 0 {
        Seq::empty()
    } else {
        let before = faces_with_root(faces, p, r, n - 1);
        if root_of(p, faces[n - 1][0] as int) == r {
            before.push(faces[n - 1])
        } else {
            before
        }
    }
}

/// Counting and collecting faces by the root of vertex `v` is counting and
/// collecting them by the component of `v`.
proof fn lemma_root_counts(faces: Seq<[i64; 3]>, p: Seq<usize>, v: int, n: int)
    requires
        roots_match(faces, p, 2 * faces.len() as int),
        faces_in_range(faces, p.len() as int),
        0 <= v < p.len(),
        0 <= n <= faces.len(),
    ensures
        faces_at_root(faces, p, root_of(p, v), n) == faces_in_component(faces, v, n),
        faces_with_root(faces, p, root_of(p, v), n) == component_faces(faces, v, n),
        0 <= faces_in_component(faces, v, n) <= n,
    decreases n,
{
    if n > 0 {
        lemma_root_counts(faces, p, v, n - 1);
        let f0 = faces[n - 1][0] as int;
        assert(0 <= faces[n - 1][0] < p.len());
        assert((root_of(p, f0) == root_of(p, v)) == joined(faces, 2 * faces.len() as int, f0, v));
    }
}

/// Every count at a root other than the roots of first vertices is zero, and
/// the counts never exceed the number of faces.
proof fn lemma_count_at_root_witness(faces: Seq<[i64; 3]>, p: Seq<usize>, r: int, n: int)
    requires
        faces_at_root(faces, p, r, n) > 0,
    ensures
        exists|k: int| 0 <= k < n && #[trigger] root_of(p, faces[k][0] as int) == r,
    decreases n,
{
    if n > 0 && root_of(p, faces[n - 1][0] as int) != r {
        lemma_count_at_root_witness(faces, p, r, n - 1);
    }
}

proof fn lemma_faces_at_root_bounds(faces: Seq<[i64; 3]>, p: Seq<usize>, r: int, n: int)
    requires
        0 <= n,
    ensures
        0 <= faces_at_root(faces, p, r, n) <= n,
    decreases n,
{
    if n > 0 {
        lemma_faces_at_root_bounds(faces, p, r, n - 1);
    }
}

/// The vertices and faces left after keeping only the component of vertex
/// `v`: `kept` is that component's faces; when it is every face, nothing
/// changes; otherwise the vertices no kept face uses are dropped and the others
/// renumbered in order.
pub open spec fn compacted<V>(vertices: Seq<V>, faces: Seq<[i64; 3]>, kept: Seq<[i64; 3]>, r: (Seq<V>, Seq<[i64; 3]>)) -> bool {
    if kept.len() == faces.len() {
        r.0 == vertices && r.1 == kept
    } else {
        &&& r.0.len() == used_below(kept, vertices.len() as int)
        &&& forall|u: int| 0 <= u < vertices.len() && vertex_used(kept, u) ==> #[trigger] r.0[used_below(kept, u)] == vertices[u]
        &&& r.1.len() == kept.len()
        &&& forall|k: int, t: int| 0 <= k < kept.len() && 0 <= t < 3 ==> #[trigger] r.1[k][t] == used_below(kept, kept[k][t] as int)
    }
}

proof fn lemma_used_below_mono(faces: Seq<[i64; 3]>, u: int, v: int)
    requires
        0 <= u <= v,
    ensures
        0 <= used_below(faces, u) <= used_below(faces, v),
        used_below(faces, v) - used_below(faces, u) <= v - u,
    decreases v,
{
    if v > 0 {
        if u < v {
            lemma_used_below_mono(faces, u, v - 1);
        } else {
            lemma_used_below_mono(faces, u - 1, v - 1);
        }
    }
}

proof fn lemma_used_below_step(faces: Seq<[i64; 3]>, u: int, v: int)
    requires
        0 <= u < v,
        vertex_used(faces, u),
    ensures
        used_below(faces, u) < used_below(faces, v),
{
    lemma_used_below_mono(faces, u + 1, v);
}

/// Keeps only the largest connected component of the mesh (by number of
/// faces; a face belongs to the component of its first vertex). When that
/// drops faces, the vertices no kept face uses are dropped too and the rest
/// renumbered in order; otherwise the mesh is returned unchanged.
pub fn remove_small_components<V: Copy>(vertices: Vec<V>, faces: Vec<[i64; 3]>) -> (r: (Vec<V>, Vec<[i64; 3]>))
    requires
        faces_in_range(faces@, vertices.len() as int),
    ensures
        faces.len() == 0 ==> r.0@ == vertices@ && r.1@ == faces@,
        faces_in_range(r.1@, r.0@.len() as int),
        faces.len() > 0 ==> exists|v: int|
            0 <= v < vertices.len() && (forall|k: int|
                0 <= k < faces.len() ==> faces_in_component(faces@, #[trigger] faces@[k][0] as int, faces.len() as int)
                    <= faces_in_component(faces@, v, faces.len() as int)) && compacted(
                vertices@,
                faces@,
                component_faces(faces@, v, faces.len() as int),
                (r.0@, r.1@),
            ),
{
    if faces.len() == 0 {
        return (vertices, faces);
    }
    let nv = vertices.len();
    let nf = faces.len();
    let ghost fs = faces@;
    // union-find over the vertices, one union per link
    let mut parent: Vec<usize> = Vec::with_capacity(nv);
    let mut i: usize = 0;
    while i < nv
        invariant
            i <= nv,
            parent.len() == i,
            forall|j: int| 0 <= j < i ==> #[trigger] parent[j] == j,
        decreases nv - i,
    {
        parent.push(i);
        i += 1;
    }
    proof {
        assert(forest(parent@));
        assert forall|a: int, b: int| 0 <= a < parent.len() && 0 <= b < parent.len() implies ((root_of(parent@, a)
            == root_of(parent@, b)) <==> #[trigger] joined(fs, 0, a, b)) by {
            assert(root_of(parent@, a) == a);
            assert(root_of(parent@, b) == b);
        }
    }
    let mut k: usize = 0;
    while k < nf
        invariant
            faces@ == fs,
            nf == fs.len(),
            nv == vertices.len(),
            faces_in_range(fs, nv as int),
            k <= nf,
            parent.len() == nv,
            forest(parent@),
            roots_match(fs, parent@, 2 * k),
        decreases nf - k,
    {
        let f = faces[k];
        proof {
            assert(0 <= fs[k as int][0] < nv && 0 <= fs[k as int][1] < nv && 0 <= fs[k as int][2] < nv);
        }
        let a = f[0] as usize;
        let b = f[1] as usize;
        let c = f[2] as usize;
        let ghost p0 = parent@;
        union(&mut parent, a, b);
        proof {
            assert(link_ends(fs, 2 * k) == (a as int, b as int));
            lemma_union_matches(fs, p0, parent@, 2 * k);
        }
        let ghost p1 = parent@;
        union(&mut parent, a, c);
        proof {
            assert(link_ends(fs, 2 * k + 1) == (a as int, c as int));
            lemma_union_matches(fs, p1, parent@, 2 * k + 1);
        }
        k += 1;
    }
    let ghost pf = parent@;
    // faces per root
    let mut counts: Vec<usize> = Vec::with_capacity(nv);
    let mut i: usize = 0;
    while i < nv
        invariant
            i <= nv,
            counts.len() == i,
            forall|j: int| 0 <= j < i ==> #[trigger] counts[j] == 0,
        decreases nv - i,
    {
        counts.push(0);
        i += 1;
    }
    let mut k: usize = 0;
    while k < nf
        invariant
            faces@ == fs,
            nf == fs.len(),
            nv == vertices.len(),
            faces_in_range(fs, nv as int),
            k <= nf,
            parent.len() == nv,
            forest(parent@),
            forall|y: int| 0 <= y < nv ==> #[trigger] root_of(parent@, y) == root_of(pf, y),
            counts.len() == nv,
            forall|r: int| 0 <= r < nv ==> #[trigger] counts[r] == faces_at_root(fs, pf, r, k as int),
        decreases nf - k,
    {
        proof {
            assert(0 <= fs[k as int][0] < nv);
            lemma_root_is_root(parent@, fs[k as int][0] as int);
        }
        let root = find(&mut parent, faces[k][0] as usize);
        proof {
            lemma_faces_at_root_bounds(fs, pf, root as int, k as int);
        }
        let cnt = counts[root];
        counts.set(root, cnt + 1);
        k += 1;
    }
    // the root with the most faces (the first such)
    proof {
        assert(0 <= fs[0][0] < nv);
    }
    let mut best: usize = 0;
    let mut best_count: usize = counts[0];
    let mut r: usize = 1;
    while r < nv
        invariant
            1 <= r <= nv,
            counts.len() == nv,
            best < nv,
            best_count == counts[best as int],
            forall|q: int| 0 <= q < r ==> #[trigger] counts[q] <= best_count,
        decreases nv - r,
    {
        if counts[r] > best_count {
            best = r;
            best_count = counts[r];
        }
        r += 1;
    }
    proof {
        let v0 = fs[0][0] as int;
        assert(0 <= v0 < nv);
        lemma_root_is_root(pf, v0);
        lemma_root_counts(fs, pf, v0, nf as int);
        assert(faces_at_root(fs, pf, root_of(pf, v0), nf as int) >= 1) by {
            lemma_joined_equiv(fs, 2 * nf as int);
            assert(joined(fs, 2 * nf as int, v0, v0));
            lemma_faces_at_root_positive(fs, pf, v0, nf as int);
        }
        assert(counts[root_of(pf, v0)] >= 1);
        lemma_count_at_root_witness(fs, pf, best as int, nf as int);
        let kb = choose|kb: int| 0 <= kb < nf && #[trigger] root_of(pf, fs[kb][0] as int) == best as int;
        assert(0 <= fs[kb][0] < nv);
        lemma_root_is_root(pf, fs[kb][0] as int);
        assert(root_of(pf, best as int) == best as int);
        lemma_root_counts(fs, pf, best as int, nf as int);
        assert forall|q: int| 0 <= q < nf implies faces_in_component(fs, #[trigger] fs[q][0] as int, nf as int)
            <= faces_in_component(fs, best as int, nf as int) by {
            assert(0 <= fs[q][0] < nv);
            lemma_root_counts(fs, pf, fs[q][0] as int, nf as int);
            lemma_root_is_root(pf, fs[q][0] as int);
            assert(counts[root_of(pf, fs[q][0] as int)] <= best_count);
        }
    }
    // the faces of that component
    let mut kept: Vec<[i64; 3]> = Vec::new();
    let mut k: usize = 0;
    while k < nf
        invariant
            faces@ == fs,
            nf == fs.len(),
            nv == vertices.len(),
            faces_in_range(fs, nv as int),
            k <= nf,
            parent.len() == nv,
            forest(parent@),
            forall|y: int| 0 <= y < nv ==> #[trigger] root_of(parent@, y) == root_of(pf, y),
            kept@ == faces_with_root(fs, pf, best as int, k as int),
        decreases nf - k,
    {
        proof {
            assert(0 <= fs[k as int][0] < nv);
        }
        let root = find(&mut parent, faces[k][0] as usize);
        if root == best {
            kept.push(faces[k]);
        }
        k += 1;
    }
    proof {
        lemma_root_counts(fs, pf, best as int, nf as int);
        assert(kept@ == component_faces(fs, best as int, nf as int));
    }
    let ghost kv = kept@;
    proof {
        lemma_component_faces_in_range(fs, best as int, nf as int, nv as int);
    }
    if kept.len() == nf {
        return (vertices, kept);
    }
    // the vertices the kept faces use
    let mut used: Vec<bool> = Vec::with_capacity(nv);
    let mut i: usize = 0;
    while i < nv
        invariant
            i <= nv,
            used.len() == i,
            forall|j: int| 0 <= j < i ==> !#[trigger] used[j],
        decreases nv - i,
    {
        used.push(false);
        i += 1;
    }
    let mut k: usize = 0;
    while k < kept.len()
        invariant
            kept@ == kv,
            faces_in_range(kv, nv as int),
            k <= kv.len(),
            used.len() == nv,
            forall|u: int|
                0 <= u < nv ==> (#[trigger] used[u] <==> exists|q: int, t: int|
                    0 <= q < k && 0 <= t < 3 && #[trigger] kv[q][t] == u),
        decreases kv.len() - k,
    {
        let f = kept[k];
        proof {
            assert(0 <= kv[k as int][0] < nv && 0 <= kv[k as int][1] < nv && 0 <= kv[k as int][2] < nv);
        }
        let ghost before = used@;
        used.set(f[0] as usize, true);
        used.set(f[1] as usize, true);
        used.set(f[2] as usize, true);
        proof {
            assert forall|u: int| 0 <= u < nv implies (#[trigger] used[u] <==> exists|q: int, t: int|
                0 <= q < k + 1 && 0 <= t < 3 && #[trigger] kv[q][t] == u) by {
                if used[u] && !before[u] {
                    if u == f[0] {
                        assert(kv[k as int][0] == u);
                    } else if u == f[1] {
                        assert(kv[k as int][1] == u);
                    } else {
                        assert(kv[k as int][2] == u);
                    }
                }
                if exists|q: int, t: int| 0 <= q < k + 1 && 0 <= t < 3 && #[trigger] kv[q][t] == u {
                    let (q, t) = choose|q: int, t: int| 0 <= q < k + 1 && 0 <= t < 3 && #[trigger] kv[q][t] == u;
                    if q < k {
                        assert(before[u]);
                    } else {
                        assert(t == 0 || t == 1 || t == 2);
                    }
                }
            }
        }
        k += 1;
    }
    // renumber the used vertices in order
    let mut remap: Vec<usize> = Vec::with_capacity(nv);
    let mut new_vertices: Vec<V> = Vec::new();
    let mut i: usize = 0;
    while i < nv
        invariant
            vertices.len() == nv,
            used.len() == nv,
            forall|u: int| 0 <= u < nv ==> (#[trigger] used[u] <==> vertex_used(kv, u)),
            i <= nv,
            remap.len() == i,
            new_vertices.len() == used_below(kv, i as int),
            forall|u: int| 0 <= u < i && vertex_used(kv, u) ==> #[trigger] remap[u] == used_below(kv, u),
            forall|u: int| 0 <= u < i && vertex_used(kv, u) ==> #[trigger] new_vertices@[used_below(kv, u)] == vertices@[u],
        decreases nv - i,
    {
        proof {
            lemma_used_below_mono(kv, 0, i as int);
        }
        let ghost nv_before = new_vertices@;
        let ghost rm_before = remap@;
        if used[i] {
            remap.push(new_vertices.len());
            new_vertices.push(vertices[i]);
            proof {
                assert(vertex_used(kv, i as int));
                assert(new_vertices@[used_below(kv, i as int)] == vertices@[i as int]);
                assert forall|u: int| 0 <= u < i + 1 && vertex_used(kv, u) implies #[trigger] new_vertices@[used_below(kv, u)]
                    == vertices@[u] by {
                    if u < i {
                        lemma_used_below_step(kv, u, i as int);
                        lemma_used_below_mono(kv, 0, u);
                        assert(nv_before[used_below(kv, u)] == vertices@[u]);
                    }
                }
                assert forall|u: int| 0 <= u < i + 1 && vertex_used(kv, u) implies #[trigger] remap[u] == used_below(kv, u) by {
                    if u < i {
                        assert(rm_before[u] == used_below(kv, u));
                    }
                }
            }
        } else {
            remap.push(0);
            proof {
                assert(!vertex_used(kv, i as int));
                assert forall|u: int| 0 <= u < i + 1 && vertex_used(kv, u) implies #[trigger] remap[u] == used_below(kv, u) by {
                    if u < i {
                        assert(rm_before[u] == used_below(kv, u));
                    }
                }
            }
        }
        i += 1;
    }
    // the kept faces, renumbered
    let mut new_faces: Vec<[i64; 3]> = Vec::with_capacity(kept.len());
    let mut k: usize = 0;
    while k < kept.len()
        invariant
            kept@ == kv,
            faces_in_range(kv, nv as int),
            remap.len() == nv,
            forall|u: int| 0 <= u < nv && vertex_used(kv, u) ==> #[trigger] remap[u] == used_below(kv, u),
            k <= kv.len(),
            new_faces.len() == k,
            forall|q: int, t: int| 0 <= q < k && 0 <= t < 3 ==> #[trigger] new_faces[q][t] == used_below(kv, kv[q][t] as int),
        decreases kv.len() - k,
    {
        let f = kept[k];
        proof {
            assert forall|t: int| 0 <= t < 3 implies 0 <= #[trigger] kv[k as int][t] < nv && vertex_used(kv, kv[k as int][t] as int)
                && used_below(kv, kv[k as int][t] as int) <= kv[k as int][t] by {
                lemma_used_below_mono(kv, 0, kv[k as int][t] as int);
            }
        }
        let nf3 = [remap[f[0] as usize] as i64, remap[f[1] as usize] as i64, remap[f[2] as usize] as i64];
        new_faces.push(nf3);
        proof {
            assert forall|q: int, t: int| 0 <= q < k + 1 && 0 <= t < 3 implies #[trigger] new_faces[q][t] == used_below(
                kv,
                kv[q][t] as int,
            ) by {
                if q == k {
                    assert(t == 0 || t == 1 || t == 2);
                }
            }
        }
        k += 1;
    }
    proof {
        lemma_used_below_mono(kv, 0, nv as int);
        assert forall|q: int, t: int| 0 <= q < new_faces.len() && 0 <= t < 3 implies 0 <= #[trigger] new_faces@[q][t]
            < new_vertices@.len() by {
            let u = kv[q][t] as int;
            assert(vertex_used(kv, u));
            lemma_used_below_step(kv, u, nv as int);
            lemma_used_below_mono(kv, 0, u);
        }
    }
    (new_vertices, new_faces)
}

/// A vertex is in its own component, so its component counts its own faces.
proof fn lemma_faces_at_root_positive(faces: Seq<[i64; 3]>, p: Seq<usize>, v: int, n: int)
    requires
        0 < n <= faces.len(),
        v == faces[0][0] as int,
    ensures
        faces_at_root(faces, p, root_of(p, v), n) >= 1,
    decreases n,
{
    if n > 1 {
        lemma_faces_at_root_positive(faces, p, v, n - 1);
    } else {
        assert(faces_at_root(faces, p, root_of(p, v), 0) == 0);
    }
}

/// The faces of a component use only vertices that the mesh's faces use.
proof fn lemma_component_faces_in_range(faces: Seq<[i64; 3]>, v: int, n: int, nv: int)
    requires
        faces_in_range(faces, nv),
        0 <= n <= faces.len(),
    ensures
        faces_in_range(component_faces(faces, v, n), nv),
    decreases n,
{
    if n > 0 {
        lemma_component_faces_in_range(faces, v, n - 1, nv);
        let before = component_faces(faces, v, n - 1);
        if mesh_connected(faces, faces[n - 1][0] as int, v) {
            let after = before.push(faces[n - 1]);
            assert forall|k: int, t: int| 0 <= k < after.len() && 0 <= t < 3 implies 0 <= #[trigger] after[k][t] < nv by {
                if k < before.len() {
                    assert(after[k] == before[k]);
                }
            }
        }
    }
}

} // verus!
