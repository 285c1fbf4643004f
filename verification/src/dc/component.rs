//! Connected components of the inside corners of a cell (Manifold Dual Contouring).
//!
//! Two inside corners belong to the same component when a chain of cube edges,
//! each joining two inside corners, links them. Each component later gets its
//! own vertex, which prevents non-manifold "bowtie" vertices.
use vstd::prelude::*;
use crate::bbox::{edge_corner_spec, edge_corners};

verus! {

/// Connected-component analysis of the inside corners of one cell.
#[derive(Clone, Copy, Debug, PartialEq, Eq)]
pub struct CellComponents {
    /// Component id of each corner (0..num_components-1); outside corners get `0xFF`.
    pub corner_component: [u8; 8],
    /// Number of distinct connected components of inside corners.
    pub num_components: u8,
}

/// Corner `c` is inside for `mask` (its bit is set).
pub open spec fn corner_inside(mask: u8, c: int) -> bool {
    (mask >> (c as u8)) & 1 == 1
}

/// Corners `i` and `j` are linked by the first `e` edges (in edge order) whose two
/// corners are both inside: the equivalence relation that these edges generate,
/// built one edge at a time.
pub open spec fn linked(mask: u8, e: int, i: int, j: int) -> bool
    decreases e,
{
    if e <= 0 {
        i == j
    } else {
        let a = edge_corner_spec(e - 1).0;
        let b = edge_corner_spec(e - 1).1;
        let before = linked(mask, e - 1, i, j);
        if corner_inside(mask, a) && corner_inside(mask, b) {
            ||| before
            ||| (linked(mask, e - 1, i, a) && linked(mask, e - 1, b, j))
            ||| (linked(mask, e - 1, i, b) && linked(mask, e - 1, a, j))
        } else {
            before
        }
    }
}

/// Corners `i` and `j` are connected: linked through all 12 cube edges.
pub open spec fn connected(mask: u8, i: int, j: int) -> bool {
    linked(mask, 12, i, j)
}

/// The lowest corner in `j..=i` that is connected to `i` (`i` itself if none below).
pub open spec fn lowest_connected(mask: u8, i: int, j: int) -> int
    decreases i - j,
{
    if j >= i {
        i
    } else if connected(mask, j, i) {
        j
    } else {
        lowest_connected(mask, i, j + 1)
    }
}

/// The lowest-numbered corner of the component of corner `i`.
pub open spec fn leader(mask: u8, i: int) -> int {
    lowest_connected(mask, i, 0)
}

/// Corner `j` is inside and is the lowest-numbered corner of its component.
pub open spec fn is_leader(mask: u8, j: int) -> bool {
    corner_inside(mask, j) && leader(mask, j) == j
}

/// The number of components whose lowest corner is below `n`.
pub open spec fn leaders_below(mask: u8, n: int) -> int
    decreases n,
{
    if n <= 0 {
        0
    } else {
        leaders_below(mask, n - 1) + if is_leader(mask, n - 1) { 1int } else { 0int }
    }
}

/// The component id of corner `i`: components are numbered in the order of their
/// lowest corner. Outside corners, and every corner of an all-outside or
/// all-inside cell, get `0xFF`.
pub open spec fn component_spec(mask: u8, i: int) -> u8 {
    if mask == 0 || mask == 0xFF || !corner_inside(mask, i) {
        0xFF
    } else {
        leaders_below(mask, leader(mask, i)) as u8
    }
}

/// The number of components; 0 for an all-outside or all-inside cell.
pub open spec fn component_count_spec(mask: u8) -> u8 {
    if mask == 0 || mask == 0xFF {
        0
    } else {
        leaders_below(mask, 8) as u8
    }
}

// ------------------------------------------------------------------------
// Union-find over the 8 corners
// ------------------------------------------------------------------------

/// Every parent index is at most its own index, so following parents ends at a root.
spec fn forest(p: Seq<u8>) -> bool {
    p.len() == 8 && forall|i: int| 0 <= i < 8 ==> #[trigger] p[i] as int <= i
}

/// The root reached by following parents from `i`.
spec fn root_of(p: Seq<u8>, i: int) -> int
    decreases i,
{
    if 0 <= i < p.len() && (p[i] as int) < i {
        root_of(p, p[i] as int)
    } else {
        i
    }
}

proof fn lemma_root_is_root(p: Seq<u8>, i: int)
    requires
        forest(p),
        0 <= i < 8,
    ensures
        0 <= root_of(p, i) <= i,
        p[root_of(p, i)] as int == root_of(p, i),
    decreases i,
{
    if (p[i] as int) < i {
        lemma_root_is_root(p, p[i] as int);
    }
}

/// Pointing `x` at its grandparent keeps every root.
proof fn lemma_halving_keeps_roots(p: Seq<u8>, x: int, y: int)
    requires
        forest(p),
        0 <= x < 8,
        0 <= y < 8,
    ensures
        forest(p.update(x, p[p[x] as int])),
        root_of(p.update(x, p[p[x] as int]), y) == root_of(p, y),
    decreases y,
{
    let q = p.update(x, p[p[x] as int]);
    assert(p[p[x] as int] <= p[x]);
    assert(forest(q)) by {
        assert forall|i: int| 0 <= i < 8 implies #[trigger] q[i] as int <= i by {
            if i == x {
                assert(p[p[x] as int] <= p[x]);
            }
        }
    }
    if y == x {
        if (p[x] as int) < x {
            let g = p[p[x] as int] as int;
            if g < x {
                lemma_halving_keeps_roots(p, x, g);
            }
            if (p[p[x] as int] as int) < p[x] as int {
                assert(root_of(p, p[x] as int) == root_of(p, g));
            }
        }
    } else if (p[y] as int) < y {
        lemma_halving_keeps_roots(p, x, p[y] as int);
    }
}

/// Pointing root `rb` at root `ra < rb` sends every node of `rb`'s tree to `ra`
/// and keeps every other root.
proof fn lemma_link_roots(p: Seq<u8>, ra: int, rb: int, y: int)
    requires
        forest(p),
        0 <= ra < rb < 8,
        p[ra] as int == ra,
        p[rb] as int == rb,
        0 <= y < 8,
    ensures
        forest(p.update(rb, ra as u8)),
        root_of(p.update(rb, ra as u8), y) == if root_of(p, y) == rb { ra } else { root_of(p, y) },
    decreases y,
{
    let q = p.update(rb, ra as u8);
    assert(forest(q)) by {
        assert forall|i: int| 0 <= i < 8 implies #[trigger] q[i] as int <= i by {}
    }
    if y == rb {
        assert(root_of(q, ra) == ra);
    } else if (p[y] as int) < y {
        lemma_link_roots(p, ra, rb, p[y] as int);
    }
}

/// Finds the root of `x`, halving the path on the way.
fn find(parent: &mut [u8; 8], x: u8) -> (r: u8)
    requires
        forest(old(parent)@),
        x < 8,
    ensures
        forest(final(parent)@),
        r as int == root_of(old(parent)@, x as int),
        forall|y: int| 0 <= y < 8 ==> #[trigger] root_of(final(parent)@, y) == root_of(old(parent)@, y),
{
    let ghost p0 = parent@;
    let ghost x0 = x;
    let mut x = x;
    while parent[x as usize] != x
        invariant
            forest(parent@),
            x < 8,
            root_of(parent@, x as int) == root_of(p0, x0 as int),
            forall|y: int| 0 <= y < 8 ==> #[trigger] root_of(parent@, y) == root_of(p0, y),
        decreases x,
    {
        let ghost before = parent@;
        let px = parent[x as usize];
        let g = parent[px as usize];
        proof {
            assert(before[x as int] as int <= x as int);
            assert(before[px as int] as int <= px as int);
            assert forall|y: int| 0 <= y < 8 implies #[trigger] root_of(before.update(x as int, g), y)
                == root_of(before, y) by {
                lemma_halving_keeps_roots(before, x as int, y);
            }
            lemma_halving_keeps_roots(before, x as int, x as int);
        }
        parent[x as usize] = g;
        proof {
            assert(parent@ == before.update(x as int, g));
            assert(root_of(before, x as int) == root_of(before, px as int));
            if (g as int) < (px as int) {
                assert(root_of(before, px as int) == root_of(before, g as int));
            }
        }
        x = g;
    }
    proof {
        lemma_root_is_root(parent@, x as int);
        assert(root_of(parent@, x as int) == x as int);
        assert(p0 == old(parent)@);
    }
    x
}

/// Merges the sets of `a` and `b`; the higher-numbered root is pointed at the
/// lower one.
fn union(parent: &mut [u8; 8], a: u8, b: u8)
    requires
        forest(old(parent)@),
        a < 8,
        b < 8,
    ensures
        forest(final(parent)@),
        forall|y: int, z: int|
            0 <= y < 8 && 0 <= z < 8 ==> (root_of(final(parent)@, y) == root_of(final(parent)@, z) <==> {
                ||| root_of(old(parent)@, y) == root_of(old(parent)@, z)
                ||| (root_of(old(parent)@, y) == root_of(old(parent)@, a as int) && root_of(old(parent)@, z)
                    == root_of(old(parent)@, b as int))
                ||| (root_of(old(parent)@, y) == root_of(old(parent)@, b as int) && root_of(old(parent)@, z)
                    == root_of(old(parent)@, a as int))
            }),
{
    let ghost p0 = parent@;
    let ra = find(parent, a);
    let rb = find(parent, b);
    let ghost p1 = parent@;
    proof {
        lemma_root_is_root(p1, a as int);
        lemma_root_is_root(p1, b as int);
    }
    if ra != rb {
        if ra < rb {
            parent[rb as usize] = ra;
            proof {
                assert(parent@ == p1.update(rb as int, ra));
                assert forall|y: int| 0 <= y < 8 implies #[trigger] root_of(parent@, y) == if root_of(p1, y)
                    == rb as int {
                    ra as int
                } else {
                    root_of(p1, y)
                } by {
                    lemma_link_roots(p1, ra as int, rb as int, y);
                }
                lemma_link_roots(p1, ra as int, rb as int, 0);
            }
        } else {
            parent[ra as usize] = rb;
            proof {
                assert(parent@ == p1.update(ra as int, rb));
                assert forall|y: int| 0 <= y < 8 implies #[trigger] root_of(parent@, y) == if root_of(p1, y)
                    == ra as int {
                    rb as int
                } else {
                    root_of(p1, y)
                } by {
                    lemma_link_roots(p1, rb as int, ra as int, y);
                }
                lemma_link_roots(p1, rb as int, ra as int, 0);
            }
        }
    }
}

/// The roots of `p` group the corners exactly as the first `e` edges link them.
spec fn roots_match_links(mask: u8, p: Seq<u8>, e: int) -> bool {
    forall|a: int, b: int|
        0 <= a < 8 && 0 <= b < 8 ==> ((root_of(p, a) == root_of(p, b)) <==> #[trigger] linked(mask, e, a, b))
}

/// An outside corner is linked to no corner but itself.
proof fn lemma_outside_isolated(mask: u8, e: int, i: int, j: int)
    requires
        !corner_inside(mask, i),
        linked(mask, e, i, j),
    ensures
        i == j,
    decreases e,
{
    if e > 0 {
        let a = edge_corner_spec(e - 1).0;
        let b = edge_corner_spec(e - 1).1;
        if corner_inside(mask, a) && corner_inside(mask, b) {
            if linked(mask, e - 1, i, j) {
                lemma_outside_isolated(mask, e - 1, i, j);
            } else if linked(mask, e - 1, i, a) {
                lemma_outside_isolated(mask, e - 1, i, a);
            } else {
                lemma_outside_isolated(mask, e - 1, i, b);
            }
        } else {
            lemma_outside_isolated(mask, e - 1, i, j);
        }
    }
}

/// `linked` is an equivalence relation after any number of edges.
proof fn lemma_linked_equiv(mask: u8, e: int)
    ensures
        forall|i: int| #[trigger] linked(mask, e, i, i),
        forall|i: int, j: int| #[trigger] linked(mask, e, i, j) ==> linked(mask, e, j, i),
        forall|i: int, j: int, k: int|
            #[trigger] linked(mask, e, i, j) && #[trigger] linked(mask, e, j, k) ==> linked(mask, e, i, k),
    decreases e,
{
    if e > 0 {
        lemma_linked_equiv(mask, e - 1);
        let a = edge_corner_spec(e - 1).0;
        let b = edge_corner_spec(e - 1).1;
        let both = corner_inside(mask, a) && corner_inside(mask, b);
        // one-step unfolding of `linked` at `e`
        assert forall|i: int, j: int| #[trigger] linked(mask, e, i, j) == (linked(mask, e - 1, i, j) || (both
            && ((linked(mask, e - 1, i, a) && linked(mask, e - 1, b, j)) || (linked(mask, e - 1, i, b)
            && linked(mask, e - 1, a, j))))) by {}
        assert forall|i: int| #[trigger] linked(mask, e, i, i) by {
            assert(linked(mask, e - 1, i, i));
        }
        assert forall|i: int, j: int| #[trigger] linked(mask, e, i, j) implies linked(mask, e, j, i) by {
            if linked(mask, e - 1, i, j) {
                assert(linked(mask, e - 1, j, i));
            } else if both && linked(mask, e - 1, i, a) && linked(mask, e - 1, b, j) {
                assert(linked(mask, e - 1, j, b));
                assert(linked(mask, e - 1, a, i));
            } else {
                assert(linked(mask, e - 1, j, a));
                assert(linked(mask, e - 1, b, i));
            }
        }
        assert forall|i: int, j: int, k: int|
            #[trigger] linked(mask, e, i, j) && #[trigger] linked(mask, e, j, k) implies linked(mask, e, i, k) by {
            if both {
                assert(linked(mask, e - 1, a, a));
                assert(linked(mask, e - 1, b, b));
                if linked(mask, e - 1, i, j) {
                    if linked(mask, e - 1, j, k) {
                        assert(linked(mask, e - 1, i, k));
                    } else if linked(mask, e - 1, j, a) && linked(mask, e - 1, b, k) {
                        assert(linked(mask, e - 1, i, a));
                    } else {
                        assert(linked(mask, e - 1, j, b) && linked(mask, e - 1, a, k));
                        assert(linked(mask, e - 1, i, b));
                    }
                } else if linked(mask, e - 1, i, a) && linked(mask, e - 1, b, j) {
                    if linked(mask, e - 1, j, k) {
                        assert(linked(mask, e - 1, b, k));
                    } else if linked(mask, e - 1, j, a) && linked(mask, e - 1, b, k) {
                    } else {
                        assert(linked(mask, e - 1, j, b) && linked(mask, e - 1, a, k));
                        assert(linked(mask, e - 1, i, k));
                    }
                } else {
                    assert(linked(mask, e - 1, i, b) && linked(mask, e - 1, a, j));
                    if linked(mask, e - 1, j, k) {
                        assert(linked(mask, e - 1, a, k));
                    } else if linked(mask, e - 1, j, a) && linked(mask, e - 1, b, k) {
                        assert(linked(mask, e - 1, i, k));
                    } else {
                        assert(linked(mask, e - 1, j, b) && linked(mask, e - 1, a, k));
                    }
                }
            } else {
                assert(linked(mask, e - 1, i, j) && linked(mask, e - 1, j, k));
            }
        }
    }
}

/// Linking more edges keeps every link.
proof fn lemma_linked_grows(mask: u8, e: int, f: int, i: int, j: int)
    requires
        e <= f,
        linked(mask, e, i, j),
    ensures
        linked(mask, f, i, j),
    decreases f - e,
{
    if e < f {
        lemma_linked_grows(mask, e, f - 1, i, j);
    }
}

proof fn lemma_lowest_connected(mask: u8, i: int, j: int)
    requires
        0 <= j <= i < 8,
    ensures
        j <= lowest_connected(mask, i, j) <= i,
        connected(mask, lowest_connected(mask, i, j), i),
        forall|k: int| j <= k < lowest_connected(mask, i, j) ==> !#[trigger] connected(mask, k, i),
    decreases i - j,
{
    lemma_linked_equiv(mask, 12);
    assert(linked(mask, 12, i, i));
    if j < i && !connected(mask, j, i) {
        lemma_lowest_connected(mask, i, j + 1);
    }
}

/// The leader of `i` is the lowest corner connected to `i`.
proof fn lemma_leader(mask: u8, i: int)
    requires
        0 <= i < 8,
    ensures
        0 <= leader(mask, i) <= i,
        connected(mask, leader(mask, i), i),
        forall|k: int| 0 <= k < leader(mask, i) ==> !#[trigger] connected(mask, k, i),
{
    lemma_lowest_connected(mask, i, 0);
}

/// Connected corners share their leader.
proof fn lemma_leader_shared(mask: u8, i: int, j: int)
    requires
        0 <= i < 8,
        0 <= j < 8,
        connected(mask, i, j),
    ensures
        leader(mask, i) == leader(mask, j),
{
    lemma_linked_equiv(mask, 12);
    lemma_leader(mask, i);
    lemma_leader(mask, j);
    let li = leader(mask, i);
    let lj = leader(mask, j);
    if li < lj {
        assert(connected(mask, li, j));
    } else if lj < li {
        assert(connected(mask, j, i));
        assert(connected(mask, lj, i));
    }
}

proof fn lemma_leaders_below_bounds(mask: u8, n: int)
    requires
        0 <= n,
    ensures
        0 <= leaders_below(mask, n) <= n,
    decreases n,
{
    if n > 0 {
        lemma_leaders_below_bounds(mask, n - 1);
    }
}

/// Computes the connected components of the inside corners of `corner_mask`
/// (bit `i` set = corner `i` inside) with a union-find over the 8 corners.
pub fn compute_components(corner_mask: u8) -> (r: CellComponents)
    ensures
        forall|i: int| 0 <= i < 8 ==> r.corner_component[i] == component_spec(corner_mask, i),
        r.num_components == component_count_spec(corner_mask),
{
    if corner_mask == 0 || corner_mask == 0xFF {
        return CellComponents { corner_component: [0xFF; 8], num_components: 0 };
    }
    let ghost mask = corner_mask;
    let mut parent = [0u8; 8];
    for i in 0..8u8
        invariant
            forall|j: int| 0 <= j < i ==> parent@[j] == j,
            parent@.len() == 8,
    {
        parent[i as usize] = i;
    }
    proof {
        assert(forest(parent@));
        assert forall|a: int, b: int| 0 <= a < 8 && 0 <= b < 8 implies ((root_of(parent@, a) == root_of(
            parent@,
            b,
        )) <==> #[trigger] linked(mask, 0, a, b)) by {
            assert(root_of(parent@, a) == a);
            assert(root_of(parent@, b) == b);
        }
    }
    for edge in 0..12u8
        invariant
            forest(parent@),
            roots_match_links(mask, parent@, edge as int),
            mask == corner_mask,
    {
        let ghost before = parent@;
        let (c0, c1) = edge_corners(edge);
        proof {
            crate::bbox::lemma_edge_corners_differ_in_one_bit(edge as int);
        }
        let both_inside = (corner_mask >> c0) & 1 == 1 && (corner_mask >> c1) & 1 == 1;
        if both_inside {
            union(&mut parent, c0, c1);
        }
        proof {
            assert forall|a: int, b: int| 0 <= a < 8 && 0 <= b < 8 implies ((root_of(parent@, a) == root_of(
                parent@,
                b,
            )) <==> #[trigger] linked(mask, edge + 1, a, b)) by {
                assert(linked(mask, edge as int, a, c0 as int) == (root_of(before, a) == root_of(before, c0 as int)));
                assert(linked(mask, edge as int, a, c1 as int) == (root_of(before, a) == root_of(before, c1 as int)));
                assert(linked(mask, edge as int, c0 as int, b) == (root_of(before, c0 as int) == root_of(before, b)));
                assert(linked(mask, edge as int, c1 as int, b) == (root_of(before, c1 as int) == root_of(before, b)));
                assert(linked(mask, edge as int, a, b) == (root_of(before, a) == root_of(before, b)));
            }
        }
    }
    let mut corner_component = [0xFFu8; 8];
    let mut num_components = 0u8;
    let mut root_to_id = [0xFFu8; 8];
    proof {
        assert forall|j: int| 0 <= j < 8 && corner_inside(mask, j) implies {
            &&& (#[trigger] root_to_id[root_of(parent@, j)] != 0xFF) == (leader(mask, j) < 0)
            &&& leader(mask, j) < 0 ==> root_to_id[root_of(parent@, j)] as int == leaders_below(
                mask,
                leader(mask, j),
            )
        } by {
            lemma_root_is_root(parent@, j);
            lemma_leader(mask, j);
        }
    }
    for i in 0..8u8
        invariant
            mask == corner_mask,
            corner_mask != 0 && corner_mask != 0xFF,
            forest(parent@),
            roots_match_links(mask, parent@, 12),
            num_components as int == leaders_below(mask, i as int),
            forall|j: int| 0 <= j < 8 ==> #[trigger] corner_component[j] == if j < i {
                component_spec(mask, j)
            } else {
                0xFFu8
            },
            forall|j: int|
                0 <= j < 8 && corner_inside(mask, j) ==> {
                    &&& (#[trigger] root_to_id[root_of(parent@, j)] != 0xFF) == (leader(mask, j) < i)
                    &&& leader(mask, j) < i ==> root_to_id[root_of(parent@, j)] as int == leaders_below(
                        mask,
                        leader(mask, j),
                    )
                },
    {
        proof {
            lemma_leader(mask, i as int);
            lemma_leaders_below_bounds(mask, i as int);
        }
        if (corner_mask >> i) & 1 == 1 {
            let ghost p_before = parent@;
            let root = find(&mut parent, i);
            proof {
                lemma_root_is_root(p_before, i as int);
            }
            if root_to_id[root as usize] == 0xFF {
                let ghost rti = root_to_id;
                root_to_id[root as usize] = num_components;
                num_components += 1;
                proof {
                    assert(leader(mask, i as int) == i);
                    assert forall|j: int| 0 <= j < 8 && corner_inside(mask, j) implies {
                        &&& (#[trigger] root_to_id[root_of(parent@, j)] != 0xFF) == (leader(mask, j) < i + 1)
                        &&& leader(mask, j) < i + 1 ==> root_to_id[root_of(parent@, j)] as int
                            == leaders_below(mask, leader(mask, j))
                    } by {
                        lemma_leader(mask, j);
                        if root_of(parent@, j) == root as int {
                            assert(connected(mask, j, i as int));
                            lemma_leader_shared(mask, j, i as int);
                        } else {
                            lemma_root_is_root(parent@, j);
                            assert(rti[root_of(parent@, j)] == root_to_id[root_of(parent@, j)]);
                            if leader(mask, j) == i {
                                assert(connected(mask, i as int, j));
                            }
                        }
                    }
                }
            } else {
                proof {
                    assert(leader(mask, i as int) < i);
                    assert forall|j: int| 0 <= j < 8 && corner_inside(mask, j) implies {
                        &&& (#[trigger] root_to_id[root_of(parent@, j)] != 0xFF) == (leader(mask, j) < i + 1)
                        &&& leader(mask, j) < i + 1 ==> root_to_id[root_of(parent@, j)] as int
                            == leaders_below(mask, leader(mask, j))
                    } by {
                        lemma_leader(mask, j);
                        if leader(mask, j) == i {
                            assert(connected(mask, i as int, j));
                            lemma_leader_shared(mask, j, i as int);
                        }
                    }
                }
            }
            corner_component[i as usize] = root_to_id[root as usize];
        } else {
            proof {
                assert forall|j: int| 0 <= j < 8 && corner_inside(mask, j) implies leader(mask, j) != i by {
                    lemma_leader(mask, j);
                    if leader(mask, j) == i {
                        lemma_outside_isolated(mask, 12, i as int, j);
                    }
                }
            }
        }
    }
    proof {
        lemma_leaders_below_bounds(mask, 8);
    }
    CellComponents { corner_component, num_components }
}

/// The inside corner of edge `edge` for `mask`: its first corner if that one is
/// inside, else its second.
pub open spec fn edge_inside_corner(mask: u8, edge: int) -> int {
    if corner_inside(mask, edge_corner_spec(edge).0) {
        edge_corner_spec(edge).0
    } else {
        edge_corner_spec(edge).1
    }
}

/// For a sign-change edge, the component id of its inside corner.
///
/// The edge must change sign (one corner inside, one outside), and its inside
/// corner must have a component id in `components`.
pub fn edge_component(components: &CellComponents, corner_mask: u8, edge_idx: u8) -> (comp: u8)
    requires
        edge_idx < 12,
        corner_inside(corner_mask, edge_corner_spec(edge_idx as int).0) != corner_inside(
            corner_mask,
            edge_corner_spec(edge_idx as int).1,
        ),
        components.corner_component[edge_inside_corner(corner_mask, edge_idx as int)] != 0xFF,
    ensures
        comp == components.corner_component[edge_inside_corner(corner_mask, edge_idx as int)],
{
    let (c0, c1) = edge_corners(edge_idx);
    proof {
        crate::bbox::lemma_edge_corners_differ_in_one_bit(edge_idx as int);
    }
    let c0_inside = (corner_mask >> c0) & 1 == 1;
    let inside_corner = if c0_inside {
        c0
    } else {
        c1
    };
    components.corner_component[inside_corner as usize]
}

/// The component analysis of every corner mask: entry `m` is the analysis of mask `m`.
pub fn component_table() -> (table: Vec<CellComponents>)
    ensures
        table.len() == 256,
        forall|m: int, i: int|
            0 <= m < 256 && 0 <= i < 8 ==> #[trigger] table[m].corner_component[i] == component_spec(
                m as u8,
                i,
            ),
        forall|m: int| 0 <= m < 256 ==> #[trigger] table[m].num_components == component_count_spec(m as u8),
{
    let mut table: Vec<CellComponents> = Vec::new();
    let mut mask: usize = 0;
    while mask < 256
        invariant
            mask <= 256,
            table.len() == mask,
            forall|m: int, i: int|
                0 <= m < mask && 0 <= i < 8 ==> #[trigger] table[m].corner_component[i]
                    == component_spec(m as u8, i),
            forall|m: int| 0 <= m < mask ==> #[trigger] table[m].num_components == component_count_spec(
                m as u8,
            ),
        decreases 256 - mask,
    {
        let c = compute_components(mask as u8);
        table.push(c);
        mask += 1;
    }
    table
}

// ------------------------------------------------------------------------
// Laws
// ------------------------------------------------------------------------

proof fn lemma_leaders_below_mono(mask: u8, m: int, n: int)
    requires
        0 <= m <= n,
    ensures
        leaders_below(mask, m) <= leaders_below(mask, n),
    decreases n - m,
{
    if m < n {
        lemma_leaders_below_mono(mask, m, n - 1);
    }
}

/// The leader of an inside corner is itself an inside corner and a leader.
proof fn lemma_leader_is_leader(mask: u8, i: int)
    requires
        0 <= i < 8,
        corner_inside(mask, i),
    ensures
        is_leader(mask, leader(mask, i)),
        0 <= leader(mask, i) <= i,
        leaders_below(mask, leader(mask, i) + 1) == leaders_below(mask, leader(mask, i)) + 1,
{
    lemma_leader(mask, i);
    let l = leader(mask, i);
    if !corner_inside(mask, l) {
        lemma_outside_isolated(mask, 12, l, i);
    }
    lemma_leader_shared(mask, l, i);
}

/// Outside corners get no component (`0xFF`); when a cell has both inside and
/// outside corners, every inside corner gets a component id below the count.
pub proof fn lemma_component_ids_in_range(mask: u8, i: int)
    requires
        0 <= i < 8,
    ensures
        !corner_inside(mask, i) ==> component_spec(mask, i) == 0xFF,
        corner_inside(mask, i) && mask != 0 && mask != 0xFF ==> component_spec(mask, i)
            < component_count_spec(mask),
        component_count_spec(mask) <= 8,
{
    lemma_leaders_below_bounds(mask, 8);
    if corner_inside(mask, i) && mask != 0 && mask != 0xFF {
        lemma_leader_is_leader(mask, i);
        let l = leader(mask, i);
        lemma_leaders_below_mono(mask, l + 1, 8);
        lemma_leaders_below_bounds(mask, l);
    }
}

/// Two inside corners get the same component id exactly when they are connected.
pub proof fn lemma_same_component_iff_connected(mask: u8, i: int, j: int)
    requires
        0 <= i < 8,
        0 <= j < 8,
        mask != 0,
        mask != 0xFF,
        corner_inside(mask, i),
        corner_inside(mask, j),
    ensures
        (component_spec(mask, i) == component_spec(mask, j)) == connected(mask, i, j),
{
    lemma_linked_equiv(mask, 12);
    lemma_leader_is_leader(mask, i);
    lemma_leader_is_leader(mask, j);
    let li = leader(mask, i);
    let lj = leader(mask, j);
    lemma_leaders_below_bounds(mask, 8);
    lemma_leaders_below_mono(mask, li, 8);
    lemma_leaders_below_mono(mask, lj, 8);
    lemma_leaders_below_bounds(mask, li);
    lemma_leaders_below_bounds(mask, lj);
    if connected(mask, i, j) {
        lemma_leader_shared(mask, i, j);
    } else {
        lemma_leader(mask, i);
        lemma_leader(mask, j);
        if li == lj {
            assert(connected(mask, i, li));
            assert(connected(mask, i, j));
        } else if li < lj {
            lemma_leaders_below_mono(mask, li + 1, lj);
        } else {
            lemma_leaders_below_mono(mask, lj + 1, li);
        }
    }
}

/// Two inside corners that share a cube edge are connected.
pub proof fn lemma_edge_neighbors_connected(mask: u8, e: int)
    requires
        0 <= e < 12,
        corner_inside(mask, edge_corner_spec(e).0),
        corner_inside(mask, edge_corner_spec(e).1),
    ensures
        connected(mask, edge_corner_spec(e).0, edge_corner_spec(e).1),
{
    let a = edge_corner_spec(e).0;
    let b = edge_corner_spec(e).1;
    lemma_linked_equiv(mask, e);
    assert(linked(mask, e, a, a));
    assert(linked(mask, e, b, b));
    assert(linked(mask, e + 1, a, b));
    lemma_linked_grows(mask, e + 1, 12, a, b);
}

/// On an edge with exactly one inside corner, that corner has a valid component id.
pub proof fn lemma_sign_change_edge_component(mask: u8, e: int)
    requires
        0 <= e < 12,
        corner_inside(mask, edge_corner_spec(e).0) != corner_inside(mask, edge_corner_spec(e).1),
    ensures
        ({
            let c = if corner_inside(mask, edge_corner_spec(e).0) {
                edge_corner_spec(e).0
            } else {
                edge_corner_spec(e).1
            };
            component_spec(mask, c) < component_count_spec(mask)
        }),
{
    let a = edge_corner_spec(e).0;
    let b = edge_corner_spec(e).1;
    crate::bbox::lemma_edge_corners_differ_in_one_bit(e);
    let aa = a as u8;
    let bb = b as u8;
    if mask == 0 {
        assert((0u8 >> aa) & 1 == 0 && (0u8 >> bb) & 1 == 0) by (bit_vector);
    }
    if mask == 0xFF {
        assert((0xFFu8 >> aa) & 1 == 1 && (0xFFu8 >> bb) & 1 == 1) by (bit_vector)
            requires
                aa < 8 && bb < 8;
    }
    if corner_inside(mask, a) {
        lemma_component_ids_in_range(mask, a);
    } else {
        lemma_component_ids_in_range(mask, b);
    }
}

/// Corners `2k` and `2k + 1` share an X edge, so at most one of them leads a component.
proof fn lemma_pair_one_leader(mask: u8, k: int)
    requires
        0 <= k < 4,
    ensures
        !(is_leader(mask, 2 * k) && is_leader(mask, 2 * k + 1)),
{
    assert(edge_corner_spec(k).0 == 2 * k && edge_corner_spec(k).1 == 2 * k + 1);
    if is_leader(mask, 2 * k) && is_leader(mask, 2 * k + 1) {
        lemma_edge_neighbors_connected(mask, k);
        lemma_leader(mask, 2 * k + 1);
        assert(!connected(mask, 2 * k, 2 * k + 1));
    }
}

/// A cell has at most 4 components.
pub proof fn lemma_at_most_four_components(mask: u8)
    ensures
        component_count_spec(mask) <= 4,
{
    lemma_pair_one_leader(mask, 0);
    lemma_pair_one_leader(mask, 1);
    lemma_pair_one_leader(mask, 2);
    lemma_pair_one_leader(mask, 3);
    assert(leaders_below(mask, 0) == 0);
    assert(leaders_below(mask, 1) <= 1);
    assert(leaders_below(mask, 2) <= 1);
    assert(leaders_below(mask, 3) <= 2);
    assert(leaders_below(mask, 4) <= 2);
    assert(leaders_below(mask, 5) <= 3);
    assert(leaders_below(mask, 6) <= 3);
    assert(leaders_below(mask, 7) <= 4);
    assert(leaders_below(mask, 8) <= 4);
}

/// A cell has no component exactly when all its corners are on one side: every
/// corner outside or every corner inside.
pub proof fn lemma_no_components_iff_uniform(mask: u8)
    ensures
        (component_count_spec(mask) == 0) == (mask == 0 || mask == 0xFF),
{
    if mask != 0 && mask != 0xFF {
        let i: int = if corner_inside(mask, 0) {
            0
        } else if corner_inside(mask, 1) {
            1
        } else if corner_inside(mask, 2) {
            2
        } else if corner_inside(mask, 3) {
            3
        } else if corner_inside(mask, 4) {
            4
        } else if corner_inside(mask, 5) {
            5
        } else if corner_inside(mask, 6) {
            6
        } else {
            7
        };
        if !corner_inside(mask, 7) && i == 7 {
            assert(mask == 0) by (bit_vector)
                requires
                    (mask >> 0u8) & 1 != 1,
                    (mask >> 1u8) & 1 != 1,
                    (mask >> 2u8) & 1 != 1,
                    (mask >> 3u8) & 1 != 1,
                    (mask >> 4u8) & 1 != 1,
                    (mask >> 5u8) & 1 != 1,
                    (mask >> 6u8) & 1 != 1,
                    (mask >> 7u8) & 1 != 1,
            ;
        }
        lemma_leader_is_leader(mask, i);
        let l = leader(mask, i);
        lemma_leaders_below_bounds(mask, l);
        lemma_leaders_below_mono(mask, l + 1, 8);
        lemma_leaders_below_bounds(mask, 8);
    }
}

} // verus!
