//! Splitting cells from cached corner samples: the grid positions a split
//! needs, and the split itself.
use vstd::prelude::*;
use vstd::arithmetic::power2::pow2;
use std::collections::HashSet;
use crate::eval::cache::{corner_offset, grid_code, lemma_corner_offsets, lemma_grid_code_injective, pack_grid, EvalCache};
use crate::dc::component::corner_inside;
use crate::octree::cell::{Cell, LeafData};
use crate::octree::types::GridPos;
use crate::octree::{first_occurrences, lemma_first_occurrences_push, path_seq, subdivided, CellKey, Octree};

verus! {

/// Corner `corner` of child `octant` of `cell`, on the grid of `max_depth`: the
/// cell's min corner plus one child width along each axis for each of the two
/// indices whose bit for that axis is set.
pub open spec fn split_point(cell: CellKey, max_depth: u8, octant: int, corner: int) -> GridPos {
    let w = pow2((max_depth - cell.3) as nat) as int;
    let cs = w / 2;
    GridPos {
        x: (cell.0 * w + (corner_offset(octant as u8, 0) + corner_offset(corner as u8, 0)) * cs) as u32,
        y: (cell.1 * w + (corner_offset(octant as u8, 1) + corner_offset(corner as u8, 1)) * cs) as u32,
        z: (cell.2 * w + (corner_offset(octant as u8, 2) + corner_offset(corner as u8, 2)) * cs) as u32,
    }
}

/// The cell can be split on the grid of `max_depth` without leaving `u32`.
pub open spec fn splittable(cell: CellKey, max_depth: u8) -> bool {
    let w = pow2((max_depth - cell.3) as nat) as int;
    &&& cell.3 < max_depth
    &&& (cell.0 + 1) * w <= u32::MAX
    &&& (cell.1 + 1) * w <= u32::MAX
    &&& (cell.2 + 1) * w <= u32::MAX
}

proof fn lemma_split_coord(c: u32, w: int, cs: int, a: int, b: int)
    requires
        w == 2 * cs,
        cs >= 1,
        (c + 1) * w <= u32::MAX,
        0 <= a <= 1,
        0 <= b <= 1,
    ensures
        0 <= c * w + (a + b) * cs <= (c + 1) * w,
        c * w + a * cs <= u32::MAX,
        c * w <= u32::MAX,
{
    assert((c + 1) * w == c * w + w) by (nonlinear_arith);
    assert(0 <= c * w) by (nonlinear_arith)
        requires
            w >= 0;
    assert((a + b) * cs <= 2 * cs) by (nonlinear_arith)
        requires
            0 <= a + b <= 2,
            cs >= 1;
    assert(0 <= (a + b) * cs) by (nonlinear_arith)
        requires
            0 <= a + b,
            cs >= 1;
    assert(a * cs <= cs) by (nonlinear_arith)
        requires
            0 <= a <= 1,
            cs >= 1;
}

/// `split_point` of `cell`, computed.
fn split_point_at(cell: CellKey, max_depth: u8, octant: u8, corner: u8) -> (p: GridPos)
    requires
        max_depth <= 31,
        splittable(cell, max_depth),
        octant < 8,
        corner < 8,
    ensures
        p == split_point(cell, max_depth, octant as int, corner as int),
{
    let (cx, cy, cz, depth) = cell;
    proof {
        vstd::bits::lemma_u32_pow2_no_overflow((max_depth - depth) as nat);
        vstd::bits::lemma_u32_shl_is_mul(1, (max_depth - depth) as u32);
        vstd::bits::lemma_u32_pow2_no_overflow((max_depth - depth - 1) as nat);
        vstd::bits::lemma_u32_shl_is_mul(1, (max_depth - depth - 1) as u32);
        vstd::arithmetic::power2::lemma_pow2_unfold((max_depth - depth) as nat);
        vstd::arithmetic::power2::lemma_pow2_pos((max_depth - depth - 1) as nat);
        lemma_corner_offsets(octant);
        lemma_corner_offsets(corner);
    }
    let w = 1u32 << (max_depth - depth) as u32;
    let cs = 1u32 << (max_depth - depth - 1) as u32;
    proof {
        let wi = w as int;
        let ci = cs as int;
        lemma_split_coord(cx, wi, ci, corner_offset(octant, 0), corner_offset(corner, 0));
        lemma_split_coord(cy, wi, ci, corner_offset(octant, 1), corner_offset(corner, 1));
        lemma_split_coord(cz, wi, ci, corner_offset(octant, 2), corner_offset(corner, 2));
        assert(wi / 2 == ci);
        assert((corner_offset(octant, 0) + corner_offset(corner, 0)) * ci == corner_offset(octant, 0) * ci
            + corner_offset(corner, 0) * ci) by (nonlinear_arith);
        assert((corner_offset(octant, 1) + corner_offset(corner, 1)) * ci == corner_offset(octant, 1) * ci
            + corner_offset(corner, 1) * ci) by (nonlinear_arith);
        assert((corner_offset(octant, 2) + corner_offset(corner, 2)) * ci == corner_offset(octant, 2) * ci
            + corner_offset(corner, 2) * ci) by (nonlinear_arith);
    }
    let ox = cx * w + if octant & 1 != 0 { cs } else { 0 };
    let oy = cy * w + if octant & 2 != 0 { cs } else { 0 };
    let oz = cz * w + if octant & 4 != 0 { cs } else { 0 };
    GridPos::new(
        ox + if corner & 1 != 0 { cs } else { 0 },
        oy + if corner & 2 != 0 { cs } else { 0 },
        oz + if corner & 4 != 0 { cs } else { 0 },
    )
}

/// `p` is corner `t % 8` of child `t / 8` of one of the first `n` cells (any
/// `t` below 64), or of cell `n` with `t` below `checks`.
pub open spec fn split_covered(cells: Seq<CellKey>, max_depth: u8, n: int, checks: int, p: GridPos) -> bool {
    exists|j: int, t: int|
        (0 <= j < n && 0 <= t < 64 || j == n && 0 <= t < checks) && #[trigger] split_point(cells[j], max_depth, t / 8, t % 8)
            == p
}

/// The positions that splitting the first `n` cells (all 64 corner slots each,
/// slot `t` being corner `t % 8` of child `t / 8`) and then the first `slots`
/// slots of cell `n` needs and that `cache` lacks, in that order, repeats included.
pub open spec fn split_points_upto<V>(
    cells: Seq<CellKey>,
    max_depth: u8,
    cache: Map<u128, V>,
    n: int,
    slots: int,
) -> Seq<GridPos>
    decreases n, slots,
{
    if slots > 0 {
        let before = split_points_upto(cells, max_depth, cache, n, slots - 1);
        let p = split_point(cells[n], max_depth, (slots - 1) / 8, (slots - 1) % 8);
        if cache.contains_key(grid_code(p) as u128) {
            before
        } else {
            before.push(p)
        }
    } else if n > 0 {
        split_points_upto(cells, max_depth, cache, n - 1, 64)
    } else {
        Seq::empty()
    }
}

/// The grid positions that splitting `cells` (each into its 8 children, on the
/// grid of `max_depth`) needs values at and that `cache` lacks, each once, in
/// the order the cells and then their children's corners are visited.
pub fn new_corner_positions<V>(cells: &Vec<CellKey>, max_depth: u8, cache: &EvalCache<V>) -> (r: Vec<GridPos>)
    requires
        max_depth <= 31,
        forall|i: int| 0 <= i < cells.len() ==> splittable(#[trigger] cells[i], max_depth),
    ensures
        forall|k: int| 0 <= k < r.len() ==> #[trigger] split_covered(cells@, max_depth, cells.len() as int, 0, r[k]),
        forall|k: int| 0 <= k < r.len() ==> !cache@.contains_key(grid_code(#[trigger] r[k]) as u128),
        forall|i: int, t: int|
            0 <= i < cells.len() && 0 <= t < 64 && !cache@.contains_key(
                grid_code(#[trigger] split_point(cells[i], max_depth, t / 8, t % 8)) as u128,
            ) ==> r@.contains(split_point(cells[i], max_depth, t / 8, t % 8)),
        r@.no_duplicates(),
        r@ == first_occurrences(split_points_upto(cells@, max_depth, cache@, cells.len() as int, 0)),
{
    broadcast use vstd::std_specs::hash::group_hash_axioms;
    let ghost cv = cells@;
    let mut out: Vec<GridPos> = Vec::new();
    let mut seen: HashSet<u128> = HashSet::new();
    let mut i: usize = 0;
    while i < cells.len()
        invariant
            cells@ == cv,
            max_depth <= 31,
            forall|j: int| 0 <= j < cv.len() ==> splittable(#[trigger] cv[j], max_depth),
            i <= cv.len(),
            out@.no_duplicates(),
            out@ == first_occurrences(split_points_upto(cv, max_depth, cache@, i as int, 0)),
            forall|p: GridPos| #[trigger] seen@.contains(grid_code(p) as u128) <==> out@.contains(p),
            forall|k: int| 0 <= k < out.len() ==> #[trigger] split_covered(cv, max_depth, i as int, 0, out[k]),
            forall|k: int| 0 <= k < out.len() ==> !cache@.contains_key(grid_code(#[trigger] out[k]) as u128),
            forall|j: int, t: int|
                0 <= j < i && 0 <= t < 64 && !cache@.contains_key(
                    grid_code(#[trigger] split_point(cv[j], max_depth, t / 8, t % 8)) as u128,
                ) ==> out@.contains(split_point(cv[j], max_depth, t / 8, t % 8)),
        decreases cv.len() - i,
    {
        let cell = cells[i];
        proof {
            assert(splittable(cv[i as int], max_depth));
            assert forall|k: int| 0 <= k < out.len() implies #[trigger] split_covered(cv, max_depth, i as int, 0, out[k]) by {
            }
        }
        let mut t: usize = 0;
        while t < 64
            invariant
                cells@ == cv,
                max_depth <= 31,
                i < cv.len(),
                cell == cv[i as int],
                splittable(cell, max_depth),
                t <= 64,
                out@.no_duplicates(),
                out@ == first_occurrences(split_points_upto(cv, max_depth, cache@, i as int, t as int)),
                forall|p: GridPos| #[trigger] seen@.contains(grid_code(p) as u128) <==> out@.contains(p),
                forall|k: int| 0 <= k < out.len() ==> #[trigger] split_covered(cv, max_depth, i as int, t as int, out[k]),
                forall|k: int| 0 <= k < out.len() ==> !cache@.contains_key(grid_code(#[trigger] out[k]) as u128),
                forall|j: int, u: int|
                    (0 <= j < i && 0 <= u < 64 || j == i && 0 <= u < t) && !cache@.contains_key(
                        grid_code(#[trigger] split_point(cv[j], max_depth, u / 8, u % 8)) as u128,
                    ) ==> out@.contains(split_point(cv[j], max_depth, u / 8, u % 8)),
            decreases 64 - t,
        {
            let ghost before = out@;
            let gp = split_point_at(cell, max_depth, (t / 8) as u8, (t % 8) as u8);
            proof {
                assert(gp == split_point(cv[i as int], max_depth, t as int / 8, t as int % 8));
            }
            proof {
                lemma_first_occurrences_push(split_points_upto(cv, max_depth, cache@, i as int, t as int), gp);
            }
            if !cache.contains(&gp) {
                let code = pack_grid(&gp);
                if seen.insert(code) {
                    out.push(gp);
                    proof {
                        assert(!before.contains(gp));
                        assert(out@[before.len() as int] == gp);
                        assert(out@.contains(gp));
                        assert forall|a: int, b: int| 0 <= a < b < out@.len() implies out@[a] != out@[b] by {
                            if b == before.len() {
                                assert(before[a] == out@[a]);
                            }
                        }
                        assert forall|p: GridPos| #[trigger] seen@.contains(grid_code(p) as u128) <==> out@.contains(p) by {
                            if grid_code(p) as u128 == code {
                                lemma_grid_code_injective(p, gp);
                            }
                            if p == gp {
                                assert(out@[before.len() as int] == gp);
                            }
                            if before.contains(p) {
                                let k = choose|k: int| 0 <= k < before.len() && before[k] == p;
                                assert(out@[k] == p);
                            }
                            if out@.contains(p) && p != gp {
                                let k = choose|k: int| 0 <= k < out@.len() && out@[k] == p;
                                assert(before[k] == p);
                            }
                        }
                    }
                } else {
                    proof {
                        assert(out@.contains(gp));
                    }
                }
            }
            proof {
                assert forall|k: int| 0 <= k < out.len() implies !cache@.contains_key(grid_code(#[trigger] out[k]) as u128) by {
                    if k < before.len() {
                        assert(out[k] == before[k]);
                    }
                }
                assert forall|k: int| 0 <= k < out.len() implies #[trigger] split_covered(cv, max_depth, i as int, t + 1, out[k]) by {
                    if k < before.len() {
                        assert(out[k] == before[k]);
                        assert(split_covered(cv, max_depth, i as int, t as int, before[k]));
                        let (j, u) = choose|j: int, u: int|
                            (0 <= j < i && 0 <= u < 64 || j == i && 0 <= u < t) && #[trigger] split_point(
                                cv[j],
                                max_depth,
                                u / 8,
                                u % 8,
                            ) == before[k];
                        assert(split_point(cv[j], max_depth, u / 8, u % 8) == out[k]);
                    } else {
                        assert(split_point(cv[i as int], max_depth, t as int / 8, t as int % 8) == out[k]);
                    }
                }
                assert forall|j: int, u: int|
                    (0 <= j < i && 0 <= u < 64 || j == i && 0 <= u < t + 1) && !cache@.contains_key(
                        grid_code(#[trigger] split_point(cv[j], max_depth, u / 8, u % 8)) as u128,
                    ) implies out@.contains(split_point(cv[j], max_depth, u / 8, u % 8)) by {
                    if !(j == i && u == t) {
                        let q = split_point(cv[j], max_depth, u / 8, u % 8);
                        assert(before.contains(q));
                        let k = choose|k: int| 0 <= k < before.len() && before[k] == q;
                        assert(out@[k] == q);
                    }
                }
            }
            t += 1;
        }
        proof {
            assert forall|k: int| 0 <= k < out.len() implies #[trigger] split_covered(cv, max_depth, i + 1, 0, out[k]) by {
                assert(split_covered(cv, max_depth, i as int, 64, out[k]));
                let (j, u) = choose|j: int, u: int|
                    (0 <= j < i && 0 <= u < 64 || j == i && 0 <= u < 64) && #[trigger] split_point(cv[j], max_depth, u / 8, u % 8)
                        == out[k];
                assert(split_point(cv[j], max_depth, u / 8, u % 8) == out[k]);
            }
        }
        i += 1;
    }
    out
}

/// The cached sample (inside flag and payload) at corner `corner` of child
/// `octant` of `cell`.
pub open spec fn split_sample<V>(cache: Map<u128, (bool, V)>, cell: CellKey, max_depth: u8, octant: int, corner: int) -> (
    bool,
    V,
) {
    cache[grid_code(split_point(cell, max_depth, octant, corner)) as u128]
}

/// `c` is child `octant` of `cell` as sampled from `cache`: `Empty` when none
/// of its corners is inside, `Full` when all are, and otherwise a fresh leaf
/// whose corner signs and samples are the cached ones.
pub open spec fn sampled_child<V>(c: Cell<[V; 8]>, cache: Map<u128, (bool, V)>, cell: CellKey, max_depth: u8, octant: int) -> bool {
    if forall|k: int| 0 <= k < 8 ==> !(#[trigger] split_sample(cache, cell, max_depth, octant, k)).0 {
        c is Empty
    } else if forall|k: int| 0 <= k < 8 ==> (#[trigger] split_sample(cache, cell, max_depth, octant, k)).0 {
        c is Full
    } else {
        &&& c is Leaf
        &&& forall|k: int|
            0 <= k < 8 ==> #[trigger] corner_inside(c->Leaf_0.corner_mask, k) == split_sample(cache, cell, max_depth, octant, k).0
        &&& forall|k: int| 0 <= k < 8 ==> #[trigger] c->Leaf_0.samples[k] == split_sample(cache, cell, max_depth, octant, k).1
        &&& c->Leaf_0.vertex_start == 0
        &&& c->Leaf_0.vertex_count == 0
        &&& forall|e: int| 0 <= e < 12 ==> #[trigger] c->Leaf_0.edge_intersections[e] is None
    }
}

/// A mask is 0 exactly when no corner is inside, and 0xFF exactly when all are.
pub proof fn lemma_mask_extremes(m: u8)
    ensures
        (m == 0) == (!corner_inside(m, 0) && !corner_inside(m, 1) && !corner_inside(m, 2) && !corner_inside(m, 3)
            && !corner_inside(m, 4) && !corner_inside(m, 5) && !corner_inside(m, 6) && !corner_inside(m, 7)),
        (m == 0xFF) == (corner_inside(m, 0) && corner_inside(m, 1) && corner_inside(m, 2) && corner_inside(m, 3)
            && corner_inside(m, 4) && corner_inside(m, 5) && corner_inside(m, 6) && corner_inside(m, 7)),
{
    assert((m == 0) == ((m >> 0u8) & 1 != 1 && (m >> 1u8) & 1 != 1 && (m >> 2u8) & 1 != 1 && (m >> 3u8) & 1 != 1
        && (m >> 4u8) & 1 != 1 && (m >> 5u8) & 1 != 1 && (m >> 6u8) & 1 != 1 && (m >> 7u8) & 1 != 1)) by (bit_vector);
    assert((m == 0xFF) == ((m >> 0u8) & 1 == 1 && (m >> 1u8) & 1 == 1 && (m >> 2u8) & 1 == 1 && (m >> 3u8) & 1 == 1
        && (m >> 4u8) & 1 == 1 && (m >> 5u8) & 1 == 1 && (m >> 6u8) & 1 == 1 && (m >> 7u8) & 1 == 1)) by (bit_vector);
}

impl<V: Copy> Octree<[V; 8]> {
    /// Child `octant` of `cell`, built from the cached samples at its corners.
    fn sample_child(cache: &EvalCache<(bool, V)>, cell: CellKey, max_depth: u8, octant: u8) -> (c: Cell<[V; 8]>)
        requires
            max_depth <= 31,
            splittable(cell, max_depth),
            octant < 8,
            forall|k: int|
                0 <= k < 8 ==> cache@.contains_key(grid_code(#[trigger] split_point(cell, max_depth, octant as int, k)) as u128),
        ensures
            sampled_child(c, cache@, cell, max_depth, octant as int),
            !(c is Branch),
    {
        let e0 = *cache.get(&split_point_at(cell, max_depth, octant, 0)).unwrap();
        let e1 = *cache.get(&split_point_at(cell, max_depth, octant, 1)).unwrap();
        let e2 = *cache.get(&split_point_at(cell, max_depth, octant, 2)).unwrap();
        let e3 = *cache.get(&split_point_at(cell, max_depth, octant, 3)).unwrap();
        let e4 = *cache.get(&split_point_at(cell, max_depth, octant, 4)).unwrap();
        let e5 = *cache.get(&split_point_at(cell, max_depth, octant, 5)).unwrap();
        let e6 = *cache.get(&split_point_at(cell, max_depth, octant, 6)).unwrap();
        let e7 = *cache.get(&split_point_at(cell, max_depth, octant, 7)).unwrap();
        let inside = [e0.0, e1.0, e2.0, e3.0, e4.0, e5.0, e6.0, e7.0];
        let leaf = LeafData::new(inside, [e0.1, e1.1, e2.1, e3.1, e4.1, e5.1, e6.1, e7.1]);
        proof {
            let o = octant as int;
            assert(e0 == split_sample(cache@, cell, max_depth, o, 0));
            assert(e1 == split_sample(cache@, cell, max_depth, o, 1));
            assert(e2 == split_sample(cache@, cell, max_depth, o, 2));
            assert(e3 == split_sample(cache@, cell, max_depth, o, 3));
            assert(e4 == split_sample(cache@, cell, max_depth, o, 4));
            assert(e5 == split_sample(cache@, cell, max_depth, o, 5));
            assert(e6 == split_sample(cache@, cell, max_depth, o, 6));
            assert(e7 == split_sample(cache@, cell, max_depth, o, 7));
            assert forall|k: int| 0 <= k < 8 implies #[trigger] leaf.samples[k] == split_sample(cache@, cell, max_depth, o, k).1
                && corner_inside(leaf.corner_mask, k) == split_sample(cache@, cell, max_depth, o, k).0 by {
                assert(corner_inside(leaf.corner_mask, k) == inside[k]);
                if k == 0 {} else if k == 1 {} else if k == 2 {} else if k == 3 {}
                else if k == 4 {} else if k == 5 {} else if k == 6 {} else {}
            }
            lemma_mask_extremes(leaf.corner_mask);
            assert(corner_inside(leaf.corner_mask, 0) == split_sample(cache@, cell, max_depth, o, 0).0);
            assert(corner_inside(leaf.corner_mask, 1) == split_sample(cache@, cell, max_depth, o, 1).0);
            assert(corner_inside(leaf.corner_mask, 2) == split_sample(cache@, cell, max_depth, o, 2).0);
            assert(corner_inside(leaf.corner_mask, 3) == split_sample(cache@, cell, max_depth, o, 3).0);
            assert(corner_inside(leaf.corner_mask, 4) == split_sample(cache@, cell, max_depth, o, 4).0);
            assert(corner_inside(leaf.corner_mask, 5) == split_sample(cache@, cell, max_depth, o, 5).0);
            assert(corner_inside(leaf.corner_mask, 6) == split_sample(cache@, cell, max_depth, o, 6).0);
            assert(corner_inside(leaf.corner_mask, 7) == split_sample(cache@, cell, max_depth, o, 7).0);
        }
        Cell::from_leaf(leaf)
    }

    /// Splits `cell` (on the grid of `max_depth`) into 8 children sampled from
    /// `cache`: each child is empty, full or a leaf by the inside flags cached at
    /// its corners, and the cell becomes a branch over them.
    pub fn split_cell(&mut self, cache: &EvalCache<(bool, V)>, cell: CellKey, max_depth: u8)
        requires
            old(self).well_formed(),
            old(self).children.len() < u32::MAX,
            max_depth <= 31,
            splittable(cell, max_depth),
            forall|t: int|
                0 <= t < 64 ==> cache@.contains_key(grid_code(#[trigger] split_point(cell, max_depth, t / 8, t % 8)) as u128),
        ensures
            final(self).well_formed(),
            ({
                let g = split_point(cell, max_depth, 0, 0);
                let n = old(self).children@.len() as int;
                &&& subdivided(*old(self), *final(self), path_seq(g.x, g.y, g.z, cell.3, max_depth), final(self).children@[n])
                &&& forall|o: int| 0 <= o < 8 ==> sampled_child(#[trigger] final(self).children@[n][o], cache@, cell, max_depth, o)
            }),
    {
        proof {
            assert forall|o: int, k: int| 0 <= o < 8 && 0 <= k < 8 implies cache@.contains_key(
                grid_code(#[trigger] split_point(cell, max_depth, o, k)) as u128,
            ) by {
                let t = o * 8 + k;
                assert(t / 8 == o && t % 8 == k);
                assert(cache@.contains_key(grid_code(split_point(cell, max_depth, t / 8, t % 8)) as u128));
            }
        }
        let kids = [
            Self::sample_child(cache, cell, max_depth, 0),
            Self::sample_child(cache, cell, max_depth, 1),
            Self::sample_child(cache, cell, max_depth, 2),
            Self::sample_child(cache, cell, max_depth, 3),
            Self::sample_child(cache, cell, max_depth, 4),
            Self::sample_child(cache, cell, max_depth, 5),
            Self::sample_child(cache, cell, max_depth, 6),
            Self::sample_child(cache, cell, max_depth, 7),
        ];
        let g = split_point_at(cell, max_depth, 0, 0);
        proof {
            assert forall|o: int| 0 <= o < 8 implies !(#[trigger] kids[o] is Branch) && sampled_child(kids[o], cache@, cell, max_depth, o) by {
                if o == 0 {} else if o == 1 {} else if o == 2 {} else if o == 3 {}
                else if o == 4 {} else if o == 5 {} else if o == 6 {} else {}
            }
        }
        self.subdivide(g.x, g.y, g.z, cell.3, max_depth, kids);
    }
}

/// Reading back `split_cell`: after splitting `cell` of a well-formed tree
/// whose descent reaches the cell's depth, looking up child `octant` of the
/// cell one level deeper finds the child sampled from the cache.
pub proof fn lemma_lookup_after_split<V>(
    before: Octree<[V; 8]>,
    after: Octree<[V; 8]>,
    cache: Map<u128, (bool, V)>,
    cell: CellKey,
    max_depth: u8,
    octant: u8,
)
    requires
        before.well_formed(),
        before.children.len() < u32::MAX,
        max_depth <= 31,
        splittable(cell, max_depth),
        (cell.0 as int) < pow2(cell.3 as nat),
        (cell.1 as int) < pow2(cell.3 as nat),
        (cell.2 as int) < pow2(cell.3 as nat),
        before.lookup_depth(cell.0, cell.1, cell.2, cell.3) == cell.3,
        octant < 8,
        ({
            let g = split_point(cell, max_depth, 0, 0);
            let n = before.children@.len() as int;
            &&& subdivided(before, after, path_seq(g.x, g.y, g.z, cell.3, max_depth), after.children@[n])
            &&& forall|o: int| 0 <= o < 8 ==> sampled_child(#[trigger] after.children@[n][o], cache, cell, max_depth, o)
        }),
    ensures
        sampled_child(
            after.lookup_cell(
                (2 * cell.0 + corner_offset(octant, 0)) as u32,
                (2 * cell.1 + corner_offset(octant, 1)) as u32,
                (2 * cell.2 + corner_offset(octant, 2)) as u32,
                (cell.3 + 1) as u8,
            ),
            cache,
            cell,
            max_depth,
            octant as int,
        ),
{
    lemma_corner_offsets(0);
    let n = before.children@.len() as int;
    let g = split_point(cell, max_depth, 0, 0);
    let w = pow2((max_depth - cell.3) as nat);
    assert(corner_offset(0u8, 0) == 0 && corner_offset(0u8, 1) == 0 && corner_offset(0u8, 2) == 0);
    assert((0int as u8) == 0u8);
    let wi = w as int;
    let cs = wi / 2;
    assert forall|a: int| 0 <= a < 3 implies (corner_offset(0u8, a) + corner_offset(0u8, a)) * cs == 0 by {
        lemma_corner_offsets(0);
        let z = corner_offset(0u8, a) + corner_offset(0u8, a);
        assert(z == 0);
        assert(z * cs == 0) by (nonlinear_arith)
            requires
                z == 0;
    }
    assert(g.x == (cell.0 * wi + (corner_offset(0u8, 0) + corner_offset(0u8, 0)) * cs) as u32);
    assert(g.y == (cell.1 * wi + (corner_offset(0u8, 1) + corner_offset(0u8, 1)) * cs) as u32);
    assert(g.z == (cell.2 * wi + (corner_offset(0u8, 2) + corner_offset(0u8, 2)) * cs) as u32);
    assert(g.x == (cell.0 * w) as u32);
    assert(g.y == (cell.1 * w) as u32);
    assert(g.z == (cell.2 * w) as u32);
    crate::octree::descent::lemma_lookup_after_subdivide(
        before,
        after,
        cell.0,
        cell.1,
        cell.2,
        cell.3,
        max_depth,
        after.children@[n],
        octant,
    );
}

} // verus!
