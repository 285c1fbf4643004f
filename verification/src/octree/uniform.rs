//! Building the uniform part of the octree from cached corner samples:
//! every cell down to a target depth, with subtrees that lie entirely outside
//! (or entirely inside) collapsed into one empty (or full) cell.
use vstd::prelude::*;
use vstd::arithmetic::power2::pow2;
use crate::dc::component::corner_inside;
use crate::eval::cache::{corner_grid_pos, corner_offset, grid_code, lemma_corner_offsets, EvalCache};
use crate::octree::cell::{Cell, LeafData};
use crate::octree::refine::lemma_mask_extremes;
use crate::octree::types::GridPos;
use crate::octree::{entries_leveled, levels_ok, Octree};

verus! {

/// The grid position (`x`, `y`, `z`).
pub open spec fn grid_point(x: int, y: int, z: int) -> GridPos {
    GridPos { x: x as u32, y: y as u32, z: z as u32 }
}

/// The grid position of (`x`, `y`, `z`) on a coarser grid whose steps are `g`
/// steps of the finer grid that keys the cache.
pub open spec fn scaled_point(g: int, x: int, y: int, z: int) -> GridPos {
    grid_point(x * g, y * g, z * g)
}

/// The cached sample at position (`x`, `y`, `z`) of the grid whose steps are
/// `g` steps of the cache's grid.
pub open spec fn sample_at<V>(cache: Map<u128, (bool, V)>, g: int, x: int, y: int, z: int) -> (bool, V) {
    cache[grid_code(scaled_point(g, x, y, z)) as u128]
}

/// Every grid position in the closed box of cell (`cx`, `cy`, `cz`), `level`
/// levels above the grid (so `2^level` grid steps wide), has inside flag `val`.
pub open spec fn region_uniform<V>(cache: Map<u128, (bool, V)>, g: int, cx: int, cy: int, cz: int, level: nat, val: bool) -> bool {
    let s = pow2(level) as int;
    forall|x: int, y: int, z: int|
        cx * s <= x <= (cx + 1) * s && cy * s <= y <= (cy + 1) * s && cz * s <= z <= (cz + 1) * s
            ==> (#[trigger] sample_at(cache, g, x, y, z)).0 == val
}

/// Child coordinate along `axis` of octant `o` of a cell at coordinate `c`.
pub open spec fn child_at(c: int, o: int, axis: int) -> int {
    2 * c + corner_offset(o as u8, axis)
}

/// `c` is the cell built for (`cx`, `cy`, `cz`), `level` levels above the grid:
/// empty when its whole box is outside, full when it is all inside, otherwise a
/// leaf on the grid itself (its corner signs and samples from the cache) or a
/// branch over the cells built for its 8 children.
pub open spec fn built<V>(
    ch: Seq<[Cell<[V; 8]>; 8]>,
    c: Cell<[V; 8]>,
    cache: Map<u128, (bool, V)>, g: int,
    cx: int,
    cy: int,
    cz: int,
    level: nat,
) -> bool
    decreases level,
{
    let all_out = region_uniform(cache, g, cx, cy, cz, level, false);
    let all_in = region_uniform(cache, g, cx, cy, cz, level, true);
    match c {
        Cell::Empty => all_out,
        Cell::Full => all_in,
        Cell::Leaf(l) => {
            &&& level == 0
            &&& !all_out
            &&& !all_in
            &&& forall|k: int|
                0 <= k < 8 ==> #[trigger] corner_inside(l.corner_mask, k) == sample_at(
                    cache, g,
                    cx + corner_offset(k as u8, 0),
                    cy + corner_offset(k as u8, 1),
                    cz + corner_offset(k as u8, 2),
                ).0
            &&& forall|k: int|
                0 <= k < 8 ==> #[trigger] l.samples[k] == sample_at(
                    cache, g,
                    cx + corner_offset(k as u8, 0),
                    cy + corner_offset(k as u8, 1),
                    cz + corner_offset(k as u8, 2),
                ).1
            &&& l.vertex_start == 0
            &&& l.vertex_count == 0
            &&& forall|e: int| 0 <= e < 12 ==> #[trigger] l.edge_intersections[e] is None
        },
        Cell::Branch { children_index } => {
            let i = children_index as int;
            &&& level > 0
            &&& !all_out
            &&& !all_in
            &&& 0 <= i < ch.len()
            &&& built(ch, ch[i][0], cache, g, child_at(cx, 0, 0), child_at(cy, 0, 1), child_at(cz, 0, 2), (level - 1) as nat)
            &&& built(ch, ch[i][1], cache, g, child_at(cx, 1, 0), child_at(cy, 1, 1), child_at(cz, 1, 2), (level - 1) as nat)
            &&& built(ch, ch[i][2], cache, g, child_at(cx, 2, 0), child_at(cy, 2, 1), child_at(cz, 2, 2), (level - 1) as nat)
            &&& built(ch, ch[i][3], cache, g, child_at(cx, 3, 0), child_at(cy, 3, 1), child_at(cz, 3, 2), (level - 1) as nat)
            &&& built(ch, ch[i][4], cache, g, child_at(cx, 4, 0), child_at(cy, 4, 1), child_at(cz, 4, 2), (level - 1) as nat)
            &&& built(ch, ch[i][5], cache, g, child_at(cx, 5, 0), child_at(cy, 5, 1), child_at(cz, 5, 2), (level - 1) as nat)
            &&& built(ch, ch[i][6], cache, g, child_at(cx, 6, 0), child_at(cy, 6, 1), child_at(cz, 6, 2), (level - 1) as nat)
            &&& built(ch, ch[i][7], cache, g, child_at(cx, 7, 0), child_at(cy, 7, 1), child_at(cz, 7, 2), (level - 1) as nat)
        },
    }
}

/// The most entries that building a cell `level` levels above the grid stores.
pub open spec fn max_entries(level: nat) -> nat
    decreases level,
{
    if level == 0 {
        0
    } else {
        8 * max_entries((level - 1) as nat) + 1
    }
}

/// A built cell stays built when entries are appended to the storage.
proof fn lemma_built_frame<V>(
    ch: Seq<[Cell<[V; 8]>; 8]>,
    ch2: Seq<[Cell<[V; 8]>; 8]>,
    c: Cell<[V; 8]>,
    cache: Map<u128, (bool, V)>, g: int,
    cx: int,
    cy: int,
    cz: int,
    level: nat,
)
    requires
        built(ch, c, cache, g, cx, cy, cz, level),
        ch.len() <= ch2.len(),
        forall|j: int| 0 <= j < ch.len() ==> #[trigger] ch2[j] == ch[j],
    ensures
        built(ch2, c, cache, g, cx, cy, cz, level),
    decreases level,
{
    if let Cell::Branch { children_index } = c {
        let i = children_index as int;
        let l1 = (level - 1) as nat;
        assert(ch2[i] == ch[i]);
        lemma_built_frame(ch, ch2, ch[i][0], cache, g, child_at(cx, 0, 0), child_at(cy, 0, 1), child_at(cz, 0, 2), l1);
        lemma_built_frame(ch, ch2, ch[i][1], cache, g, child_at(cx, 1, 0), child_at(cy, 1, 1), child_at(cz, 1, 2), l1);
        lemma_built_frame(ch, ch2, ch[i][2], cache, g, child_at(cx, 2, 0), child_at(cy, 2, 1), child_at(cz, 2, 2), l1);
        lemma_built_frame(ch, ch2, ch[i][3], cache, g, child_at(cx, 3, 0), child_at(cy, 3, 1), child_at(cz, 3, 2), l1);
        lemma_built_frame(ch, ch2, ch[i][4], cache, g, child_at(cx, 4, 0), child_at(cy, 4, 1), child_at(cz, 4, 2), l1);
        lemma_built_frame(ch, ch2, ch[i][5], cache, g, child_at(cx, 5, 0), child_at(cy, 5, 1), child_at(cz, 5, 2), l1);
        lemma_built_frame(ch, ch2, ch[i][6], cache, g, child_at(cx, 6, 0), child_at(cy, 6, 1), child_at(cz, 6, 2), l1);
        lemma_built_frame(ch, ch2, ch[i][7], cache, g, child_at(cx, 7, 0), child_at(cy, 7, 1), child_at(cz, 7, 2), l1);
    }
}

/// Along one axis, a child's span lies in its parent's, and every point of the
/// parent's span lies in the span of the child on the matching side.
proof fn lemma_axis_split(c: int, h: int, x: int, b: int)
    requires
        h >= 1,
        0 <= b <= 1,
    ensures
        c * (2 * h) <= (2 * c + b) * h,
        (2 * c + b + 1) * h <= (c + 1) * (2 * h),
        c * (2 * h) <= x <= (c + 1) * (2 * h) ==> ({
            let side = if x <= (2 * c + 1) * h {
                0int
            } else {
                1int
            };
            (2 * c + side) * h <= x <= (2 * c + side + 1) * h
        }),
{
    assert(c * (2 * h) == 2 * c * h) by (nonlinear_arith);
    assert((2 * c + b) * h == 2 * c * h + b * h) by (nonlinear_arith);
    assert((2 * c + b + 1) * h == 2 * c * h + b * h + h) by (nonlinear_arith);
    assert((c + 1) * (2 * h) == 2 * c * h + 2 * h) by (nonlinear_arith);
    assert(0 <= b * h <= h) by (nonlinear_arith)
        requires
            0 <= b <= 1,
            h >= 1;
    assert((2 * c + 1) * h == 2 * c * h + h) by (nonlinear_arith);
    assert((2 * c + 2) * h == 2 * c * h + 2 * h) by (nonlinear_arith);
}

/// The octant whose child box holds `(x, y, z)` when it lies in the box of (`cx`, `cy`, `cz`).
spec fn side_of(c: int, h: int, x: int) -> int {
    if x <= (2 * c + 1) * h {
        0
    } else {
        1
    }
}

proof fn lemma_octant_offsets(bx: int, by: int, bz: int)
    requires
        0 <= bx <= 1,
        0 <= by <= 1,
        0 <= bz <= 1,
    ensures
        corner_offset((bx + 2 * by + 4 * bz) as u8, 0) == bx,
        corner_offset((bx + 2 * by + 4 * bz) as u8, 1) == by,
        corner_offset((bx + 2 * by + 4 * bz) as u8, 2) == bz,
{
}

/// A box is uniformly `val` exactly when the boxes of all its 8 children are.
proof fn lemma_region_children<V>(cache: Map<u128, (bool, V)>, g: int, cx: int, cy: int, cz: int, level: nat, val: bool)
    requires
        level > 0,
    ensures
        region_uniform(cache, g, cx, cy, cz, level, val) <==> (forall|o: int|
            0 <= o < 8 ==> #[trigger] region_uniform(
                cache, g,
                child_at(cx, o, 0),
                child_at(cy, o, 1),
                child_at(cz, o, 2),
                (level - 1) as nat,
                val,
            )),
{
    let h = pow2((level - 1) as nat) as int;
    vstd::arithmetic::power2::lemma_pow2_unfold(level);
    vstd::arithmetic::power2::lemma_pow2_pos((level - 1) as nat);
    assert(pow2(level) as int == 2 * h);
    if region_uniform(cache, g, cx, cy, cz, level, val) {
        assert forall|o: int| 0 <= o < 8 implies #[trigger] region_uniform(
            cache, g,
            child_at(cx, o, 0),
            child_at(cy, o, 1),
            child_at(cz, o, 2),
            (level - 1) as nat,
            val,
        ) by {
            lemma_corner_offsets(o as u8);
            let bx = corner_offset(o as u8, 0);
            let by = corner_offset(o as u8, 1);
            let bz = corner_offset(o as u8, 2);
            lemma_axis_split(cx, h, 0, bx);
            lemma_axis_split(cy, h, 0, by);
            lemma_axis_split(cz, h, 0, bz);
        }
    }
    if forall|o: int|
        0 <= o < 8 ==> #[trigger] region_uniform(
            cache, g,
            child_at(cx, o, 0),
            child_at(cy, o, 1),
            child_at(cz, o, 2),
            (level - 1) as nat,
            val,
        ) {
        assert forall|x: int, y: int, z: int|
            cx * (2 * h) <= x <= (cx + 1) * (2 * h) && cy * (2 * h) <= y <= (cy + 1) * (2 * h) && cz * (2 * h) <= z
                <= (cz + 1) * (2 * h) implies (#[trigger] sample_at(cache, g, x, y, z)).0 == val by {
            let bx = side_of(cx, h, x);
            let by = side_of(cy, h, y);
            let bz = side_of(cz, h, z);
            lemma_axis_split(cx, h, x, bx);
            lemma_axis_split(cy, h, y, by);
            lemma_axis_split(cz, h, z, bz);
            let o = bx + 2 * by + 4 * bz;
            lemma_octant_offsets(bx, by, bz);
            assert(region_uniform(
                cache, g,
                child_at(cx, o, 0),
                child_at(cy, o, 1),
                child_at(cz, o, 2),
                (level - 1) as nat,
                val,
            ));
        }
    }
}

/// A box cannot be uniformly inside and uniformly outside: it holds its min corner.
proof fn lemma_region_not_both<V>(cache: Map<u128, (bool, V)>, g: int, cx: int, cy: int, cz: int, level: nat)
    ensures
        !(region_uniform(cache, g, cx, cy, cz, level, false) && region_uniform(cache, g, cx, cy, cz, level, true)),
{
    let s = pow2(level) as int;
    vstd::arithmetic::power2::lemma_pow2_pos(level);
    assert((cx + 1) * s == cx * s + s) by (nonlinear_arith);
    assert((cy + 1) * s == cy * s + s) by (nonlinear_arith);
    assert((cz + 1) * s == cz * s + s) by (nonlinear_arith);
    let p = sample_at(cache, g, cx * s, cy * s, cz * s);
}

/// On the grid itself, a box is uniformly `val` exactly when its 8 corners are.
proof fn lemma_region_corners<V>(cache: Map<u128, (bool, V)>, g: int, cx: int, cy: int, cz: int, val: bool)
    ensures
        region_uniform(cache, g, cx, cy, cz, 0, val) <==> (forall|k: int|
            0 <= k < 8 ==> (#[trigger] sample_at(
                cache, g,
                cx + corner_offset(k as u8, 0),
                cy + corner_offset(k as u8, 1),
                cz + corner_offset(k as u8, 2),
            )).0 == val),
{
    vstd::arithmetic::power2::lemma2_to64();
    assert(pow2(0) == 1);
    if region_uniform(cache, g, cx, cy, cz, 0, val) {
        assert forall|k: int| 0 <= k < 8 implies (#[trigger] sample_at(
            cache, g,
            cx + corner_offset(k as u8, 0),
            cy + corner_offset(k as u8, 1),
            cz + corner_offset(k as u8, 2),
        )).0 == val by {
            lemma_corner_offsets(k as u8);
        }
    }
    if forall|k: int|
        0 <= k < 8 ==> (#[trigger] sample_at(
            cache, g,
            cx + corner_offset(k as u8, 0),
            cy + corner_offset(k as u8, 1),
            cz + corner_offset(k as u8, 2),
        )).0 == val {
        assert forall|x: int, y: int, z: int|
            cx * 1 <= x <= (cx + 1) * 1 && cy * 1 <= y <= (cy + 1) * 1 && cz * 1 <= z <= (cz + 1) * 1 implies (
            #[trigger] sample_at(cache, g, x, y, z)).0 == val by {
            let k = (x - cx) + 2 * (y - cy) + 4 * (z - cz);
            lemma_octant_offsets(x - cx, y - cy, z - cz);
            assert(sample_at(
                cache, g,
                cx + corner_offset(k as u8, 0),
                cy + corner_offset(k as u8, 1),
                cz + corner_offset(k as u8, 2),
            ).0 == val);
        }
    }
}

/// Every position with coordinates in `[0, 2^depth]` of the grid whose steps
/// are `g` steps of the cache's grid has a cached sample.
pub open spec fn all_cached<V>(cache: Map<u128, (bool, V)>, g: int, depth: nat) -> bool {
    forall|x: int, y: int, z: int|
        0 <= x <= pow2(depth) && 0 <= y <= pow2(depth) && 0 <= z <= pow2(depth) ==> cache.contains_key(
            grid_code(#[trigger] scaled_point(g, x, y, z)) as u128,
        )
}

proof fn lemma_max_entries_mono(a: nat, b: nat)
    requires
        a <= b,
    ensures
        max_entries(a) <= max_entries(b),
    decreases b,
{
    if a < b {
        lemma_max_entries_mono(a, (b - 1) as nat);
    }
}

proof fn lemma_max_entries_bound(level: nat)
    requires
        level <= 11,
    ensures
        max_entries(level) <= 1227133513,
{
    assert(max_entries(0) == 0);
    assert(max_entries(1) == 1);
    assert(max_entries(2) == 9);
    assert(max_entries(3) == 73);
    assert(max_entries(4) == 585);
    assert(max_entries(5) == 4681);
    assert(max_entries(6) == 37449);
    assert(max_entries(7) == 299593);
    assert(max_entries(8) == 2396745);
    assert(max_entries(9) == 19173961);
    assert(max_entries(10) == 153391689);
    assert(max_entries(11) == 1227133513);
    lemma_max_entries_mono(level, 11);
}

impl<V: Copy> Octree<[V; 8]> {
    /// The cached sample at corner `k` of cell (`cx`, `cy`, `cz`) on the grid.
    fn read_corner(cache: &EvalCache<(bool, V)>, scale: u32, cx: u32, cy: u32, cz: u32, k: u8, Ghost(depth): Ghost<nat>) -> (e: (bool, V))
        requires
            depth <= 11,
            scale as int * pow2(depth) <= u32::MAX,
            cx < pow2(depth),
            cy < pow2(depth),
            cz < pow2(depth),
            k < 8,
            all_cached(cache@, scale as int, depth),
        ensures
            e == sample_at(
                cache@, scale as int,
                cx + corner_offset(k, 0),
                cy + corner_offset(k, 1),
                cz + corner_offset(k, 2),
            ),
    {
        proof {
            vstd::arithmetic::power2::lemma_pow2_strictly_increases(depth, 32);
            vstd::arithmetic::power2::lemma2_to64();
            lemma_corner_offsets(k);
        }
        let p = corner_grid_pos(cx, cy, cz, k);
        proof {
            let d = pow2(depth) as int;
            let sc = scale as int;
            assert(p.x * sc <= u32::MAX) by (nonlinear_arith)
                requires
                    p.x <= d,
                    sc >= 0,
                    sc * d <= u32::MAX;
            assert(p.y * sc <= u32::MAX) by (nonlinear_arith)
                requires
                    p.y <= d,
                    sc >= 0,
                    sc * d <= u32::MAX;
            assert(p.z * sc <= u32::MAX) by (nonlinear_arith)
                requires
                    p.z <= d,
                    sc >= 0,
                    sc * d <= u32::MAX;
        }
        let q = GridPos::new(p.x * scale, p.y * scale, p.z * scale);
        proof {
            let x = cx + corner_offset(k, 0);
            let y = cy + corner_offset(k, 1);
            let z = cz + corner_offset(k, 2);
            assert(0 <= x <= pow2(depth) && 0 <= y <= pow2(depth) && 0 <= z <= pow2(depth));
            assert(q == scaled_point(scale as int, x, y, z));
            assert(cache@.contains_key(grid_code(scaled_point(scale as int, x, y, z)) as u128));
        }
        *cache.get(&q).unwrap()
    }

    /// The leaf cell on the grid itself at (`cx`, `cy`, `cz`), from the cached
    /// samples at its corners (empty or full when they all agree).
    fn build_leaf(cache: &EvalCache<(bool, V)>, scale: u32, cx: u32, cy: u32, cz: u32, Ghost(depth): Ghost<nat>) -> (c: Cell<[V; 8]>)
        requires
            depth <= 11,
            scale as int * pow2(depth) <= u32::MAX,
            cx < pow2(depth),
            cy < pow2(depth),
            cz < pow2(depth),
            all_cached(cache@, scale as int, depth),
        ensures
            !(c is Branch),
            forall|ch: Seq<[Cell<[V; 8]>; 8]>| built(ch, c, cache@, scale as int, cx as int, cy as int, cz as int, 0),
    {
        let e0 = Self::read_corner(cache, scale, cx, cy, cz, 0, Ghost(depth));
        let e1 = Self::read_corner(cache, scale, cx, cy, cz, 1, Ghost(depth));
        let e2 = Self::read_corner(cache, scale, cx, cy, cz, 2, Ghost(depth));
        let e3 = Self::read_corner(cache, scale, cx, cy, cz, 3, Ghost(depth));
        let e4 = Self::read_corner(cache, scale, cx, cy, cz, 4, Ghost(depth));
        let e5 = Self::read_corner(cache, scale, cx, cy, cz, 5, Ghost(depth));
        let e6 = Self::read_corner(cache, scale, cx, cy, cz, 6, Ghost(depth));
        let e7 = Self::read_corner(cache, scale, cx, cy, cz, 7, Ghost(depth));
        let inside = [e0.0, e1.0, e2.0, e3.0, e4.0, e5.0, e6.0, e7.0];
        let leaf = LeafData::new(inside, [e0.1, e1.1, e2.1, e3.1, e4.1, e5.1, e6.1, e7.1]);
        let ghost corner = |k: int|
            sample_at(
                cache@, scale as int,
                cx + corner_offset(k as u8, 0),
                cy + corner_offset(k as u8, 1),
                cz + corner_offset(k as u8, 2),
            );
        proof {
            assert(e0 == corner(0));
            assert(e1 == corner(1));
            assert(e2 == corner(2));
            assert(e3 == corner(3));
            assert(e4 == corner(4));
            assert(e5 == corner(5));
            assert(e6 == corner(6));
            assert(e7 == corner(7));
            assert forall|k: int| 0 <= k < 8 implies #[trigger] corner_inside(leaf.corner_mask, k) == corner(k).0
                && leaf.samples[k] == corner(k).1 by {
                assert(corner_inside(leaf.corner_mask, k) == inside[k]);
                if k == 0 {} else if k == 1 {} else if k == 2 {} else if k == 3 {}
                else if k == 4 {} else if k == 5 {} else if k == 6 {} else {}
            }
            lemma_mask_extremes(leaf.corner_mask);
            lemma_region_corners(cache@, scale as int, cx as int, cy as int, cz as int, false);
            lemma_region_corners(cache@, scale as int, cx as int, cy as int, cz as int, true);
            assert(corner_inside(leaf.corner_mask, 0) == corner(0).0);
            assert(corner_inside(leaf.corner_mask, 1) == corner(1).0);
            assert(corner_inside(leaf.corner_mask, 2) == corner(2).0);
            assert(corner_inside(leaf.corner_mask, 3) == corner(3).0);
            assert(corner_inside(leaf.corner_mask, 4) == corner(4).0);
            assert(corner_inside(leaf.corner_mask, 5) == corner(5).0);
            assert(corner_inside(leaf.corner_mask, 6) == corner(6).0);
            assert(corner_inside(leaf.corner_mask, 7) == corner(7).0);
        }
        Cell::from_leaf(leaf)
    }
}

impl<V: Copy> Octree<[V; 8]> {
    /// The cell at (`cx`, `cy`, `cz`) at depth `current`, built down to depth
    /// `target`; the children arrays of its branches are appended to `storage`.
    /// Returns the cell and the depths of the cells in every storage entry.
    #[verifier::rlimit(80)]
    #[verifier::spinoff_prover]
    fn build_cell(
        cache: &EvalCache<(bool, V)>, scale: u32,
        storage: &mut Vec<[Cell<[V; 8]>; 8]>,
        cx: u32,
        cy: u32,
        cz: u32,
        target: u8,
        current: u8,
        Ghost(lv): Ghost<Seq<nat>>,
    ) -> (r: (Cell<[V; 8]>, Ghost<Seq<nat>>))
        requires
            current <= target <= 11,
            scale as int * pow2(target as nat) <= u32::MAX,
            cx < pow2(current as nat),
            cy < pow2(current as nat),
            cz < pow2(current as nat),
            all_cached(cache@, scale as int, target as nat),
            entries_leveled(old(storage)@, lv, 31),
            old(storage).len() + max_entries((target - current) as nat) < u32::MAX,
        ensures
            old(storage).len() <= final(storage).len() <= old(storage).len() + max_entries((target - current) as nat),
            forall|j: int| 0 <= j < old(storage).len() ==> #[trigger] final(storage)@[j] == old(storage)@[j],
            entries_leveled(final(storage)@, r.1@, 31),
            forall|j: int| 0 <= j < old(storage).len() ==> #[trigger] r.1@[j] == lv[j],
            r.0 is Branch ==> r.0->children_index < final(storage).len() && r.1@[r.0->children_index as int]
                == current + 1,
            built(final(storage)@, r.0, cache@, scale as int, cx as int, cy as int, cz as int, (target - current) as nat),
        decreases target - current,
    {
        let level = Ghost((target - current) as nat);
        if current == target {
            let leaf = Self::build_leaf(cache, scale, cx, cy, cz, Ghost(target as nat));
            return (leaf, Ghost(lv));
        }
        proof {
            vstd::arithmetic::power2::lemma_pow2_unfold((current + 1) as nat);
            vstd::arithmetic::power2::lemma_pow2_strictly_increases((current + 1) as nat, 32);
            vstd::arithmetic::power2::lemma2_to64();
            lemma_max_entries_mono((target - current - 1) as nat, (target - current) as nat);
        }
        let ghost l1 = (target - current - 1) as nat;
        let ghost start = storage.len();
        let mut kids: Vec<Cell<[V; 8]>> = Vec::new();
        let mut lv_cur: Ghost<Seq<nat>> = Ghost(lv);
        let mut o: u8 = 0;
        while o < 8
            invariant
                current < target <= 11,
                scale as int * pow2(target as nat) <= u32::MAX,
                l1 == (target - current - 1) as nat,
                cx < pow2(current as nat),
                cy < pow2(current as nat),
                cz < pow2(current as nat),
                pow2((current + 1) as nat) == 2 * pow2(current as nat),
                pow2((current + 1) as nat) <= 0x1_0000_0000,
                all_cached(cache@, scale as int, target as nat),
                start == old(storage).len(),
                start + max_entries((target - current) as nat) < u32::MAX,
                max_entries((target - current) as nat) == 8 * max_entries(l1) + 1,
                o <= 8,
                kids.len() == o,
                start <= storage.len() <= start + o * max_entries(l1),
                forall|j: int| 0 <= j < start ==> #[trigger] storage@[j] == old(storage)@[j],
                entries_leveled(storage@, lv_cur@, 31),
                forall|j: int| 0 <= j < start ==> #[trigger] lv_cur@[j] == lv[j],
                forall|q: int|
                    0 <= q < o ==> built(
                        storage@,
                        #[trigger] kids@[q],
                        cache@, scale as int,
                        child_at(cx as int, q, 0),
                        child_at(cy as int, q, 1),
                        child_at(cz as int, q, 2),
                        l1,
                    ),
                forall|q: int|
                    0 <= q < o && (#[trigger] kids@[q]) is Branch ==> kids@[q]->children_index < storage.len()
                        && lv_cur@[kids@[q]->children_index as int] == current + 2,
            decreases 8 - o,
        {
            proof {
                lemma_corner_offsets(o);
                assert((o as int) * max_entries(l1) + max_entries(l1) <= 8 * max_entries(l1)) by (nonlinear_arith)
                    requires
                        o < 8;
            }
            let ccx = cx * 2 + if o & 1 != 0 { 1 } else { 0 };
            let ccy = cy * 2 + if o & 2 != 0 { 1 } else { 0 };
            let ccz = cz * 2 + if o & 4 != 0 { 1 } else { 0 };
            let ghost before = storage@;
            let ghost lv_before = lv_cur@;
            let (kid, lv_next) = Self::build_cell(cache, scale, storage, ccx, ccy, ccz, target, current + 1, lv_cur);
            proof {
                assert forall|q: int|
                    0 <= q < o implies built(
                        storage@,
                        #[trigger] kids@[q],
                        cache@, scale as int,
                        child_at(cx as int, q, 0),
                        child_at(cy as int, q, 1),
                        child_at(cz as int, q, 2),
                        l1,
                    ) by {
                    lemma_built_frame(
                        before,
                        storage@,
                        kids@[q],
                        cache@, scale as int,
                        child_at(cx as int, q, 0),
                        child_at(cy as int, q, 1),
                        child_at(cz as int, q, 2),
                        l1,
                    );
                }
                assert((o as int + 1) * max_entries(l1) == (o as int) * max_entries(l1) + max_entries(l1)) by (nonlinear_arith);
            }
            kids.push(kid);
            lv_cur = lv_next;
            o += 1;
        }
        let ghost mid = storage@;
        let mut all_empty = true;
        let mut all_full = true;
        let mut q: usize = 0;
        while q < 8
            invariant
                kids.len() == 8,
                q <= 8,
                all_empty == forall|j: int| 0 <= j < q ==> #[trigger] kids@[j] is Empty,
                all_full == forall|j: int| 0 <= j < q ==> #[trigger] kids@[j] is Full,
            decreases 8 - q,
        {
            if !matches!(kids[q], Cell::Empty) {
                all_empty = false;
            }
            if !matches!(kids[q], Cell::Full) {
                all_full = false;
            }
            q += 1;
        }
        proof {
            let lvl = (target - current) as nat;
            assert(lvl == l1 + 1);
            lemma_region_children(cache@, scale as int, cx as int, cy as int, cz as int, lvl, false);
            lemma_region_children(cache@, scale as int, cx as int, cy as int, cz as int, lvl, true);
            assert forall|j: int| 0 <= j < 8 implies (#[trigger] kids@[j] is Empty <==> region_uniform(
                cache@, scale as int,
                child_at(cx as int, j, 0),
                child_at(cy as int, j, 1),
                child_at(cz as int, j, 2),
                l1,
                false,
            )) && (kids@[j] is Full <==> region_uniform(
                cache@, scale as int,
                child_at(cx as int, j, 0),
                child_at(cy as int, j, 1),
                child_at(cz as int, j, 2),
                l1,
                true,
            )) by {
                lemma_region_not_both(
                    cache@, scale as int,
                    child_at(cx as int, j, 0),
                    child_at(cy as int, j, 1),
                    child_at(cz as int, j, 2),
                    l1,
                );
            }
        }
        if all_empty {
            proof {
                assert forall|j: int| 0 <= j < 8 implies #[trigger] region_uniform(
                    cache@, scale as int,
                    child_at(cx as int, j, 0),
                    child_at(cy as int, j, 1),
                    child_at(cz as int, j, 2),
                    l1,
                    false,
                ) by {
                    assert(kids@[j] is Empty);
                }
            }
            return (Cell::Empty, lv_cur);
        }
        if all_full {
            proof {
                assert forall|j: int| 0 <= j < 8 implies #[trigger] region_uniform(
                    cache@, scale as int,
                    child_at(cx as int, j, 0),
                    child_at(cy as int, j, 1),
                    child_at(cz as int, j, 2),
                    l1,
                    true,
                ) by {
                    assert(kids@[j] is Full);
                }
            }
            return (Cell::Full, lv_cur);
        }
        let ghost kv = kids@;
        let k7 = kids.pop().unwrap();
        let k6 = kids.pop().unwrap();
        let k5 = kids.pop().unwrap();
        let k4 = kids.pop().unwrap();
        let k3 = kids.pop().unwrap();
        let k2 = kids.pop().unwrap();
        let k1 = kids.pop().unwrap();
        let k0 = kids.pop().unwrap();
        let arr = [k0, k1, k2, k3, k4, k5, k6, k7];
        proof {
            assert(k0 == kv[0] && k1 == kv[1] && k2 == kv[2] && k3 == kv[3]);
            assert(k4 == kv[4] && k5 == kv[5] && k6 == kv[6] && k7 == kv[7]);
            assert forall|j: int| 0 <= j < 8 implies #[trigger] arr[j] == kv[j] by {
                if j == 0 {} else if j == 1 {} else if j == 2 {} else if j == 3 {}
                else if j == 4 {} else if j == 5 {} else if j == 6 {} else {}
            }
        }
        let idx = storage.len() as u32;
        storage.push(arr);
        let ghost lv_final = lv_cur@.push((current + 1) as nat);
        proof {
            lemma_region_not_both(cache@, scale as int, cx as int, cy as int, cz as int, (target - current) as nat);
            assert forall|j: int| 0 <= j < 8 implies built(
                storage@,
                #[trigger] arr[j],
                cache@, scale as int,
                child_at(cx as int, j, 0),
                child_at(cy as int, j, 1),
                child_at(cz as int, j, 2),
                l1,
            ) by {
                lemma_built_frame(
                    mid,
                    storage@,
                    arr[j],
                    cache@, scale as int,
                    child_at(cx as int, j, 0),
                    child_at(cy as int, j, 1),
                    child_at(cz as int, j, 2),
                    l1,
                );
            }
            assert(storage@[idx as int] == arr);
            assert(entries_leveled(storage@, lv_final, 31));
        }
        (Cell::Branch { children_index: idx }, Ghost(lv_final))
    }
}

/// The number of steps of the grid of `max_depth` in one step of the grid of
/// `min_depth` (1 when `max_depth` is not deeper).
pub open spec fn uniform_scale(min_depth: u8, max_depth: u8) -> int {
    if max_depth > min_depth {
        pow2((max_depth - min_depth) as nat) as int
    } else {
        1
    }
}

impl<V: Copy> Octree<[V; 8]> {
    /// The octree subdivided uniformly down to `min_depth` from the cached
    /// samples, each subtree whose box lies entirely outside (inside) collapsed
    /// into one empty (full) cell; the tree keeps `min_depth` and `max_depth`.
    /// The cache is keyed on the grid of `max_depth` (as refinement keys it),
    /// so the corner `(x, y, z)` of the grid of `min_depth` is read at
    /// `(x, y, z)` times `uniform_scale(min_depth, max_depth)`, and every such
    /// corner must be cached.
    pub fn build_uniform(cache: &EvalCache<(bool, V)>, min_depth: u8, max_depth: u8) -> (t: Self)
        requires
            min_depth <= 11,
            max_depth <= 31,
            all_cached(cache@, uniform_scale(min_depth, max_depth), min_depth as nat),
        ensures
            t.well_formed(),
            t.min_depth == min_depth,
            t.max_depth == max_depth,
            t.children.len() <= max_entries(min_depth as nat),
            built(t.children@, t.root, cache@, uniform_scale(min_depth, max_depth), 0, 0, 0, min_depth as nat),
    {
        let scale: u32 = if max_depth > min_depth {
            proof {
                vstd::bits::lemma_u32_pow2_no_overflow((max_depth - min_depth) as nat);
                vstd::bits::lemma_u32_shl_is_mul(1, (max_depth - min_depth) as u32);
            }
            1u32 << (max_depth - min_depth) as u32
        } else {
            1
        };
        proof {
            vstd::arithmetic::power2::lemma_pow2_pos(min_depth as nat);
            if max_depth > min_depth {
                vstd::arithmetic::power2::lemma_pow2_adds((max_depth - min_depth) as nat, min_depth as nat);
                vstd::arithmetic::power2::lemma_pow2_strictly_increases(max_depth as nat, 32);
            } else {
                vstd::arithmetic::power2::lemma_pow2_strictly_increases(min_depth as nat, 32);
            }
            vstd::arithmetic::power2::lemma2_to64();
            assert(scale as int == uniform_scale(min_depth, max_depth));
            assert(scale as int * pow2(min_depth as nat) <= u32::MAX);
        }
        let mut storage: Vec<[Cell<[V; 8]>; 8]> = Vec::new();
        proof {
            lemma_max_entries_bound(min_depth as nat);
            vstd::arithmetic::power2::lemma_pow2_pos(0);
        }
        let (root, lv) = Self::build_cell(cache, scale, &mut storage, 0, 0, 0, min_depth, 0, Ghost(Seq::empty()));
        let t = Octree { root, children: storage, min_depth, max_depth };
        proof {
            assert(levels_ok(t.children@, t.root, lv@, 31));
        }
        t
    }
}

} // verus!
