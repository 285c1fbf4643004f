//! Every listing of a tree's cells names each cell once: cells reached along
//! different paths have different keys.
use vstd::prelude::*;
use vstd::arithmetic::power2::pow2;
use crate::eval::cache::{corner_offset, lemma_corner_offsets};
use crate::octree::cell::Cell;
use crate::octree::{child_coord, lemma_listing_bounds, listing, listing_first, valid_cell, CellKey, Octree, Selection};

verus! {

/// Cell `e` lies in the subtree of the cell at (`cx`, `cy`, `cz`) and `depth`:
/// it is at least as deep, and its coordinates shifted down to `depth` are the
/// subtree's.
pub open spec fn key_under(e: CellKey, cx: int, cy: int, cz: int, depth: int) -> bool {
    let s = pow2((e.3 - depth) as nat) as int;
    &&& depth <= e.3
    &&& e.0 as int / s == cx
    &&& e.1 as int / s == cy
    &&& e.2 as int / s == cz
}

/// Shifting down one more level from a child's coordinate gives the parent's.
proof fn lemma_coord_up(x: int, e3: int, depth: int, c: int, o: int, axis: int)
    requires
        0 <= x,
        depth + 1 <= e3,
        0 <= o < 8,
        x / (pow2((e3 - (depth + 1)) as nat) as int) == child_coord(c, o, axis),
    ensures
        x / (pow2((e3 - depth) as nat) as int) == c,
{
    let a = (e3 - (depth + 1)) as nat;
    vstd::arithmetic::power2::lemma_pow2_pos(a);
    vstd::arithmetic::power2::lemma_pow2_unfold(a + 1);
    assert((e3 - depth) as nat == a + 1);
    vstd::arithmetic::div_mod::lemma_div_denominator(x, pow2(a) as int, 2);
    lemma_corner_offsets(o as u8);
    vstd::arithmetic::mul::lemma_mul_is_commutative(2, pow2(a) as int);
}

/// A cell under a child of a cell lies under the cell.
proof fn lemma_under_parent(e: CellKey, cx: int, cy: int, cz: int, depth: int, o: int)
    requires
        0 <= o < 8,
        key_under(e, child_coord(cx, o, 0), child_coord(cy, o, 1), child_coord(cz, o, 2), depth + 1),
    ensures
        key_under(e, cx, cy, cz, depth),
{
    lemma_coord_up(e.0 as int, e.3 as int, depth, cx, o, 0);
    lemma_coord_up(e.1 as int, e.3 as int, depth, cy, o, 1);
    lemma_coord_up(e.2 as int, e.3 as int, depth, cz, o, 2);
}

proof fn lemma_octant_from_offsets(a: u8, b: u8)
    requires
        a < 8,
        b < 8,
        corner_offset(a, 0) == corner_offset(b, 0),
        corner_offset(a, 1) == corner_offset(b, 1),
        corner_offset(a, 2) == corner_offset(b, 2),
    ensures
        a == b,
{
}

/// No cell lies under two different children of one cell.
proof fn lemma_under_one_child(e: CellKey, cx: int, cy: int, cz: int, depth: int, o1: int, o2: int)
    requires
        0 <= o1 < 8,
        0 <= o2 < 8,
        key_under(e, child_coord(cx, o1, 0), child_coord(cy, o1, 1), child_coord(cz, o1, 2), depth + 1),
        key_under(e, child_coord(cx, o2, 0), child_coord(cy, o2, 1), child_coord(cz, o2, 2), depth + 1),
    ensures
        o1 == o2,
{
    lemma_octant_from_offsets(o1 as u8, o2 as u8);
}

/// The listing below a cell names each cell once, and only cells under it.
pub proof fn lemma_listing_distinct_from<S>(
    children: Seq<[Cell<S>; 8]>,
    c: Cell<S>,
    cx: int,
    cy: int,
    cz: int,
    depth: int,
    sel: Selection,
    height: nat,
    v: nat,
)
    requires
        valid_cell(children, c, v),
        0 <= depth,
        depth + v <= 32,
        0 <= cx < pow2(depth as nat),
        0 <= cy < pow2(depth as nat),
        0 <= cz < pow2(depth as nat),
    ensures
        listing(children, c, cx, cy, cz, depth, sel, height).no_duplicates(),
        forall|j: int|
            0 <= j < listing(children, c, cx, cy, cz, depth, sel, height).len() ==> key_under(
                #[trigger] listing(children, c, cx, cy, cz, depth, sel, height)[j],
                cx,
                cy,
                cz,
                depth,
            ),
    decreases height, 0nat,
{
    match c {
        Cell::Branch { children_index } => {
            if height > 0 && children_index < children.len() {
                lemma_listing_first_distinct(
                    children,
                    children[children_index as int],
                    cx,
                    cy,
                    cz,
                    depth,
                    sel,
                    (height - 1) as nat,
                    (v - 1) as nat,
                    8,
                );
                let l = listing(children, c, cx, cy, cz, depth, sel, height);
                let lf = listing_first(
                    children,
                    children[children_index as int],
                    cx,
                    cy,
                    cz,
                    depth,
                    sel,
                    (height - 1) as nat,
                    8,
                );
                assert(l == lf);
                assert forall|j: int| 0 <= j < l.len() implies key_under(#[trigger] l[j], cx, cy, cz, depth) by {
                    assert(lf[j] == l[j]);
                    assert(exists|o: int|
                        0 <= o < 8 && o < 8 && key_under(
                            #[trigger] lf[j],
                            child_coord(cx, o, 0),
                            child_coord(cy, o, 1),
                            child_coord(cz, o, 2),
                            depth + 1,
                        ));
                    let o = choose|o: int|
                        0 <= o < 8 && o < 8 && key_under(
                            #[trigger] lf[j],
                            child_coord(cx, o, 0),
                            child_coord(cy, o, 1),
                            child_coord(cz, o, 2),
                            depth + 1,
                        );
                    lemma_under_parent(l[j], cx, cy, cz, depth, o);
                }
            }
        },
        _ => {
            vstd::arithmetic::power2::lemma2_to64();
            if depth < 32 {
                vstd::arithmetic::power2::lemma_pow2_strictly_increases(depth as nat, 32);
            }
            let e: CellKey = (cx as u32, cy as u32, cz as u32, depth as u8);
            assert(e.3 as int == depth);
            assert(pow2(0) == 1);
            assert(pow2((e.3 - depth) as nat) == 1);
            assert(e.0 as int == cx && e.1 as int == cy && e.2 as int == cz);
            assert(e.0 as int / 1 == cx && e.1 as int / 1 == cy && e.2 as int / 1 == cz) by (nonlinear_arith)
                requires
                    e.0 as int == cx,
                    e.1 as int == cy,
                    e.2 as int == cz;
            assert(key_under(e, cx, cy, cz, depth));
        },
    }
}

/// The listings of the first `k` children of a cell, one after the other, name
/// each cell once, each under one of those children.
proof fn lemma_listing_first_distinct<S>(
    children: Seq<[Cell<S>; 8]>,
    cells: [Cell<S>; 8],
    cx: int,
    cy: int,
    cz: int,
    depth: int,
    sel: Selection,
    height: nat,
    v: nat,
    k: nat,
)
    requires
        valid_cell(children, cells[0], v),
        valid_cell(children, cells[1], v),
        valid_cell(children, cells[2], v),
        valid_cell(children, cells[3], v),
        valid_cell(children, cells[4], v),
        valid_cell(children, cells[5], v),
        valid_cell(children, cells[6], v),
        valid_cell(children, cells[7], v),
        0 <= depth,
        depth + 1 + v <= 32,
        0 <= cx < pow2(depth as nat),
        0 <= cy < pow2(depth as nat),
        0 <= cz < pow2(depth as nat),
    ensures
        listing_first(children, cells, cx, cy, cz, depth, sel, height, k).no_duplicates(),
        forall|j: int|
            0 <= j < listing_first(children, cells, cx, cy, cz, depth, sel, height, k).len() ==> exists|o: int|
                0 <= o < 8 && o < k && key_under(
                    #[trigger] listing_first(children, cells, cx, cy, cz, depth, sel, height, k)[j],
                    child_coord(cx, o, 0),
                    child_coord(cy, o, 1),
                    child_coord(cz, o, 2),
                    depth + 1,
                ),
    decreases height, k,
{
    if 0 < k <= 8 {
        let o = k - 1;
        lemma_listing_first_distinct(children, cells, cx, cy, cz, depth, sel, height, v, (k - 1) as nat);
        lemma_corner_offsets(o as u8);
        vstd::arithmetic::power2::lemma_pow2_unfold((depth + 1) as nat);
        assert(valid_cell(children, cells[o], v)) by {
            if o == 0 {} else if o == 1 {} else if o == 2 {} else if o == 3 {}
            else if o == 4 {} else if o == 5 {} else if o == 6 {} else {}
        }
        lemma_listing_distinct_from(
            children,
            cells[o],
            child_coord(cx, o, 0),
            child_coord(cy, o, 1),
            child_coord(cz, o, 2),
            depth + 1,
            sel,
            height,
            v,
        );
        let a = listing_first(children, cells, cx, cy, cz, depth, sel, height, (k - 1) as nat);
        let b = listing(
            children,
            cells[o],
            child_coord(cx, o, 0),
            child_coord(cy, o, 1),
            child_coord(cz, o, 2),
            depth + 1,
            sel,
            height,
        );
        assert(listing_first(children, cells, cx, cy, cz, depth, sel, height, k) == a + b);
        assert forall|j: int| 0 <= j < (a + b).len() implies exists|p: int|
            0 <= p < 8 && p < k && key_under(
                #[trigger] (a + b)[j],
                child_coord(cx, p, 0),
                child_coord(cy, p, 1),
                child_coord(cz, p, 2),
                depth + 1,
            ) by {
            if j < a.len() {
                assert((a + b)[j] == a[j]);
            } else {
                assert((a + b)[j] == b[j - a.len()]);
                assert(key_under(b[j - a.len()], child_coord(cx, o, 0), child_coord(cy, o, 1), child_coord(cz, o, 2), depth + 1));
            }
        }
        assert forall|i: int, j: int| 0 <= i < j < (a + b).len() implies (a + b)[i] != (a + b)[j] by {
            if j < a.len() {
                assert((a + b)[i] == a[i] && (a + b)[j] == a[j]);
            } else if i >= a.len() {
                assert((a + b)[i] == b[i - a.len()] && (a + b)[j] == b[j - a.len()]);
            } else {
                assert((a + b)[i] == a[i]);
                assert((a + b)[j] == b[j - a.len()]);
                let e = b[j - a.len()];
                assert(key_under(e, child_coord(cx, o, 0), child_coord(cy, o, 1), child_coord(cz, o, 2), depth + 1));
                if a[i] == e {
                    let p = choose|p: int|
                        0 <= p < 8 && p < k - 1 && key_under(
                            a[i],
                            child_coord(cx, p, 0),
                            child_coord(cy, p, 1),
                            child_coord(cz, p, 2),
                            depth + 1,
                        );
                    lemma_under_one_child(e, cx, cy, cz, depth, p, o);
                }
            }
        }
    }
}

/// Every listing of the cells of a tree that is at most 32 levels deep names
/// each cell once.
pub proof fn lemma_listing_distinct<S>(t: &Octree<S>, sel: Selection)
    requires
        t.shallow(),
    ensures
        listing(t.children@, t.root, 0, 0, 0, 0, sel, 32).no_duplicates(),
{
    vstd::arithmetic::power2::lemma_pow2_pos(0);
    lemma_listing_distinct_from(t.children@, t.root, 0, 0, 0, 0, sel, 32, 32);
}

} // verus!
