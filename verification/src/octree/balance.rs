//! Edge completion: every sign-changing edge of a surface leaf is shared by four
//! cells, and each of them must exist as a surface leaf of the same depth for
//! the quad over that edge to be emitted.
use vstd::prelude::*;
use vstd::arithmetic::power2::pow2;
use crate::bbox::{edge_corner_spec, edge_corners, other_axes};
use crate::octree::cell::Cell;
use crate::octree::{
    face_neighbor_spec, first_occurrences, is_surface_cell, lemma_first_occurrences_push, listing, CellKey, KeyList,
    Octree, Selection,
};

verus! {

/// Coordinate `axis` (0 = X, 1 = Y, 2 = Z) of (`cx`, `cy`, `cz`).
pub open spec fn axis_coord(cx: u32, cy: u32, cz: u32, axis: int) -> int {
    if axis == 0 {
        cx as int
    } else if axis == 1 {
        cy as int
    } else {
        cz as int
    }
}

/// How far coordinate `a` moves down for the `which`-th (0-2) other cell sharing
/// the min-corner edge along `axis`: cell 0 steps back on the lower other axis,
/// cell 1 on the higher one, cell 2 on both.
pub open spec fn edge_step(axis: int, which: int, a: int) -> int {
    let (a1, a2) = other_axes(axis);
    if (a == a1 && which != 1) || (a == a2 && which != 0) {
        1
    } else {
        0
    }
}

/// The `which`-th other cell (same depth) sharing the edge of (`cx`, `cy`, `cz`)
/// that runs along `axis` through its min corner, or `None` when that cell would
/// lie outside the grid (a coordinate on one of the two other axes is 0).
pub open spec fn edge_neighbor_spec(cx: u32, cy: u32, cz: u32, axis: int, which: int) -> Option<(u32, u32, u32)> {
    let (a1, a2) = other_axes(axis);
    if axis_coord(cx, cy, cz, a1) == 0 || axis_coord(cx, cy, cz, a2) == 0 {
        None
    } else {
        Some(
            (
                (cx - edge_step(axis, which, 0)) as u32,
                (cy - edge_step(axis, which, 1)) as u32,
                (cz - edge_step(axis, which, 2)) as u32,
            ),
        )
    }
}

/// The `which`-th other cell sharing the min-corner edge along `axis` (0-2).
pub fn edge_neighbor(cx: u32, cy: u32, cz: u32, axis: usize, which: usize) -> (r: Option<(u32, u32, u32)>)
    requires
        axis < 3,
        which < 3,
    ensures
        r == edge_neighbor_spec(cx, cy, cz, axis as int, which as int),
{
    let back1: u32 = if which != 1 { 1 } else { 0 };
    let back2: u32 = if which != 0 { 1 } else { 0 };
    if axis == 0 {
        if cy == 0 || cz == 0 {
            None
        } else {
            Some((cx, cy - back1, cz - back2))
        }
    } else if axis == 1 {
        if cx == 0 || cz == 0 {
            None
        } else {
            Some((cx - back1, cy, cz - back2))
        }
    } else {
        if cx == 0 || cy == 0 {
            None
        } else {
            Some((cx - back1, cy - back2, cz))
        }
    }
}

/// The keys of a list of surface leaves with their corner signs.
pub open spec fn surface_keys(surface: Seq<(CellKey, [bool; 8])>) -> Seq<CellKey> {
    surface.map_values(|e: (CellKey, [bool; 8])| e.0)
}

impl<S> Octree<S> {
    /// The cell to subdivide so that the `which`-th other cell sharing the edge
    /// along `axis` through the min corner of `leaf` becomes a surface leaf of
    /// the leaf's depth: `None` when that edge does not change sign (by
    /// `inside`, the leaf's corners below the iso value), when the sharing cell
    /// lies outside the grid, or when it is among `keys` (the surface leaves)
    /// at the leaf's depth. Otherwise the sharing position is resolved: a
    /// coarser cell without children covering it is named; if the position is
    /// split finer than the leaf, the leaf itself is named; and a cell of the
    /// leaf's depth that is not a surface leaf is named itself.
    #[verifier::opaque]
    pub open spec fn edge_cell_key(
        &self,
        keys: Seq<CellKey>,
        leaf: CellKey,
        inside: [bool; 8],
        axis: int,
        which: int,
    ) -> Option<CellKey> {
        let (cx, cy, cz, d) = leaf;
        let (c0, c1) = edge_corner_spec(4 * axis);
        if inside[c0] == inside[c1] {
            None
        } else {
            match edge_neighbor_spec(cx, cy, cz, axis, which) {
                None => None,
                Some((nx, ny, nz)) => {
                    if keys.contains((nx, ny, nz, d)) {
                        None
                    } else {
                        let actual = self.lookup_depth(nx, ny, nz, d);
                        if actual < d && !(self.lookup_cell(nx, ny, nz, d) is Branch) {
                            let scale = pow2((d - actual) as nat) as int;
                            Some(
                                (
                                    (nx as int / scale) as u32,
                                    (ny as int / scale) as u32,
                                    (nz as int / scale) as u32,
                                    actual as u8,
                                ),
                            )
                        } else if self.lookup_cell(nx, ny, nz, d) is Branch {
                            Some(leaf)
                        } else {
                            Some((nx, ny, nz, d))
                        }
                    }
                },
            }
        }
    }

    /// The cells that `edge_cell_key` names for the first `n` entries of
    /// `surface` (all 9 checks each, check `t` being axis `t / 3`, cell `t % 3`),
    /// then for the first `checks` checks of entry `n`, in that order, repeats
    /// included.
    pub open spec fn edge_keys_upto(&self, surface: Seq<(CellKey, [bool; 8])>, n: int, checks: int) -> Seq<CellKey>
        decreases n, checks,
    {
        if checks > 0 {
            let before = self.edge_keys_upto(surface, n, checks - 1);
            match self.edge_cell_key(surface_keys(surface), surface[n].0, surface[n].1, (checks - 1) / 3, (checks - 1) % 3) {
                Some(k) => before.push(k),
                None => before,
            }
        } else if n > 0 {
            self.edge_keys_upto(surface, n - 1, 9)
        } else {
            Seq::empty()
        }
    }

    /// `k` is named by `edge_cell_key` for one of the first `n` entries of
    /// `surface` (any of its 9 checks, check `t` being axis `t / 3`, cell `t % 3`),
    /// or by one of the first `checks` checks of entry `n`.
    pub open spec fn edge_covered(
        &self,
        surface: Seq<(CellKey, [bool; 8])>,
        n: int,
        checks: int,
        k: CellKey,
    ) -> bool {
        exists|j: int, t: int|
            (0 <= j < n && 0 <= t < 9 || j == n && 0 <= t < checks) && #[trigger] self.edge_cell_key(
                surface_keys(surface),
                surface[j].0,
                surface[j].1,
                t / 3,
                t % 3,
            ) == Some(k)
    }

    /// One check of edge completion: `edge_cell_key` for `leaf`, whose corners
    /// are inside by `inside`, with `leaf_set` listing the surface leaves.
    fn edge_check(
        &self,
        leaf_set: &KeyList,
        Ghost(keys): Ghost<Seq<CellKey>>,
        leaf: CellKey,
        inside: [bool; 8],
        axis: usize,
        which: usize,
    ) -> (r: Option<CellKey>)
        requires
            self.wf(),
            leaf_set.inv(),
            forall|q: CellKey| #[trigger] leaf_set@.contains(q) <==> keys.contains(q),
            leaf.3 <= 31,
            axis < 3,
            which < 3,
        ensures
            r == self.edge_cell_key(keys, leaf, inside, axis as int, which as int),
    {
        reveal(Octree::edge_cell_key);
        let (cx, cy, cz, depth) = leaf;
        proof {
            crate::bbox::lemma_edge_corners_differ_in_one_bit(4 * axis as int);
        }
        let (c0, c1) = edge_corners((4 * axis) as u8);
        if inside[c0 as usize] == inside[c1 as usize] {
            return None;
        }
        match edge_neighbor(cx, cy, cz, axis, which) {
            None => None,
            Some((nx, ny, nz)) => {
                if leaf_set.contains((nx, ny, nz, depth)) {
                    None
                } else {
                    let (cell, actual) = self.cell_at(nx, ny, nz, depth);
                    if actual < depth && !cell.is_branch() {
                        proof {
                            vstd::bits::lemma_u32_pow2_no_overflow((depth - actual) as nat);
                            vstd::bits::lemma_u32_shl_is_mul(1, (depth - actual) as u32);
                            vstd::arithmetic::power2::lemma_pow2_pos((depth - actual) as nat);
                        }
                        let s = 1u32 << (depth - actual) as u32;
                        Some((nx / s, ny / s, nz / s, actual))
                    } else if cell.is_branch() {
                        Some(leaf)
                    } else {
                        Some((nx, ny, nz, depth))
                    }
                }
            },
        }
    }

    /// The cells to subdivide for one round of edge completion: for each surface
    /// leaf in `surface` (its key and which of its corners are inside) and each
    /// of its 3 min-corner edges that changes sign, each of the 3 other cells
    /// sharing the edge that is not itself listed in `surface` at the leaf's
    /// depth is resolved by `edge_cell_key`; each named cell once.
    pub fn edge_completion_targets(&self, surface: &Vec<(CellKey, [bool; 8])>) -> (cells: Vec<CellKey>)
        requires
            self.wf(),
            forall|j: int| 0 <= j < surface.len() ==> (#[trigger] surface[j]).0.3 <= 31,
        ensures
            forall|i: int|
                0 <= i < cells.len() ==> #[trigger] self.edge_covered(surface@, surface.len() as int, 0, cells[i]),
            forall|j: int, t: int|
                0 <= j < surface.len() && 0 <= t < 9 && #[trigger] self.edge_cell_key(
                    surface_keys(surface@),
                    surface[j].0,
                    surface[j].1,
                    t / 3,
                    t % 3,
                ) is Some ==> cells@.contains(
                    self.edge_cell_key(surface_keys(surface@), surface[j].0, surface[j].1, t / 3, t % 3)->0,
                ),
            cells@.no_duplicates(),
            cells@ == first_occurrences(self.edge_keys_upto(surface@, surface.len() as int, 0)),
    {
        let ghost sv = surface@;
        let ghost keys = surface_keys(sv);
        let mut leaf_set = KeyList::new();
        let mut i: usize = 0;
        while i < surface.len()
            invariant
                surface@ == sv,
                keys == surface_keys(sv),
                i <= sv.len(),
                leaf_set.inv(),
                forall|q: CellKey| #[trigger] leaf_set@.contains(q) <==> keys.take(i as int).contains(q),
            decreases sv.len() - i,
        {
            let ghost before = leaf_set@;
            leaf_set.add(surface[i].0);
            proof {
                let n = i as int;
                let pre = keys.take(n);
                let post = keys.take(n + 1);
                assert forall|q: CellKey| #[trigger] leaf_set@.contains(q) <==> post.contains(q) by {
                    if post.contains(q) {
                        let t = choose|t: int| 0 <= t < n + 1 && #[trigger] post[t] == q;
                        if t < n {
                            assert(pre[t] == q);
                        }
                    }
                    if pre.contains(q) {
                        let t = choose|t: int| 0 <= t < n && #[trigger] pre[t] == q;
                        assert(post[t] == q);
                    }
                    if q == sv[n].0 {
                        assert(post[n] == q);
                    }
                }
            }
            i += 1;
        }
        proof {
            assert(keys.take(sv.len() as int) == keys);
        }
        let mut cells = KeyList::new();
        let mut li: usize = 0;
        while li < surface.len()
            invariant
                self.wf(),
                surface@ == sv,
                keys == surface_keys(sv),
                forall|j: int| 0 <= j < sv.len() ==> (#[trigger] sv[j]).0.3 <= 31,
                leaf_set.inv(),
                forall|q: CellKey| #[trigger] leaf_set@.contains(q) <==> keys.contains(q),
                li <= sv.len(),
                cells.inv(),
                cells@ == first_occurrences(self.edge_keys_upto(sv, li as int, 0)),
                forall|k: int| 0 <= k < cells@.len() ==> #[trigger] self.edge_covered(sv, li as int, 0, cells@[k]),
                forall|j: int, t: int|
                    0 <= j < li && 0 <= t < 9 && #[trigger] self.edge_cell_key(keys, sv[j].0, sv[j].1, t / 3, t % 3) is Some
                        ==> cells@.contains(self.edge_cell_key(keys, sv[j].0, sv[j].1, t / 3, t % 3)->0),
            decreases sv.len() - li,
        {
            let ((cx, cy, cz, depth), inside) = surface[li];
            proof {
                assert(sv[li as int].0.3 <= 31);
                assert forall|k: int| 0 <= k < cells@.len() implies #[trigger] self.edge_covered(sv, li as int, 0, cells@[k]) by {
                }
            }
            let mut t: usize = 0;
            while t < 9
                invariant
                    self.wf(),
                    surface@ == sv,
                    keys == surface_keys(sv),
                    leaf_set.inv(),
                    forall|q: CellKey| #[trigger] leaf_set@.contains(q) <==> keys.contains(q),
                    li < sv.len(),
                    sv[li as int] == ((cx, cy, cz, depth), inside),
                    depth <= 31,
                    t <= 9,
                    cells.inv(),
                    cells@ == first_occurrences(self.edge_keys_upto(sv, li as int, t as int)),
                    forall|k: int| 0 <= k < cells@.len() ==> #[trigger] self.edge_covered(sv, li as int, t as int, cells@[k]),
                    forall|j: int, u: int|
                        (0 <= j < li && 0 <= u < 9 || j == li && 0 <= u < t) && #[trigger] self.edge_cell_key(
                            keys,
                            sv[j].0,
                            sv[j].1,
                            u / 3,
                            u % 3,
                        ) is Some ==> cells@.contains(self.edge_cell_key(keys, sv[j].0, sv[j].1, u / 3, u % 3)->0),
                decreases 9 - t,
            {
                let ghost cells_before = cells@;
                if let Some(key) = self.edge_check(&leaf_set, Ghost(keys), (cx, cy, cz, depth), inside, t / 3, t % 3) {
                    cells.add(key);
                    proof {
                        lemma_first_occurrences_push(self.edge_keys_upto(sv, li as int, t as int), key);
                    }
                }
                proof {
                    assert forall|k: int| 0 <= k < cells@.len() implies #[trigger] self.edge_covered(
                        sv,
                        li as int,
                        t + 1,
                        cells@[k],
                    ) by {
                        if k < cells_before.len() {
                            assert(cells@[k] == cells_before[k]);
                            assert(self.edge_covered(sv, li as int, t as int, cells_before[k]));
                            let (j, u) = choose|j: int, u: int|
                                (0 <= j < li && 0 <= u < 9 || j == li && 0 <= u < t) && #[trigger] self.edge_cell_key(
                                    surface_keys(sv),
                                    sv[j].0,
                                    sv[j].1,
                                    u / 3,
                                    u % 3,
                                ) == Some(cells_before[k]);
                            assert(self.edge_cell_key(keys, sv[j].0, sv[j].1, u / 3, u % 3) == Some(cells@[k]));
                        } else {
                            assert(self.edge_cell_key(keys, sv[li as int].0, sv[li as int].1, t as int / 3, t as int % 3) == Some(
                                cells@[k],
                            ));
                        }
                    }
                    assert forall|j: int, u: int|
                        (0 <= j < li && 0 <= u < 9 || j == li && 0 <= u < t + 1) && #[trigger] self.edge_cell_key(
                            keys,
                            sv[j].0,
                            sv[j].1,
                            u / 3,
                            u % 3,
                        ) is Some implies cells@.contains(self.edge_cell_key(keys, sv[j].0, sv[j].1, u / 3, u % 3)->0) by {
                        if !(j == li && u == t) {
                            assert(cells_before.contains(self.edge_cell_key(keys, sv[j].0, sv[j].1, u / 3, u % 3)->0));
                        }
                    }
                }
                t += 1;
            }
            proof {
                assert forall|k: int| 0 <= k < cells@.len() implies #[trigger] self.edge_covered(sv, li + 1, 0, cells@[k]) by {
                    assert(self.edge_covered(sv, li as int, 9, cells@[k]));
                    let (j, u) = choose|j: int, u: int|
                        (0 <= j < li && 0 <= u < 9 || j == li && 0 <= u < 9) && #[trigger] self.edge_cell_key(
                            surface_keys(sv),
                            sv[j].0,
                            sv[j].1,
                            u / 3,
                            u % 3,
                        ) == Some(cells@[k]);
                    assert(self.edge_cell_key(keys, sv[j].0, sv[j].1, u / 3, u % 3) == Some(cells@[k]));
                }
            }
            li += 1;
        }
        cells.into_vec()
    }
}

/// Edge completion: where `edge_cell_key` names nothing for a sign-changing
/// min-corner edge of a leaf, each of the other three cells around the edge
/// that lies in the grid is listed in `keys` at the leaf's depth. So when
/// `edge_completion_targets` finds nothing, all four cells around every such
/// edge of every listed surface leaf are listed surface leaves.
pub proof fn lemma_complete_without_targets<S>(
    t: &Octree<S>,
    keys: Seq<CellKey>,
    leaf: CellKey,
    inside: [bool; 8],
    axis: int,
    which: int,
)
    requires
        t.edge_cell_key(keys, leaf, inside, axis, which) is None,
        inside[edge_corner_spec(4 * axis).0] != inside[edge_corner_spec(4 * axis).1],
        edge_neighbor_spec(leaf.0, leaf.1, leaf.2, axis, which) is Some,
    ensures
        ({
            let (nx, ny, nz) = edge_neighbor_spec(leaf.0, leaf.1, leaf.2, axis, which)->0;
            keys.contains((nx, ny, nz, leaf.3))
        }),
{
    reveal(Octree::edge_cell_key);
}

/// Every sign-changing min-corner edge of `leaf` (by `inside`, its corners below
/// the iso value) along `axis` is complete for its `which`-th other sharing
/// cell: that cell lies outside the grid or is listed in `keys` at the leaf's
/// depth.
pub open spec fn edge_complete(keys: Seq<CellKey>, leaf: CellKey, inside: [bool; 8], axis: int, which: int) -> bool {
    inside[edge_corner_spec(4 * axis).0] != inside[edge_corner_spec(4 * axis).1] ==> match edge_neighbor_spec(
        leaf.0,
        leaf.1,
        leaf.2,
        axis,
        which,
    ) {
        None => true,
        Some((nx, ny, nz)) => keys.contains((nx, ny, nz, leaf.3)),
    }
}

/// A list that keeps the first occurrence of each element is empty only for
/// an empty list.
proof fn lemma_first_occurrences_empty<T>(s: Seq<T>)
    requires
        first_occurrences(s).len() == 0,
    ensures
        s.len() == 0,
{
    if s.len() > 0 {
        let before = first_occurrences(s.drop_last());
        if before.contains(s.last()) {
            assert(before.len() > 0);
        } else {
            assert(before.push(s.last()).len() > 0);
        }
    }
}

impl<S> Octree<S> {
    /// 2:1 balance toward the face neighbor of `leaf` in direction `dir`: when
    /// the neighbor lies in the grid (and `leaf` is below the root), the cell
    /// holding it is at most one level coarser than `leaf`, and if `leaf` is a
    /// surface cell and that cell is coarser, it is a surface cell too; cells
    /// above `min_depth` are exempt.
    pub open spec fn balanced_toward(&self, leaf: CellKey, dir: int) -> bool {
        leaf.3 > 0 ==> match face_neighbor_spec(leaf.0, leaf.1, leaf.2, leaf.3, dir) {
            None => true,
            Some((nx, ny, nz)) => {
                let actual = self.lookup_depth(nx, ny, nz, leaf.3);
                ||| actual < self.min_depth
                ||| {
                    &&& actual + 1 >= leaf.3
                    &&& is_surface_cell(self.lookup_cell(leaf.0, leaf.1, leaf.2, leaf.3)) && actual < leaf.3
                        ==> is_surface_cell(self.lookup_cell(nx, ny, nz, leaf.3))
                }
            },
        }
    }

    /// One round of the refinement that follows the feature-driven stage: the
    /// cells that 2:1 balancing names (`balance_violations`) followed by those
    /// that edge completion names for `surface` (`edge_completion_targets`),
    /// each once. Splitting them and repeating until nothing is named leaves a
    /// tree that is 2:1 balanced and in which every sign-changing min-corner
    /// edge of a listed surface leaf has all four cells around it listed.
    pub fn refine_step(&self, surface: &Vec<(CellKey, [bool; 8])>) -> (cells: Vec<CellKey>)
        requires
            self.well_formed(),
            forall|j: int| 0 <= j < surface.len() ==> (#[trigger] surface[j]).0.3 <= 31,
        ensures
            ({
                let leaves = listing(self.children@, self.root, 0, 0, 0, 0, Selection::Unrefined, 32);
                let bal = first_occurrences(self.balance_keys_upto(leaves, leaves.len() as int, 0));
                let edge = first_occurrences(self.edge_keys_upto(surface@, surface.len() as int, 0));
                &&& cells@ == first_occurrences(bal + edge)
                &&& cells.len() == 0 ==> forall|j: int, dir: int|
                    0 <= j < leaves.len() && 0 <= dir < 6 ==> #[trigger] self.balanced_toward(leaves[j], dir)
                &&& cells.len() == 0 ==> forall|j: int, axis: int, which: int|
                    0 <= j < surface.len() && 0 <= axis < 3 && 0 <= which < 3 ==> #[trigger] edge_complete(
                        surface_keys(surface@),
                        surface[j].0,
                        surface[j].1,
                        axis,
                        which,
                    )
            }),
    {
        proof {
            crate::octree::lemma_well_formed_within(self);
        }
        let bal = self.balance_violations();
        let edge = self.edge_completion_targets(surface);
        let ghost all = bal@ + edge@;
        let mut list = KeyList::new();
        let mut i: usize = 0;
        while i < bal.len()
            invariant
                i <= bal.len(),
                all == bal@ + edge@,
                list.inv(),
                list@ == first_occurrences(all.take(i as int)),
            decreases bal.len() - i,
        {
            proof {
                assert(all.take(i + 1) == all.take(i as int).push(all[i as int]));
                lemma_first_occurrences_push(all.take(i as int), all[i as int]);
            }
            list.add(bal[i]);
            i += 1;
        }
        let mut k: usize = 0;
        while k < edge.len()
            invariant
                k <= edge.len(),
                bal.len() <= usize::MAX,
                all == bal@ + edge@,
                list.inv(),
                list@ == first_occurrences(all.take(bal.len() + k)),
            decreases edge.len() - k,
        {
            proof {
                let n = bal.len() + k;
                assert(all.take(n + 1) == all.take(n).push(all[n]));
                assert(all[n] == edge@[k as int]);
                lemma_first_occurrences_push(all.take(n), all[n]);
            }
            list.add(edge[k]);
            k += 1;
        }
        let cells = list.into_vec();
        proof {
            assert(all.take(all.len() as int) == all);
            let leaves = listing(self.children@, self.root, 0, 0, 0, 0, Selection::Unrefined, 32);
            if cells.len() == 0 {
                lemma_first_occurrences_empty(all);
                assert forall|j: int, dir: int| 0 <= j < leaves.len() && 0 <= dir < 6 implies #[trigger] self.balanced_toward(
                    leaves[j],
                    dir,
                ) by {
                    if self.balance_key(leaves[j], dir) is Some {
                        assert(bal@.contains(self.balance_key(leaves[j], dir)->0));
                    }
                    if leaves[j].3 > 0 && face_neighbor_spec(leaves[j].0, leaves[j].1, leaves[j].2, leaves[j].3, dir) is Some {
                        crate::octree::lemma_balanced_without_violations(self, leaves[j], dir);
                    }
                }
                assert forall|j: int, axis: int, which: int|
                    0 <= j < surface.len() && 0 <= axis < 3 && 0 <= which < 3 implies #[trigger] edge_complete(
                    surface_keys(surface@),
                    surface[j].0,
                    surface[j].1,
                    axis,
                    which,
                ) by {
                    let t = 3 * axis + which;
                    assert(t / 3 == axis && t % 3 == which);
                    let keys = surface_keys(surface@);
                    if self.edge_cell_key(keys, surface[j].0, surface[j].1, t / 3, t % 3) is Some {
                        assert(edge@.contains(self.edge_cell_key(keys, surface[j].0, surface[j].1, t / 3, t % 3)->0));
                    }
                    let inside = surface[j].1;
                    if inside[edge_corner_spec(4 * axis).0] != inside[edge_corner_spec(4 * axis).1]
                        && edge_neighbor_spec(surface[j].0.0, surface[j].0.1, surface[j].0.2, axis, which) is Some {
                        lemma_complete_without_targets(self, keys, surface[j].0, inside, axis, which);
                    }
                }
            }
        }
        cells
    }
}

/// Cell `cell` covers position (`x`, `y`, `z`) of depth `d`: `cell` is at most
/// that deep, and along each axis the position lies in the cell's span.
pub open spec fn contains_position(cell: CellKey, x: u32, y: u32, z: u32, d: u8) -> bool {
    let s = pow2((d - cell.3) as nat) as int;
    &&& cell.3 <= d
    &&& cell.0 * s <= x < cell.0 * s + s
    &&& cell.1 * s <= y < cell.1 * s + s
    &&& cell.2 * s <= z < cell.2 * s + s
}

proof fn lemma_div_span(x: u32, s: int)
    requires
        s >= 1,
    ensures
        0 <= x as int / s <= x,
        (x as int / s) * s <= x < (x as int / s) * s + s,
{
    vstd::arithmetic::div_mod::lemma_fundamental_div_mod(x as int, s);
    vstd::arithmetic::div_mod::lemma_mod_pos_bound(x as int, s);
    vstd::arithmetic::div_mod::lemma_div_pos_is_pos(x as int, s);
    vstd::arithmetic::div_mod::lemma_div_is_ordered_by_denominator(x as int, 1, s);
    assert(s * (x as int / s) == (x as int / s) * s) by (nonlinear_arith);
}

/// The cell at depth `actual` (at most `d`) whose coordinates are those of a
/// depth-`d` position divided by `2^(d - actual)` covers that position.
proof fn lemma_coarse_cell_contains(x: u32, y: u32, z: u32, d: u8, actual: nat)
    requires
        actual <= d,
    ensures
        ({
            let s = pow2((d - actual) as nat) as int;
            contains_position(((x as int / s) as u32, (y as int / s) as u32, (z as int / s) as u32, actual as u8), x, y, z, d)
        }),
{
    let s = pow2((d - actual) as nat) as int;
    vstd::arithmetic::power2::lemma_pow2_pos((d - actual) as nat);
    lemma_div_span(x, s);
    lemma_div_span(y, s);
    lemma_div_span(z, s);
}

/// 2:1 balancing names a cell only where balance is broken: for a cell below
/// the root whose face neighbor in direction `dir` lies in the grid, the cell
/// holding that neighbor position is at or below `min_depth` and either more
/// than one level coarser, or coarser and not a surface cell while the cell
/// itself is one. The cell named is that coarser cell.
pub proof fn lemma_balance_names_only_violations<S>(t: &Octree<S>, leaf: CellKey, dir: int)
    requires
        t.balance_key(leaf, dir) is Some,
    ensures
        leaf.3 > 0,
        face_neighbor_spec(leaf.0, leaf.1, leaf.2, leaf.3, dir) is Some,
        ({
            let (nx, ny, nz) = face_neighbor_spec(leaf.0, leaf.1, leaf.2, leaf.3, dir)->0;
            let actual = t.lookup_depth(nx, ny, nz, leaf.3);
            let here = t.lookup_cell(leaf.0, leaf.1, leaf.2, leaf.3);
            let there = t.lookup_cell(nx, ny, nz, leaf.3);
            let named: CellKey = t.balance_key(leaf, dir)->0;
            &&& actual >= t.min_depth
            &&& actual < leaf.3
            &&& (actual + 1 < leaf.3 || (here is Leaf && here->Leaf_0.corner_mask != 0 && here->Leaf_0.corner_mask
                != 0xFF && !(there is Leaf && there->Leaf_0.corner_mask != 0 && there->Leaf_0.corner_mask != 0xFF)))
            &&& named.3 == actual
            &&& contains_position(named, nx, ny, nz, leaf.3)
        }),
        !t.balanced_toward(leaf, dir),
{
    let (nx, ny, nz) = face_neighbor_spec(leaf.0, leaf.1, leaf.2, leaf.3, dir)->0;
    let actual = t.lookup_depth(nx, ny, nz, leaf.3);
    lemma_coarse_cell_contains(nx, ny, nz, leaf.3, actual);
}

/// Edge completion names a cell only for a sign-changing min-corner edge (by
/// `inside`) whose `which`-th other sharing cell lies in the grid and is not
/// listed in `keys` at the leaf's depth.
pub proof fn lemma_edge_names_only_gaps<S>(
    t: &Octree<S>,
    keys: Seq<CellKey>,
    leaf: CellKey,
    inside: [bool; 8],
    axis: int,
    which: int,
)
    requires
        t.edge_cell_key(keys, leaf, inside, axis, which) is Some,
    ensures
        inside[edge_corner_spec(4 * axis).0] != inside[edge_corner_spec(4 * axis).1],
        edge_neighbor_spec(leaf.0, leaf.1, leaf.2, axis, which) is Some,
        ({
            let (nx, ny, nz) = edge_neighbor_spec(leaf.0, leaf.1, leaf.2, axis, which)->0;
            let named: CellKey = t.edge_cell_key(keys, leaf, inside, axis, which)->0;
            let split_finer = t.lookup_cell(nx, ny, nz, leaf.3) is Branch;
            &&& !keys.contains((nx, ny, nz, leaf.3))
            &&& !split_finer ==> contains_position(named, nx, ny, nz, leaf.3)
            &&& split_finer ==> named == leaf
        }),
        !edge_complete(keys, leaf, inside, axis, which),
{
    reveal(Octree::edge_cell_key);
    let (nx, ny, nz) = edge_neighbor_spec(leaf.0, leaf.1, leaf.2, axis, which)->0;
    let actual = t.lookup_depth(nx, ny, nz, leaf.3);
    if actual < leaf.3 {
        lemma_coarse_cell_contains(nx, ny, nz, leaf.3, actual);
    }
    vstd::arithmetic::power2::lemma2_to64();
    let named: CellKey = t.edge_cell_key(keys, leaf, inside, axis, which)->0;
    if !(actual < leaf.3) && !(t.lookup_cell(nx, ny, nz, leaf.3) is Branch) {
        assert(named == (nx, ny, nz, leaf.3));
        assert((leaf.3 - named.3) as nat == 0);
        assert(pow2(0) == 1);
        let s = pow2((leaf.3 - named.3) as nat) as int;
        assert(s == 1);
        assert(named.0 * s == named.0 && named.1 * s == named.1 && named.2 * s == named.2);
    }
}

} // verus!
