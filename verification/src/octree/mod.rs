//! The adaptive octree: cells stored flat (a branch refers to its 8 children
//! by index), lookups by cell coordinates, listings of cells, the layering
//! invariant that every operation keeps, subdivision, and the 2:1 balance
//! decision.
pub mod balance;
pub mod uniform;
pub mod cell;
pub mod descent;
pub mod distinct;
pub mod refine;
pub mod morton;
pub mod types;

use vstd::prelude::*;
use vstd::arithmetic::power2::pow2;
use std::collections::HashSet;
use crate::octree::cell::Cell;

verus! {

/// The number of cells along each axis at `depth`.
pub open spec fn cells_per_axis(depth: u8) -> int {
    pow2(depth as nat) as int
}

/// The face neighbor of cell (`cx`, `cy`, `cz`) at `depth` in direction `dir`
/// (0: -X, 1: +X, 2: -Y, 3: +Y, 4: -Z, 5: +Z), or `None` outside `[0, 2^depth)`.
pub open spec fn face_neighbor_spec(cx: u32, cy: u32, cz: u32, depth: u8, dir: int) -> Option<(u32, u32, u32)> {
    let n = cells_per_axis(depth);
    if dir == 0 {
        if cx > 0 { Some(((cx - 1) as u32, cy, cz)) } else { None }
    } else if dir == 1 {
        if cx + 1 < n { Some(((cx + 1) as u32, cy, cz)) } else { None }
    } else if dir == 2 {
        if cy > 0 { Some((cx, (cy - 1) as u32, cz)) } else { None }
    } else if dir == 3 {
        if cy + 1 < n { Some((cx, (cy + 1) as u32, cz)) } else { None }
    } else if dir == 4 {
        if cz > 0 { Some((cx, cy, (cz - 1) as u32)) } else { None }
    } else {
        if cz + 1 < n { Some((cx, cy, (cz + 1) as u32)) } else { None }
    }
}

/// The 6 face-neighbor coordinates of cell (`cx`, `cy`, `cz`) at `depth`, in the
/// order -X, +X, -Y, +Y, -Z, +Z; `None` where the neighbor would fall outside
/// the octree, `[0, 2^depth)` on each axis.
pub fn face_neighbors(cx: u32, cy: u32, cz: u32, depth: u8) -> (r: [Option<(u32, u32, u32)>; 6])
    requires
        depth < 32,
        cx < u32::MAX,
        cy < u32::MAX,
        cz < u32::MAX,
    ensures
        forall|dir: int| 0 <= dir < 6 ==> #[trigger] r[dir] == face_neighbor_spec(cx, cy, cz, depth, dir),
{
    proof {
        vstd::bits::lemma_u32_pow2_no_overflow(depth as nat);
        vstd::bits::lemma_u32_shl_is_mul(1, depth as u32);
    }
    let max_coord = 1u32 << (depth as u32);
    let r = [
        if cx > 0 { Some((cx - 1, cy, cz)) } else { None },
        if cx + 1 < max_coord { Some((cx + 1, cy, cz)) } else { None },
        if cy > 0 { Some((cx, cy - 1, cz)) } else { None },
        if cy + 1 < max_coord { Some((cx, cy + 1, cz)) } else { None },
        if cz > 0 { Some((cx, cy, cz - 1)) } else { None },
        if cz + 1 < max_coord { Some((cx, cy, cz + 1)) } else { None },
    ];
    proof {
        assert forall|dir: int| 0 <= dir < 6 implies #[trigger] r[dir] == face_neighbor_spec(cx, cy, cz, depth, dir) by {
            if dir == 0 {} else if dir == 1 {} else if dir == 2 {} else if dir == 3 {} else if dir == 4 {} else {}
        }
    }
    r
}

/// The octree's cell structure. Each `Branch { children_index: i }` cell has its
/// 8 children in `children[i]`, indexed by octant (bit 0 = X, bit 1 = Y, bit 2 = Z).
pub struct Octree<S> {
    /// The root cell.
    pub root: Cell<S>,
    /// Flat storage: `children[i]` holds the 8 child cells of `Branch { children_index: i }`.
    pub children: Vec<[Cell<S>; 8]>,
    /// Depth down to which cells are subdivided uniformly.
    pub min_depth: u8,
    /// Deepest depth of refinement.
    pub max_depth: u8,
}

/// Statistics about the octree.
#[derive(Debug, Clone, Copy)]
pub struct OctreeStats {
    pub leaf_count: u64,
    pub branch_count: u64,
    pub empty_count: u64,
    pub full_count: u64,
    pub max_actual_depth: u8,
    pub total_evaluations: u64,
}

/// Every branch reachable from `c` within `height` levels has its children stored,
/// and no branch lies `height` or more levels below `c`.
pub open spec fn valid_cell<S>(children: Seq<[Cell<S>; 8]>, c: Cell<S>, height: nat) -> bool
    decreases height,
{
    match c {
        Cell::Branch { children_index } => {
            &&& height > 0
            &&& children_index < children.len()
            &&& valid_cell(children, children[children_index as int][0], (height - 1) as nat)
            &&& valid_cell(children, children[children_index as int][1], (height - 1) as nat)
            &&& valid_cell(children, children[children_index as int][2], (height - 1) as nat)
            &&& valid_cell(children, children[children_index as int][3], (height - 1) as nat)
            &&& valid_cell(children, children[children_index as int][4], (height - 1) as nat)
            &&& valid_cell(children, children[children_index as int][5], (height - 1) as nat)
            &&& valid_cell(children, children[children_index as int][6], (height - 1) as nat)
            &&& valid_cell(children, children[children_index as int][7], (height - 1) as nat)
        },
        _ => true,
    }
}

/// The child of `c` in `octant`; a cell without children is its own child.
pub open spec fn child_spec<S>(children: Seq<[Cell<S>; 8]>, c: Cell<S>, octant: int) -> Cell<S> {
    match c {
        Cell::Branch { children_index } => children[children_index as int][octant],
        _ => c,
    }
}

/// Bit `shift` of `v`, as 0 or 1.
pub open spec fn coord_bit(v: u32, shift: int) -> int {
    ((v >> (shift as u32)) & 1) as int
}

/// The octant taken at `level` (0 = the root's children) on the way to cell
/// (`cx`, `cy`, `cz`) at `depth`: bit `depth - level - 1` of each coordinate,
/// X in bit 0, Y in bit 1, Z in bit 2.
pub open spec fn path_octant(cx: u32, cy: u32, cz: u32, depth: u8, level: int) -> int {
    let shift = depth - level - 1;
    coord_bit(cx, shift) + 2 * coord_bit(cy, shift) + 4 * coord_bit(cz, shift)
}

/// The cell reached from `c` (at `level`) by following the path to
/// (`cx`, `cy`, `cz`) at `depth` for up to `steps` levels, stopping early at a
/// cell without children.
pub open spec fn descend<S>(
    children: Seq<[Cell<S>; 8]>,
    c: Cell<S>,
    cx: u32,
    cy: u32,
    cz: u32,
    depth: u8,
    level: int,
    steps: nat,
) -> Cell<S>
    decreases steps,
{
    if steps == 0 || !(c is Branch) {
        c
    } else {
        descend(
            children,
            child_spec(children, c, path_octant(cx, cy, cz, depth, level)),
            cx,
            cy,
            cz,
            depth,
            level + 1,
            (steps - 1) as nat,
        )
    }
}

/// How many levels that descent goes down.
pub open spec fn descent_depth<S>(
    children: Seq<[Cell<S>; 8]>,
    c: Cell<S>,
    cx: u32,
    cy: u32,
    cz: u32,
    depth: u8,
    level: int,
    steps: nat,
) -> nat
    decreases steps,
{
    if steps == 0 || !(c is Branch) {
        0
    } else {
        1 + descent_depth(
            children,
            child_spec(children, c, path_octant(cx, cy, cz, depth, level)),
            cx,
            cy,
            cz,
            depth,
            level + 1,
            (steps - 1) as nat,
        )
    }
}

impl<S> Octree<S> {
    /// The children of every reachable branch are stored, and the tree is less
    /// than 256 levels deep.
    pub open spec fn wf(&self) -> bool {
        valid_cell(self.children@, self.root, 255)
    }

    /// The cell found at `level` on the way from the root to (`cx`, `cy`, `cz`) at `depth`.
    pub open spec fn cell_on_path(&self, cx: u32, cy: u32, cz: u32, depth: u8, level: nat) -> Cell<S> {
        descend(self.children@, self.root, cx, cy, cz, depth, 0, level)
    }
}

proof fn lemma_octant_bits(x: u32, y: u32, z: u32, s: u32)
    by (bit_vector)
    ensures
        ((x >> s) & 1) <= 1,
        ((y >> s) & 1) <= 1,
        ((z >> s) & 1) <= 1,
        (((x >> s) & 1) | (((y >> s) & 1) << 1u32) | (((z >> s) & 1) << 2u32)) == ((x >> s) & 1) + 2 * ((y
            >> s) & 1) + 4 * ((z >> s) & 1),
{
}

proof fn lemma_descend_step<S>(
    children: Seq<[Cell<S>; 8]>,
    c: Cell<S>,
    cx: u32,
    cy: u32,
    cz: u32,
    depth: u8,
    level: int,
    steps: nat,
)
    requires
        descend(children, c, cx, cy, cz, depth, level, steps) is Branch,
        descent_depth(children, c, cx, cy, cz, depth, level, steps) == steps,
    ensures
        descend(children, c, cx, cy, cz, depth, level, steps + 1) == child_spec(
            children,
            descend(children, c, cx, cy, cz, depth, level, steps),
            path_octant(cx, cy, cz, depth, level + steps),
        ),
        descent_depth(children, c, cx, cy, cz, depth, level, steps + 1) == steps + 1,
    decreases steps,
{
    let o = path_octant(cx, cy, cz, depth, level);
    let child = child_spec(children, c, o);
    assert(c is Branch);
    assert(descend(children, c, cx, cy, cz, depth, level, steps + 1) == descend(
        children,
        child,
        cx,
        cy,
        cz,
        depth,
        level + 1,
        steps,
    ));
    if steps == 0 {
        assert(descend(children, child, cx, cy, cz, depth, level + 1, 0) == child);
        assert(descent_depth(children, child, cx, cy, cz, depth, level + 1, 0) == 0);
    } else {
        assert(descend(children, c, cx, cy, cz, depth, level, steps) == descend(
            children,
            child,
            cx,
            cy,
            cz,
            depth,
            level + 1,
            (steps - 1) as nat,
        ));
        lemma_descend_step(
            children,
            child_spec(children, c, path_octant(cx, cy, cz, depth, level)),
            cx,
            cy,
            cz,
            depth,
            level + 1,
            (steps - 1) as nat,
        );
    }
}

proof fn lemma_descend_stop<S>(
    children: Seq<[Cell<S>; 8]>,
    c: Cell<S>,
    cx: u32,
    cy: u32,
    cz: u32,
    depth: u8,
    level: int,
    steps: nat,
    more: nat,
)
    requires
        !(descend(children, c, cx, cy, cz, depth, level, steps) is Branch),
        descent_depth(children, c, cx, cy, cz, depth, level, steps) == steps,
        steps <= more,
    ensures
        descend(children, c, cx, cy, cz, depth, level, more) == descend(children, c, cx, cy, cz, depth, level, steps),
        descent_depth(children, c, cx, cy, cz, depth, level, more) == steps,
    decreases steps,
{
    if steps > 0 {
        lemma_descend_stop(
            children,
            child_spec(children, c, path_octant(cx, cy, cz, depth, level)),
            cx,
            cy,
            cz,
            depth,
            level + 1,
            (steps - 1) as nat,
            (more - 1) as nat,
        );
    }
}

/// Every octant on a path is in `0..8`.
pub(crate) proof fn lemma_path_octant_range(cx: u32, cy: u32, cz: u32, depth: u8, level: int)
    ensures
        0 <= path_octant(cx, cy, cz, depth, level) < 8,
{
    let shift = depth - level - 1;
    lemma_octant_bits(cx, cy, cz, shift as u32);
}

proof fn lemma_descend_valid<S>(
    children: Seq<[Cell<S>; 8]>,
    c: Cell<S>,
    cx: u32,
    cy: u32,
    cz: u32,
    depth: u8,
    level: int,
    steps: nat,
    height: nat,
)
    requires
        valid_cell(children, c, height),
        descent_depth(children, c, cx, cy, cz, depth, level, steps) == steps,
    ensures
        steps <= height,
        valid_cell(children, descend(children, c, cx, cy, cz, depth, level, steps), (height - steps) as nat),
    decreases steps,
{
    if steps > 0 {
        lemma_path_octant_range(cx, cy, cz, depth, level);
        let o = path_octant(cx, cy, cz, depth, level);
        match c {
            Cell::Branch { children_index } => {
                assert(valid_cell(children, children[children_index as int][o], (height - 1) as nat)) by {
                    if o == 0 {} else if o == 1 {} else if o == 2 {} else if o == 3 {}
                    else if o == 4 {} else if o == 5 {} else if o == 6 {} else {}
                }
            },
            _ => {},
        }
        lemma_descend_valid(
            children,
            child_spec(children, c, o),
            cx,
            cy,
            cz,
            depth,
            level + 1,
            (steps - 1) as nat,
            (height - 1) as nat,
        );
    }
}

impl<S> Octree<S> {
    /// Looks up the cell at (`cx`, `cy`, `cz`) at `depth`, going down from the root
    /// by the octants of the coordinates' bits. When the path meets a cell without
    /// children first, that cell is returned with its own (coarser) depth.
    pub fn cell_at(&self, cx: u32, cy: u32, cz: u32, depth: u8) -> (r: (&Cell<S>, u8))
        requires
            self.wf(),
            forall|d: nat|
                d < depth && #[trigger] self.cell_on_path(cx, cy, cz, depth, d) is Branch && descent_depth(
                    self.children@,
                    self.root,
                    cx,
                    cy,
                    cz,
                    depth,
                    0,
                    d,
                ) == d ==> depth - d - 1 < 32,
        ensures
            r.1 as nat == descent_depth(self.children@, self.root, cx, cy, cz, depth, 0, depth as nat),
            *r.0 == self.cell_on_path(cx, cy, cz, depth, depth as nat),
    {
        let mut cell: &Cell<S> = &self.root;
        let mut d: u8 = 0;
        while d < depth
            invariant
                self.wf(),
                d <= depth,
                *cell == self.cell_on_path(cx, cy, cz, depth, d as nat),
                descent_depth(self.children@, self.root, cx, cy, cz, depth, 0, d as nat) == d,
                forall|k: nat|
                    k < depth && #[trigger] self.cell_on_path(cx, cy, cz, depth, k) is Branch
                        && descent_depth(self.children@, self.root, cx, cy, cz, depth, 0, k) == k
                        ==> depth - k - 1 < 32,
            decreases depth - d,
        {
            proof {
                lemma_descend_valid(self.children@, self.root, cx, cy, cz, depth, 0, d as nat, 255);
            }
            match cell {
                Cell::Branch { children_index } => {
                    let shift = depth - d - 1;
                    let oct_x = (cx >> shift) & 1;
                    let oct_y = (cy >> shift) & 1;
                    let oct_z = (cz >> shift) & 1;
                    proof {
                        lemma_octant_bits(cx, cy, cz, shift as u32);
                    }
                    let octant = (oct_x | (oct_y << 1) | (oct_z << 2)) as usize;
                    proof {
                        lemma_descend_step(self.children@, self.root, cx, cy, cz, depth, 0, d as nat);
                    }
                    cell = &self.children[*children_index as usize][octant];
                },
                _ => {
                    proof {
                        lemma_descend_stop(self.children@, self.root, cx, cy, cz, depth, 0, d as nat, depth as nat);
                    }
                    return (cell, d);
                },
            }
            d = d + 1;
        }
        (cell, depth)
    }
}

/// The kind of a cell: 0 empty, 1 full, 2 branch, 3 leaf.
pub open spec fn cell_kind<S>(c: Cell<S>) -> int {
    match c {
        Cell::Empty => 0,
        Cell::Full => 1,
        Cell::Branch { .. } => 2,
        Cell::Leaf(_) => 3,
    }
}

/// The number of cells of `kind` in the subtree of `c`, `c` included, looking
/// at most `height` levels down.
pub open spec fn count_kind<S>(children: Seq<[Cell<S>; 8]>, c: Cell<S>, kind: int, height: nat) -> nat
    decreases height, 0nat,
{
    (if cell_kind(c) == kind { 1nat } else { 0nat }) + match c {
        Cell::Branch { children_index } => if height > 0 && children_index < children.len() {
            count_kind_first(children, children[children_index as int], kind, (height - 1) as nat, 8)
        } else {
            0nat
        },
        _ => 0nat,
    }
}

/// The sum of `count_kind` over the first `k` cells of `cells`.
pub open spec fn count_kind_first<S>(
    children: Seq<[Cell<S>; 8]>,
    cells: [Cell<S>; 8],
    kind: int,
    height: nat,
    k: nat,
) -> nat
    decreases height, k,
{
    if k == 0 || k > 8 {
        0nat
    } else {
        count_kind_first(children, cells, kind, height, (k - 1) as nat) + count_kind(
            children,
            cells[k - 1],
            kind,
            height,
        )
    }
}

/// The number of cells satisfying `p` in the subtree of `c`, `c` included,
/// looking at most `height` levels down.
pub open spec fn count_cells<S>(children: Seq<[Cell<S>; 8]>, c: Cell<S>, p: spec_fn(Cell<S>) -> bool, height: nat) -> nat
    decreases height, 0nat,
{
    (if p(c) { 1nat } else { 0nat }) + match c {
        Cell::Branch { children_index } => if height > 0 && children_index < children.len() {
            count_cells_first(children, children[children_index as int], p, (height - 1) as nat, 8)
        } else {
            0nat
        },
        _ => 0nat,
    }
}

/// The sum of `count_cells` over the first `k` cells of `cells`.
pub open spec fn count_cells_first<S>(
    children: Seq<[Cell<S>; 8]>,
    cells: [Cell<S>; 8],
    p: spec_fn(Cell<S>) -> bool,
    height: nat,
    k: nat,
) -> nat
    decreases height, k,
{
    if k == 0 || k > 8 {
        0nat
    } else {
        count_cells_first(children, cells, p, height, (k - 1) as nat) + count_cells(children, cells[k - 1], p, height)
    }
}

proof fn lemma_count_kind_cells<S>(children: Seq<[Cell<S>; 8]>, c: Cell<S>, kind: int, p: spec_fn(Cell<S>) -> bool, height: nat)
    requires
        forall|x: Cell<S>| #[trigger] p(x) == (cell_kind(x) == kind),
    ensures
        count_kind(children, c, kind, height) == count_cells(children, c, p, height),
    decreases height, 0nat,
{
    assert(p(c) == (cell_kind(c) == kind));
    if let Cell::Branch { children_index } = c {
        if height > 0 && children_index < children.len() {
            lemma_count_kind_cells_first(children, children[children_index as int], kind, p, (height - 1) as nat, 8);
        }
    }
}

proof fn lemma_count_kind_cells_first<S>(
    children: Seq<[Cell<S>; 8]>,
    cells: [Cell<S>; 8],
    kind: int,
    p: spec_fn(Cell<S>) -> bool,
    height: nat,
    k: nat,
)
    requires
        forall|x: Cell<S>| #[trigger] p(x) == (cell_kind(x) == kind),
    ensures
        count_kind_first(children, cells, kind, height, k) == count_cells_first(children, cells, p, height, k),
    decreases height, k,
{
    if 0 < k <= 8 {
        lemma_count_kind_cells_first(children, cells, kind, p, height, (k - 1) as nat);
        lemma_count_kind_cells(children, cells[k - 1], kind, p, height);
    }
}

/// The larger of two integers.
pub open spec fn max_int(a: int, b: int) -> int {
    if a >= b { a } else { b }
}

/// The greatest depth of a leaf in the subtree of `c` (which lies at `depth`),
/// or 0 when there is none.
pub open spec fn max_leaf_depth<S>(children: Seq<[Cell<S>; 8]>, c: Cell<S>, depth: int, height: nat) -> int
    decreases height, 0nat,
{
    match c {
        Cell::Leaf(_) => depth,
        Cell::Branch { children_index } => if height > 0 && children_index < children.len() {
            max_leaf_depth_first(children, children[children_index as int], depth + 1, (height - 1) as nat, 8)
        } else {
            0
        },
        _ => 0,
    }
}

/// The largest `max_leaf_depth` over the first `k` cells of `cells` (0 for none).
pub open spec fn max_leaf_depth_first<S>(
    children: Seq<[Cell<S>; 8]>,
    cells: [Cell<S>; 8],
    depth: int,
    height: nat,
    k: nat,
) -> int
    decreases height, k,
{
    if k == 0 || k > 8 {
        0
    } else {
        max_int(
            max_leaf_depth_first(children, cells, depth, height, (k - 1) as nat),
            max_leaf_depth(children, cells[k - 1], depth, height),
        )
    }
}

impl<S> Octree<S> {
    /// The number of cells of `kind` in the tree.
    pub open spec fn count_of(&self, kind: int) -> nat {
        count_kind(self.children@, self.root, kind, 255)
    }

    /// Counts leaves, branches, empty and full cells, and the depth of the deepest leaf.
    pub fn stats(&self) -> (stats: OctreeStats)
        requires
            self.wf(),
            self.count_of(0) <= u64::MAX,
            self.count_of(1) <= u64::MAX,
            self.count_of(2) <= u64::MAX,
            self.count_of(3) <= u64::MAX,
        ensures
            stats.empty_count == self.count_of(0),
            stats.full_count == self.count_of(1),
            stats.branch_count == self.count_of(2),
            stats.leaf_count == self.count_of(3),
            stats.empty_count == count_cells(self.children@, self.root, |x: Cell<S>| x is Empty, 255),
            stats.full_count == count_cells(self.children@, self.root, |x: Cell<S>| x is Full, 255),
            stats.branch_count == count_cells(self.children@, self.root, |x: Cell<S>| x is Branch, 255),
            stats.leaf_count == count_cells(self.children@, self.root, |x: Cell<S>| x is Leaf, 255),
            stats.max_actual_depth == max_leaf_depth(self.children@, self.root, 0, 255),
            ({
                let leaves = listing(self.children@, self.root, 0, 0, 0, 0, Selection::Leaves, 255);
                &&& forall|t: int| 0 <= t < leaves.len() ==> (#[trigger] leaves[t]).3 <= stats.max_actual_depth
                &&& leaves.len() == 0 ==> stats.max_actual_depth == 0
                &&& leaves.len() > 0 ==> exists|t: int|
                    0 <= t < leaves.len() && (#[trigger] leaves[t]).3 == stats.max_actual_depth
            }),
            stats.total_evaluations == 0,
    {
        let mut stats = OctreeStats {
            leaf_count: 0,
            branch_count: 0,
            empty_count: 0,
            full_count: 0,
            max_actual_depth: 0,
            total_evaluations: 0,
        };
        self.count_recursive(&self.root, 0, &mut stats);
        proof {
            lemma_deepest_leaf(self.children@, self.root, 0, 0, 0, 0, 255);
            lemma_count_kind_cells(self.children@, self.root, 0, |x: Cell<S>| x is Empty, 255);
            lemma_count_kind_cells(self.children@, self.root, 1, |x: Cell<S>| x is Full, 255);
            lemma_count_kind_cells(self.children@, self.root, 2, |x: Cell<S>| x is Branch, 255);
            lemma_count_kind_cells(self.children@, self.root, 3, |x: Cell<S>| x is Leaf, 255);
            match self.root {
                Cell::Branch { children_index } => {
                    if children_index < self.children@.len() {
                        lemma_max_leaf_depth_first_nonneg(self.children@, self.children@[children_index as int], 1, 254, 8);
                    }
                },
                _ => {},
            }
        }
        stats
    }

    #[verifier::rlimit(40)]
    fn count_recursive(&self, cell: &Cell<S>, depth: u8, stats: &mut OctreeStats)
        requires
            valid_cell(self.children@, *cell, (255 - depth) as nat),
            old(stats).empty_count + count_kind(self.children@, *cell, 0, (255 - depth) as nat) <= u64::MAX,
            old(stats).full_count + count_kind(self.children@, *cell, 1, (255 - depth) as nat) <= u64::MAX,
            old(stats).branch_count + count_kind(self.children@, *cell, 2, (255 - depth) as nat) <= u64::MAX,
            old(stats).leaf_count + count_kind(self.children@, *cell, 3, (255 - depth) as nat) <= u64::MAX,
        ensures
            final(stats).empty_count == old(stats).empty_count + count_kind(self.children@, *cell, 0, (255 - depth) as nat),
            final(stats).full_count == old(stats).full_count + count_kind(self.children@, *cell, 1, (255 - depth) as nat),
            final(stats).branch_count == old(stats).branch_count + count_kind(self.children@, *cell, 2, (255 - depth) as nat),
            final(stats).leaf_count == old(stats).leaf_count + count_kind(self.children@, *cell, 3, (255 - depth) as nat),
            final(stats).max_actual_depth == max_int(
                old(stats).max_actual_depth as int,
                max_leaf_depth(self.children@, *cell, depth as int, (255 - depth) as nat),
            ),
            final(stats).total_evaluations == old(stats).total_evaluations,
        decreases 255 - depth,
    {
        match cell {
            Cell::Empty => stats.empty_count += 1,
            Cell::Full => stats.full_count += 1,
            Cell::Leaf(_) => {
                stats.leaf_count += 1;
                stats.max_actual_depth = if stats.max_actual_depth >= depth {
                    stats.max_actual_depth
                } else {
                    depth
                };
            },
            Cell::Branch { children_index } => {
                stats.branch_count += 1;
                let children = &self.children[*children_index as usize];
                let ghost h = (255 - depth - 1) as nat;
                let ghost s0 = *stats;
                let mut o: usize = 0;
                while o < 8
                    invariant
                        0 <= o <= 8,
                        depth < 255,
                        h == (255 - depth - 1) as nat,
                        *children == self.children@[*children_index as int],
                        valid_cell(self.children@, children[0], h),
                        valid_cell(self.children@, children[1], h),
                        valid_cell(self.children@, children[2], h),
                        valid_cell(self.children@, children[3], h),
                        valid_cell(self.children@, children[4], h),
                        valid_cell(self.children@, children[5], h),
                        valid_cell(self.children@, children[6], h),
                        valid_cell(self.children@, children[7], h),
                        s0.empty_count + count_kind_first(self.children@, *children, 0, h, 8) <= u64::MAX,
                        s0.full_count + count_kind_first(self.children@, *children, 1, h, 8) <= u64::MAX,
                        s0.branch_count + count_kind_first(self.children@, *children, 2, h, 8) <= u64::MAX,
                        s0.leaf_count + count_kind_first(self.children@, *children, 3, h, 8) <= u64::MAX,
                        stats.empty_count == s0.empty_count + count_kind_first(self.children@, *children, 0, h, o as nat),
                        stats.full_count == s0.full_count + count_kind_first(self.children@, *children, 1, h, o as nat),
                        stats.branch_count == s0.branch_count + count_kind_first(self.children@, *children, 2, h, o as nat),
                        stats.leaf_count == s0.leaf_count + count_kind_first(self.children@, *children, 3, h, o as nat),
                        stats.max_actual_depth == max_int(
                            s0.max_actual_depth as int,
                            max_leaf_depth_first(self.children@, *children, depth + 1, h, o as nat),
                        ),
                        stats.total_evaluations == s0.total_evaluations,
                    decreases 8 - o,
                {
                    proof {
                        lemma_count_first_mono(self.children@, *children, 0, h, (o + 1) as nat, 8);
                        lemma_count_first_mono(self.children@, *children, 1, h, (o + 1) as nat, 8);
                        lemma_count_first_mono(self.children@, *children, 2, h, (o + 1) as nat, 8);
                        lemma_count_first_mono(self.children@, *children, 3, h, (o + 1) as nat, 8);
                        assert(valid_cell(self.children@, children[o as int], h)) by {
                            if o == 0 {} else if o == 1 {} else if o == 2 {} else if o == 3 {}
                            else if o == 4 {} else if o == 5 {} else if o == 6 {} else {}
                        }
                    }
                    self.count_recursive(&children[o], depth + 1, stats);
                    o += 1;
                }
            },
        }
    }
}

proof fn lemma_deepest_leaf<S>(children: Seq<[Cell<S>; 8]>, c: Cell<S>, cx: int, cy: int, cz: int, depth: int, h: nat)
    requires
        0 <= depth,
        depth + h <= 255,
    ensures
        ({
            let l = listing(children, c, cx, cy, cz, depth, Selection::Leaves, h);
            let m = max_leaf_depth(children, c, depth, h);
            &&& m >= 0
            &&& forall|t: int| 0 <= t < l.len() ==> (#[trigger] l[t]).3 as int <= m
            &&& l.len() == 0 ==> m == 0
            &&& l.len() > 0 ==> exists|t: int| 0 <= t < l.len() && (#[trigger] l[t]).3 as int == m
        }),
    decreases h, 0nat,
{
    let l = listing(children, c, cx, cy, cz, depth, Selection::Leaves, h);
    match c {
        Cell::Branch { children_index } => {
            if h > 0 && children_index < children.len() {
                lemma_deepest_leaf_first(children, children[children_index as int], cx, cy, cz, depth, (h - 1) as nat, 8);
            }
        },
        Cell::Leaf(_) => {
            assert(l[0].3 as int == depth);
        },
        _ => {},
    }
}

proof fn lemma_deepest_leaf_first<S>(
    children: Seq<[Cell<S>; 8]>,
    cells: [Cell<S>; 8],
    cx: int,
    cy: int,
    cz: int,
    depth: int,
    h: nat,
    k: nat,
)
    requires
        0 <= depth,
        depth + 1 + h <= 255,
    ensures
        ({
            let l = listing_first(children, cells, cx, cy, cz, depth, Selection::Leaves, h, k);
            let m = max_leaf_depth_first(children, cells, depth + 1, h, k);
            &&& m >= 0
            &&& forall|t: int| 0 <= t < l.len() ==> (#[trigger] l[t]).3 as int <= m
            &&& l.len() == 0 ==> m == 0
            &&& l.len() > 0 ==> exists|t: int| 0 <= t < l.len() && (#[trigger] l[t]).3 as int == m
        }),
    decreases h, k,
{
    if 0 < k <= 8 {
        let o = k - 1;
        lemma_deepest_leaf_first(children, cells, cx, cy, cz, depth, h, (k - 1) as nat);
        lemma_deepest_leaf(
            children,
            cells[o],
            child_coord(cx, o, 0),
            child_coord(cy, o, 1),
            child_coord(cz, o, 2),
            depth + 1,
            h,
        );
        let a = listing_first(children, cells, cx, cy, cz, depth, Selection::Leaves, h, (k - 1) as nat);
        let b = listing(
            children,
            cells[o],
            child_coord(cx, o, 0),
            child_coord(cy, o, 1),
            child_coord(cz, o, 2),
            depth + 1,
            Selection::Leaves,
            h,
        );
        let l = listing_first(children, cells, cx, cy, cz, depth, Selection::Leaves, h, k);
        let ma = max_leaf_depth_first(children, cells, depth + 1, h, (k - 1) as nat);
        let mb = max_leaf_depth(children, cells[o], depth + 1, h);
        assert(l == a + b);
        assert forall|t: int| 0 <= t < l.len() implies (#[trigger] l[t]).3 as int <= max_int(ma, mb) by {
            if t < a.len() {
                assert(l[t] == a[t]);
            } else {
                assert(l[t] == b[t - a.len()]);
            }
        }
        if l.len() > 0 {
            if ma >= mb && a.len() > 0 {
                let t = choose|t: int| 0 <= t < a.len() && (#[trigger] a[t]).3 as int == ma;
                assert(l[t] == a[t]);
            } else if b.len() > 0 && mb >= ma {
                let t = choose|t: int| 0 <= t < b.len() && (#[trigger] b[t]).3 as int == mb;
                assert(l[a.len() + t] == b[t]);
            } else if a.len() == 0 {
                let t = choose|t: int| 0 <= t < b.len() && (#[trigger] b[t]).3 as int == mb;
                assert(l[a.len() + t] == b[t]);
            } else {
                let t = choose|t: int| 0 <= t < a.len() && (#[trigger] a[t]).3 as int == ma;
                assert(l[t] == a[t]);
            }
        }
    }
}

proof fn lemma_max_leaf_depth_first_nonneg<S>(
    children: Seq<[Cell<S>; 8]>,
    cells: [Cell<S>; 8],
    depth: int,
    height: nat,
    k: nat,
)
    ensures
        max_leaf_depth_first(children, cells, depth, height, k) >= 0,
    decreases k,
{
    if 0 < k <= 8 {
        lemma_max_leaf_depth_first_nonneg(children, cells, depth, height, (k - 1) as nat);
    }
}

proof fn lemma_count_first_mono<S>(
    children: Seq<[Cell<S>; 8]>,
    cells: [Cell<S>; 8],
    kind: int,
    height: nat,
    j: nat,
    k: nat,
)
    requires
        j <= k <= 8,
    ensures
        count_kind_first(children, cells, kind, height, j) <= count_kind_first(children, cells, kind, height, k),
    decreases k - j,
{
    if j < k {
        lemma_count_first_mono(children, cells, kind, height, j, (k - 1) as nat);
    }
}

/// Bit taken for one axis at `level` when descending to grid position `v` on the
/// grid of `max_depth`: bit `max_depth - 1 - level` of `v`. A position past the
/// grid, or a level past `max_depth`, takes the upper half (1).
pub open spec fn path_bit(v: u32, max_depth: u8, level: int) -> int {
    if level >= max_depth || v >= pow2(max_depth as nat) {
        1
    } else {
        (v as int / pow2((max_depth - 1 - level) as nat) as int) % 2
    }
}

/// The octant taken at `level` on the way down to grid position
/// (`gx`, `gy`, `gz`) on the grid of `max_depth`.
pub open spec fn path_step(gx: u32, gy: u32, gz: u32, max_depth: u8, level: int) -> int {
    path_bit(gx, max_depth, level) + 2 * path_bit(gy, max_depth, level) + 4 * path_bit(gz, max_depth, level)
}

/// What remains of `v` after the first `level` steps of the descent.
spec fn path_rest(v: u32, max_depth: u8, level: int) -> int {
    let m = max_depth as int;
    if v >= pow2(max_depth as nat) {
        if level <= m {
            v - pow2(max_depth as nat) + pow2((m - level) as nat)
        } else {
            v - pow2(max_depth as nat) + 1
        }
    } else {
        if level <= m {
            (v as int) % (pow2((m - level) as nat) as int)
        } else {
            0
        }
    }
}

/// The half-size of the cells at `level`, in units of the grid of `max_depth`.
spec fn path_scale(max_depth: u8, level: int) -> int {
    if level < max_depth {
        pow2((max_depth - 1 - level) as nat) as int
    } else {
        0
    }
}

proof fn lemma_path_axis_step(v: u32, max_depth: u8, level: int)
    requires
        0 <= level,
        1 <= max_depth <= 32,
    ensures
        (path_rest(v, max_depth, level) >= path_scale(max_depth, level)) == (path_bit(v, max_depth, level) == 1),
        path_rest(v, max_depth, level + 1) == path_rest(v, max_depth, level) - if path_bit(v, max_depth, level)
            == 1 {
            path_scale(max_depth, level)
        } else {
            0
        },
        0 <= path_rest(v, max_depth, level + 1) <= path_rest(v, max_depth, level) <= v,
        path_bit(v, max_depth, level) == 0 || path_bit(v, max_depth, level) == 1,
        path_scale(max_depth, level + 1) == path_scale(max_depth, level) / 2,
{
    let m = max_depth as int;
    vstd::arithmetic::power2::lemma_pow2_pos(max_depth as nat);
    if level < m {
        let k = (m - 1 - level) as nat;
        vstd::arithmetic::power2::lemma_pow2_unfold(k + 1);
        vstd::arithmetic::power2::lemma_pow2_pos(k);
        assert((m - level) as nat == k + 1);
        if level + 1 < m {
            vstd::arithmetic::power2::lemma_pow2_unfold(k);
            assert((m - 1 - (level + 1)) as nat == (k - 1) as nat);
        } else {
            assert(pow2(0) == 1) by {
                vstd::arithmetic::power2::lemma2_to64();
            }
        }
        if k + 1 < max_depth as nat {
            vstd::arithmetic::power2::lemma_pow2_strictly_increases(k + 1, max_depth as nat);
        }
        if v >= pow2(max_depth as nat) {
        } else {
            let b = ((v as int) / (pow2(k) as int)) % 2;
            vstd::arithmetic::div_mod::lemma_mod_breakdown(v as int, pow2(k) as int, 2);
            vstd::arithmetic::div_mod::lemma_mod_pos_bound(v as int, pow2(k) as int);
            vstd::arithmetic::div_mod::lemma_mod_pos_bound((v as int) / (pow2(k) as int), 2);
            vstd::arithmetic::div_mod::lemma_mod_pos_bound(v as int, pow2(k + 1) as int);
            if level == 0 {
                vstd::arithmetic::div_mod::lemma_small_mod(v as nat, pow2(max_depth as nat));
            } else {
                assert(v as int % (pow2(k + 1) as int) <= v) by {
                    vstd::arithmetic::div_mod::lemma_mod_decreases(v as nat, pow2(k + 1));
                }
            }
            assert((pow2(k) as int) * 2 == pow2(k + 1) as int);
            if b == 0 {
                assert((pow2(k) as int) * b == 0) by (nonlinear_arith)
                    requires
                        b == 0;
            } else {
                assert(b == 1);
                assert((pow2(k) as int) * b == pow2(k) as int) by (nonlinear_arith)
                    requires
                        b == 1;
            }
        }
    } else {
        assert(pow2(0) == 1) by {
            vstd::arithmetic::power2::lemma2_to64();
        }
        if v < pow2(max_depth as nat) {
            assert(v as int % 1 == 0);
        }
    }
}

/// The octants on the way from the root down to the cell whose min corner is
/// grid position (`grid_x`, `grid_y`, `grid_z`) on the grid of `max_depth`, one
/// per level for `depth` levels.
pub fn compute_path(grid_x: u32, grid_y: u32, grid_z: u32, depth: u8, max_depth: u8) -> (path: Vec<u8>)
    requires
        1 <= max_depth <= 32,
    ensures
        path.len() == depth,
        forall|level: int| 0 <= level < depth ==> #[trigger] path[level] as int == path_step(grid_x, grid_y, grid_z, max_depth, level),
{
    let mut path: Vec<u8> = Vec::with_capacity(depth as usize);
    proof {
        vstd::bits::lemma_u32_pow2_no_overflow((max_depth - 1) as nat);
        vstd::bits::lemma_u32_shl_is_mul(1, (max_depth - 1) as u32);
        vstd::bits::lemma_u32_pow2_no_overflow((max_depth - 1) as nat);
    }
    let mut scale = 1u32 << (max_depth - 1) as u32;
    let mut rx = grid_x;
    let mut ry = grid_y;
    let mut rz = grid_z;
    proof {
        vstd::arithmetic::power2::lemma_pow2_pos(max_depth as nat);
        vstd::arithmetic::power2::lemma_pow2_pos((max_depth - 1) as nat);
        if grid_x < pow2(max_depth as nat) {
            vstd::arithmetic::div_mod::lemma_small_mod(grid_x as nat, pow2(max_depth as nat));
        }
        if grid_y < pow2(max_depth as nat) {
            vstd::arithmetic::div_mod::lemma_small_mod(grid_y as nat, pow2(max_depth as nat));
        }
        if grid_z < pow2(max_depth as nat) {
            vstd::arithmetic::div_mod::lemma_small_mod(grid_z as nat, pow2(max_depth as nat));
        }
    }
    let mut level: u8 = 0;
    while level < depth
        invariant
            1 <= max_depth <= 32,
            level <= depth,
            path.len() == level,
            forall|l: int| 0 <= l < level ==> #[trigger] path[l] as int == path_step(grid_x, grid_y, grid_z, max_depth, l),
            scale as int == path_scale(max_depth, level as int),
            rx as int == path_rest(grid_x, max_depth, level as int),
            ry as int == path_rest(grid_y, max_depth, level as int),
            rz as int == path_rest(grid_z, max_depth, level as int),
        decreases depth - level,
    {
        proof {
            lemma_path_axis_step(grid_x, max_depth, level as int);
            lemma_path_axis_step(grid_y, max_depth, level as int);
            lemma_path_axis_step(grid_z, max_depth, level as int);
        }
        let mut octant = 0u8;
        if rx >= scale {
            octant += 1;
            rx -= scale;
        }
        if ry >= scale {
            octant += 2;
            ry -= scale;
        }
        if rz >= scale {
            octant += 4;
            rz -= scale;
        }
        path.push(octant);
        scale = scale / 2;
        level += 1;
    }
    path
}

/// A cell position: (x, y, z) cell coordinates and depth.
pub type CellKey = (u32, u32, u32, u8);

/// Which cells a traversal lists.
pub enum Selection {
    /// Every cell without children (leaf, empty or full).
    Unrefined,
    /// Every leaf cell.
    Leaves,
    /// Leaf cells with a sign change at this depth or deeper.
    SurfaceFrom(u8),
    /// Leaf cells with a sign change above this depth.
    SurfaceAbove(u8),
}

/// Whether `sel` lists cell `c` found at `depth`.
pub open spec fn selects<S>(sel: Selection, c: Cell<S>, depth: int) -> bool {
    match sel {
        Selection::Unrefined => !(c is Branch),
        Selection::Leaves => c is Leaf,
        Selection::SurfaceFrom(d) => c is Leaf && c->Leaf_0.corner_mask != 0 && c->Leaf_0.corner_mask != 0xFF
            && depth >= d,
        Selection::SurfaceAbove(d) => c is Leaf && c->Leaf_0.corner_mask != 0 && c->Leaf_0.corner_mask != 0xFF
            && depth < d,
    }
}

/// Coordinate of the child in `octant` along `axis`, for a parent coordinate `v`.
pub open spec fn child_coord(v: int, octant: int, axis: int) -> int {
    2 * v + crate::eval::cache::corner_offset(octant as u8, axis)
}

/// The cells that `sel` lists in the subtree of `c` (at (`cx`, `cy`, `cz`) and
/// `depth`), in depth-first octant order, with their coordinates and depths.
pub open spec fn listing<S>(
    children: Seq<[Cell<S>; 8]>,
    c: Cell<S>,
    cx: int,
    cy: int,
    cz: int,
    depth: int,
    sel: Selection,
    height: nat,
) -> Seq<CellKey>
    decreases height, 0nat,
{
    match c {
        Cell::Branch { children_index } => if height > 0 && children_index < children.len() {
            listing_first(children, children[children_index as int], cx, cy, cz, depth, sel, (height - 1) as nat, 8)
        } else {
            Seq::empty()
        },
        _ => if selects(sel, c, depth) {
            seq![(cx as u32, cy as u32, cz as u32, depth as u8)]
        } else {
            Seq::empty()
        },
    }
}

/// A cell without children lists itself, by its coordinates and depth, exactly
/// when the selection takes it: every such cell for `Unrefined`; a leaf for
/// `Leaves`; a surface cell found at depth `depth >= m` for `SurfaceFrom(m)`
/// (a surface leaf at `m` itself included); a surface cell found above `m`
/// for `SurfaceAbove(m)`. Otherwise it lists nothing.
pub proof fn lemma_listing_of_unrefined<S>(
    children: Seq<[Cell<S>; 8]>,
    c: Cell<S>,
    cx: int,
    cy: int,
    cz: int,
    depth: int,
    m: u8,
    height: nat,
)
    requires
        !(c is Branch),
    ensures
        listing(children, c, cx, cy, cz, depth, Selection::Unrefined, height) == seq![
            (cx as u32, cy as u32, cz as u32, depth as u8),
        ],
        listing(children, c, cx, cy, cz, depth, Selection::Leaves, height) == if c is Leaf {
            seq![(cx as u32, cy as u32, cz as u32, depth as u8)]
        } else {
            Seq::empty()
        },
        listing(children, c, cx, cy, cz, depth, Selection::SurfaceFrom(m), height) == if c is Leaf
            && c->Leaf_0.corner_mask != 0 && c->Leaf_0.corner_mask != 0xFF && depth >= m {
            seq![(cx as u32, cy as u32, cz as u32, depth as u8)]
        } else {
            Seq::empty()
        },
        listing(children, c, cx, cy, cz, depth, Selection::SurfaceAbove(m), height) == if c is Leaf
            && c->Leaf_0.corner_mask != 0 && c->Leaf_0.corner_mask != 0xFF && depth < m {
            seq![(cx as u32, cy as u32, cz as u32, depth as u8)]
        } else {
            Seq::empty()
        },
{
}

/// The listings of the first `k` children `cells` of the cell at (`cx`, `cy`, `cz`)
/// and `depth`, one after the other.
pub open spec fn listing_first<S>(
    children: Seq<[Cell<S>; 8]>,
    cells: [Cell<S>; 8],
    cx: int,
    cy: int,
    cz: int,
    depth: int,
    sel: Selection,
    height: nat,
    k: nat,
) -> Seq<CellKey>
    decreases height, k,
{
    if k == 0 || k > 8 {
        Seq::empty()
    } else {
        let o = k - 1;
        listing_first(children, cells, cx, cy, cz, depth, sel, height, (k - 1) as nat) + listing(
            children,
            cells[o],
            child_coord(cx, o, 0),
            child_coord(cy, o, 1),
            child_coord(cz, o, 2),
            depth + 1,
            sel,
            height,
        )
    }
}

impl<S> Octree<S> {
    /// The tree is at most 32 levels deep and the children of every branch are stored.
    pub open spec fn shallow(&self) -> bool {
        valid_cell(self.children@, self.root, 32)
    }

    fn collect_recursive(
        &self,
        cell: &Cell<S>,
        cx: u32,
        cy: u32,
        cz: u32,
        depth: u8,
        sel: &Selection,
        result: &mut Vec<CellKey>,
    )
        requires
            depth <= 32,
            valid_cell(self.children@, *cell, (32 - depth) as nat),
            (cx as int) < pow2(depth as nat),
            (cy as int) < pow2(depth as nat),
            (cz as int) < pow2(depth as nat),
        ensures
            final(result)@ == old(result)@ + listing(
                self.children@,
                *cell,
                cx as int,
                cy as int,
                cz as int,
                depth as int,
                *sel,
                (32 - depth) as nat,
            ),
        decreases 32 - depth,
    {
        match cell {
            Cell::Branch { children_index } => {
                let children = &self.children[*children_index as usize];
                let ghost h = (32 - depth - 1) as nat;
                let ghost r0 = result@;
                proof {
                    vstd::arithmetic::power2::lemma_pow2_unfold((depth + 1) as nat);
                    vstd::bits::lemma_u32_pow2_no_overflow(depth as nat);
                    vstd::arithmetic::power2::lemma2_to64();
                    if depth + 1 < 32 {
                        vstd::arithmetic::power2::lemma_pow2_strictly_increases((depth + 1) as nat, 32);
                    }
                }
                let mut o: u8 = 0;
                while o < 8
                    invariant
                        0 <= o <= 8,
                        depth < 32,
                        h == (32 - depth - 1) as nat,
                        *children == self.children@[*children_index as int],
                        valid_cell(self.children@, children[0], h),
                        valid_cell(self.children@, children[1], h),
                        valid_cell(self.children@, children[2], h),
                        valid_cell(self.children@, children[3], h),
                        valid_cell(self.children@, children[4], h),
                        valid_cell(self.children@, children[5], h),
                        valid_cell(self.children@, children[6], h),
                        valid_cell(self.children@, children[7], h),
                        (cx as int) < pow2(depth as nat),
                        (cy as int) < pow2(depth as nat),
                        (cz as int) < pow2(depth as nat),
                        pow2((depth + 1) as nat) == 2 * pow2(depth as nat),
                        pow2(depth as nat) < u32::MAX,
                        pow2((depth + 1) as nat) <= 0x1_0000_0000,
                        result@ == r0 + listing_first(
                            self.children@,
                            *children,
                            cx as int,
                            cy as int,
                            cz as int,
                            depth as int,
                            *sel,
                            h,
                            o as nat,
                        ),
                    decreases 8 - o,
                {
                    proof {
                        assert(valid_cell(self.children@, children[o as int], h)) by {
                            if o == 0 {} else if o == 1 {} else if o == 2 {} else if o == 3 {}
                            else if o == 4 {} else if o == 5 {} else if o == 6 {} else {}
                        }
                        crate::eval::cache::lemma_corner_offsets(o);
                    }
                    let ccx = cx * 2 + if o & 1 != 0 { 1 } else { 0 };
                    let ccy = cy * 2 + if o & 2 != 0 { 1 } else { 0 };
                    let ccz = cz * 2 + if o & 4 != 0 { 1 } else { 0 };
                    self.collect_recursive(&children[o as usize], ccx, ccy, ccz, depth + 1, sel, result);
                    proof {
                        assert(listing_first(self.children@, *children, cx as int, cy as int, cz as int, depth as int, *sel, h, (o + 1) as nat)
                            == listing_first(self.children@, *children, cx as int, cy as int, cz as int, depth as int, *sel, h, o as nat)
                            + listing(self.children@, children[o as int], ccx as int, ccy as int, ccz as int, depth + 1, *sel, h));
                        assert(result@ == r0 + listing_first(self.children@, *children, cx as int, cy as int, cz as int, depth as int, *sel, h, (o + 1) as nat));
                    }
                    o += 1;
                }
            },
            _ => {
                let selected = match sel {
                    Selection::Unrefined => true,
                    Selection::Leaves => match cell {
                        Cell::Leaf(_) => true,
                        _ => false,
                    },
                    Selection::SurfaceFrom(d) => match cell {
                        Cell::Leaf(data) => data.has_sign_change() && depth >= *d,
                        _ => false,
                    },
                    Selection::SurfaceAbove(d) => match cell {
                        Cell::Leaf(data) => data.has_sign_change() && depth < *d,
                        _ => false,
                    },
                };
                if selected {
                    result.push((cx, cy, cz, depth));
                }
            },
        }
    }

    fn collect(&self, sel: Selection) -> (keys: Vec<CellKey>)
        requires
            self.shallow(),
        ensures
            keys@ == listing(self.children@, self.root, 0, 0, 0, 0, sel, 32),
            keys@.no_duplicates(),
    {
        let mut keys: Vec<CellKey> = Vec::new();
        proof {
            vstd::arithmetic::power2::lemma_pow2_pos(0);
            crate::octree::distinct::lemma_listing_distinct(self, sel);
        }
        self.collect_recursive(&self.root, 0, 0, 0, 0, &sel, &mut keys);
        keys
    }

    /// Every cell without children (leaf, empty or full), in depth-first octant order.
    pub fn collect_all_leaves(&self) -> (keys: Vec<CellKey>)
        requires
            self.shallow(),
        ensures
            keys@ == listing(self.children@, self.root, 0, 0, 0, 0, Selection::Unrefined, 32),
            keys@.no_duplicates(),
    {
        self.collect(Selection::Unrefined)
    }

    /// Every leaf cell, in depth-first octant order: the cells that a visit of
    /// all leaves meets, in the order it meets them.
    pub fn collect_leaf_cells(&self) -> (keys: Vec<CellKey>)
        requires
            self.shallow(),
        ensures
            keys@ == listing(self.children@, self.root, 0, 0, 0, 0, Selection::Leaves, 32),
            keys@.no_duplicates(),
    {
        self.collect(Selection::Leaves)
    }

    /// Every leaf cell with a sign change at depth `min_depth` or deeper.
    pub fn collect_surface_leaves(&self, min_depth: u8) -> (keys: Vec<CellKey>)
        requires
            self.shallow(),
        ensures
            keys@ == listing(self.children@, self.root, 0, 0, 0, 0, Selection::SurfaceFrom(min_depth), 32),
            keys@.no_duplicates(),
    {
        self.collect(Selection::SurfaceFrom(min_depth))
    }

    /// Every leaf cell with a sign change above depth `max_depth`.
    pub fn collect_coarse_surface_leaves(&self, max_depth: u8) -> (keys: Vec<CellKey>)
        requires
            self.shallow(),
        ensures
            keys@ == listing(self.children@, self.root, 0, 0, 0, 0, Selection::SurfaceAbove(max_depth), 32),
            keys@.no_duplicates(),
    {
        self.collect(Selection::SurfaceAbove(max_depth))
    }
}

/// The slot reached by following the octants of `path` (from position `k` on)
/// from cell `c`, whose own slot is `slot`; the walk stops at the first cell
/// without children or when the path ends. `None` is the root's slot,
/// `Some((i, o))` is `children[i][o]`.
pub open spec fn follow_slot<S>(
    children: Seq<[Cell<S>; 8]>,
    c: Cell<S>,
    path: Seq<u8>,
    k: int,
    slot: Option<(int, int)>,
) -> Option<(int, int)>
    decreases path.len() - k,
{
    if k < 0 || k >= path.len() || !(c is Branch) {
        slot
    } else {
        let i = c->children_index as int;
        let o = path[k] as int;
        follow_slot(children, children[i][o], path, k + 1, Some((i, o)))
    }
}

/// Every branch met while following `path` from `c` has its children stored,
/// and every octant taken is below 8.
pub open spec fn path_ok<S>(children: Seq<[Cell<S>; 8]>, c: Cell<S>, path: Seq<u8>, k: int) -> bool
    decreases path.len() - k,
{
    if k < 0 || k >= path.len() || !(c is Branch) {
        true
    } else {
        let i = c->children_index as int;
        &&& i < children.len()
        &&& path[k] < 8
        &&& path_ok(children, children[i][path[k] as int], path, k + 1)
    }
}

/// The octants from the root down to the cell at grid position
/// (`gx`, `gy`, `gz`) on the grid of `max_depth`, for `depth` levels.
pub open spec fn path_seq(gx: u32, gy: u32, gz: u32, depth: u8, max_depth: u8) -> Seq<u8> {
    Seq::new(depth as nat, |l: int| path_step(gx, gy, gz, max_depth, l) as u8)
}

/// `after` is `before` with the cell reached by following `path` from the root
/// (the walk stops at the first cell without children) replaced by a branch
/// whose children, `kids`, are stored at the end of `children`; nothing else
/// changes.
pub open spec fn subdivided<S>(before: Octree<S>, after: Octree<S>, path: Seq<u8>, kids: [Cell<S>; 8]) -> bool {
    let n = before.children@.len();
    let branch = Cell::<S>::Branch { children_index: n as u32 };
    &&& after.children@.len() == n + 1
    &&& after.children@[n as int] == kids
    &&& after.min_depth == before.min_depth
    &&& after.max_depth == before.max_depth
    &&& match follow_slot(before.children@, before.root, path, 0, None) {
        None => {
            &&& after.root == branch
            &&& forall|j: int| 0 <= j < n ==> #[trigger] after.children@[j] == before.children@[j]
        },
        Some((i, o)) => {
            &&& after.root == before.root
            &&& forall|j: int| 0 <= j < n && j != i ==> #[trigger] after.children@[j] == before.children@[j]
            &&& after.children@[i]@ == before.children@[i]@.update(o, branch)
        },
    }
}

impl<S> Cell<S> {
    /// The cell for a freshly sampled leaf: the leaf itself when it has a sign
    /// change, otherwise `Empty` when no corner is inside and `Full` when all are.
    pub fn from_leaf(leaf: crate::octree::cell::LeafData<S>) -> (c: Cell<S>)
        ensures
            leaf.corner_mask != 0 && leaf.corner_mask != 0xFF ==> c == Cell::Leaf(leaf),
            leaf.corner_mask == 0 ==> c is Empty,
            leaf.corner_mask == 0xFF ==> c is Full,
    {
        if leaf.has_sign_change() {
            Cell::Leaf(leaf)
        } else if leaf.corner_mask == 0 {
            Cell::Empty
        } else {
            Cell::Full
        }
    }
}

impl<S> Octree<S> {
    /// The slot that following `path` from the root reaches.
    fn locate(&self, path: &Vec<u8>) -> (slot: Option<(usize, usize)>)
        requires
            path_ok(self.children@, self.root, path@, 0),
        ensures
            match slot {
                None => follow_slot(self.children@, self.root, path@, 0, None) is None,
                Some((i, o)) => follow_slot(self.children@, self.root, path@, 0, None) == Some((i as int, o as int))
                    && i < self.children@.len() && o < 8,
            },
    {
        let mut cur: &Cell<S> = &self.root;
        let mut slot: Option<(usize, usize)> = None;
        let mut k: usize = 0;
        while k < path.len() && cur.is_branch()
            invariant
                k <= path.len(),
                path_ok(self.children@, *cur, path@, k as int),
                follow_slot(self.children@, self.root, path@, 0, None) == follow_slot(
                    self.children@,
                    *cur,
                    path@,
                    k as int,
                    match slot {
                        None => None,
                        Some((i, o)) => Some((i as int, o as int)),
                    },
                ),
                match slot {
                    None => true,
                    Some((i, o)) => i < self.children@.len() && o < 8,
                },
            decreases path.len() - k,
        {
            match cur {
                Cell::Branch { children_index } => {
                    let i = *children_index as usize;
                    let o = path[k] as usize;
                    slot = Some((i, o));
                    cur = &self.children[i][o];
                },
                _ => {},
            }
            k += 1;
        }
        slot
    }

    /// Turns the cell at grid position (`grid_x`, `grid_y`, `grid_z`) on the grid of
    /// `max_depth`, `depth` levels down, into a branch whose children are
    /// `child_cells`, stored at the end of `children`.
    pub fn subdivide(
        &mut self,
        grid_x: u32,
        grid_y: u32,
        grid_z: u32,
        depth: u8,
        max_depth: u8,
        child_cells: [Cell<S>; 8],
    )
        requires
            old(self).well_formed(),
            old(self).children.len() < u32::MAX,
            depth < max_depth <= 31,
            forall|o: int| 0 <= o < 8 ==> !(#[trigger] child_cells[o] is Branch),
        ensures
            final(self).well_formed(),
            subdivided(*old(self), *final(self), path_seq(grid_x, grid_y, grid_z, depth, max_depth), child_cells),
    {
        let ghost lv = choose|lv: Seq<nat>| levels_ok(self.children@, self.root, lv, 31);
        let ghost ch0 = self.children@;
        let ghost root0 = self.root;
        let path = compute_path(grid_x, grid_y, grid_z, depth, max_depth);
        proof {
            lemma_well_formed_within(self);
            assert(path@ == path_seq(grid_x, grid_y, grid_z, depth, max_depth));
            assert forall|l: int| 0 <= l < path@.len() implies #[trigger] path@[l] < 8 by {
                lemma_path_axis_step(grid_x, max_depth, l);
                lemma_path_axis_step(grid_y, max_depth, l);
                lemma_path_axis_step(grid_z, max_depth, l);
            }
            lemma_valid_path_ok(ch0, root0, path@, 0, 31);
            lemma_follow_level(ch0, root0, lv, 31, root0, path@, 0, None);
        }
        let slot = self.locate(&path);
        let idx = self.children.len() as u32;
        self.children.push(child_cells);
        match slot {
            None => {
                self.root = Cell::Branch { children_index: idx };
            },
            Some((i, o)) => {
                self.children[i][o] = Cell::Branch { children_index: idx };
            },
        }
        proof {
            let n = ch0.len() as int;
            let new_level: nat = match slot {
                None => 1,
                Some((i, o)) => lv[i as int] + 1,
            };
            let lv2 = lv.push(new_level);
            assert(idx as int == n);
            assert(levels_ok(self.children@, self.root, lv2, 31));
        }
    }
}

/// A cell valid within `h` levels is valid within any larger number of levels.
proof fn lemma_valid_mono<S>(children: Seq<[Cell<S>; 8]>, c: Cell<S>, h: nat, h2: nat)
    requires
        valid_cell(children, c, h),
        h <= h2,
    ensures
        valid_cell(children, c, h2),
    decreases h,
{
    match c {
        Cell::Branch { children_index } => {
            let a = children[children_index as int];
            lemma_valid_mono(children, a[0], (h - 1) as nat, (h2 - 1) as nat);
            lemma_valid_mono(children, a[1], (h - 1) as nat, (h2 - 1) as nat);
            lemma_valid_mono(children, a[2], (h - 1) as nat, (h2 - 1) as nat);
            lemma_valid_mono(children, a[3], (h - 1) as nat, (h2 - 1) as nat);
            lemma_valid_mono(children, a[4], (h - 1) as nat, (h2 - 1) as nat);
            lemma_valid_mono(children, a[5], (h - 1) as nat, (h2 - 1) as nat);
            lemma_valid_mono(children, a[6], (h - 1) as nat, (h2 - 1) as nat);
            lemma_valid_mono(children, a[7], (h - 1) as nat, (h2 - 1) as nat);
        },
        _ => {},
    }
}

/// `lv[j]` is the depth of the cells stored in `children[j]`: the root's
/// children lie at depth 1 and a branch's children one level below it; every
/// branch refers to a stored entry and lies above depth `h`.
pub open spec fn levels_ok<S>(children: Seq<[Cell<S>; 8]>, root: Cell<S>, lv: Seq<nat>, h: nat) -> bool {
    &&& entries_leveled(children, lv, h)
    &&& (root is Branch ==> {
        &&& h > 0
        &&& root->children_index < children.len()
        &&& lv[root->children_index as int] == 1
    })
}

/// `lv[j]` is the depth of the cells stored in `children[j]`, a branch's
/// children lie one level below it, and every branch stored refers to a stored
/// entry and lies above depth `h`.
pub open spec fn entries_leveled<S>(children: Seq<[Cell<S>; 8]>, lv: Seq<nat>, h: nat) -> bool {
    &&& lv.len() == children.len()
    &&& forall|j: int, o: int|
        0 <= j < children.len() && 0 <= o < 8 && (#[trigger] children[j][o]) is Branch ==> {
            &&& lv[j] < h
            &&& children[j][o]->children_index < children.len()
            &&& lv[children[j][o]->children_index as int] == lv[j] + 1
        }
}

/// Below an entry whose cells lie at depth `lv[j]`, the tree ends above depth `h`.
proof fn lemma_levels_entry_valid<S>(children: Seq<[Cell<S>; 8]>, root: Cell<S>, lv: Seq<nat>, h: nat, j: int)
    requires
        levels_ok(children, root, lv, h),
        0 <= j < children.len(),
        lv[j] <= h,
    ensures
        forall|o: int| 0 <= o < 8 ==> valid_cell(children, #[trigger] children[j][o], (h - lv[j]) as nat),
    decreases h - lv[j],
{
    assert forall|o: int| 0 <= o < 8 implies valid_cell(children, #[trigger] children[j][o], (h - lv[j]) as nat) by {
        let c = children[j][o];
        if c is Branch {
            let k = c->children_index as int;
            lemma_levels_entry_valid(children, root, lv, h, k);
            assert((h - lv[k]) as nat == ((h - lv[j]) as nat - 1) as nat);
        }
    }
}

impl<S> Octree<S> {
    /// The tree is consistently layered: every cell has a depth (its number of
    /// ancestors), every branch refers to stored children, and no branch lies at
    /// depth 31 or deeper, so no cell lies deeper than 31.
    pub open spec fn well_formed(&self) -> bool {
        exists|lv: Seq<nat>| levels_ok(self.children@, self.root, lv, 31)
    }
}

/// A well-formed tree ends above depth 31 (and so above 32 and 255).
pub proof fn lemma_well_formed_within<S>(t: &Octree<S>)
    requires
        t.well_formed(),
    ensures
        t.within(31),
        t.shallow(),
        t.wf(),
{
    let lv = choose|lv: Seq<nat>| levels_ok(t.children@, t.root, lv, 31);
    if t.root is Branch {
        lemma_levels_entry_valid(t.children@, t.root, lv, 31, t.root->children_index as int);
    }
    lemma_valid_mono(t.children@, t.root, 31, 32);
    lemma_valid_mono(t.children@, t.root, 31, 255);
}

/// Following a path of octants below 8 from a cell valid within `h` levels
/// meets only stored branches.
proof fn lemma_valid_path_ok<S>(children: Seq<[Cell<S>; 8]>, c: Cell<S>, path: Seq<u8>, k: int, h: nat)
    requires
        valid_cell(children, c, h),
        0 <= k,
        forall|l: int| 0 <= l < path.len() ==> #[trigger] path[l] < 8,
    ensures
        path_ok(children, c, path, k),
    decreases h,
{
    if k < path.len() && c is Branch {
        let i = c->children_index as int;
        let o = path[k] as int;
        assert(valid_cell(children, children[i][o], (h - 1) as nat)) by {
            if o == 0 {} else if o == 1 {} else if o == 2 {} else if o == 3 {}
            else if o == 4 {} else if o == 5 {} else if o == 6 {} else {}
        }
        lemma_valid_path_ok(children, children[i][o], path, k + 1, (h - 1) as nat);
    }
}

/// The slot met at the end of a walk down a layered tree lies at most as deep
/// as the number of steps taken: each step goes one level down.
proof fn lemma_follow_level<S>(
    children: Seq<[Cell<S>; 8]>,
    root: Cell<S>,
    lv: Seq<nat>,
    h: nat,
    c: Cell<S>,
    path: Seq<u8>,
    k: int,
    slot: Option<(int, int)>,
)
    requires
        levels_ok(children, root, lv, h),
        0 <= k <= path.len(),
        forall|l: int| 0 <= l < path.len() ==> #[trigger] path[l] < 8,
        slot is None ==> c == root && k == 0,
        slot matches Some((i, o)) ==> 0 <= i < children.len() && 0 <= o < 8 && c == children[i][o] && lv[i] == k,
    ensures
        match follow_slot(children, c, path, k, slot) {
            None => slot is None,
            Some((i, o)) => 0 <= i < children.len() && 0 <= o < 8 && lv[i] <= path.len(),
        },
    decreases path.len() - k,
{
    if k < path.len() && c is Branch {
        let i = c->children_index as int;
        let o = path[k] as int;
        lemma_follow_level(children, root, lv, h, children[i][o], path, k + 1, Some((i, o)));
    }
}

/// Every cell listed below a cell valid within `v` levels lies at most `v` levels
/// deeper, and its coordinates lie on the grid of its depth.
pub(crate) proof fn lemma_listing_bounds<S>(
    children: Seq<[Cell<S>; 8]>,
    c: Cell<S>,
    cx: int,
    cy: int,
    cz: int,
    depth: int,
    sel: Selection,
    height: nat,
    v: nat,
)
    requires
        valid_cell(children, c, v),
        0 <= depth,
        depth + v <= 32,
        0 <= cx < pow2(depth as nat),
        0 <= cy < pow2(depth as nat),
        0 <= cz < pow2(depth as nat),
    ensures
        forall|j: int| 0 <= j < listing(children, c, cx, cy, cz, depth, sel, height).len() ==> {
            let e = #[trigger] listing(children, c, cx, cy, cz, depth, sel, height)[j];
            &&& depth <= e.3 <= depth + v
            &&& (e.0 as int) < pow2(e.3 as nat)
            &&& (e.1 as int) < pow2(e.3 as nat)
            &&& (e.2 as int) < pow2(e.3 as nat)
        },
    decreases height, 0nat,
{
    match c {
        Cell::Branch { children_index } => {
            if height > 0 && children_index < children.len() {
                lemma_listing_first_bounds(
                    children,
                    children[children_index as int],
                    cx,
                    cy,
                    cz,
                    depth,
                    sel,
                    (height - 1) as nat,
                    (v - 1) as nat,
                    8,
                );
                assert(listing(children, c, cx, cy, cz, depth, sel, height) == listing_first(
                    children,
                    children[children_index as int],
                    cx,
                    cy,
                    cz,
                    depth,
                    sel,
                    (height - 1) as nat,
                    8,
                ));
            }
        },
        _ => {
            vstd::arithmetic::power2::lemma2_to64();
            if depth < 32 {
                vstd::arithmetic::power2::lemma_pow2_strictly_increases(depth as nat, 32);
            }
        },
    }
}

pub(crate) proof fn lemma_listing_first_bounds<S>(
    children: Seq<[Cell<S>; 8]>,
    cells: [Cell<S>; 8],
    cx: int,
    cy: int,
    cz: int,
    depth: int,
    sel: Selection,
    height: nat,
    v: nat,
    k: nat,
)
    requires
        valid_cell(children, cells[0], v),
        valid_cell(children, cells[1], v),
        valid_cell(children, cells[2], v),
        valid_cell(children, cells[3], v),
        valid_cell(children, cells[4], v),
        valid_cell(children, cells[5], v),
        valid_cell(children, cells[6], v),
        valid_cell(children, cells[7], v),
        0 <= depth,
        depth + 1 + v <= 32,
        0 <= cx < pow2(depth as nat),
        0 <= cy < pow2(depth as nat),
        0 <= cz < pow2(depth as nat),
    ensures
        forall|j: int| 0 <= j < listing_first(children, cells, cx, cy, cz, depth, sel, height, k).len() ==> {
            let e = #[trigger] listing_first(children, cells, cx, cy, cz, depth, sel, height, k)[j];
            &&& depth + 1 <= e.3 <= depth + 1 + v
            &&& (e.0 as int) < pow2(e.3 as nat)
            &&& (e.1 as int) < pow2(e.3 as nat)
            &&& (e.2 as int) < pow2(e.3 as nat)
        },
    decreases height, k,
{
    if 0 < k <= 8 {
        let o = k - 1;
        lemma_listing_first_bounds(children, cells, cx, cy, cz, depth, sel, height, v, (k - 1) as nat);
        crate::eval::cache::lemma_corner_offsets(o as u8);
        vstd::arithmetic::power2::lemma_pow2_unfold((depth + 1) as nat);
        assert(valid_cell(children, cells[o], v)) by {
            if o == 0 {} else if o == 1 {} else if o == 2 {} else if o == 3 {}
            else if o == 4 {} else if o == 5 {} else if o == 6 {} else {}
        }
        lemma_listing_bounds(
            children,
            cells[o],
            child_coord(cx, o, 0),
            child_coord(cy, o, 1),
            child_coord(cz, o, 2),
            depth + 1,
            sel,
            height,
            v,
        );
        let a = listing_first(children, cells, cx, cy, cz, depth, sel, height, (k - 1) as nat);
        let b = listing(
            children,
            cells[o],
            child_coord(cx, o, 0),
            child_coord(cy, o, 1),
            child_coord(cz, o, 2),
            depth + 1,
            sel,
            height,
        );
        assert forall|j: int| 0 <= j < (a + b).len() implies {
            let e = #[trigger] (a + b)[j];
            &&& depth + 1 <= e.3 <= depth + 1 + v
            &&& (e.0 as int) < pow2(e.3 as nat)
            &&& (e.1 as int) < pow2(e.3 as nat)
            &&& (e.2 as int) < pow2(e.3 as nat)
        } by {
            if j < a.len() {
                assert((a + b)[j] == a[j]);
            } else {
                assert((a + b)[j] == b[j - a.len()]);
            }
        }
    }
}

/// A cell key packed into one number: x, y, z and depth in successive 32-bit fields.
pub open spec fn key_code(k: CellKey) -> int {
    k.0 as int + (k.1 as int) * 0x1_0000_0000 + (k.2 as int) * 0x1_0000_0000_0000_0000 + (k.3 as int)
        * 0x1_0000_0000_0000_0000_0000_0000
}

pub proof fn lemma_key_code_injective(a: CellKey, b: CellKey)
    requires
        key_code(a) == key_code(b),
    ensures
        a == b,
{
    let k1 = 0x1_0000_0000int;
    let ha = (a.1 as int) + (a.2 as int) * k1 + (a.3 as int) * k1 * k1;
    let hb = (b.1 as int) + (b.2 as int) * k1 + (b.3 as int) * k1 * k1;
    assert(key_code(a) == a.0 as int + ha * k1);
    assert(key_code(b) == b.0 as int + hb * k1);
    vstd::arithmetic::div_mod::lemma_fundamental_div_mod_converse(key_code(a), k1, ha, a.0 as int);
    vstd::arithmetic::div_mod::lemma_fundamental_div_mod_converse(key_code(b), k1, hb, b.0 as int);
    let ma = (a.2 as int) + (a.3 as int) * k1;
    let mb = (b.2 as int) + (b.3 as int) * k1;
    vstd::arithmetic::div_mod::lemma_fundamental_div_mod_converse(ha, k1, ma, a.1 as int);
    vstd::arithmetic::div_mod::lemma_fundamental_div_mod_converse(hb, k1, mb, b.1 as int);
    vstd::arithmetic::div_mod::lemma_fundamental_div_mod_converse(ma, k1, a.3 as int, a.2 as int);
    vstd::arithmetic::div_mod::lemma_fundamental_div_mod_converse(mb, k1, b.3 as int, b.2 as int);
}

pub proof fn lemma_key_code_bounds(k: CellKey)
    ensures
        0 <= key_code(k) < 0x1_0000_0000_0000_0000_0000_0000_0000_0000,
{
}

/// Packs a cell key into a `u128` (see `key_code`).
pub(crate) fn pack_key(k: CellKey) -> (p: u128)
    ensures
        p as int == key_code(k),
{
    k.0 as u128 + (k.1 as u128) * 0x1_0000_0000 + (k.2 as u128) * 0x1_0000_0000_0000_0000 + (k.3 as u128)
        * 0x1_0000_0000_0000_0000_0000_0000
}

/// A leaf cell whose corners have both signs.
pub open spec fn is_surface_cell<S>(c: Cell<S>) -> bool {
    c is Leaf && c->Leaf_0.corner_mask != 0 && c->Leaf_0.corner_mask != 0xFF
}

impl<S> Octree<S> {
    /// The tree has no branch `h` or more levels deep, and the children of every branch are stored.
    pub open spec fn within(&self, h: nat) -> bool {
        valid_cell(self.children@, self.root, h)
    }

    /// The cell that `cell_at(x, y, z, d)` returns.
    pub open spec fn lookup_cell(&self, x: u32, y: u32, z: u32, d: u8) -> Cell<S> {
        self.cell_on_path(x, y, z, d, d as nat)
    }

    /// The depth that `cell_at(x, y, z, d)` returns.
    pub open spec fn lookup_depth(&self, x: u32, y: u32, z: u32, d: u8) -> nat {
        descent_depth(self.children@, self.root, x, y, z, d, 0, d as nat)
    }

    /// The cell that must be subdivided because of the face neighbor of `leaf` in
    /// direction `dir`, if any. It is the neighbor's (coarser) cell when either
    /// (1) it is more than one level coarser than `leaf` (2:1 balance), or
    /// (2) `leaf` is a surface cell and the neighbor is a coarser cell without a
    /// sign change; and never a cell above `min_depth`.
    pub open spec fn balance_key(&self, leaf: CellKey, dir: int) -> Option<CellKey> {
        let (cx, cy, cz, d) = leaf;
        if d == 0 {
            None
        } else {
            match face_neighbor_spec(cx, cy, cz, d, dir) {
                None => None,
                Some((nx, ny, nz)) => {
                    let actual = self.lookup_depth(nx, ny, nz, d);
                    let needs_balance = actual + 1 < d;
                    let needs_surface = is_surface_cell(self.lookup_cell(cx, cy, cz, d)) && actual < d
                        && !is_surface_cell(self.lookup_cell(nx, ny, nz, d));
                    if (needs_balance || needs_surface) && actual >= self.min_depth {
                        let scale = pow2((d - actual) as nat) as int;
                        Some(((nx as int / scale) as u32, (ny as int / scale) as u32, (nz as int / scale) as u32, actual as u8))
                    } else {
                        None
                    }
                },
            }
        }
    }
}

proof fn lemma_descent_depth_bound<S>(
    children: Seq<[Cell<S>; 8]>,
    c: Cell<S>,
    cx: u32,
    cy: u32,
    cz: u32,
    depth: u8,
    level: int,
    steps: nat,
)
    ensures
        descent_depth(children, c, cx, cy, cz, depth, level, steps) <= steps,
    decreases steps,
{
    if steps > 0 && c is Branch {
        lemma_descent_depth_bound(
            children,
            child_spec(children, c, path_octant(cx, cy, cz, depth, level)),
            cx,
            cy,
            cz,
            depth,
            level + 1,
            (steps - 1) as nat,
        );
    }
}

/// `s` with every repeat of an earlier element dropped: the first occurrences,
/// in order.
pub open spec fn first_occurrences<T>(s: Seq<T>) -> Seq<T>
    decreases s.len(),
{
    if s.len() == 0 {
        Seq::empty()
    } else {
        let before = first_occurrences(s.drop_last());
        if before.contains(s.last()) {
            before
        } else {
            before.push(s.last())
        }
    }
}

/// Appending an element appends it to the first occurrences unless it occurred already.
pub proof fn lemma_first_occurrences_push<T>(s: Seq<T>, x: T)
    ensures
        first_occurrences(s.push(x)) == if first_occurrences(s).contains(x) {
            first_occurrences(s)
        } else {
            first_occurrences(s).push(x)
        },
{
    assert(s.push(x).drop_last() =~= s);
}

/// Cell keys without repeats, in order of first insertion, with a hash set of
/// their packed codes for fast membership tests.
pub struct KeyList {
    keys: Vec<CellKey>,
    seen: HashSet<u128>,
}

impl KeyList {
    pub closed spec fn view(&self) -> Seq<CellKey> {
        self.keys@
    }

    pub closed spec fn inv(&self) -> bool {
        &&& self.keys@.no_duplicates()
        &&& forall|k: CellKey| self.seen@.contains(key_code(k) as u128) == self.keys@.contains(k)
    }

    pub fn new() -> (l: Self)
        ensures
            l.inv(),
            l@ == Seq::<CellKey>::empty(),
    {
        broadcast use vstd::std_specs::hash::group_hash_axioms;
        KeyList { keys: Vec::new(), seen: HashSet::new() }
    }

    /// Appends `k` unless it is already listed.
    pub fn add(&mut self, k: CellKey)
        requires
            old(self).inv(),
        ensures
            final(self).inv(),
            old(self)@.contains(k) ==> final(self)@ == old(self)@,
            !old(self)@.contains(k) ==> final(self)@ == old(self)@.push(k),
            forall|q: CellKey| #[trigger] final(self)@.contains(q) <==> (old(self)@.contains(q) || q == k),
    {
        broadcast use vstd::std_specs::hash::group_hash_axioms;
        let ghost before = self.keys@;
        let ghost seen_before = self.seen@;
        let p = pack_key(k);
        proof {
            lemma_key_code_bounds(k);
        }
        if self.seen.insert(p) {
            proof {
                if before.contains(k) {
                    assert(seen_before.contains(key_code(k) as u128));
                }
            }
            self.keys.push(k);
            proof {
                assert forall|a: int, b: int| 0 <= a < b < self.keys@.len() implies self.keys@[a] != self.keys@[b] by {
                    if b == before.len() {
                        assert(before[a] == self.keys@[a]);
                    }
                }
                assert forall|q: CellKey| self.seen@.contains(key_code(q) as u128) == self.keys@.contains(q) by {
                    lemma_key_code_bounds(q);
                    if key_code(q) as u128 == p {
                        lemma_key_code_injective(q, k);
                    }
                    if q == k {
                        assert(self.keys@[self.keys@.len() - 1] == k);
                    }
                    if before.contains(q) {
                        let t = choose|t: int| 0 <= t < before.len() && before[t] == q;
                        assert(self.keys@[t] == q);
                    }
                    if self.keys@.contains(q) && q != k {
                        let t = choose|t: int| 0 <= t < self.keys@.len() && self.keys@[t] == q;
                        assert(before[t] == q);
                    }
                }
            }
        } else {
            proof {
                lemma_key_code_bounds(k);
                assert(self.keys@.contains(k));
            }
        }
    }

    /// Whether `k` is listed.
    pub fn contains(&self, k: CellKey) -> (b: bool)
        requires
            self.inv(),
        ensures
            b == self@.contains(k),
    {
        broadcast use vstd::std_specs::hash::group_hash_axioms;
        proof {
            lemma_key_code_bounds(k);
        }
        let p = pack_key(k);
        self.seen.contains(&p)
    }

    /// The listed keys.
    pub fn into_vec(self) -> (v: Vec<CellKey>)
        requires
            self.inv(),
        ensures
            v@ == self@,
            v@.no_duplicates(),
    {
        self.keys
    }
}

impl<S> Octree<S> {
    /// The cells that `balance_key` names for the first `n` cells of `leaves`
    /// (all 6 directions each), then for the first `dirs` directions of cell
    /// `n`, in that order, repeats included.
    pub open spec fn balance_keys_upto(&self, leaves: Seq<CellKey>, n: int, dirs: int) -> Seq<CellKey>
        decreases n, dirs,
    {
        if dirs > 0 {
            let before = self.balance_keys_upto(leaves, n, dirs - 1);
            match self.balance_key(leaves[n], dirs - 1) {
                Some(k) => before.push(k),
                None => before,
            }
        } else if n > 0 {
            self.balance_keys_upto(leaves, n - 1, 6)
        } else {
            Seq::empty()
        }
    }

    /// `k` is named by `balance_key` for some face neighbor of one of the first
    /// `n` cells of `leaves`, or by one of the first `dirs` directions of cell `n`.
    pub open spec fn covered(&self, leaves: Seq<CellKey>, n: int, dirs: int, k: CellKey) -> bool {
        exists|j: int, d: int|
            (0 <= j < n && 0 <= d < 6 || j == n && 0 <= d < dirs) && #[trigger] self.balance_key(leaves[j], d)
                == Some(k)
    }

    /// The cells to subdivide for one round of 2:1 balancing: for every cell
    /// without children and each of its face neighbors, the neighbor's cell named
    /// by `balance_key`, each listed once.
    pub fn balance_violations(&self) -> (cells: Vec<CellKey>)
        requires
            self.within(31),
        ensures
            ({
                let leaves = listing(self.children@, self.root, 0, 0, 0, 0, Selection::Unrefined, 32);
                &&& forall|i: int| 0 <= i < cells.len() ==> #[trigger] self.covered(leaves, leaves.len() as int, 0, cells[i])
                &&& forall|j: int, dir: int|
                    0 <= j < leaves.len() && 0 <= dir < 6 && #[trigger] self.balance_key(leaves[j], dir) is Some
                        ==> cells@.contains(self.balance_key(leaves[j], dir)->0)
                &&& cells@.no_duplicates()
                &&& cells@ == first_occurrences(self.balance_keys_upto(leaves, leaves.len() as int, 0))
            }),
    {
        proof {
            lemma_valid_mono(self.children@, self.root, 31, 32);
            lemma_valid_mono(self.children@, self.root, 31, 255);
            vstd::arithmetic::power2::lemma_pow2_pos(0);
            lemma_listing_bounds(self.children@, self.root, 0, 0, 0, 0, Selection::Unrefined, 32, 31);
        }
        let leaves = self.collect_all_leaves();
        let ghost lv = leaves@;
        let mut cells = KeyList::new();
        let mut li: usize = 0;
        while li < leaves.len()
            invariant
                self.within(31),
                self.wf(),
                leaves@ == lv,
                lv == listing(self.children@, self.root, 0, 0, 0, 0, Selection::Unrefined, 32),
                forall|j: int| 0 <= j < lv.len() ==> {
                    let e = #[trigger] lv[j];
                    &&& e.3 <= 31
                    &&& (e.0 as int) < pow2(e.3 as nat)
                    &&& (e.1 as int) < pow2(e.3 as nat)
                    &&& (e.2 as int) < pow2(e.3 as nat)
                },
                li <= lv.len(),
                cells.inv(),
                cells@ == first_occurrences(self.balance_keys_upto(lv, li as int, 0)),
                forall|i: int| 0 <= i < cells@.len() ==> #[trigger] self.covered(lv, li as int, 0, cells@[i]),
                forall|j: int, dir: int|
                    0 <= j < li && 0 <= dir < 6 && #[trigger] self.balance_key(lv[j], dir) is Some
                        ==> cells@.contains(self.balance_key(lv[j], dir)->0),
            decreases lv.len() - li,
        {
            let (cx, cy, cz, depth) = leaves[li];
            proof {
                let e = lv[li as int];
                assert(e.3 <= 31);
            }
            if depth == 0 {
                proof {
                    assert(self.balance_keys_upto(lv, li as int, 1) == self.balance_keys_upto(lv, li as int, 0));
                    assert(self.balance_keys_upto(lv, li as int, 2) == self.balance_keys_upto(lv, li as int, 0));
                    assert(self.balance_keys_upto(lv, li as int, 3) == self.balance_keys_upto(lv, li as int, 0));
                    assert(self.balance_keys_upto(lv, li as int, 4) == self.balance_keys_upto(lv, li as int, 0));
                    assert(self.balance_keys_upto(lv, li as int, 5) == self.balance_keys_upto(lv, li as int, 0));
                    assert(self.balance_keys_upto(lv, li as int, 6) == self.balance_keys_upto(lv, li as int, 0));
                    assert forall|i: int| 0 <= i < cells@.len() implies #[trigger] self.covered(lv, li + 1, 0, cells@[i]) by {
                        assert(self.covered(lv, li as int, 0, cells@[i]));
                        let (j, d) = choose|j: int, d: int|
                            (0 <= j < li && 0 <= d < 6 || j == li && 0 <= d < 0) && #[trigger] self.balance_key(lv[j], d)
                                == Some(cells@[i]);
                        assert(self.balance_key(lv[j], d) == Some(cells@[i]));
                    }
                }
                li += 1;
                continue;
            }
            proof {
                vstd::bits::lemma_u32_pow2_no_overflow(depth as nat);
                assert forall|i: int| 0 <= i < cells@.len() implies #[trigger] self.covered(lv, li as int, 0, cells@[i]) by {
                }
            }
            let neighbors = face_neighbors(cx, cy, cz, depth);
            let is_surface = match self.cell_at(cx, cy, cz, depth) {
                (Cell::Leaf(data), _) => data.has_sign_change(),
                _ => false,
            };
            let mut dir: usize = 0;
            while dir < 6
                invariant
                    self.within(31),
                    self.wf(),
                    leaves@ == lv,
                    li < lv.len(),
                    lv[li as int] == (cx, cy, cz, depth),
                    depth > 0,
                    depth <= 31,
                    cx < u32::MAX && cy < u32::MAX && cz < u32::MAX,
                    forall|d: int| 0 <= d < 6 ==> #[trigger] neighbors[d] == face_neighbor_spec(cx, cy, cz, depth, d),
                    is_surface == is_surface_cell(self.lookup_cell(cx, cy, cz, depth)),
                    dir <= 6,
                    cells.inv(),
                    cells@ == first_occurrences(self.balance_keys_upto(lv, li as int, dir as int)),
                    forall|i: int| 0 <= i < cells@.len() ==> #[trigger] self.covered(lv, li as int, dir as int, cells@[i]),
                    forall|j: int, d: int|
                        (0 <= j < li && 0 <= d < 6 || j == li && 0 <= d < dir) && #[trigger] self.balance_key(lv[j], d) is Some
                            ==> cells@.contains(self.balance_key(lv[j], d)->0),
                decreases 6 - dir,
            {
                let ghost cells_before = cells@;
                if let Some((nx, ny, nz)) = neighbors[dir] {
                    proof {
                        lemma_descent_depth_bound(self.children@, self.root, nx, ny, nz, depth, 0, depth as nat);
                    }
                    let (ncell, actual) = self.cell_at(nx, ny, nz, depth);
                    let needs_balance = actual < depth - 1;
                    let needs_surface_prop = is_surface && actual < depth && !match ncell {
                        Cell::Leaf(data) => data.has_sign_change(),
                        _ => false,
                    };
                    if (needs_balance || needs_surface_prop) && actual >= self.min_depth {
                        proof {
                            vstd::bits::lemma_u32_pow2_no_overflow((depth - actual) as nat);
                            vstd::bits::lemma_u32_shl_is_mul(1, (depth - actual) as u32);
                            vstd::arithmetic::power2::lemma_pow2_pos((depth - actual) as nat);
                        }
                        let scale = 1u32 << (depth - actual) as u32;
                        let key = (nx / scale, ny / scale, nz / scale, actual);
                        assert(self.balance_key(lv[li as int], dir as int) == Some(key));
                        cells.add(key);
                        proof {
                            if !cells_before.contains(key) {
                                assert(cells@[cells_before.len() as int] == key);
                            }
                            lemma_first_occurrences_push(self.balance_keys_upto(lv, li as int, dir as int), key);
                        }
                    }
                }
                proof {
                    assert forall|i: int| 0 <= i < cells@.len() implies #[trigger] self.covered(lv, li as int, dir + 1, cells@[i]) by {
                        if i < cells_before.len() {
                            assert(cells@[i] == cells_before[i]);
                            assert(self.covered(lv, li as int, dir as int, cells_before[i]));
                            let (j, d) = choose|j: int, d: int|
                                (0 <= j < li && 0 <= d < 6 || j == li && 0 <= d < dir) && #[trigger] self.balance_key(lv[j], d)
                                    == Some(cells_before[i]);
                            assert(self.balance_key(lv[j], d) == Some(cells@[i]));
                        } else {
                            assert(self.balance_key(lv[li as int], dir as int) == Some(cells@[i]));
                        }
                    }
                    assert forall|j: int, d: int|
                        (0 <= j < li && 0 <= d < 6 || j == li && 0 <= d < dir + 1) && #[trigger] self.balance_key(lv[j], d) is Some
                            implies cells@.contains(self.balance_key(lv[j], d)->0) by {
                        if !(j == li && d == dir) {
                            assert(cells_before.contains(self.balance_key(lv[j], d)->0));
                            let t = choose|t: int| 0 <= t < cells_before.len() && cells_before[t] == self.balance_key(lv[j], d)->0;
                            assert(cells@[t] == cells_before[t]);
                        }
                    }
                }
                dir += 1;
            }
            proof {
                assert forall|i: int| 0 <= i < cells@.len() implies #[trigger] self.covered(lv, li + 1, 0, cells@[i]) by {
                    assert(self.covered(lv, li as int, 6, cells@[i]));
                    let (j, d) = choose|j: int, d: int|
                        (0 <= j < li && 0 <= d < 6 || j == li && 0 <= d < 6) && #[trigger] self.balance_key(lv[j], d)
                            == Some(cells@[i]);
                    assert(self.balance_key(lv[j], d) == Some(cells@[i]));
                }
            }
            li += 1;
        }
        cells.into_vec()
    }
}

/// 2:1 balance: where `balance_key` names nothing for a cell without children
/// and one of its face neighbors, the cell holding that neighbor position is
/// at most one level coarser, or a surface cell's coarser neighbor is itself
/// a surface cell, unless that cell lies above `min_depth`. So a tree for which
/// `balance_violations` finds nothing is balanced.
pub proof fn lemma_balanced_without_violations<S>(t: &Octree<S>, leaf: CellKey, dir: int)
    requires
        leaf.3 > 0,
        t.balance_key(leaf, dir) is None,
        face_neighbor_spec(leaf.0, leaf.1, leaf.2, leaf.3, dir) is Some,
    ensures
        ({
            let (nx, ny, nz) = face_neighbor_spec(leaf.0, leaf.1, leaf.2, leaf.3, dir)->0;
            let actual = t.lookup_depth(nx, ny, nz, leaf.3);
            ||| actual < t.min_depth
            ||| {
                &&& actual + 1 >= leaf.3
                &&& is_surface_cell(t.lookup_cell(leaf.0, leaf.1, leaf.2, leaf.3)) && actual < leaf.3
                    ==> is_surface_cell(t.lookup_cell(nx, ny, nz, leaf.3))
            }
        }),
{
}

} // verus!
