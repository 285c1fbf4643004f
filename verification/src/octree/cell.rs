//! Octree cells.
use vstd::prelude::*;
use crate::dc::component::corner_inside;

verus! {

/// Data stored at a leaf cell. `S` holds the sampled corner data (function values
/// and gradients), which the octree carries along without reading it.
pub struct LeafData<S> {
    /// Bitmask: bit i = 1 if corner i is inside (value below the iso value).
    pub corner_mask: u8,
    /// The sampled corner data.
    pub samples: S,
    /// Index of this cell's first vertex; set during extraction.
    pub vertex_start: u32,
    /// Number of vertices in this cell (one per connected component).
    pub vertex_count: u8,
    /// Edge intersection data indices.
    pub edge_intersections: [Option<u32>; 12],
}

/// A single octree cell.
pub enum Cell<S> {
    /// Entirely outside the surface.
    Empty,
    /// Entirely inside the surface.
    Full,
    /// Interior node with 8 children, stored at `children[children_index]` of the octree.
    Branch { children_index: u32 },
    /// Leaf cell that may contain surface crossings.
    Leaf(LeafData<S>),
}

proof fn lemma_mask_empty(j: u8)
    by (bit_vector)
    requires
        j < 8,
    ensures
        (0u8 >> j) & 1 == 0,
{
}

proof fn lemma_mask_set_bit(m: u8, i: u8, j: u8)
    by (bit_vector)
    requires
        i < 8,
        j < 8,
    ensures
        ((m | (1u8 << i)) >> j) & 1 == if j == i { 1u8 } else { (m >> j) & 1 },
{
}

impl<S> LeafData<S> {
    /// A leaf whose corner `i` is inside exactly when `inside[i]` holds, with no
    /// vertices and no edge intersections yet.
    pub fn new(inside: [bool; 8], samples: S) -> (leaf: Self)
        ensures
            forall|i: int| 0 <= i < 8 ==> #[trigger] corner_inside(leaf.corner_mask, i) == inside[i],
            leaf.samples == samples,
            leaf.vertex_start == 0,
            leaf.vertex_count == 0,
            forall|e: int| 0 <= e < 12 ==> #[trigger] leaf.edge_intersections[e] is None,
    {
        let mut mask = 0u8;
        proof {
            assert forall|j: int| 0 <= j < 8 implies #[trigger] corner_inside(0u8, j) == false by {
                lemma_mask_empty(j as u8);
            }
        }
        for i in 0..8u8
            invariant
                forall|j: int| 0 <= j < 8 ==> #[trigger] corner_inside(mask, j) == (j < i && inside[j]),
        {
            if inside[i as usize] {
                proof {
                    assert forall|j: int| 0 <= j < 8 implies #[trigger] corner_inside(mask | (1u8 << i), j)
                        == (j < i + 1 && inside[j]) by {
                        let jj = j as u8;
                        lemma_mask_set_bit(mask, i, jj);
                        assert(jj as int == j);
                        assert(corner_inside(mask, j) == (j < i && inside[j]));
                        if j == i as int {
                            assert(inside[j]);
                            assert(((mask | (1u8 << i)) >> jj) & 1 == 1u8);
                        } else {
                            assert(((mask | (1u8 << i)) >> jj) & 1 == (mask >> jj) & 1);
                        }
                    }
                }
                mask = mask | (1u8 << i);
            }
        }
        LeafData {
            corner_mask: mask,
            samples,
            vertex_start: 0,
            vertex_count: 0,
            edge_intersections: [None; 12],
        }
    }

    /// Whether this leaf has both inside and outside corners.
    pub fn has_sign_change(&self) -> (b: bool)
        ensures
            b == (self.corner_mask != 0 && self.corner_mask != 0xFF),
    {
        self.corner_mask != 0 && self.corner_mask != 0xFF
    }
}

impl<S> Cell<S> {
    /// Whether the cell has no children (a leaf, empty or full cell).
    pub fn is_leaf(&self) -> (b: bool)
        ensures
            b == !(*self is Branch),
    {
        match self {
            Cell::Branch { .. } => false,
            _ => true,
        }
    }

    /// Whether the cell is an interior node.
    pub fn is_branch(&self) -> (b: bool)
        ensures
            b == (*self is Branch),
    {
        match self {
            Cell::Branch { .. } => true,
            _ => false,
        }
    }
}

} // verus!
