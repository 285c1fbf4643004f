//! Corner and edge numbering of a cubic cell.
//!
//! Corner `c` (0-7) has bit 0 = X, bit 1 = Y, bit 2 = Z (0 = min side, 1 = max side).
//! Edges are grouped by the axis they run along: 0-3 along X, 4-7 along Y,
//! 8-11 along Z; within a group the 4 edges are numbered by the bits of the
//! two remaining axes (the lower axis first).
use vstd::prelude::*;

verus! {

/// The corner-index weight of an axis: 1 for X, 2 for Y, 4 for Z.
pub open spec fn axis_weight(axis: int) -> int {
    if axis == 0 {
        1
    } else if axis == 1 {
        2
    } else {
        4
    }
}

/// The two axes other than `axis`, lower one first.
pub open spec fn other_axes(axis: int) -> (int, int) {
    if axis == 0 {
        (1, 2)
    } else if axis == 1 {
        (0, 2)
    } else {
        (0, 1)
    }
}

/// The two corners joined by edge `idx` (0-11): the corner on the min side of
/// the edge's axis first, then the one on its max side.
pub open spec fn edge_corner_spec(idx: int) -> (int, int) {
    let axis = idx / 4;
    let bits = idx % 4;
    let (a1, a2) = other_axes(axis);
    let c0 = axis_weight(a1) * (bits % 2) + axis_weight(a2) * (bits / 2);
    (c0, c0 + axis_weight(axis))
}

/// The two corner indices of edge `idx` (0-11).
pub fn edge_corners(idx: u8) -> (r: (u8, u8))
    requires
        idx < 12,
    ensures
        r.0 as int == edge_corner_spec(idx as int).0,
        r.1 as int == edge_corner_spec(idx as int).1,
{
    match idx {
        0 => (0b000, 0b001),
        1 => (0b010, 0b011),
        2 => (0b100, 0b101),
        3 => (0b110, 0b111),
        4 => (0b000, 0b010),
        5 => (0b001, 0b011),
        6 => (0b100, 0b110),
        7 => (0b101, 0b111),
        8 => (0b000, 0b100),
        9 => (0b001, 0b101),
        10 => (0b010, 0b110),
        _ => (0b011, 0b111),
    }
}

/// Each edge joins two distinct corners that differ in exactly one bit, the
/// bit of the edge's axis: the first corner has it clear, the second has it set.
pub proof fn lemma_edge_corners_differ_in_one_bit(idx: int)
    requires
        0 <= idx < 12,
    ensures
        0 <= edge_corner_spec(idx).0 < edge_corner_spec(idx).1 < 8,
        edge_corner_spec(idx).1 == edge_corner_spec(idx).0 + axis_weight(idx / 4),
        (edge_corner_spec(idx).0 / axis_weight(idx / 4)) % 2 == 0,
{
}

} // verus!
