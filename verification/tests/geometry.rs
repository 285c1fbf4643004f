use isomesh::bbox::edge_corners;
use isomesh::eval::cache::corner_grid_pos;
use isomesh::octree::face_neighbors;
use isomesh::octree::types::GridPos;

#[test]
fn test_edge_corners_consistency() {
    // Each edge should connect two corners that differ in exactly one bit
    for i in 0..12u8 {
        let (a, b) = edge_corners(i);
        let diff = a ^ b;
        assert!(diff.count_ones() == 1, "Edge {} corners {} and {} differ in {} bits", i, a, b, diff.count_ones());
    }
}

#[test]
fn edge_corners_grouped_by_axis() {
    assert_eq!(edge_corners(0), (0, 1));
    assert_eq!(edge_corners(3), (6, 7));
    assert_eq!(edge_corners(5), (1, 3));
    assert_eq!(edge_corners(6), (4, 6));
    assert_eq!(edge_corners(9), (1, 5));
    assert_eq!(edge_corners(11), (3, 7));
}

#[test]
fn test_face_neighbors_interior() {
    let neighbors = face_neighbors(2, 3, 4, 4);
    assert_eq!(neighbors[0], Some((1, 3, 4))); // -X
    assert_eq!(neighbors[1], Some((3, 3, 4))); // +X
    assert_eq!(neighbors[2], Some((2, 2, 4))); // -Y
    assert_eq!(neighbors[3], Some((2, 4, 4))); // +Y
    assert_eq!(neighbors[4], Some((2, 3, 3))); // -Z
    assert_eq!(neighbors[5], Some((2, 3, 5))); // +Z
}

#[test]
fn test_face_neighbors_boundary() {
    // At origin: -X, -Y, -Z are out of bounds
    let neighbors = face_neighbors(0, 0, 0, 3);
    assert_eq!(neighbors[0], None); // -X
    assert_eq!(neighbors[1], Some((1, 0, 0))); // +X
    assert_eq!(neighbors[2], None); // -Y
    assert_eq!(neighbors[4], None); // -Z

    // At max corner: +X, +Y, +Z are out of bounds (max = 2^3 = 8)
    let neighbors = face_neighbors(7, 7, 7, 3);
    assert_eq!(neighbors[0], Some((6, 7, 7))); // -X
    assert_eq!(neighbors[1], None); // +X
    assert_eq!(neighbors[3], None); // +Y
    assert_eq!(neighbors[5], None); // +Z
}

#[test]
fn face_neighbors_at_depth_zero() {
    assert_eq!(face_neighbors(0, 0, 0, 0), [None; 6]);
}

#[test]
fn corner_grid_pos_offsets() {
    assert_eq!(corner_grid_pos(4, 5, 6, 0), GridPos::new(4, 5, 6));
    assert_eq!(corner_grid_pos(4, 5, 6, 1), GridPos::new(5, 5, 6));
    assert_eq!(corner_grid_pos(4, 5, 6, 6), GridPos::new(4, 6, 7));
    assert_eq!(corner_grid_pos(4, 5, 6, 7), GridPos::new(5, 6, 7));
    assert_eq!(corner_grid_pos(u32::MAX, 0, 0, 6), GridPos::new(u32::MAX, 1, 1));
}
