use isomesh::octree::cell::{Cell, LeafData};
use isomesh::octree::{compute_path, Octree};

fn leaf_from_values(values: [f64; 8], iso_value: f64) -> LeafData<[f64; 8]> {
    let mut inside = [false; 8];
    for i in 0..8 {
        inside[i] = values[i] < iso_value;
    }
    LeafData::new(inside, values)
}

/// Build a minimal test octree: root is Branch with 8 children.
/// Child 0 (octant 000) is a Leaf with a sign change.
/// All other children are Empty.
fn make_test_octree() -> Octree<[f64; 8]> {
    let mut corner_values = [1.0f64; 8];
    corner_values[0] = -1.0; // corner 0 inside → sign change
    let leaf = leaf_from_values(corner_values, 0.0);

    let children: [Cell<[f64; 8]>; 8] = [
        Cell::Leaf(leaf),
        Cell::Empty,
        Cell::Empty,
        Cell::Empty,
        Cell::Empty,
        Cell::Empty,
        Cell::Empty,
        Cell::Empty,
    ];

    let mut children_storage = Vec::new();
    children_storage.push(children);

    Octree {
        root: Cell::Branch { children_index: 0 },
        children: children_storage,
        min_depth: 1,
        max_depth: 1,
    }
}

/// Build a 2-level test octree: root → Branch → child 0 is Branch → 8 leaves.
fn make_depth2_octree() -> Octree<[f64; 8]> {
    let sign_values = {
        let mut v = [1.0; 8];
        v[0] = -1.0;
        v
    };

    // Level 2: 8 children of child 0
    let level2_children: [Cell<[f64; 8]>; 8] = std::array::from_fn(|i| {
        if i == 0 {
            Cell::Leaf(leaf_from_values(sign_values, 0.0))
        } else {
            Cell::Leaf(leaf_from_values([1.0; 8], 0.0))
        }
    });

    let mut children_storage = Vec::new();
    // Index 0: level 2 children (children of octant 0)
    children_storage.push(level2_children);

    // Index 1: level 1 children (root's children)
    let level1_children: [Cell<[f64; 8]>; 8] = [
        Cell::Branch { children_index: 0 }, // octant 0 has sub-children
        Cell::Empty,
        Cell::Empty,
        Cell::Empty,
        Cell::Empty,
        Cell::Empty,
        Cell::Empty,
        Cell::Empty,
    ];
    children_storage.push(level1_children);

    Octree {
        root: Cell::Branch { children_index: 1 },
        children: children_storage,
        min_depth: 1,
        max_depth: 2,
    }
}

#[test]
fn test_cell_at_depth1_leaf() {
    let octree = make_test_octree();
    // Octant 0 (0,0,0) at depth 1 should be the Leaf
    let (cell, depth) = octree.cell_at(0, 0, 0, 1);
    assert_eq!(depth, 1);
    assert!(matches!(cell, Cell::Leaf(_)));
}

#[test]
fn test_cell_at_depth1_empty() {
    let octree = make_test_octree();
    // Octant 7 (1,1,1) at depth 1 should be Empty
    let (cell, depth) = octree.cell_at(1, 1, 1, 1);
    assert_eq!(depth, 1);
    assert!(matches!(cell, Cell::Empty));
}

#[test]
fn test_cell_at_coarser_return() {
    let octree = make_test_octree();
    // Query depth 2 at (2, 2, 2): octant 7 at depth 1 is Empty.
    // cell_at should return early at depth 1 with Empty.
    let (cell, actual_depth) = octree.cell_at(2, 2, 2, 2);
    assert_eq!(actual_depth, 1);
    assert!(matches!(cell, Cell::Empty));
}

#[test]
fn test_cell_at_depth2() {
    let octree = make_depth2_octree();
    // (0,0,0) at depth 2 should be the sign-change Leaf
    let (cell, depth) = octree.cell_at(0, 0, 0, 2);
    assert_eq!(depth, 2);
    assert!(matches!(cell, Cell::Leaf(_)));

    // (1,0,0) at depth 2: child of octant 0 at depth 1, octant 1 at depth 2
    let (cell, depth) = octree.cell_at(1, 0, 0, 2);
    assert_eq!(depth, 2);
    // This is the leaf_empty (no sign change)
    assert!(matches!(cell, Cell::Leaf(_)));
}

#[test]
fn test_cell_at_mixed_depth() {
    let octree = make_depth2_octree();
    // (2, 0, 0) at depth 2: octant 1 at depth 1 is Empty → returns at depth 1
    let (cell, actual_depth) = octree.cell_at(2, 0, 0, 2);
    assert_eq!(actual_depth, 1);
    assert!(matches!(cell, Cell::Empty));
}

#[test]
fn cell_at_depth_zero_is_root() {
    let octree = make_depth2_octree();
    let (cell, d) = octree.cell_at(5, 5, 5, 0);
    assert_eq!(d, 0);
    assert!(cell.is_branch());
}

#[test]
fn leaf_mask_and_sign_change() {
    let l = leaf_from_values([-1.0, 1.0, 1.0, 1.0, 1.0, 1.0, 1.0, -2.0], 0.0);
    assert_eq!(l.corner_mask, 0b1000_0001);
    assert!(l.has_sign_change());
    assert_eq!(l.vertex_count, 0);
    assert_eq!(l.edge_intersections, [None; 12]);
    let all_in = leaf_from_values([-1.0; 8], 0.0);
    assert_eq!(all_in.corner_mask, 0xFF);
    assert!(!all_in.has_sign_change());
    let none_in = leaf_from_values([0.0; 8], 0.0);
    assert_eq!(none_in.corner_mask, 0);
    assert!(!none_in.has_sign_change());
}

#[test]
fn cell_kinds() {
    assert!(Cell::<()>::Empty.is_leaf());
    assert!(Cell::<()>::Full.is_leaf());
    assert!(!Cell::<()>::Branch { children_index: 0 }.is_leaf());
    assert!(Cell::<()>::Branch { children_index: 0 }.is_branch());
    assert!(!Cell::<()>::Empty.is_branch());
    assert!(matches!(Cell::from_leaf(LeafData::new([true; 8], ())), Cell::Full));
    assert!(matches!(Cell::from_leaf(LeafData::new([false; 8], ())), Cell::Empty));
    let mut some = [false; 8];
    some[3] = true;
    assert!(matches!(Cell::from_leaf(LeafData::new(some, ())), Cell::Leaf(_)));
}

#[test]
fn stats_count_cells() {
    let octree = make_depth2_octree();
    let stats = octree.stats();
    assert_eq!(stats.leaf_count, 8);
    assert_eq!(stats.branch_count, 2);
    assert_eq!(stats.empty_count, 7);
    assert_eq!(stats.full_count, 0);
    assert_eq!(stats.max_actual_depth, 2);
    assert_eq!(stats.total_evaluations, 0);

    let small = make_test_octree();
    let s = small.stats();
    assert_eq!((s.leaf_count, s.branch_count, s.empty_count, s.full_count, s.max_actual_depth), (1, 1, 7, 0, 1));
}

#[test]
fn compute_path_follows_grid_bits() {
    // grid of depth 3: position (5, 2, 7) = (101, 010, 111)
    let p = compute_path(5, 2, 7, 3, 3);
    assert_eq!(p, vec![1 | 0 | 4, 0 | 2 | 4, 1 | 0 | 4]);
    assert_eq!(compute_path(4, 0, 0, 1, 3), vec![1]);
    assert!(compute_path(4, 0, 0, 0, 3).is_empty());
    // positions past the grid take the upper half at every level
    assert_eq!(compute_path(9, 0, 0, 3, 3), vec![1, 1, 1]);
}

#[test]
fn collect_listings_in_octant_order() {
    let octree = make_depth2_octree();
    let all = octree.collect_all_leaves();
    assert_eq!(all.len(), 15);
    assert_eq!(all[0], (0, 0, 0, 2));
    assert_eq!(all[1], (1, 0, 0, 2));
    assert_eq!(all[7], (1, 1, 1, 2));
    assert_eq!(all[8], (1, 0, 0, 1));
    assert_eq!(all[14], (1, 1, 1, 1));
    assert_eq!(octree.collect_leaf_cells().len(), 8);
    assert_eq!(octree.collect_surface_leaves(1), vec![(0, 0, 0, 2)]);
    assert!(octree.collect_surface_leaves(3).is_empty());
    assert_eq!(octree.collect_coarse_surface_leaves(3), vec![(0, 0, 0, 2)]);
    assert!(octree.collect_coarse_surface_leaves(2).is_empty());
}

#[test]
fn subdivide_replaces_the_cell_on_the_path() {
    let mut octree = make_test_octree();
    // split the Empty cell at octant 7 of depth 1 (grid of depth 2: (2, 2, 2))
    let kids: [Cell<[f64; 8]>; 8] = std::array::from_fn(|_| Cell::Full);
    octree.subdivide(2, 2, 2, 1, 2, kids);
    assert_eq!(octree.children.len(), 2);
    assert!(matches!(octree.children[0][7], Cell::Branch { children_index: 1 }));
    let (cell, d) = octree.cell_at(3, 3, 3, 2);
    assert_eq!(d, 2);
    assert!(matches!(cell, Cell::Full));
    // the root itself
    let mut single: Octree<()> = Octree { root: Cell::Empty, children: Vec::new(), min_depth: 0, max_depth: 1 };
    single.subdivide(0, 0, 0, 0, 1, std::array::from_fn(|_| Cell::Empty));
    assert!(matches!(single.root, Cell::Branch { children_index: 0 }));
}

#[test]
fn balance_finds_coarse_neighbors() {
    let mut octree = make_depth2_octree();
    // refine the depth-2 cell (1,0,0) once more: its depth-3 children at x = 3
    // now touch the depth-1 empty cell (1,0,0), two levels coarser
    let kids: [Cell<[f64; 8]>; 8] = std::array::from_fn(|_| Cell::Empty);
    octree.subdivide(2, 0, 0, 2, 3, kids);
    let cells = octree.balance_violations();
    assert_eq!(cells, vec![(1, 0, 0, 1)]);
    // below min_depth nothing is subdivided
    octree.min_depth = 2;
    assert!(octree.balance_violations().is_empty());
    // a balanced tree has nothing to subdivide
    let flat = make_test_octree();
    assert!(flat.balance_violations().is_empty());
}

#[test]
fn balance_propagates_from_surface_cells() {
    // a surface leaf at depth 2 next to an empty cell at depth 1
    let mut octree = make_depth2_octree();
    octree.min_depth = 0;
    let mut v = [1.0; 8];
    v[1] = -1.0; // corner 1 (x max) inside
    octree.children[0][1] = Cell::Leaf(leaf_from_values(v, 0.0));
    let cells = octree.balance_violations();
    assert_eq!(cells, vec![(1, 0, 0, 1)]);
}

#[test]
fn splitting_the_violations_balances_the_tree() {
    let mut octree = make_depth2_octree();
    let kids: [Cell<[f64; 8]>; 8] = std::array::from_fn(|_| Cell::Empty);
    octree.subdivide(2, 0, 0, 2, 3, kids);
    let cells = octree.balance_violations();
    assert_eq!(cells, vec![(1, 0, 0, 1)]);
    // split (1, 0, 0) at depth 1: grid position (4, 0, 0) on the grid of depth 3
    octree.subdivide(4, 0, 0, 1, 3, std::array::from_fn(|_| Cell::Empty));
    assert!(octree.balance_violations().is_empty());
    // every face neighbor of every cell without children is at most one level coarser
    for (cx, cy, cz, d) in octree.collect_all_leaves() {
        if d == 0 {
            continue;
        }
        for n in isomesh::octree::face_neighbors(cx, cy, cz, d).iter().flatten() {
            let (_, actual) = octree.cell_at(n.0, n.1, n.2, d);
            assert!(actual + 1 >= d);
        }
    }
}
