use isomesh::eval::cache::EvalCache;
use isomesh::octree::balance::edge_neighbor;
use isomesh::octree::cell::{Cell, LeafData};
use isomesh::octree::refine::new_corner_positions;
use isomesh::octree::types::GridPos;
use isomesh::octree::Octree;

#[test]
fn eval_cache_keys_by_grid_position() {
    let mut cache: EvalCache<f64> = EvalCache::new();
    assert_eq!(cache.len(), 0);
    cache.insert(GridPos::new(1, 2, 3), 0.5);
    cache.insert(GridPos::new(3, 2, 1), -0.5);
    assert!(cache.contains(&GridPos::new(1, 2, 3)));
    assert!(!cache.contains(&GridPos::new(2, 1, 3)));
    assert_eq!(cache.get(&GridPos::new(3, 2, 1)), Some(&-0.5));
    cache.insert(GridPos::new(1, 2, 3), 2.0);
    assert_eq!(cache.get(&GridPos::new(1, 2, 3)), Some(&2.0));
    assert_eq!(cache.len(), 2);
    let empty: EvalCache<u8> = EvalCache::with_capacity(16);
    assert_eq!(empty.get(&GridPos::new(0, 0, 0)), None);
}

#[test]
fn split_needs_the_27_lattice_points() {
    let cache: EvalCache<f64> = EvalCache::new();
    let pts = new_corner_positions(&vec![(0, 0, 0, 0)], 1, &cache);
    assert_eq!(pts.len(), 27);
    assert_eq!(pts[0], GridPos::new(0, 0, 0));
    assert_eq!(pts[1], GridPos::new(1, 0, 0));
    // on a finer grid the lattice is scaled, and cached points are skipped
    let mut cache: EvalCache<f64> = EvalCache::new();
    cache.insert(GridPos::new(4, 0, 0), 1.0);
    let pts = new_corner_positions(&vec![(1, 0, 0, 1)], 3, &cache);
    assert_eq!(pts.len(), 26);
    assert!(pts.iter().all(|p| (4..=8).contains(&p.x) && p.y <= 4 && p.z <= 4));
    assert!(!pts.contains(&GridPos::new(4, 0, 0)));
    // shared points of neighboring cells are listed once
    let cache: EvalCache<f64> = EvalCache::new();
    let pts = new_corner_positions(&vec![(0, 0, 0, 1), (1, 0, 0, 1)], 2, &cache);
    assert_eq!(pts.len(), 45);
}

/// Samples of the grid of `depth`: inside exactly where x is 0.
fn plane_cache(depth: u32) -> EvalCache<(bool, f64)> {
    let mut cache = EvalCache::new();
    let n = 1u32 << depth;
    for z in 0..=n {
        for y in 0..=n {
            for x in 0..=n {
                let v = x as f64 - 0.5;
                cache.insert(GridPos::new(x, y, z), (v < 0.0, v));
            }
        }
    }
    cache
}

#[test]
fn split_cell_samples_children() {
    let cache = plane_cache(1);
    let mut tree: Octree<[f64; 8]> = Octree { root: Cell::Empty, children: Vec::new(), min_depth: 0, max_depth: 1 };
    tree.split_cell(&cache, (0, 0, 0, 0), 1);
    assert!(matches!(tree.root, Cell::Branch { children_index: 0 }));
    assert_eq!(tree.children.len(), 1);
    for o in 0..8 {
        match &tree.children[0][o] {
            Cell::Leaf(l) => {
                assert_eq!(o & 1, 0);
                // corners on x = 0 (bit 0 clear) are inside
                assert_eq!(l.corner_mask, 0x55);
                assert_eq!(l.samples[0], -0.5);
                assert_eq!(l.samples[1], 0.5);
            }
            Cell::Empty => assert_eq!(o & 1, 1),
            _ => panic!("unexpected child"),
        }
    }
}

#[test]
fn uniform_build_collapses_uniform_boxes() {
    // the cache is keyed on the grid of depth 3: the depth-1 corners sit at 0, 4, 8
    let cache = plane_cache(3);
    let tree = Octree::build_uniform(&cache, 1, 3);
    assert_eq!((tree.min_depth, tree.max_depth), (1, 3));
    assert!(matches!(tree.root, Cell::Branch { children_index: 0 }));
    for o in 0..8 {
        match &tree.children[0][o] {
            Cell::Leaf(l) => {
                assert_eq!(o & 1, 0);
                assert_eq!(l.corner_mask, 0x55);
            }
            Cell::Empty => assert_eq!(o & 1, 1),
            _ => panic!("unexpected child"),
        }
    }
    // all outside: one empty root, nothing stored
    let mut outside = EvalCache::new();
    for z in 0..=4u32 {
        for y in 0..=4u32 {
            for x in 0..=4u32 {
                outside.insert(GridPos::new(x, y, z), (false, 1.0f64));
            }
        }
    }
    let tree = Octree::build_uniform(&outside, 2, 2);
    assert!(matches!(tree.root, Cell::Empty));
    assert!(tree.children.is_empty());
    // depth 2: the x = 0 layer of cells is surface, the rest collapses
    let tree = Octree::build_uniform(&plane_cache(2), 2, 2);
    assert_eq!(tree.collect_surface_leaves(0).len(), 16);
    // 4 split depth-1 cells of 8 children each, and 4 collapsed empty ones
    assert_eq!(tree.collect_all_leaves().len(), 4 * 8 + 4);
}

#[test]
fn edge_neighbors_step_back_on_other_axes() {
    assert_eq!(edge_neighbor(2, 3, 4, 0, 0), Some((2, 2, 4)));
    assert_eq!(edge_neighbor(2, 3, 4, 0, 1), Some((2, 3, 3)));
    assert_eq!(edge_neighbor(2, 3, 4, 0, 2), Some((2, 2, 3)));
    assert_eq!(edge_neighbor(2, 3, 4, 1, 2), Some((1, 3, 3)));
    assert_eq!(edge_neighbor(2, 3, 4, 2, 0), Some((1, 3, 4)));
    assert_eq!(edge_neighbor(0, 3, 4, 1, 0), None);
    assert_eq!(edge_neighbor(2, 0, 4, 0, 1), None);
}

#[test]
fn edge_completion_finds_coarse_sharing_cells() {
    // depth-1 cell (1, 0, 0) is split; its child (2, 1, 1) at depth 2 is a
    // surface leaf whose Y and Z edges are shared with cells inside the empty
    // depth-1 cell (0, 0, 0)
    let mut inside = [false; 8];
    inside[0] = true;
    let leaf = LeafData::new(inside, ());
    let mut kids: [Cell<()>; 8] = std::array::from_fn(|_| Cell::Empty);
    kids[6] = Cell::Leaf(leaf);
    let mut top: [Cell<()>; 8] = std::array::from_fn(|_| Cell::Empty);
    top[1] = Cell::Branch { children_index: 0 };
    let tree = Octree { root: Cell::Branch { children_index: 1 }, children: vec![kids, top], min_depth: 0, max_depth: 2 };
    let surface = vec![((2, 1, 1, 2), inside)];
    // the X edge is shared with three empty depth-2 siblings, each named
    // itself; the Y and Z edges reach into the empty depth-1 cell (0, 0, 0)
    assert_eq!(
        tree.edge_completion_targets(&surface),
        vec![(2, 0, 1, 2), (2, 1, 0, 2), (2, 0, 0, 2), (0, 0, 0, 1)]
    );
    // a leaf without sign changes on its min-corner edges needs nothing
    let none = vec![((2, 1, 1, 2), [false; 8])];
    assert!(tree.edge_completion_targets(&none).is_empty());
}

#[test]
fn split_children_are_found_by_lookup() {
    // split the depth-1 cell (1, 0, 0) of a uniform depth-1 tree on the grid of depth 2
    let cache = plane_cache(2);
    let mut coarse = EvalCache::new();
    for z in 0..=4u32 {
        for y in 0..=4u32 {
            for x in 0..=4u32 {
                coarse.insert(GridPos::new(x, y, z), (false, 1.0f64));
            }
        }
    }
    let mut tree: Octree<[f64; 8]> = Octree::build_uniform(&coarse, 0, 2);
    tree.split_cell(&coarse, (0, 0, 0, 0), 1);
    tree.split_cell(&cache, (1, 0, 0, 1), 2);
    for octant in 0..8u32 {
        let (qx, qy, qz) = (2 + (octant & 1), (octant >> 1) & 1, (octant >> 2) & 1);
        let (cell, d) = tree.cell_at(qx, qy, qz, 2);
        assert_eq!(d, 2);
        // the children of (1, 0, 0) at depth 2 span x in [2, 4]: all outside
        assert!(matches!(cell, Cell::Empty));
    }
    // the other depth-1 cells stay unsplit
    let (cell, d) = tree.cell_at(0, 0, 0, 2);
    assert_eq!(d, 1);
    assert!(matches!(cell, Cell::Empty));
}

#[test]
fn edge_completion_splits_the_leaf_next_to_finer_cells() {
    // depth-1 leaf (1, 1, 1) with only corner 0 inside; the depth-1 cell
    // (1, 0, 0) around its X edge is split finer, the other cells are empty
    let mut inside = [false; 8];
    inside[0] = true;
    let mut top: [Cell<()>; 8] = std::array::from_fn(|_| Cell::Empty);
    top[1] = Cell::Branch { children_index: 0 };
    top[7] = Cell::Leaf(LeafData::new(inside, ()));
    let kids: [Cell<()>; 8] = std::array::from_fn(|_| Cell::Empty);
    let tree = Octree { root: Cell::Branch { children_index: 1 }, children: vec![kids, top], min_depth: 0, max_depth: 3 };
    let surface = vec![((1, 1, 1, 1), inside)];
    assert_eq!(
        tree.edge_completion_targets(&surface),
        vec![(1, 0, 1, 1), (1, 1, 0, 1), (1, 1, 1, 1), (0, 1, 1, 1), (0, 1, 0, 1), (0, 0, 1, 1)]
    );
    // listed surface leaves around the edges need nothing
    let all: Vec<((u32, u32, u32, u8), [bool; 8])> = [(1, 1, 1, 1), (1, 0, 1, 1), (1, 1, 0, 1), (1, 0, 0, 1), (0, 1, 1, 1), (0, 1, 0, 1), (0, 0, 1, 1)]
        .iter()
        .map(|&k| (k, [false; 8]))
        .collect();
    let mut listed = all.clone();
    listed[0].1 = inside;
    assert!(tree.edge_completion_targets(&listed).is_empty());
}

#[test]
fn refine_step_joins_balance_and_edge_completion() {
    // the tree of the edge completion example: its depth-2 leaf lies next to
    // the empty depth-1 cell (0, 0, 0), which balancing names first
    let mut inside = [false; 8];
    inside[0] = true;
    let mut kids: [Cell<()>; 8] = std::array::from_fn(|_| Cell::Empty);
    kids[6] = Cell::Leaf(LeafData::new(inside, ()));
    let mut top: [Cell<()>; 8] = std::array::from_fn(|_| Cell::Empty);
    top[1] = Cell::Branch { children_index: 0 };
    let tree = Octree { root: Cell::Branch { children_index: 1 }, children: vec![kids, top], min_depth: 0, max_depth: 2 };
    let surface = vec![((2, 1, 1, 2), inside)];
    let balance = tree.balance_violations();
    let edge = tree.edge_completion_targets(&surface);
    let step = tree.refine_step(&surface);
    let mut expected = balance.clone();
    for k in edge {
        if !expected.contains(&k) {
            expected.push(k);
        }
    }
    assert_eq!(step, expected);
    assert!(step.contains(&(0, 0, 0, 1)));
    // a uniform tree without surface leaves needs nothing
    let flat: Octree<()> = Octree { root: Cell::Empty, children: Vec::new(), min_depth: 0, max_depth: 2 };
    assert!(flat.refine_step(&Vec::new()).is_empty());
}

/// Which corners of `key` are inside, read on the grid of `max_depth`.
fn corner_signs(cache: &EvalCache<(bool, f64)>, key: (u32, u32, u32, u8), max_depth: u8) -> [bool; 8] {
    let s = 1u32 << (max_depth - key.3);
    let mut inside = [false; 8];
    for c in 0..8u32 {
        let p = GridPos::new(
            key.0 * s + (c & 1) * s,
            key.1 * s + ((c >> 1) & 1) * s,
            key.2 * s + ((c >> 2) & 1) * s,
        );
        inside[c as usize] = cache.get(&p).unwrap().0;
    }
    inside
}

#[test]
fn repeated_refine_steps_leave_a_balanced_complete_tree() {
    // inside below the plane x + y + z = 5.5 on the grid of depth 3
    let mut cache = EvalCache::new();
    for z in 0..=8u32 {
        for y in 0..=8u32 {
            for x in 0..=8u32 {
                let v = (x + y + z) as f64 - 5.5;
                cache.insert(GridPos::new(x, y, z), (v < 0.0, v));
            }
        }
    }
    let (min_depth, max_depth) = (1u8, 3u8);
    let mut tree: Octree<[f64; 8]> = Octree::build_uniform(&cache, min_depth, max_depth);
    // refine the corner cell two levels, next to depth-1 neighbors
    tree.split_cell(&cache, (0, 0, 0, 1), max_depth);
    tree.split_cell(&cache, (0, 0, 0, 2), max_depth);
    let mut rounds = 0;
    let surface = loop {
        let surface: Vec<((u32, u32, u32, u8), [bool; 8])> = tree
            .collect_surface_leaves(min_depth)
            .iter()
            .map(|&k| (k, corner_signs(&cache, k, max_depth)))
            .collect();
        let cells = tree.refine_step(&surface);
        if cells.is_empty() {
            break surface;
        }
        for cell in cells {
            tree.split_cell(&cache, cell, max_depth);
        }
        rounds += 1;
        assert!(rounds < 20);
    };
    assert!(rounds > 0);
    // 2:1 balance between face neighbors
    for (cx, cy, cz, d) in tree.collect_all_leaves() {
        if d == 0 {
            continue;
        }
        for n in isomesh::octree::face_neighbors(cx, cy, cz, d).iter().flatten() {
            let (_, actual) = tree.cell_at(n.0, n.1, n.2, d);
            assert!(actual + 1 >= d || actual < min_depth);
        }
    }
    // all four cells around every sign-changing min-corner edge are surface leaves
    let keys: Vec<(u32, u32, u32, u8)> = surface.iter().map(|e| e.0).collect();
    for &((cx, cy, cz, d), inside) in &surface {
        for axis in 0..3usize {
            let (c0, c1) = [(0usize, 1usize), (0, 2), (0, 4)][axis];
            if inside[c0] == inside[c1] {
                continue;
            }
            for which in 0..3usize {
                if let Some((nx, ny, nz)) = edge_neighbor(cx, cy, cz, axis, which) {
                    assert!(keys.contains(&(nx, ny, nz, d)));
                }
            }
        }
    }
}
