use isomesh::dc::cleanup::remove_small_components;
use isomesh::dc::component::{compute_components, component_table, CellComponents};
use isomesh::dc::extract::{
    component_offsets, quad_triangles, sign_change_edges, vertex_bases, vertex_for_edge, CellIndex, QuadInput,
};

#[test]
fn cell_index_finds_last_position() {
    let keys = vec![(0, 0, 0, 1), (1, 0, 0, 1), (0, 0, 0, 1), (3, 2, 1, 2)];
    let index = CellIndex::build(&keys);
    assert_eq!(index.find_neighbor(0, 0, 0, 1), Some(2));
    assert_eq!(index.find_neighbor(1, 0, 0, 1), Some(1));
    assert_eq!(index.find_neighbor(3, 2, 1, 2), Some(3));
    // same coordinates at another depth are another cell
    assert_eq!(index.find_neighbor(1, 0, 0, 2), None);
    assert_eq!(index.find_neighbor(5, 5, 5, 5), None);
}

#[test]
fn vertex_for_edge_picks_component_of_inside_corner() {
    let multi = compute_components(0x69);
    let single = compute_components(0x01);
    let comps = [multi, single, single];
    let bases = [Some(10), Some(20), None];
    // edge 5 joins corners 1 (outside) and 3 (inside)
    assert_eq!(vertex_for_edge(0, 5, 0x69, &comps, &bases), Some(10 + multi.corner_component[3] as usize));
    // edge 0 joins corners 0 (inside) and 1
    assert_eq!(vertex_for_edge(0, 0, 0x69, &comps, &bases), Some(10 + multi.corner_component[0] as usize));
    // a single component uses the cell's first vertex
    assert_eq!(vertex_for_edge(1, 7, 0x01, &comps, &bases), Some(20));
    // no vertices, no vertex
    assert_eq!(vertex_for_edge(2, 0, 0x01, &comps, &bases), None);
}

#[test]
fn sign_change_edges_lists_crossings_in_order() {
    let table = component_table();
    let masks = vec![0x01u8, 0x00, 0x03];
    let comps: Vec<CellComponents> = masks.iter().map(|m| table[*m as usize]).collect();
    let r = sign_change_edges(&masks, &comps);
    // corner 0 alone: the edges along X, Y and Z through it
    // corners 0 and 1: the Y and Z edges through each of them
    assert_eq!(r, vec![(0, 0, 0), (0, 4, 0), (0, 8, 0), (2, 4, 0), (2, 5, 0), (2, 8, 0), (2, 9, 0)]);
}

#[test]
fn component_offsets_are_prefix_sums() {
    let table = component_table();
    let comps = vec![table[0x69], table[0x01], table[0x00], table[0x81]];
    let (offsets, total) = component_offsets(&comps);
    assert_eq!(offsets, vec![0, 4, 5, 5]);
    assert_eq!(total, 7);
}

#[test]
fn vertex_bases_number_cells_with_a_solved_component() {
    let table = component_table();
    let comps = vec![table[0x69], table[0x01], table[0x00], table[0x81]];
    // components: cell 0 has 0..4, cell 1 has 4, cell 3 has 5..7
    let solved = vec![false, false, true, false, false, true, false];
    let (bases, count) = vertex_bases(&comps, &solved);
    assert_eq!(bases, vec![Some(0), None, None, Some(4)]);
    assert_eq!(count, 6);
    let (none, zero) = vertex_bases(&comps, &vec![false; 7]);
    assert_eq!(none, vec![None, None, None, None]);
    assert_eq!(zero, 0);
}

fn quad_input(first_mask: u8) -> QuadInput {
    let table = component_table();
    // the X edge through the min corner of (0, 1, 1) is shared with
    // (0, 0, 1), (0, 1, 0) and (0, 0, 0)
    let keys = vec![(0, 1, 1, 1), (0, 0, 1, 1), (0, 1, 0, 1), (0, 0, 0, 1)];
    let masks = vec![first_mask, 0x01, 0x01, 0x01];
    let components = masks.iter().map(|m| table[*m as usize]).collect();
    QuadInput { keys, masks, components, vertex_base: vec![Some(0), Some(1), Some(2), Some(3)] }
}

#[test]
fn one_quad_per_shared_sign_change_edge() {
    // corner 0 inside: counterclockwise order 0, 1, 3, 2
    assert_eq!(quad_input(0x01).generate_quads(), vec![(0, 1, 3, 2)]);
    // corner 1 inside instead: reversed
    assert_eq!(quad_input(0x02).generate_quads(), vec![(2, 3, 1, 0)]);
    // no sign change along X: no quad
    assert!(quad_input(0x03).generate_quads().is_empty());
    // a missing neighbor: no quad
    let mut q = quad_input(0x01);
    q.keys[3] = (0, 0, 0, 2);
    assert!(q.generate_quads().is_empty());
    // a cell without vertices: no quad
    let mut q = quad_input(0x01);
    q.vertex_base[2] = None;
    assert!(q.generate_quads().is_empty());
}

#[test]
fn quads_split_into_triangles() {
    assert_eq!(quad_triangles((0, 1, 2, 3), true), vec![(0, 1, 2), (0, 2, 3)]);
    assert_eq!(quad_triangles((0, 1, 2, 3), false), vec![(0, 1, 3), (1, 2, 3)]);
    // a repeated vertex drops the degenerate triangle
    assert_eq!(quad_triangles((0, 0, 1, 2), true), vec![(0, 1, 2)]);
    assert_eq!(quad_triangles((5, 5, 5, 5), false), vec![]);
}

#[test]
fn keeps_largest_component() {
    let vertices: Vec<u32> = (0..7).collect();
    let faces = vec![[0, 1, 2], [0, 2, 3], [4, 5, 6]];
    let (v, f) = remove_small_components(vertices.clone(), faces);
    assert_eq!(v, vec![0, 1, 2, 3]);
    assert_eq!(f, vec![[0, 1, 2], [0, 2, 3]]);
    // the larger component second: vertices renumbered
    let faces = vec![[0, 1, 2], [3, 4, 5], [3, 5, 6]];
    let (v, f) = remove_small_components(vertices.clone(), faces);
    assert_eq!(v, vec![3, 4, 5, 6]);
    assert_eq!(f, vec![[0, 1, 2], [0, 2, 3]]);
}

#[test]
fn single_component_is_unchanged() {
    // unused vertices stay when nothing is dropped
    let vertices: Vec<u32> = (0..6).collect();
    let faces = vec![[0, 1, 2], [2, 3, 4]];
    let (v, f) = remove_small_components(vertices.clone(), faces.clone());
    assert_eq!(v, vertices);
    assert_eq!(f, faces);
    let (v, f) = remove_small_components(vertices.clone(), Vec::new());
    assert_eq!(v, vertices);
    assert!(f.is_empty());
}

#[test]
fn components_join_through_second_and_third_vertices() {
    // faces linked only through vertex 2 (the third of the first face, the
    // second of the other) form one component
    let vertices: Vec<u32> = (0..8).collect();
    let faces = vec![[0, 1, 2], [2, 3, 4], [5, 6, 7]];
    let (v, f) = remove_small_components(vertices, faces);
    assert_eq!(v, vec![0, 1, 2, 3, 4]);
    assert_eq!(f, vec![[0, 1, 2], [2, 3, 4]]);
}

#[test]
fn at_most_four_components() {
    for mask in 0..=255u8 {
        assert!(compute_components(mask).num_components <= 4);
    }
}

#[test]
fn quads_refer_to_numbered_vertices() {
    let table = component_table();
    let keys = vec![(0, 1, 1, 1), (0, 0, 1, 1), (0, 1, 0, 1), (0, 0, 0, 1)];
    let masks = vec![0x01u8, 0x01, 0x01, 0x01];
    let components: Vec<CellComponents> = masks.iter().map(|m| table[*m as usize]).collect();
    let solved = vec![true, false, true, true];
    let (bases, count) = vertex_bases(&components, &solved);
    assert_eq!(count, 3);
    let input = QuadInput { keys, masks, components, vertex_base: bases };
    // the cell without a solved component has no vertex, so no quad
    assert!(input.generate_quads().is_empty());
    let (bases, count) = vertex_bases(&input.components, &vec![true; 4]);
    let input = QuadInput { vertex_base: bases, ..input };
    let quads = input.generate_quads();
    assert_eq!(quads, vec![(0, 1, 3, 2)]);
    for (a, b, c, d) in quads {
        assert!(a < count && b < count && c < count && d < count);
    }
}
