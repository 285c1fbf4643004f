use isomesh::bbox::edge_corners;
use isomesh::dc::component::{component_table, compute_components, edge_component};

/// Reference BFS implementation for verifying the lookup table.
fn reference_components(corner_mask: u8) -> (u8, [u8; 8]) {
    if corner_mask == 0 || corner_mask == 0xFF {
        return (0, [0xFF; 8]);
    }

    let edges: [(u8, u8); 12] = [
        (0, 1), (2, 3), (4, 5), (6, 7),
        (0, 2), (1, 3), (4, 6), (5, 7),
        (0, 4), (1, 5), (2, 6), (3, 7),
    ];

    // Build adjacency list for inside corners
    let mut adj: [u8; 8] = [0; 8]; // bitmask of neighbors
    for &(c0, c1) in &edges {
        if (corner_mask >> c0) & 1 == 1 && (corner_mask >> c1) & 1 == 1 {
            adj[c0 as usize] |= 1 << c1;
            adj[c1 as usize] |= 1 << c0;
        }
    }

    // BFS to find components
    let mut visited = 0u8;
    let mut corner_comp = [0xFFu8; 8];
    let mut num_comp = 0u8;

    for start in 0..8u8 {
        if (corner_mask >> start) & 1 == 0 {
            continue; // outside
        }
        if (visited >> start) & 1 == 1 {
            continue; // already visited
        }

        // BFS from this corner
        let mut queue = [0u8; 8];
        let mut head = 0;
        let mut tail = 0;
        queue[tail] = start;
        tail += 1;
        visited |= 1 << start;
        corner_comp[start as usize] = num_comp;

        while head < tail {
            let cur = queue[head];
            head += 1;
            for nb in 0..8u8 {
                if (adj[cur as usize] >> nb) & 1 == 1 && (visited >> nb) & 1 == 0 {
                    visited |= 1 << nb;
                    corner_comp[nb as usize] = num_comp;
                    queue[tail] = nb;
                    tail += 1;
                }
            }
        }

        num_comp += 1;
    }

    (num_comp, corner_comp)
}

#[test]
fn test_all_256_corner_masks() {
    let table_all = component_table();
    for mask in 0..=255u8 {
        let computed = compute_components(mask);
        let table = table_all[mask as usize];
        let (ref_count, ref_comp) = reference_components(mask);

        // Verify compute_components matches reference
        assert_eq!(
            computed.num_components, ref_count,
            "mask 0x{:02X}: compute_components gave {} components, reference gave {}",
            mask, computed.num_components, ref_count
        );
        assert_eq!(
            computed.corner_component, ref_comp,
            "mask 0x{:02X}: component assignment mismatch",
            mask
        );

        // Verify the table matches reference
        assert_eq!(
            table.num_components, ref_count,
            "mask 0x{:02X}: COMPONENT_TABLE gave {} components, reference gave {}",
            mask, table.num_components, ref_count
        );
        assert_eq!(
            table.corner_component, ref_comp,
            "mask 0x{:02X}: COMPONENT_TABLE assignment mismatch",
            mask
        );

        // Verify table matches compute_components
        assert_eq!(
            computed, table,
            "mask 0x{:02X}: compute_components and COMPONENT_TABLE disagree",
            mask
        );
    }
}

#[test]
fn test_empty_and_full() {
    let empty = compute_components(0x00);
    assert_eq!(empty.num_components, 0);
    assert_eq!(empty.corner_component, [0xFF; 8]);

    let full = compute_components(0xFF);
    assert_eq!(full.num_components, 0);
    assert_eq!(full.corner_component, [0xFF; 8]);
}

#[test]
fn test_single_corner() {
    for i in 0..8u8 {
        let mask = 1 << i;
        let c = compute_components(mask);
        assert_eq!(c.num_components, 1, "single corner {}: expected 1 component", i);
        assert_eq!(c.corner_component[i as usize], 0, "corner {} should be component 0", i);
        for j in 0..8u8 {
            if j != i {
                assert_eq!(c.corner_component[j as usize], 0xFF);
            }
        }
    }
}

#[test]
fn test_two_adjacent_corners() {
    // Corners 0 and 1 share edge 0 (X-axis) → 1 component
    let c = compute_components(0b00000011);
    assert_eq!(c.num_components, 1);
    assert_eq!(c.corner_component[0], 0);
    assert_eq!(c.corner_component[1], 0);
}

#[test]
fn test_two_body_diagonal_corners() {
    // Corners 0 (000) and 7 (111) differ in 3 bits → no shared edge → 2 components
    let c = compute_components(0b10000001);
    assert_eq!(c.num_components, 2);
    assert_ne!(c.corner_component[0], c.corner_component[7]);
}

#[test]
fn test_two_face_diagonal_corners() {
    // Corners 0 (000) and 3 (011) differ in 2 bits (Y,X) → no shared edge → 2 components
    let c = compute_components(0b00001001);
    assert_eq!(c.num_components, 2);
    assert_ne!(c.corner_component[0], c.corner_component[3]);
}

#[test]
fn test_checkerboard_4_components() {
    // 0x69 = 0b01101001: corners {0, 3, 5, 6}, no pair shares an edge → 4 components
    let c = compute_components(0x69);
    assert_eq!(c.num_components, 4, "checkerboard 0x69 should have 4 components");
}

#[test]
fn test_inverse_checkerboard_4_components() {
    // 0x96 = 0b10010110: corners {1, 2, 4, 7} — complement of 0x69
    let c = compute_components(0x96);
    assert_eq!(c.num_components, 4, "inverse checkerboard 0x96 should have 4 components");
}

#[test]
fn test_face_connected() {
    // Corners 0,1,2,3 = bottom face (Z=0). All share edges. → 1 component
    let c = compute_components(0b00001111);
    assert_eq!(c.num_components, 1);
    for i in 0..4 {
        assert_eq!(c.corner_component[i], 0);
    }
}

#[test]
fn test_edge_component_function() {
    // Mask 0b00000001 (only corner 0 inside)
    // Edge 0: corners (0, 1), corner 0 is inside
    let c = compute_components(0b00000001);
    assert_eq!(edge_component(&c, 0b00000001, 0), 0);

    // Edge 4: corners (0, 2), corner 0 is inside
    assert_eq!(edge_component(&c, 0b00000001, 4), 0);

    // Edge 8: corners (0, 4), corner 0 is inside
    assert_eq!(edge_component(&c, 0b00000001, 8), 0);
}

#[test]
fn test_edge_component_multi() {
    // Mask 0x69: corners {0, 3, 5, 6}, each in its own component
    let c = compute_components(0x69);

    // Edge 0: corners (0, 1). Corner 0 is inside (comp 0), corner 1 outside
    let comp_e0 = edge_component(&c, 0x69, 0);
    assert_eq!(comp_e0, c.corner_component[0]);

    // Edge 5: corners (1, 3). Corner 1 outside, corner 3 inside
    let comp_e5 = edge_component(&c, 0x69, 5);
    assert_eq!(comp_e5, c.corner_component[3]);
}

#[test]
fn test_every_sign_change_edge_has_valid_component() {
    let table = component_table();
    for mask in 1..=254u8 {
        let c = table[mask as usize];
        if c.num_components == 0 {
            continue;
        }
        for edge in 0..12u8 {
            let (c0, c1) = edge_corners(edge);
            let s0 = (mask >> c0) & 1;
            let s1 = (mask >> c1) & 1;
            if s0 != s1 {
                // Sign change edge
                let comp = edge_component(&c, mask, edge);
                assert!(
                    comp < c.num_components,
                    "mask 0x{:02X} edge {}: component {} >= num_components {}",
                    mask, edge, comp, c.num_components
                );
            }
        }
    }
}

#[test]
fn test_outside_corners_always_0xff() {
    let table = component_table();
    for mask in 0..=255u8 {
        let c = table[mask as usize];
        for i in 0..8u8 {
            if (mask >> i) & 1 == 0 {
                assert_eq!(
                    c.corner_component[i as usize], 0xFF,
                    "mask 0x{:02X} corner {}: outside corner should be 0xFF",
                    mask, i
                );
            }
        }
    }
}

#[test]
fn test_inside_corners_have_valid_component() {
    let table = component_table();
    for mask in 1..=254u8 {
        let c = table[mask as usize];
        for i in 0..8u8 {
            if (mask >> i) & 1 == 1 {
                assert!(
                    c.corner_component[i as usize] < c.num_components,
                    "mask 0x{:02X} corner {}: component {} >= num_components {}",
                    mask, i, c.corner_component[i as usize], c.num_components
                );
            }
        }
    }
}

#[test]
fn test_component_count_distribution() {
    let table = component_table();
    // Count how many masks produce each component count
    let mut counts = [0u32; 9]; // max 8 corners → max 8 components (theoretical)
    for mask in 0..=255u8 {
        let c = table[mask as usize];
        counts[c.num_components as usize] += 1;
    }
    // 0 components: mask=0x00 and mask=0xFF → 2
    assert_eq!(counts[0], 2);
    // 1 component should be the majority
    assert!(counts[1] > 100, "Expected most masks to have 1 component, got {}", counts[1]);
    // There should be some multi-component masks
    let multi: u32 = counts[2..].iter().sum();
    assert!(multi > 0, "Expected some multi-component masks");
    // Max should be 4 (checkerboard)
    assert_eq!(counts[5], 0);
    assert_eq!(counts[6], 0);
    assert_eq!(counts[7], 0);
    assert_eq!(counts[8], 0);
}

#[test]
fn components_numbered_by_lowest_corner() {
    // corners {1, 6} and {3}: 1 and 3 share edge 5, so {1,3} and {6}
    let c = compute_components(0b0100_1010);
    assert_eq!(c.num_components, 2);
    assert_eq!(c.corner_component[1], 0);
    assert_eq!(c.corner_component[3], 0);
    assert_eq!(c.corner_component[6], 1);
    // mask 0x81 with corner 7 and corner 0: 0 gets id 0, 7 gets id 1
    let d = compute_components(0x81);
    assert_eq!(d.corner_component[0], 0);
    assert_eq!(d.corner_component[7], 1);
}

#[test]
fn seven_inside_corners_form_one_component() {
    let c = compute_components(0x7F);
    assert_eq!(c.num_components, 1);
    assert_eq!(c.corner_component, [0, 0, 0, 0, 0, 0, 0, 0xFF]);
}

#[test]
fn no_components_exactly_for_uniform_masks() {
    for mask in 0..=255u8 {
        let c = compute_components(mask);
        assert_eq!(c.num_components == 0, mask == 0 || mask == 0xFF, "mask 0x{:02X}", mask);
        assert!(c.num_components <= 4);
    }
}
