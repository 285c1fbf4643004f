use isomesh::octree::morton::{child_code, compact_bits, decode, encode, octant_at_depth, spread_bits};

#[test]
fn test_roundtrip() {
    for x in 0..16u32 {
        for y in 0..16u32 {
            for z in 0..16u32 {
                let code = encode(x, y, z);
                let (dx, dy, dz) = decode(code);
                assert_eq!((dx, dy, dz), (x, y, z));
            }
        }
    }
}

#[test]
fn test_origin() {
    assert_eq!(encode(0, 0, 0), 0);
}

#[test]
fn test_ordering() {
    // Morton code preserves spatial locality
    let c1 = encode(0, 0, 0);
    let c2 = encode(1, 0, 0);
    assert!(c2 > c1);
}

#[test]
fn test_child_code() {
    let parent = encode(0, 0, 0);
    // Root is at depth 0; its children use parent_depth=0
    let c = child_code(parent, 7, 0);
    assert_eq!(c, 7); // octant 7 = 0b111 at shift 0

    // A child at depth 1 has its sub-children at shift 3
    let c2 = child_code(c, 3, 1); // parent_depth=1, octant 3 = 0b011
    assert_eq!(c2, 7 | (3 << 3)); // = 7 + 24 = 31
}

#[test]
fn test_large_coordinates() {
    let x = (1 << 21) - 1; // max 21-bit value
    let y = (1 << 21) - 1;
    let z = (1 << 21) - 1;
    let code = encode(x, y, z);
    let (dx, dy, dz) = decode(code);
    assert_eq!((dx, dy, dz), (x, y, z));
}

#[test]
fn encode_interleaves_axes() {
    assert_eq!(encode(1, 0, 0), 0b001);
    assert_eq!(encode(0, 1, 0), 0b010);
    assert_eq!(encode(0, 0, 1), 0b100);
    assert_eq!(encode(2, 0, 0), 0b001_000);
    assert_eq!(encode(3, 5, 6), 0b110_101_011);
    // only the low 21 bits of each coordinate take part
    assert_eq!(encode(1 << 21, 0, 0), 0);
    assert_eq!(encode(u32::MAX, 0, 0), 0x1249_2492_4924_9249);
}

#[test]
fn decode_reads_every_third_bit() {
    assert_eq!(decode(0b111), (1, 1, 1));
    assert_eq!(decode(0b100_010_001), (1, 2, 4));
    assert_eq!(decode(u64::MAX), (0x1F_FFFF, 0x1F_FFFF, 0x1F_FFFF));
}

#[test]
fn encode_decode_roundtrip_on_codes() {
    for code in [0u64, 1, 77, 0x1234_5678_9ABC_DEF0 >> 1, (1u64 << 63) - 1] {
        let (x, y, z) = decode(code);
        assert_eq!(encode(x, y, z), code);
    }
}

#[test]
fn octant_of_child_code() {
    let parent = encode(3, 1, 2);
    for depth in 0..4u8 {
        let p = parent & ((1u64 << (3 * depth)) - 1);
        for octant in 0..8u8 {
            let c = child_code(p, octant, depth);
            assert_eq!(octant_at_depth(c, depth + 1), octant);
            for d in 1..=depth {
                assert_eq!(octant_at_depth(c, d), octant_at_depth(p, d));
            }
        }
    }
    assert_eq!(octant_at_depth(0b101_000, 2), 5);
    assert_eq!(octant_at_depth(0b101_000, 1), 0);
}

#[test]
fn encode_increases_along_each_axis() {
    let samples = [(0u32, 1u32), (1, 2), (3, 4), (7, 8), (100, 1000), (0x0F_FFFF, 0x10_0000), (0x1F_FFFE, 0x1F_FFFF)];
    let others = [(0u32, 0u32), (5, 9), (0x1F_FFFF, 0x1F_FFFF), (123_456, 654_321)];
    for &(a, b) in samples.iter() {
        for &(u, v) in others.iter() {
            assert!(encode(a, u, v) < encode(b, u, v));
            assert!(encode(u, a, v) < encode(u, b, v));
            assert!(encode(u, v, a) < encode(u, v, b));
        }
    }
}

#[test]
fn decode_of_encode_keeps_low_bits() {
    // only the low 21 bits of each coordinate survive the round trip
    let (x, y, z) = decode(encode(0xFFFF_FFFF, 0x20_0001, 0x12_3456));
    assert_eq!(x, 0x1F_FFFF);
    assert_eq!(y, 1);
    assert_eq!(z, 0x12_3456);
}

#[test]
fn compact_undoes_spread_on_the_low_bits() {
    for &y in [0u64, 1, 2, 5, 0x1F_FFFF, 0x20_0000, 0x12_3456, u64::MAX, 0xDEAD_BEEF_CAFE].iter() {
        assert_eq!(compact_bits(spread_bits(y)), y & 0x1F_FFFF);
    }
    assert_eq!(spread_bits(0b101), 0b001_000_001);
    assert_eq!(compact_bits(0b001_000_001), 0b101);
    // every third bit only, and nothing above bit 20
    assert_eq!(compact_bits(u64::MAX), 0x1F_FFFF);
}
