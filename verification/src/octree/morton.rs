//! Morton (Z-order) codes for 3D grid coordinates.
//!
//! A Morton code interleaves the bits of (x, y, z) into one `u64`: bit `i` of x
//! lands at bit `3i`, bit `i` of y at bit `3i + 1`, bit `i` of z at bit `3i + 2`.
//! 21 bits per axis are kept, which supports depths up to 21.
use vstd::prelude::*;

verus! {

/// Bit `i` of `v`, as 0 or 1.
pub open spec fn bit(v: u64, i: u64) -> u64 {
    (v >> i) & 1
}

/// `r` holds bit `i` of `x` at bit `3i`, for each of the low 21 bits of `x`,
/// and zero in every other position.
pub open spec fn is_spread_of(r: u64, x: u64) -> bool {
    &&& forall|i: u64| #![trigger bit(x, i)] i < 21 ==> bit(r, (3 * i) as u64) == bit(x, i)
    &&& forall|k: u64| #![trigger bit(r, k)] k < 64 && (k % 3 != 0 || k >= 63) ==> bit(r, k) == 0
}

/// `r` holds in its bit `i` the bit `3i` of `x`, for `i < 21`, and nothing above.
pub open spec fn is_compact_of(r: u64, x: u64) -> bool {
    &&& forall|i: u64| #![trigger bit(r, i)] i < 21 ==> bit(r, i) == bit(x, (3 * i) as u64)
    &&& r < 0x20_0000
}

/// `code` is the Morton code of the low 21 bits of `x`, `y` and `z`.
pub open spec fn is_morton_of(code: u64, x: u32, y: u32, z: u32) -> bool {
    &&& forall|i: u64| #![trigger bit(x as u64, i)] i < 21 ==> bit(code, (3 * i) as u64) == bit(x as u64, i)
    &&& forall|i: u64| #![trigger bit(y as u64, i)] i < 21 ==> bit(code, (3 * i + 1) as u64) == bit(y as u64, i)
    &&& forall|i: u64| #![trigger bit(z as u64, i)] i < 21 ==> bit(code, (3 * i + 2) as u64) == bit(z as u64, i)
    &&& code < 0x8000_0000_0000_0000
}

/// `(x, y, z)` are the coordinates that `code` interleaves: bit `i` of each comes
/// from bits `3i`, `3i + 1`, `3i + 2` of `code`, for `i < 21`, and nothing above.
pub open spec fn is_decoded_from(x: u32, y: u32, z: u32, code: u64) -> bool {
    &&& forall|i: u64| #![trigger bit(x as u64, i)] i < 21 ==> bit(x as u64, i) == bit(code, (3 * i) as u64)
    &&& forall|i: u64| #![trigger bit(y as u64, i)] i < 21 ==> bit(y as u64, i) == bit(code, (3 * i + 1) as u64)
    &&& forall|i: u64| #![trigger bit(z as u64, i)] i < 21 ==> bit(z as u64, i) == bit(code, (3 * i + 2) as u64)
    &&& x < 0x20_0000 && y < 0x20_0000 && z < 0x20_0000
}

/// The value that `spread_bits` computes for `x`, step by step.
pub closed spec fn spread_formula(x: u64) -> u64 {
    let x0 = x & 0x1F_FFFFu64;
    let x1 = (x0 | (x0 << 32u64)) & 0x001F_0000_0000_FFFFu64;
    let x2 = (x1 | (x1 << 16u64)) & 0x001F_0000_FF00_00FFu64;
    let x3 = (x2 | (x2 << 8u64)) & 0x100F_00F0_0F00_F00Fu64;
    let x4 = (x3 | (x3 << 4u64)) & 0x10C3_0C30_C30C_30C3u64;
    (x4 | (x4 << 2u64)) & 0x1249_2492_4924_9249u64
}

/// The value that `encode` computes for `(x, y, z)`.
spec fn morton_formula(x: u32, y: u32, z: u32) -> u64 {
    spread_formula(x as u64) | (spread_formula(y as u64) << 1u64) | (spread_formula(z as u64) << 2u64)
}

proof fn lemma_spread_steps(x: u64, x0: u64, x1: u64, x2: u64, x3: u64, x4: u64, r: u64)
    by (bit_vector)
    requires
        x0 == x & 0x1F_FFFF,
        x1 == (x0 | (x0 << 32)) & 0x001F_0000_0000_FFFFu64,
        x2 == (x1 | (x1 << 16)) & 0x001F_0000_FF00_00FFu64,
        x3 == (x2 | (x2 << 8)) & 0x100F_00F0_0F00_F00Fu64,
        x4 == (x3 | (x3 << 4)) & 0x10C3_0C30_C30C_30C3u64,
        r == (x4 | (x4 << 2)) & 0x1249_2492_4924_9249u64,
    ensures
        forall|i: u64| i < 21 ==> #[trigger] ((r >> ((3 * i) as u64)) & 1) == ((x >> i) & 1),
        forall|k: u64| k < 64 && (k % 3 != 0 || k >= 63) ==> #[trigger] ((r >> k) & 1) == 0,
{
}

/// Spreads the low 21 bits of `x` so that bit `i` moves to bit `3i`.
pub fn spread_bits(x: u64) -> (r: u64)
    ensures
        r == spread_formula(x),
        is_spread_of(r, x),
{
    let x0 = x & 0x1F_FFFF;
    let x1 = (x0 | (x0 << 32)) & 0x001F_0000_0000_FFFF;
    let x2 = (x1 | (x1 << 16)) & 0x001F_0000_FF00_00FF;
    let x3 = (x2 | (x2 << 8)) & 0x100F_00F0_0F00_F00F;
    let x4 = (x3 | (x3 << 4)) & 0x10C3_0C30_C30C_30C3;
    let r = (x4 | (x4 << 2)) & 0x1249_2492_4924_9249;
    proof {
        lemma_spread_steps(x, x0, x1, x2, x3, x4, r);
    }
    r
}

proof fn lemma_compact_steps(x: u64, x0: u64, x1: u64, x2: u64, x3: u64, x4: u64, r: u64)
    by (bit_vector)
    requires
        x0 == x & 0x1249_2492_4924_9249u64,
        x1 == (x0 | (x0 >> 2)) & 0x10C3_0C30_C30C_30C3u64,
        x2 == (x1 | (x1 >> 4)) & 0x100F_00F0_0F00_F00Fu64,
        x3 == (x2 | (x2 >> 8)) & 0x001F_0000_FF00_00FFu64,
        x4 == (x3 | (x3 >> 16)) & 0x001F_0000_0000_FFFFu64,
        r == (x4 | (x4 >> 32)) & 0x1F_FFFFu64,
    ensures
        forall|i: u64| i < 21 ==> #[trigger] ((r >> i) & 1) == ((x >> ((3 * i) as u64)) & 1),
        r < 0x20_0000,
{
}

/// Gathers every third bit of `x` (bits `0, 3, 6, ...`) into the low 21 bits.
pub fn compact_bits(x: u64) -> (r: u64)
    ensures
        is_compact_of(r, x),
{
    let x0 = x & 0x1249_2492_4924_9249;
    let x1 = (x0 | (x0 >> 2)) & 0x10C3_0C30_C30C_30C3;
    let x2 = (x1 | (x1 >> 4)) & 0x100F_00F0_0F00_F00F;
    let x3 = (x2 | (x2 >> 8)) & 0x001F_0000_FF00_00FF;
    let x4 = (x3 | (x3 >> 16)) & 0x001F_0000_0000_FFFF;
    let r = (x4 | (x4 >> 32)) & 0x1F_FFFF;
    proof {
        lemma_compact_steps(x, x0, x1, x2, x3, x4, r);
    }
    r
}

proof fn lemma_or3_first(a: u64, b: u64, c: u64, r: u64, k: u64)
    by (bit_vector)
    requires
        r == a | (b << 1u64) | (c << 2u64),
        k < 64,
        k >= 1 ==> (b >> ((k - 1) as u64)) & 1 == 0,
        k >= 2 ==> (c >> ((k - 2) as u64)) & 1 == 0,
    ensures
        (r >> k) & 1 == (a >> k) & 1,
{
}

proof fn lemma_or3_second(a: u64, b: u64, c: u64, r: u64, k: u64)
    by (bit_vector)
    requires
        r == a | (b << 1u64) | (c << 2u64),
        1 <= k < 64,
        (a >> k) & 1 == 0,
        k >= 2 ==> (c >> ((k - 2) as u64)) & 1 == 0,
    ensures
        (r >> k) & 1 == (b >> ((k - 1) as u64)) & 1,
{
}

proof fn lemma_or3_third(a: u64, b: u64, c: u64, r: u64, k: u64)
    by (bit_vector)
    requires
        r == a | (b << 1u64) | (c << 2u64),
        2 <= k < 64,
        (a >> k) & 1 == 0,
        (b >> ((k - 1) as u64)) & 1 == 0,
    ensures
        (r >> k) & 1 == (c >> ((k - 2) as u64)) & 1,
{
}

proof fn lemma_top_bit_clear(r: u64)
    by (bit_vector)
    requires
        (r >> 63u64) & 1 == 0,
    ensures
        r < 0x8000_0000_0000_0000u64,
{
}

proof fn lemma_top_bit_of_small(r: u64)
    by (bit_vector)
    requires
        r < 0x8000_0000_0000_0000u64,
    ensures
        (r >> 63u64) & 1 == 0,
{
}

proof fn lemma_high_bits_of_small(v: u64, i: u64)
    by (bit_vector)
    requires
        v < 0x20_0000,
        21 <= i < 64,
    ensures
        (v >> i) & 1 == 0,
{
}

proof fn lemma_shift_bit(c: u64, s: u64, k: u64)
    by (bit_vector)
    requires
        s <= 2,
        k + s < 64,
    ensures
        ((c >> s) >> k) & 1 == (c >> ((k + s) as u64)) & 1,
{
}

/// The mask of the `k` lowest bits.
spec fn low_mask(k: u64) -> u64 {
    ((1u64 << k) - 1) as u64
}

proof fn lemma_bit_ext_step(a: u64, b: u64, k: u64)
    by (bit_vector)
    requires
        k < 63,
        a & low_mask(k) == b & low_mask(k),
        (a >> k) & 1 == (b >> k) & 1,
    ensures
        a & low_mask(((k + 1) as u64)) == b & low_mask(((k + 1) as u64)),
{
}

proof fn lemma_bit_ext_last(a: u64, b: u64)
    by (bit_vector)
    requires
        a & low_mask(63u64) == b & low_mask(63u64),
        (a >> 63u64) & 1 == (b >> 63u64) & 1,
    ensures
        a == b,
{
}

proof fn lemma_bit_ext_zero(a: u64, b: u64)
    by (bit_vector)
    ensures
        a & low_mask(0u64) == b & low_mask(0u64),
{
}

proof fn lemma_bit_ext_upto(a: u64, b: u64, k: u64)
    requires
        k <= 63,
        forall|i: u64| i < 64 ==> #[trigger] bit(a, i) == bit(b, i),
    ensures
        a & low_mask(k) == b & low_mask(k),
    decreases k,
{
    if k == 0 {
        lemma_bit_ext_zero(a, b);
    } else {
        lemma_bit_ext_upto(a, b, (k - 1) as u64);
        assert(bit(a, (k - 1) as u64) == bit(b, (k - 1) as u64));
        lemma_bit_ext_step(a, b, (k - 1) as u64);
    }
}

/// Two `u64` values with the same 64 bits are equal.
proof fn lemma_bit_ext(a: u64, b: u64)
    requires
        forall|i: u64| i < 64 ==> #[trigger] bit(a, i) == bit(b, i),
    ensures
        a == b,
{
    lemma_bit_ext_upto(a, b, 63);
    assert(bit(a, 63) == bit(b, 63));
    lemma_bit_ext_last(a, b);
}

/// The formula value of `(x, y, z)` is their Morton code.
proof fn lemma_formula_is_morton(x: u32, y: u32, z: u32)
    ensures
        is_morton_of(morton_formula(x, y, z), x, y, z),
{
    let sx = spread_formula(x as u64);
    let sy = spread_formula(y as u64);
    let sz = spread_formula(z as u64);
    lemma_spread_formula_is_spread(x as u64);
    lemma_spread_formula_is_spread(y as u64);
    lemma_spread_formula_is_spread(z as u64);
    let code = morton_formula(x, y, z);
    assert forall|i: u64| #![trigger bit(x as u64, i)] #![trigger bit(y as u64, i)] #![trigger bit(z as u64, i)] i < 21 implies {
        &&& bit(code, (3 * i) as u64) == bit(x as u64, i)
        &&& bit(code, (3 * i + 1) as u64) == bit(y as u64, i)
        &&& bit(code, (3 * i + 2) as u64) == bit(z as u64, i)
    } by {
        assert(bit(x as u64, i) == bit(sx, (3 * i) as u64));
        assert(bit(y as u64, i) == bit(sy, (3 * i) as u64));
        assert(bit(z as u64, i) == bit(sz, (3 * i) as u64));
        assert(bit(sx, (3 * i + 1) as u64) == 0);
        assert(bit(sx, (3 * i + 2) as u64) == 0);
        assert(bit(sy, (3 * i + 1) as u64) == 0);
        if i >= 1 {
            assert(bit(sy, (3 * i - 1) as u64) == 0);
            assert(bit(sz, (3 * i - 1) as u64) == 0);
            assert(bit(sz, (3 * i - 2) as u64) == 0);
        }
        lemma_or3_first(sx, sy, sz, code, (3 * i) as u64);
        lemma_or3_second(sx, sy, sz, code, (3 * i + 1) as u64);
        lemma_or3_third(sx, sy, sz, code, (3 * i + 2) as u64);
    }
    assert(bit(sx, 63) == 0);
    assert(bit(sy, 62) == 0);
    assert(bit(sz, 61) == 0);
    lemma_or3_first(sx, sy, sz, code, 63);
    lemma_top_bit_clear(code);
}

/// The formula value of `x` is its spread.
proof fn lemma_spread_formula_is_spread(x: u64)
    ensures
        is_spread_of(spread_formula(x), x),
{
    let x0 = x & 0x1F_FFFFu64;
    let x1 = (x0 | (x0 << 32u64)) & 0x001F_0000_0000_FFFFu64;
    let x2 = (x1 | (x1 << 16u64)) & 0x001F_0000_FF00_00FFu64;
    let x3 = (x2 | (x2 << 8u64)) & 0x100F_00F0_0F00_F00Fu64;
    let x4 = (x3 | (x3 << 4u64)) & 0x10C3_0C30_C30C_30C3u64;
    lemma_spread_steps(x, x0, x1, x2, x3, x4, spread_formula(x));
}

/// Encodes grid coordinates into their Morton code; only the low 21 bits of each
/// coordinate take part.
pub fn encode(x: u32, y: u32, z: u32) -> (code: u64)
    ensures
        is_morton_of(code, x, y, z),
{
    let sx = spread_bits(x as u64);
    let sy = spread_bits(y as u64);
    let sz = spread_bits(z as u64);
    let code = sx | (sy << 1u64) | (sz << 2u64);
    proof {
        lemma_formula_is_morton(x, y, z);
    }
    code
}

/// Decodes a Morton code back into its three grid coordinates.
pub fn decode(code: u64) -> (r: (u32, u32, u32))
    ensures
        is_decoded_from(r.0, r.1, r.2, code),
{
    let cx = compact_bits(code);
    let cy = compact_bits(code >> 1u64);
    let cz = compact_bits(code >> 2u64);
    let r = (cx as u32, cy as u32, cz as u32);
    proof {
        assert(r.0 as u64 == cx);
        assert(r.1 as u64 == cy);
        assert(r.2 as u64 == cz);
        assert forall|i: u64| #![trigger bit(r.0 as u64, i)] #![trigger bit(r.1 as u64, i)] #![trigger bit(r.2 as u64, i)] i < 21 implies {
            &&& bit(r.0 as u64, i) == bit(code, (3 * i) as u64)
            &&& bit(r.1 as u64, i) == bit(code, (3 * i + 1) as u64)
            &&& bit(r.2 as u64, i) == bit(code, (3 * i + 2) as u64)
        } by {
            assert(bit(cx, i) == bit(code, (3 * i) as u64));
            assert(bit(cy, i) == bit(code >> 1, (3 * i) as u64));
            assert(bit(cz, i) == bit(code >> 2, (3 * i) as u64));
            lemma_shift_bit(code, 1, (3 * i) as u64);
            lemma_shift_bit(code, 2, (3 * i) as u64);
        }
    }
    r
}

/// The Morton code of the child in `octant` (0-7) of the cell with code `parent`
/// at `parent_depth`: the octant's three bits are placed above the parent's.
pub fn child_code(parent: u64, octant: u8, parent_depth: u8) -> (code: u64)
    requires
        parent_depth <= 21,
    ensures
        code == parent | ((octant as u64) << (3 * parent_depth) as u64),
{
    let shift = (parent_depth as u32) * 3;
    parent | ((octant as u64) << shift)
}

/// The octant (0-7) that the cell with Morton code `code` occupies within its
/// parent, for a cell at `depth` (at least 1).
pub fn octant_at_depth(code: u64, depth: u8) -> (octant: u8)
    requires
        1 <= depth <= 22,
    ensures
        octant as u64 == (code >> (3 * (depth - 1)) as u64) & 7,
        octant < 8,
{
    let shift = ((depth - 1) as u32) * 3;
    let r = (code >> shift) & 7;
    proof {
        assert(r <= 7) by (bit_vector)
            requires
                r == (code >> shift) & 7;
    }
    r as u8
}

// ------------------------------------------------------------------------
// Laws
// ------------------------------------------------------------------------

/// Decoding a Morton code gives back the coordinates that were encoded, for
/// coordinates below 2^21.
pub proof fn lemma_decode_encode(x: u32, y: u32, z: u32, code: u64, dx: u32, dy: u32, dz: u32)
    requires
        x < 0x20_0000,
        y < 0x20_0000,
        z < 0x20_0000,
        is_morton_of(code, x, y, z),
        is_decoded_from(dx, dy, dz, code),
    ensures
        dx == x,
        dy == y,
        dz == z,
{
    assert forall|i: u64| i < 64 implies #[trigger] bit(dx as u64, i) == bit(x as u64, i) by {
        if i < 21 {
            assert(bit(dx as u64, i) == bit(code, (3 * i) as u64));
            assert(bit(x as u64, i) == bit(code, (3 * i) as u64));
        } else {
            lemma_high_bits_of_small(dx as u64, i);
            lemma_high_bits_of_small(x as u64, i);
        }
    }
    lemma_bit_ext(dx as u64, x as u64);
    assert forall|i: u64| i < 64 implies #[trigger] bit(dy as u64, i) == bit(y as u64, i) by {
        if i < 21 {
            assert(bit(dy as u64, i) == bit(code, (3 * i + 1) as u64));
            assert(bit(y as u64, i) == bit(code, (3 * i + 1) as u64));
        } else {
            lemma_high_bits_of_small(dy as u64, i);
            lemma_high_bits_of_small(y as u64, i);
        }
    }
    lemma_bit_ext(dy as u64, y as u64);
    assert forall|i: u64| i < 64 implies #[trigger] bit(dz as u64, i) == bit(z as u64, i) by {
        if i < 21 {
            assert(bit(dz as u64, i) == bit(code, (3 * i + 2) as u64));
            assert(bit(z as u64, i) == bit(code, (3 * i + 2) as u64));
        } else {
            lemma_high_bits_of_small(dz as u64, i);
            lemma_high_bits_of_small(z as u64, i);
        }
    }
    lemma_bit_ext(dz as u64, z as u64);
}

/// Encoding the coordinates decoded from a Morton code below 2^63 gives back
/// that code.
pub proof fn lemma_encode_decode(code: u64, x: u32, y: u32, z: u32, r: u64)
    requires
        code < 0x8000_0000_0000_0000,
        is_decoded_from(x, y, z, code),
        is_morton_of(r, x, y, z),
    ensures
        r == code,
{
    assert forall|k: u64| k < 64 implies #[trigger] bit(r, k) == bit(code, k) by {
        if k == 63 {
            lemma_top_bit_of_small(r);
            lemma_top_bit_of_small(code);
        } else {
            let i = (k / 3) as u64;
            assert(i < 21);
            if k % 3 == 0 {
                assert(k == 3 * i);
                assert(bit(r, (3 * i) as u64) == bit(x as u64, i));
            } else if k % 3 == 1 {
                assert(k == 3 * i + 1);
                assert(bit(r, (3 * i + 1) as u64) == bit(y as u64, i));
            } else {
                assert(k == 3 * i + 2);
                assert(bit(r, (3 * i + 2) as u64) == bit(z as u64, i));
            }
        }
    }
    lemma_bit_ext(r, code);
}

/// The octant that `child_code` places at a level is the one that
/// `octant_at_depth` reads back at the next depth, when the parent code holds
/// nothing at that level.
pub proof fn lemma_octant_of_child(parent: u64, octant: u8, parent_depth: u8)
    requires
        octant < 8,
        parent_depth <= 20,
        (parent >> (3 * parent_depth) as u64) & 7 == 0,
    ensures
        ((parent | ((octant as u64) << (3 * parent_depth) as u64)) >> (3 * parent_depth) as u64) & 7
            == octant as u64,
{
    let s = (3 * parent_depth) as u64;
    let o = octant as u64;
    assert(((parent | (o << s)) >> s) & 7 == o) by (bit_vector)
        requires
            o < 8,
            s <= 60,
            (parent >> s) & 7 == 0;
}

/// A child's code keeps the octants of all its ancestors: at every depth up to
/// the parent's, `octant_at_depth` reads the same octant from parent and child.
pub proof fn lemma_child_keeps_ancestors(parent: u64, octant: u8, parent_depth: u8, depth: u8)
    requires
        octant < 8,
        parent_depth <= 21,
        1 <= depth <= parent_depth,
    ensures
        ((parent | ((octant as u64) << (3 * parent_depth) as u64)) >> (3 * (depth - 1)) as u64) & 7
            == (parent >> (3 * (depth - 1)) as u64) & 7,
{
    let s = (3 * parent_depth) as u64;
    let t = (3 * (depth - 1)) as u64;
    let o = octant as u64;
    assert(((parent | (o << s)) >> t) & 7 == (parent >> t) & 7) by (bit_vector)
        requires
            o < 8,
            s <= 63,
            t + 3 <= s;
}

/// Two codes that interleave the same coordinates are equal.
proof fn lemma_morton_unique(c: u64, d: u64, x: u32, y: u32, z: u32)
    requires
        is_morton_of(c, x, y, z),
        is_morton_of(d, x, y, z),
    ensures
        c == d,
{
    assert forall|k: u64| k < 64 implies #[trigger] bit(c, k) == bit(d, k) by {
        if k == 63 {
            lemma_top_bit_of_small(c);
            lemma_top_bit_of_small(d);
        } else {
            let i = (k / 3) as u64;
            assert(i < 21);
            if k % 3 == 0 {
                assert(k == 3 * i);
                assert(bit(c, (3 * i) as u64) == bit(x as u64, i));
            } else if k % 3 == 1 {
                assert(k == 3 * i + 1);
                assert(bit(c, (3 * i + 1) as u64) == bit(y as u64, i));
            } else {
                assert(k == 3 * i + 2);
                assert(bit(c, (3 * i + 2) as u64) == bit(z as u64, i));
            }
        }
    }
    lemma_bit_ext(c, d);
}

/// Spreading keeps the order of values below 2^21.
proof fn lemma_spread_formula_monotone(a: u64, b: u64)
    by (bit_vector)
    requires
        a < b,
        b < 0x20_0000u64,
    ensures
        spread_formula(a) < spread_formula(b),
{
}

/// A spread value has bits only at multiples of 3.
proof fn lemma_spread_formula_positions(x: u64)
    by (bit_vector)
    ensures
        spread_formula(x) & 0x1249_2492_4924_9249u64 == spread_formula(x),
{
}

proof fn lemma_interleave_lt_first(p: u64, q: u64, u: u64, v: u64)
    by (bit_vector)
    requires
        p < q,
        p & 0x1249_2492_4924_9249u64 == p,
        q & 0x1249_2492_4924_9249u64 == q,
        u & 0x1249_2492_4924_9249u64 == u,
        v & 0x1249_2492_4924_9249u64 == v,
    ensures
        p | (u << 1u64) | (v << 2u64) < q | (u << 1u64) | (v << 2u64),
{
}

proof fn lemma_interleave_lt_second(p: u64, q: u64, u: u64, v: u64)
    by (bit_vector)
    requires
        p < q,
        p & 0x1249_2492_4924_9249u64 == p,
        q & 0x1249_2492_4924_9249u64 == q,
        u & 0x1249_2492_4924_9249u64 == u,
        v & 0x1249_2492_4924_9249u64 == v,
    ensures
        u | (p << 1u64) | (v << 2u64) < u | (q << 1u64) | (v << 2u64),
{
}

proof fn lemma_interleave_lt_third(p: u64, q: u64, u: u64, v: u64)
    by (bit_vector)
    requires
        p < q,
        p & 0x1249_2492_4924_9249u64 == p,
        q & 0x1249_2492_4924_9249u64 == q,
        u & 0x1249_2492_4924_9249u64 == u,
        v & 0x1249_2492_4924_9249u64 == v,
    ensures
        u | (v << 1u64) | (p << 2u64) < u | (v << 1u64) | (q << 2u64),
{
}

/// Morton codes keep the order along each axis: for coordinates below 2^21,
/// increasing one coordinate while the other two stay fixed increases the code.
pub proof fn lemma_encode_monotone(a: u32, b: u32, y: u32, z: u32, c1: u64, c2: u64, axis: u8)
    requires
        a < b < 0x20_0000,
        axis < 3,
        axis == 0 ==> is_morton_of(c1, a, y, z) && is_morton_of(c2, b, y, z),
        axis == 1 ==> is_morton_of(c1, y, a, z) && is_morton_of(c2, y, b, z),
        axis == 2 ==> is_morton_of(c1, y, z, a) && is_morton_of(c2, y, z, b),
    ensures
        c1 < c2,
{
    let sa = spread_formula(a as u64);
    let sb = spread_formula(b as u64);
    let sy = spread_formula(y as u64);
    let sz = spread_formula(z as u64);
    lemma_spread_formula_monotone(a as u64, b as u64);
    lemma_spread_formula_positions(a as u64);
    lemma_spread_formula_positions(b as u64);
    lemma_spread_formula_positions(y as u64);
    lemma_spread_formula_positions(z as u64);
    if axis == 0 {
        lemma_formula_is_morton(a, y, z);
        lemma_formula_is_morton(b, y, z);
        lemma_morton_unique(c1, morton_formula(a, y, z), a, y, z);
        lemma_morton_unique(c2, morton_formula(b, y, z), b, y, z);
        lemma_interleave_lt_first(sa, sb, sy, sz);
    } else if axis == 1 {
        lemma_formula_is_morton(y, a, z);
        lemma_formula_is_morton(y, b, z);
        lemma_morton_unique(c1, morton_formula(y, a, z), y, a, z);
        lemma_morton_unique(c2, morton_formula(y, b, z), y, b, z);
        lemma_interleave_lt_second(sa, sb, sy, sz);
    } else {
        lemma_formula_is_morton(y, z, a);
        lemma_formula_is_morton(y, z, b);
        lemma_morton_unique(c1, morton_formula(y, z, a), y, z, a);
        lemma_morton_unique(c2, morton_formula(y, z, b), y, z, b);
        lemma_interleave_lt_third(sa, sb, sy, sz);
    }
}

proof fn lemma_low_bits_kept(y: u64, i: u64)
    by (bit_vector)
    requires
        i < 21,
    ensures
        ((y & 0x1F_FFFFu64) >> i) & 1 == (y >> i) & 1,
        y & 0x1F_FFFFu64 < 0x20_0000u64,
{
}

/// Gathering the bits of a spread value gives back the low 21 bits of the
/// spread value's source.
pub proof fn lemma_compact_spread(y: u64, s: u64, r: u64)
    requires
        is_spread_of(s, y),
        is_compact_of(r, s),
    ensures
        r == y & 0x1F_FFFF,
{
    let m = y & 0x1F_FFFF;
    lemma_low_bits_kept(y, 0);
    assert forall|i: u64| i < 64 implies #[trigger] bit(r, i) == bit(m, i) by {
        if i < 21 {
            assert(bit(r, i) == bit(s, (3 * i) as u64));
            assert(bit(s, (3 * i) as u64) == bit(y, i));
            lemma_low_bits_kept(y, i);
        } else {
            lemma_high_bits_of_small(r, i);
            lemma_high_bits_of_small(m, i);
        }
    }
    lemma_bit_ext(r, m);
}

} // verus!
