//! The evaluation cache, keyed by quantized grid positions.
use vstd::prelude::*;
use std::collections::HashMap;
use crate::octree::types::GridPos;

verus! {

/// Offset (0 or 1) of corner `corner` (0-7) along `axis` (0 = X, 1 = Y, 2 = Z).
pub open spec fn corner_offset(corner: u8, axis: int) -> int {
    ((corner / (if axis == 0 { 1u8 } else if axis == 1 { 2u8 } else { 4u8 })) % 2) as int
}

proof fn lemma_corner_bits(c: u8)
    ensures
        (c & 1) as int == corner_offset(c, 0),
        ((c >> 1u8) & 1) as int == corner_offset(c, 1),
        ((c >> 2u8) & 1) as int == corner_offset(c, 2),
{
    assert((c & 1) == c % 2 && ((c >> 1u8) & 1) == (c / 2) % 2 && ((c >> 2u8) & 1) == (c / 4) % 2)
        by (bit_vector);
}

/// The bit tests of a corner index give its offsets.
pub proof fn lemma_corner_offsets(c: u8)
    requires
        c < 8,
    ensures
        (c & 1 != 0) == (corner_offset(c, 0) == 1),
        (c & 2 != 0) == (corner_offset(c, 1) == 1),
        (c & 4 != 0) == (corner_offset(c, 2) == 1),
        0 <= corner_offset(c, 0) <= 1,
        0 <= corner_offset(c, 1) <= 1,
        0 <= corner_offset(c, 2) <= 1,
{
    assert((c & 1 != 0) == (c % 2 == 1) && (c & 2 != 0) == ((c / 2) % 2 == 1) && (c & 4 != 0) == ((c / 4) % 2
        == 1)) by (bit_vector)
        requires
            c < 8;
}

/// The grid position of corner `corner_idx` (0-7) of the cell at (`cell_x`,
/// `cell_y`, `cell_z`): bit 0 of the index adds 1 along X, bit 1 along Y, bit 2 along Z.
pub fn corner_grid_pos(cell_x: u32, cell_y: u32, cell_z: u32, corner_idx: u8) -> (p: GridPos)
    requires
        cell_x + corner_offset(corner_idx, 0) <= u32::MAX,
        cell_y + corner_offset(corner_idx, 1) <= u32::MAX,
        cell_z + corner_offset(corner_idx, 2) <= u32::MAX,
    ensures
        p.x == cell_x + corner_offset(corner_idx, 0),
        p.y == cell_y + corner_offset(corner_idx, 1),
        p.z == cell_z + corner_offset(corner_idx, 2),
{
    proof {
        lemma_corner_bits(corner_idx);
    }
    GridPos::new(
        cell_x + (corner_idx & 1) as u32,
        cell_y + ((corner_idx >> 1) & 1) as u32,
        cell_z + ((corner_idx >> 2) & 1) as u32,
    )
}

/// A grid position packed into one number: x, y and z in successive 32-bit fields.
pub open spec fn grid_code(p: GridPos) -> int {
    p.x as int + (p.y as int) * 0x1_0000_0000 + (p.z as int) * 0x1_0000_0000_0000_0000
}

/// Distinct grid positions have distinct codes, so no two positions share a
/// cache entry.
pub proof fn lemma_grid_code_injective(a: GridPos, b: GridPos)
    requires
        grid_code(a) == grid_code(b),
    ensures
        a == b,
{
    let k = 0x1_0000_0000int;
    let ha = (a.y as int) + (a.z as int) * k;
    let hb = (b.y as int) + (b.z as int) * k;
    assert(grid_code(a) == a.x as int + ha * k);
    assert(grid_code(b) == b.x as int + hb * k);
    vstd::arithmetic::div_mod::lemma_fundamental_div_mod_converse(grid_code(a), k, ha, a.x as int);
    vstd::arithmetic::div_mod::lemma_fundamental_div_mod_converse(grid_code(b), k, hb, b.x as int);
    vstd::arithmetic::div_mod::lemma_fundamental_div_mod_converse(ha, k, a.z as int, a.y as int);
    vstd::arithmetic::div_mod::lemma_fundamental_div_mod_converse(hb, k, b.z as int, b.y as int);
}

/// Packs a grid position into a `u128` (see `grid_code`).
pub(crate) fn pack_grid(p: &GridPos) -> (c: u128)
    ensures
        c as int == grid_code(*p),
{
    p.x as u128 + (p.y as u128) * 0x1_0000_0000 + (p.z as u128) * 0x1_0000_0000_0000_0000
}

/// Evaluation cache using quantized grid positions as keys.
///
/// Corners shared between adjacent cells map to the same grid position, so
/// each distinct point is evaluated only once. `V` is what is stored per point.
pub struct EvalCache<V> {
    entries: HashMap<u128, V>,
}

impl<V> EvalCache<V> {
    /// The cached values, by the `grid_code` of their positions.
    pub closed spec fn view(&self) -> Map<u128, V> {
        self.entries@
    }

    /// An empty cache.
    pub fn new() -> (c: Self)
        ensures
            c@ == Map::<u128, V>::empty(),
    {
        EvalCache { entries: HashMap::new() }
    }

    /// An empty cache with room for `cap` entries.
    pub fn with_capacity(cap: usize) -> (c: Self)
        ensures
            c@ == Map::<u128, V>::empty(),
    {
        EvalCache { entries: HashMap::with_capacity(cap) }
    }

    /// The value cached for `pos`, if any.
    pub fn get(&self, pos: &GridPos) -> (r: Option<&V>)
        ensures
            match r {
                Some(v) => self@.contains_key(grid_code(*pos) as u128) && *v == self@[grid_code(*pos) as u128],
                None => !self@.contains_key(grid_code(*pos) as u128),
            },
    {
        broadcast use vstd::std_specs::hash::group_hash_axioms;
        let key = pack_grid(pos);
        self.entries.get(&key)
    }

    /// Caches `eval` for `pos`, replacing any earlier value.
    pub fn insert(&mut self, pos: GridPos, eval: V)
        ensures
            final(self)@ == old(self)@.insert(grid_code(pos) as u128, eval),
    {
        broadcast use vstd::std_specs::hash::group_hash_axioms;
        let key = pack_grid(&pos);
        self.entries.insert(key, eval);
    }

    /// Whether a value is cached for `pos`.
    pub fn contains(&self, pos: &GridPos) -> (b: bool)
        ensures
            b == self@.contains_key(grid_code(*pos) as u128),
    {
        broadcast use vstd::std_specs::hash::group_hash_axioms;
        let key = pack_grid(pos);
        self.entries.contains_key(&key)
    }

    /// The number of cached positions.
    pub fn len(&self) -> (n: usize)
        ensures
            n == self@.len(),
    {
        self.entries.len()
    }
}

/// A read gives back the last write at the same position: caching `v` at `p`
/// makes `p` read `v` and leaves every other position's entry as it was.
pub proof fn lemma_read_after_write<V>(m: Map<u128, V>, p: GridPos, q: GridPos, v: V)
    ensures
        m.insert(grid_code(p) as u128, v).contains_key(grid_code(q) as u128) == (p == q || m.contains_key(
            grid_code(q) as u128,
        )),
        p == q ==> m.insert(grid_code(p) as u128, v)[grid_code(q) as u128] == v,
        p != q ==> m.insert(grid_code(p) as u128, v)[grid_code(q) as u128] == m[grid_code(q) as u128],
{
    if grid_code(p) as u128 == grid_code(q) as u128 {
        lemma_grid_code_injective(p, q);
    }
}

} // verus!
