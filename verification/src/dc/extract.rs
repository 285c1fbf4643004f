//! The integer side of Manifold Dual Contouring extraction: finding leaves by
//! key, picking each cell's vertex for an edge, and emitting one quad per
//! sign-changing edge shared by four leaves of the same depth.
use vstd::prelude::*;
use std::collections::HashMap;
use crate::bbox::{edge_corner_spec, edge_corners};
use crate::dc::component::{
    component_count_spec, component_spec, connected, corner_inside, edge_inside_corner, lemma_sign_change_edge_component,
    CellComponents,
};
use crate::octree::balance::{edge_neighbor, edge_neighbor_spec, edge_step};
use crate::octree::{key_code, lemma_key_code_bounds, lemma_key_code_injective, pack_key, CellKey};

verus! {

/// The last position of `k` among the first `n` keys, if any.
pub open spec fn last_index(keys: Seq<CellKey>, k: CellKey, n: int) -> Option<int>
    decreases n,
{
    if n <= 0 {
        None
    } else if keys[n - 1] == k {
        Some(n - 1)
    } else {
        last_index(keys, k, n - 1)
    }
}

proof fn lemma_last_index_range(keys: Seq<CellKey>, k: CellKey, n: int)
    ensures
        last_index(keys, k, n) matches Some(i) ==> 0 <= i < n && keys[i] == k,
    decreases n,
{
    if n > 0 && keys[n - 1] != k {
        lemma_last_index_range(keys, k, n - 1);
    }
}

/// The position that `m` records for `k`, under its `key_code`.
pub open spec fn index_in(m: Map<u128, usize>, k: CellKey) -> Option<int> {
    if m.contains_key(key_code(k) as u128) {
        Some(m[key_code(k) as u128] as int)
    } else {
        None
    }
}

/// An index from cell keys to positions in a list of leaves.
pub struct CellIndex {
    map: HashMap<u128, usize>,
}

impl CellIndex {
    /// The positions, by the `key_code` of the keys.
    pub closed spec fn view(&self) -> Map<u128, usize> {
        self.map@
    }

    /// The position recorded for `k`.
    pub open spec fn index_of(&self, k: CellKey) -> Option<int> {
        index_in(self@, k)
    }

    /// Indexes `keys`: each key maps to its last position.
    pub fn build(keys: &Vec<CellKey>) -> (idx: Self)
        ensures
            forall|k: CellKey| #[trigger] idx.index_of(k) == last_index(keys@, k, keys.len() as int),
    {
        broadcast use vstd::std_specs::hash::group_hash_axioms;
        let mut map: HashMap<u128, usize> = HashMap::with_capacity(keys.len());
        let mut i: usize = 0;
        while i < keys.len()
            invariant
                i <= keys.len(),
                forall|k: CellKey| #[trigger] index_in(map@, k) == last_index(keys@, k, i as int),
            decreases keys.len() - i,
        {
            let ghost before = map@;
            let k = keys[i];
            proof {
                lemma_key_code_bounds(k);
            }
            map.insert(pack_key(k), i);
            proof {
                assert(map@ == before.insert(key_code(k) as u128, i));
                assert forall|q: CellKey| #[trigger] index_in(map@, q) == last_index(keys@, q, i + 1) by {
                    lemma_key_code_bounds(q);
                    if key_code(q) as u128 == key_code(k) as u128 {
                        lemma_key_code_injective(q, k);
                    }
                    assert(index_in(before, q) == last_index(keys@, q, i as int));
                }
            }
            i += 1;
        }
        CellIndex { map }
    }

    /// The position of the leaf at (`cx`, `cy`, `cz`) at exactly `depth`.
    pub fn find_neighbor(&self, cx: u32, cy: u32, cz: u32, depth: u8) -> (r: Option<usize>)
        ensures
            match r {
                Some(i) => self.index_of((cx, cy, cz, depth)) == Some(i as int),
                None => self.index_of((cx, cy, cz, depth)) is None,
            },
    {
        broadcast use vstd::std_specs::hash::group_hash_axioms;
        proof {
            lemma_key_code_bounds((cx, cy, cz, depth));
        }
        let code = pack_key((cx, cy, cz, depth));
        match self.map.get(&code) {
            Some(i) => Some(*i),
            None => None,
        }
    }
}

/// The vertex of a cell for the component touching `local_edge`: the cell's
/// first vertex when it has a single component, otherwise that vertex offset by
/// the component of the edge's inside corner (its first corner if inside, else
/// its second). `None` when the cell has no vertices.
pub open spec fn vertex_for_edge_spec(
    components: CellComponents,
    corner_mask: u8,
    base: Option<usize>,
    local_edge: int,
) -> Option<int> {
    match base {
        None => None,
        Some(b) => if components.num_components == 1 {
            Some(b as int)
        } else {
            let (c0, c1) = edge_corner_spec(local_edge);
            let inside = if corner_inside(corner_mask, c0) {
                c0
            } else {
                c1
            };
            Some(b + components.corner_component[inside])
        },
    }
}

/// The vertex of leaf `leaf_idx` for the component touching `local_edge`.
pub fn vertex_for_edge(
    leaf_idx: usize,
    local_edge: u8,
    corner_mask: u8,
    leaf_components: &[CellComponents],
    leaf_vertex_base: &[Option<usize>],
) -> (r: Option<usize>)
    requires
        leaf_idx < leaf_components.len(),
        leaf_idx < leaf_vertex_base.len(),
        local_edge < 12,
        leaf_vertex_base[leaf_idx as int] matches Some(b) ==> b + 0xFF <= usize::MAX,
    ensures
        match r {
            Some(v) => vertex_for_edge_spec(
                leaf_components[leaf_idx as int],
                corner_mask,
                leaf_vertex_base[leaf_idx as int],
                local_edge as int,
            ) == Some(v as int),
            None => vertex_for_edge_spec(
                leaf_components[leaf_idx as int],
                corner_mask,
                leaf_vertex_base[leaf_idx as int],
                local_edge as int,
            ) is None,
        },
{
    let base = match leaf_vertex_base[leaf_idx] {
        Some(b) => b,
        None => {
            return None;
        },
    };
    let components = &leaf_components[leaf_idx];
    if components.num_components == 1 {
        return Some(base);
    }
    proof {
        crate::bbox::lemma_edge_corners_differ_in_one_bit(local_edge as int);
    }
    let (c0, c1) = edge_corners(local_edge);
    let inside_corner = if (corner_mask >> c0) & 1 == 1 {
        c0
    } else {
        c1
    };
    let comp = components.corner_component[inside_corner as usize];
    Some(base + comp as usize)
}

/// The order in which the 4 cells around an edge along `axis` form a quad
/// (cells numbered: 0 the cell itself, 1 stepped back on the lower other axis,
/// 2 on the higher one, 3 on both).
pub open spec fn ccw_order(axis: int) -> (int, int, int, int) {
    if axis == 1 {
        (0, 2, 3, 1)
    } else {
        (0, 1, 3, 2)
    }
}

/// Component `w` (0-3) of a 4-tuple.
pub open spec fn pick(v: (int, int, int, int), w: int) -> int {
    if w == 0 {
        v.0
    } else if w == 1 {
        v.1
    } else if w == 2 {
        v.2
    } else {
        v.3
    }
}

/// The leaves around the min-corner edge along `axis` of leaf `i` and their vertices.
pub struct QuadInput {
    pub keys: Vec<CellKey>,
    pub masks: Vec<u8>,
    pub components: Vec<CellComponents>,
    pub vertex_base: Vec<Option<usize>>,
}

impl QuadInput {
    /// The four lists describe the same leaves, and every vertex base leaves
    /// room for a component offset.
    pub open spec fn inv(&self) -> bool {
        &&& self.masks.len() == self.keys.len()
        &&& self.components.len() == self.keys.len()
        &&& self.vertex_base.len() == self.keys.len()
        &&& forall|i: int|
            0 <= i < self.keys.len() ==> (#[trigger] self.vertex_base[i] matches Some(b) ==> b + 0xFF <= usize::MAX)
    }

    /// The vertex of leaf `j` for local edge `e`.
    pub open spec fn vertex(&self, j: int, e: int) -> Option<int> {
        vertex_for_edge_spec(self.components[j], self.masks[j], self.vertex_base[j], e)
    }

    /// The position of the `which`-th other leaf around the min-corner edge
    /// along `axis` of leaf `i`, if it is a leaf of the same depth.
    pub open spec fn neighbor(&self, i: int, axis: int, which: int) -> Option<int> {
        let (cx, cy, cz, d) = self.keys[i];
        match edge_neighbor_spec(cx, cy, cz, axis, which) {
            None => None,
            Some((nx, ny, nz)) => last_index(self.keys@, (nx, ny, nz, d), self.keys.len() as int),
        }
    }

    /// The quad over the min-corner edge along `axis` of leaf `i`: present when
    /// the leaf has vertices, the edge changes sign, the three other leaves
    /// around it exist at the same depth and all four have a vertex for it.
    /// Its vertices go around the edge, counterclockwise seen from the
    /// outside (reversed when the edge's first corner is outside).
    #[verifier::opaque]
    pub open spec fn quad(&self, i: int, axis: int) -> Option<(int, int, int, int)> {
        let mask = self.masks[i];
        let (c0, c1) = edge_corner_spec(4 * axis);
        if self.vertex_base[i] is None || corner_inside(mask, c0) == corner_inside(mask, c1) {
            None
        } else {
            match (self.neighbor(i, axis, 0), self.neighbor(i, axis, 1), self.neighbor(i, axis, 2)) {
                (Some(j1), Some(j2), Some(j3)) => match (
                    self.vertex(i, 4 * axis),
                    self.vertex(j1, 4 * axis + 1),
                    self.vertex(j2, 4 * axis + 2),
                    self.vertex(j3, 4 * axis + 3),
                ) {
                    (Some(v0), Some(v1), Some(v2), Some(v3)) => {
                        let v = (v0, v1, v2, v3);
                        let o = ccw_order(axis);
                        if corner_inside(mask, c0) {
                            Some((pick(v, o.0), pick(v, o.1), pick(v, o.2), pick(v, o.3)))
                        } else {
                            Some((pick(v, o.3), pick(v, o.2), pick(v, o.1), pick(v, o.0)))
                        }
                    },
                    _ => None,
                },
                _ => None,
            }
        }
    }

    /// The quads of the first `n` leaves, then those of the first `axes` axes of
    /// leaf `n`, in order.
    pub open spec fn quads_upto(&self, n: int, axes: int) -> Seq<(int, int, int, int)>
        decreases n, axes,
    {
        if axes > 0 {
            let before = self.quads_upto(n, axes - 1);
            match self.quad(n, axes - 1) {
                Some(q) => before.push(q),
                None => before,
            }
        } else if n > 0 {
            self.quads_upto(n - 1, 3)
        } else {
            Seq::empty()
        }
    }
}

/// A quad of vertex positions, as integers.
pub open spec fn quad_ints(q: (usize, usize, usize, usize)) -> (int, int, int, int) {
    (q.0 as int, q.1 as int, q.2 as int, q.3 as int)
}

impl QuadInput {
    /// `quad` for leaf `i` and `axis`, computed with `index` over the keys.
    #[verifier::rlimit(40)]
    #[verifier::spinoff_prover]
    fn quad_at(&self, index: &CellIndex, i: usize, axis: usize) -> (r: Option<(usize, usize, usize, usize)>)
        requires
            self.inv(),
            i < self.keys.len(),
            axis < 3,
            forall|k: CellKey| #[trigger] index.index_of(k) == last_index(self.keys@, k, self.keys.len() as int),
        ensures
            match r {
                Some(q) => self.quad(i as int, axis as int) == Some(quad_ints(q)),
                None => self.quad(i as int, axis as int) is None,
            },
    {
        reveal(QuadInput::quad);
        if self.vertex_base[i].is_none() {
            return None;
        }
        let mask = self.masks[i];
        proof {
            crate::bbox::lemma_edge_corners_differ_in_one_bit(4 * axis as int);
        }
        let (c0, c1) = edge_corners((4 * axis) as u8);
        let in0 = (mask >> c0) & 1 == 1;
        let in1 = (mask >> c1) & 1 == 1;
        if in0 == in1 {
            return None;
        }
        let (cx, cy, cz, d) = self.keys[i];
        let ghost n = self.keys.len() as int;
        let j1 = match edge_neighbor(cx, cy, cz, axis, 0) {
            Some((x, y, z)) => match index.find_neighbor(x, y, z, d) {
                Some(j) => j,
                None => {
                    return None;
                },
            },
            None => {
                return None;
            },
        };
        let j2 = match edge_neighbor(cx, cy, cz, axis, 1) {
            Some((x, y, z)) => match index.find_neighbor(x, y, z, d) {
                Some(j) => j,
                None => {
                    return None;
                },
            },
            None => {
                return None;
            },
        };
        let j3 = match edge_neighbor(cx, cy, cz, axis, 2) {
            Some((x, y, z)) => match index.find_neighbor(x, y, z, d) {
                Some(j) => j,
                None => {
                    return None;
                },
            },
            None => {
                return None;
            },
        };
        proof {
            assert(self.neighbor(i as int, axis as int, 0) == Some(j1 as int));
            assert(self.neighbor(i as int, axis as int, 1) == Some(j2 as int));
            assert(self.neighbor(i as int, axis as int, 2) == Some(j3 as int));
            let (a, b, c, dd) = self.keys[i as int];
            match edge_neighbor_spec(a, b, c, axis as int, 0) {
                Some((x, y, z)) => lemma_last_index_range(self.keys@, (x, y, z, dd), n),
                None => {},
            }
            match edge_neighbor_spec(a, b, c, axis as int, 1) {
                Some((x, y, z)) => lemma_last_index_range(self.keys@, (x, y, z, dd), n),
                None => {},
            }
            match edge_neighbor_spec(a, b, c, axis as int, 2) {
                Some((x, y, z)) => lemma_last_index_range(self.keys@, (x, y, z, dd), n),
                None => {},
            }
        }
        let comps = self.components.as_slice();
        let bases = self.vertex_base.as_slice();
        let v0 = match vertex_for_edge(i, (4 * axis) as u8, mask, comps, bases) {
            Some(v) => v,
            None => {
                return None;
            },
        };
        let v1 = match vertex_for_edge(j1, (4 * axis + 1) as u8, self.masks[j1], comps, bases) {
            Some(v) => v,
            None => {
                return None;
            },
        };
        let v2 = match vertex_for_edge(j2, (4 * axis + 2) as u8, self.masks[j2], comps, bases) {
            Some(v) => v,
            None => {
                return None;
            },
        };
        let v3 = match vertex_for_edge(j3, (4 * axis + 3) as u8, self.masks[j3], comps, bases) {
            Some(v) => v,
            None => {
                return None;
            },
        };
        let verts = [v0, v1, v2, v3];
        let (o0, o1, o2, o3): (usize, usize, usize, usize) = if axis == 1 {
            (0, 2, 3, 1)
        } else {
            (0, 1, 3, 2)
        };
        proof {
            let v = (v0 as int, v1 as int, v2 as int, v3 as int);
            assert(forall|w: int| 0 <= w < 4 ==> #[trigger] pick(v, w) == verts[w] as int);
        }
        if in0 {
            Some((verts[o0], verts[o1], verts[o2], verts[o3]))
        } else {
            Some((verts[o3], verts[o2], verts[o1], verts[o0]))
        }
    }

    /// One quad per sign-changing min-corner edge shared by four leaves of the
    /// same depth that all have a vertex for it, leaf by leaf and axis by axis.
    pub fn generate_quads(&self) -> (quads: Vec<(usize, usize, usize, usize)>)
        requires
            self.inv(),
        ensures
            quads.len() == self.quads_upto(self.keys.len() as int, 0).len(),
            forall|k: int|
                0 <= k < quads.len() ==> quad_ints(#[trigger] quads[k]) == self.quads_upto(self.keys.len() as int, 0)[k],
    {
        let index = CellIndex::build(&self.keys);
        let mut quads: Vec<(usize, usize, usize, usize)> = Vec::new();
        let mut i: usize = 0;
        while i < self.keys.len()
            invariant
                self.inv(),
                i <= self.keys.len(),
                forall|k: CellKey| #[trigger] index.index_of(k) == last_index(self.keys@, k, self.keys.len() as int),
                quads.len() == self.quads_upto(i as int, 0).len(),
                forall|k: int| 0 <= k < quads.len() ==> quad_ints(#[trigger] quads[k]) == self.quads_upto(i as int, 0)[k],
            decreases self.keys.len() - i,
        {
            let mut axis: usize = 0;
            while axis < 3
                invariant
                    self.inv(),
                    i < self.keys.len(),
                    axis <= 3,
                    forall|k: CellKey| #[trigger] index.index_of(k) == last_index(self.keys@, k, self.keys.len() as int),
                    quads.len() == self.quads_upto(i as int, axis as int).len(),
                    forall|k: int|
                        0 <= k < quads.len() ==> quad_ints(#[trigger] quads[k]) == self.quads_upto(i as int, axis as int)[k],
                decreases 3 - axis,
            {
                if let Some(q) = self.quad_at(&index, i, axis) {
                    quads.push(q);
                }
                axis += 1;
            }
            proof {
                assert(self.quads_upto(i + 1, 0) == self.quads_upto(i as int, 3));
            }
            i += 1;
        }
        quads
    }
}

// ------------------------------------------------------------------------
// Sign-change edges, component offsets and vertex numbering
// ------------------------------------------------------------------------

/// Edge `edge` of a cell with `mask` changes sign: one corner inside, one outside.
pub open spec fn edge_changes_sign(mask: u8, edge: int) -> bool {
    corner_inside(mask, edge_corner_spec(edge).0) != corner_inside(mask, edge_corner_spec(edge).1)
}

/// The component of the inside corner of edge `edge` (its first corner if
/// inside, else its second).
pub open spec fn edge_component_spec(components: CellComponents, mask: u8, edge: int) -> u8 {
    let (c0, c1) = edge_corner_spec(edge);
    components.corner_component[if corner_inside(mask, c0) {
        c0
    } else {
        c1
    }]
}

/// The sign-changing edges of the first `n` cells, then of the first `e` edges
/// of cell `n`: (cell, edge, component of the edge's inside corner), in order.
pub open spec fn crossings_upto(masks: Seq<u8>, comps: Seq<CellComponents>, n: int, e: int) -> Seq<(usize, u8, u8)>
    decreases n, e,
{
    if e > 0 {
        let before = crossings_upto(masks, comps, n, e - 1);
        if edge_changes_sign(masks[n], e - 1) {
            before.push((n as usize, (e - 1) as u8, edge_component_spec(comps[n], masks[n], e - 1)))
        } else {
            before
        }
    } else if n > 0 {
        crossings_upto(masks, comps, n - 1, 12)
    } else {
        Seq::empty()
    }
}

/// Every sign-changing edge of every cell, with the component of its inside
/// corner: cell by cell, edges in order.
pub fn sign_change_edges(masks: &Vec<u8>, comps: &Vec<CellComponents>) -> (r: Vec<(usize, u8, u8)>)
    requires
        comps.len() == masks.len(),
        forall|i: int| 0 <= i < masks.len() ==> #[trigger] analysis_of(comps@[i], masks@[i]),
    ensures
        r@ == crossings_upto(masks@, comps@, masks.len() as int, 0),
{
    let mut r: Vec<(usize, u8, u8)> = Vec::new();
    let mut i: usize = 0;
    while i < masks.len()
        invariant
            comps.len() == masks.len(),
            forall|k: int| 0 <= k < masks.len() ==> #[trigger] analysis_of(comps@[k], masks@[k]),
            i <= masks.len(),
            r@ == crossings_upto(masks@, comps@, i as int, 0),
        decreases masks.len() - i,
    {
        let mask = masks[i];
        let mut edge: u8 = 0;
        while edge < 12
            invariant
                comps.len() == masks.len(),
                analysis_of(comps@[i as int], mask),
                i < masks.len(),
                mask == masks@[i as int],
                edge <= 12,
                r@ == crossings_upto(masks@, comps@, i as int, edge as int),
            decreases 12 - edge,
        {
            proof {
                crate::bbox::lemma_edge_corners_differ_in_one_bit(edge as int);
            }
            let (c0, c1) = edge_corners(edge);
            if ((mask >> c0) & 1 == 1) != ((mask >> c1) & 1 == 1) {
                proof {
                    lemma_sign_change_edge_component(mask, edge as int);
                    crate::dc::component::lemma_component_ids_in_range(mask, 0);
                }
                let comp = crate::dc::component::edge_component(&comps[i], mask, edge);
                r.push((i, edge, comp));
            }
            edge += 1;
        }
        proof {
            assert(crossings_upto(masks@, comps@, i + 1, 0) == crossings_upto(masks@, comps@, i as int, 12));
        }
        i += 1;
    }
    r
}

/// The number of components of the first `i` cells: where cell `i`'s
/// components start in a flat list of all components.
pub open spec fn comp_offset(comps: Seq<CellComponents>, i: int) -> int
    decreases i,
{
    if i <= 0 {
        0
    } else {
        comp_offset(comps, i - 1) + comps[i - 1].num_components
    }
}

proof fn lemma_comp_offset_bounds(comps: Seq<CellComponents>, i: int)
    requires
        0 <= i,
    ensures
        0 <= comp_offset(comps, i) <= 255 * i,
    decreases i,
{
    if i > 0 {
        lemma_comp_offset_bounds(comps, i - 1);
    }
}

/// Where each cell's components start in a flat list of all components, and
/// how many components there are in all.
pub fn component_offsets(comps: &Vec<CellComponents>) -> (r: (Vec<usize>, usize))
    requires
        comps.len() <= usize::MAX / 256,
    ensures
        r.0.len() == comps.len(),
        forall|i: int| 0 <= i < comps.len() ==> #[trigger] r.0[i] == comp_offset(comps@, i),
        r.1 == comp_offset(comps@, comps.len() as int),
{
    let mut offsets: Vec<usize> = Vec::with_capacity(comps.len());
    let mut total: usize = 0;
    let mut i: usize = 0;
    while i < comps.len()
        invariant
            comps.len() <= usize::MAX / 256,
            i <= comps.len(),
            offsets.len() == i,
            forall|j: int| 0 <= j < i ==> #[trigger] offsets[j] == comp_offset(comps@, j),
            total == comp_offset(comps@, i as int),
        decreases comps.len() - i,
    {
        proof {
            lemma_comp_offset_bounds(comps@, i as int);
        }
        offsets.push(total);
        total = total + comps[i].num_components as usize;
        i += 1;
    }
    (offsets, total)
}

/// Cell `i` gets vertices: at least one of its components has a solved position
/// (`solved` lists all components, cell by cell).
pub open spec fn cell_has_vertex(comps: Seq<CellComponents>, solved: Seq<bool>, i: int) -> bool {
    exists|c: int| 0 <= c < comps[i].num_components && #[trigger] solved[comp_offset(comps, i) + c]
}

/// The number of vertices of the first `i` cells: every component of a cell
/// that gets vertices has one, a cell without gets none.
pub open spec fn vertex_offset(comps: Seq<CellComponents>, solved: Seq<bool>, i: int) -> int
    decreases i,
{
    if i <= 0 {
        0
    } else {
        vertex_offset(comps, solved, i - 1) + if cell_has_vertex(comps, solved, i - 1) {
            comps[i - 1].num_components as int
        } else {
            0
        }
    }
}

proof fn lemma_vertex_offset_bounds(comps: Seq<CellComponents>, solved: Seq<bool>, i: int)
    requires
        0 <= i,
    ensures
        0 <= vertex_offset(comps, solved, i) <= comp_offset(comps, i),
    decreases i,
{
    if i > 0 {
        lemma_vertex_offset_bounds(comps, solved, i - 1);
    }
}

/// The first vertex of each cell (`None` for a cell without vertices) and the
/// number of vertices, given which components have a solved position: a cell
/// gets one vertex per component when any of its components is solved, and the
/// vertices are numbered cell by cell.
pub fn vertex_bases(comps: &Vec<CellComponents>, solved: &Vec<bool>) -> (r: (Vec<Option<usize>>, usize))
    requires
        comps.len() <= usize::MAX / 256,
        solved.len() == comp_offset(comps@, comps.len() as int),
    ensures
        r.0.len() == comps.len(),
        forall|i: int|
            0 <= i < comps.len() ==> #[trigger] r.0[i] == if cell_has_vertex(comps@, solved@, i) {
                Some(vertex_offset(comps@, solved@, i) as usize)
            } else {
                None
            },
        r.1 == vertex_offset(comps@, solved@, comps.len() as int),
{
    let mut bases: Vec<Option<usize>> = Vec::with_capacity(comps.len());
    let mut count: usize = 0;
    let mut sol_idx: usize = 0;
    let mut i: usize = 0;
    while i < comps.len()
        invariant
            comps.len() <= usize::MAX / 256,
            solved.len() == comp_offset(comps@, comps.len() as int),
            i <= comps.len(),
            bases.len() == i,
            forall|j: int|
                0 <= j < i ==> #[trigger] bases[j] == if cell_has_vertex(comps@, solved@, j) {
                    Some(vertex_offset(comps@, solved@, j) as usize)
                } else {
                    None
                },
            count == vertex_offset(comps@, solved@, i as int),
            sol_idx == comp_offset(comps@, i as int),
        decreases comps.len() - i,
    {
        let n = comps[i].num_components as usize;
        proof {
            lemma_comp_offset_bounds(comps@, i as int + 1);
            lemma_vertex_offset_bounds(comps@, solved@, i as int);
            assert(comp_offset(comps@, i as int + 1) <= comp_offset(comps@, comps.len() as int)) by {
                lemma_comp_offset_mono(comps@, i as int + 1, comps.len() as int);
            }
        }
        let mut has_any = false;
        let mut c: usize = 0;
        while c < n
            invariant
                n == comps@[i as int].num_components,
                sol_idx == comp_offset(comps@, i as int),
                sol_idx + n <= solved.len(),
                c <= n,
                has_any == exists|k: int| 0 <= k < c && #[trigger] solved@[sol_idx + k],
            decreases n - c,
        {
            if solved[sol_idx + c] {
                has_any = true;
            }
            c += 1;
        }
        proof {
            assert(has_any == cell_has_vertex(comps@, solved@, i as int));
        }
        if has_any {
            bases.push(Some(count));
            count = count + n;
        } else {
            bases.push(None);
        }
        sol_idx = sol_idx + n;
        i += 1;
    }
    (bases, count)
}

proof fn lemma_comp_offset_mono(comps: Seq<CellComponents>, i: int, j: int)
    requires
        0 <= i <= j,
    ensures
        comp_offset(comps, i) <= comp_offset(comps, j),
    decreases j - i,
{
    if i < j {
        lemma_comp_offset_mono(comps, i, j - 1);
    }
}

/// The triangles of quad (`a`, `b`, `c`, `d`) split along diagonal a-c
/// (`split_ac`) or b-d, leaving out triangles with a repeated vertex.
pub open spec fn quad_triangles_spec(q: (usize, usize, usize, usize), split_ac: bool) -> Seq<(usize, usize, usize)> {
    let (a, b, c, d) = q;
    let (t1, t2) = if split_ac {
        ((a, b, c), (a, c, d))
    } else {
        ((a, b, d), (b, c, d))
    };
    let first = if t1.0 != t1.1 && t1.1 != t1.2 && t1.0 != t1.2 {
        seq![t1]
    } else {
        Seq::empty()
    };
    if t2.0 != t2.1 && t2.1 != t2.2 && t2.0 != t2.2 {
        first.push(t2)
    } else {
        first
    }
}

/// Splits a quad into two triangles along diagonal a-c (`split_ac`) or b-d,
/// dropping a triangle that has a repeated vertex.
pub fn quad_triangles(q: (usize, usize, usize, usize), split_ac: bool) -> (r: Vec<(usize, usize, usize)>)
    ensures
        r@ == quad_triangles_spec(q, split_ac),
{
    let (a, b, c, d) = q;
    let mut r: Vec<(usize, usize, usize)> = Vec::new();
    if split_ac {
        if a != b && b != c && a != c {
            r.push((a, b, c));
        }
        if a != c && c != d && a != d {
            r.push((a, c, d));
        }
    } else {
        if a != b && b != d && a != d {
            r.push((a, b, d));
        }
        if b != c && c != d && b != d {
            r.push((b, c, d));
        }
    }
    proof {
        assert(r@ =~= quad_triangles_spec(q, split_ac));
    }
    r
}

// ------------------------------------------------------------------------
// Laws
// ------------------------------------------------------------------------

/// `c` is the component analysis of `mask` (as `compute_components` and
/// `component_table` give it).
pub open spec fn analysis_of(c: CellComponents, mask: u8) -> bool {
    &&& c.num_components == component_count_spec(mask)
    &&& forall|k: int| 0 <= k < 8 ==> #[trigger] c.corner_component[k] == component_spec(mask, k)
}

/// On a sign-changing edge, a cell's vertex for the edge is one of the cell's
/// own vertices: at or after its first, before its first plus its component count.
pub proof fn lemma_edge_vertex_in_cell(components: CellComponents, mask: u8, base: usize, e: int)
    requires
        analysis_of(components, mask),
        0 <= e < 12,
        edge_changes_sign(mask, e),
    ensures
        vertex_for_edge_spec(components, mask, Some(base), e) matches Some(v) && base <= v < base
            + components.num_components,
{
    lemma_sign_change_edge_component(mask, e);
    crate::bbox::lemma_edge_corners_differ_in_one_bit(e);
}

proof fn lemma_vertex_offset_mono(comps: Seq<CellComponents>, solved: Seq<bool>, i: int, j: int)
    requires
        0 <= i <= j,
    ensures
        vertex_offset(comps, solved, i) <= vertex_offset(comps, solved, j),
    decreases j - i,
{
    if i < j {
        lemma_vertex_offset_mono(comps, solved, i, j - 1);
    }
}

/// The vertices of a cell with vertices come before the vertex count.
pub proof fn lemma_cell_vertices_fit(comps: Seq<CellComponents>, solved: Seq<bool>, i: int, n: int)
    requires
        0 <= i < n,
        cell_has_vertex(comps, solved, i),
    ensures
        vertex_offset(comps, solved, i) + comps[i].num_components <= vertex_offset(comps, solved, n),
{
    lemma_vertex_offset_mono(comps, solved, i + 1, n);
}

/// Every quad refers to existing vertices: when the components are the
/// analyses of the masks, the first vertices are those `vertex_bases` numbers
/// from `solved`, and the four cells around the quad's edge each see the edge
/// change sign, each of the quad's vertices lies below the vertex count.
pub proof fn lemma_quad_vertices_exist(inp: QuadInput, solved: Seq<bool>, i: int, axis: int)
    requires
        inp.inv(),
        inp.keys.len() <= usize::MAX / 256,
        forall|j: int| 0 <= j < inp.keys.len() ==> analysis_of(#[trigger] inp.components[j], inp.masks[j]),
        forall|j: int|
            0 <= j < inp.keys.len() ==> #[trigger] inp.vertex_base[j] == if cell_has_vertex(inp.components@, solved, j) {
                Some(vertex_offset(inp.components@, solved, j) as usize)
            } else {
                None
            },
        0 <= i < inp.keys.len(),
        0 <= axis < 3,
        edge_changes_sign(inp.masks[i], 4 * axis),
        forall|w: int|
            0 <= w < 3 ==> (#[trigger] inp.neighbor(i, axis, w) matches Some(j) ==> edge_changes_sign(
                inp.masks[j],
                4 * axis + w + 1,
            )),
    ensures
        inp.quad(i, axis) matches Some(q) ==> {
            let total = vertex_offset(inp.components@, solved, inp.keys.len() as int);
            &&& 0 <= q.0 < total
            &&& 0 <= q.1 < total
            &&& 0 <= q.2 < total
            &&& 0 <= q.3 < total
        },
{
    reveal(QuadInput::quad);
    let n = inp.keys.len() as int;
    let comps = inp.components@;
    if let Some(q) = inp.quad(i, axis) {
        let (cx, cy, cz, d) = inp.keys[i];
        assert forall|j: int, e: int|
            0 <= j < n && 0 <= e < 12 && edge_changes_sign(inp.masks[j], e) && inp.vertex_base[j] is Some implies (
            #[trigger] inp.vertex(j, e) matches Some(v) && 0 <= v < vertex_offset(comps, solved, n)) by {
            let b = vertex_offset(comps, solved, j);
            lemma_vertex_offset_bounds(comps, solved, j);
            lemma_comp_offset_bounds(comps, j);
            lemma_edge_vertex_in_cell(inp.components[j], inp.masks[j], b as usize, e);
            lemma_cell_vertices_fit(comps, solved, j, n);
        }
        let j1 = inp.neighbor(i, axis, 0)->0;
        let j2 = inp.neighbor(i, axis, 1)->0;
        let j3 = inp.neighbor(i, axis, 2)->0;
        match edge_neighbor_spec(cx, cy, cz, axis, 0) {
            Some((x, y, z)) => lemma_last_index_range(inp.keys@, (x, y, z, d), n),
            None => {},
        }
        match edge_neighbor_spec(cx, cy, cz, axis, 1) {
            Some((x, y, z)) => lemma_last_index_range(inp.keys@, (x, y, z, d), n),
            None => {},
        }
        match edge_neighbor_spec(cx, cy, cz, axis, 2) {
            Some((x, y, z)) => lemma_last_index_range(inp.keys@, (x, y, z, d), n),
            None => {},
        }
        assert(inp.vertex(i, 4 * axis) is Some);
        assert(inp.vertex(j1, 4 * axis + 1) is Some);
        assert(inp.vertex(j2, 4 * axis + 2) is Some);
        assert(inp.vertex(j3, 4 * axis + 3) is Some);
    }
}

/// Manifold vertex choice: on a sign-changing edge of a cell whose components
/// are the analysis of its mask, the vertex chosen is the cell's first vertex
/// plus the component id of the edge's inside corner, whatever the number of
/// components.
pub proof fn lemma_vertex_is_inside_component(components: CellComponents, mask: u8, base: usize, e: int)
    requires
        analysis_of(components, mask),
        0 <= e < 12,
        edge_changes_sign(mask, e),
    ensures
        vertex_for_edge_spec(components, mask, Some(base), e) == Some(
            base + component_spec(mask, edge_inside_corner(mask, e)),
        ),
{
    lemma_sign_change_edge_component(mask, e);
    crate::bbox::lemma_edge_corners_differ_in_one_bit(e);
}

/// Two sign-changing edges of one cell get the same vertex exactly when their
/// inside corners are connected: separate components never share a vertex.
pub proof fn lemma_vertices_separate_components(components: CellComponents, mask: u8, base: usize, e1: int, e2: int)
    requires
        analysis_of(components, mask),
        0 <= e1 < 12,
        0 <= e2 < 12,
        edge_changes_sign(mask, e1),
        edge_changes_sign(mask, e2),
    ensures
        (vertex_for_edge_spec(components, mask, Some(base), e1) == vertex_for_edge_spec(
            components,
            mask,
            Some(base),
            e2,
        )) == connected(mask, edge_inside_corner(mask, e1), edge_inside_corner(mask, e2)),
{
    lemma_vertex_is_inside_component(components, mask, base, e1);
    lemma_vertex_is_inside_component(components, mask, base, e2);
    let a = edge_inside_corner(mask, e1);
    let b = edge_inside_corner(mask, e2);
    crate::bbox::lemma_edge_corners_differ_in_one_bit(e1);
    crate::bbox::lemma_edge_corners_differ_in_one_bit(e2);
    lemma_sign_change_edge_component(mask, e1);
    crate::dc::component::lemma_no_components_iff_uniform(mask);
    crate::dc::component::lemma_same_component_iff_connected(mask, a, b);
}

impl QuadInput {
    /// Quad orientation: a quad over the min-corner edge along `axis` of leaf
    /// `i` joins the vertices of the leaf itself (for local edge `4 axis`), of
    /// the leaf stepped back on the lower other axis (`4 axis + 1`), on the
    /// higher other axis (`4 axis + 2`) and on both (`4 axis + 3`), all of the
    /// leaf's depth. When the edge's first corner is inside they go
    /// counterclockwise seen from outside: itself, lower, both, higher for X
    /// and Z edges, and itself, higher, both, lower for Y edges; when it is
    /// outside, the same cycle runs the other way.
    pub proof fn lemma_quad_orientation(&self, i: int, axis: int)
        requires
            self.inv(),
            0 <= i < self.keys.len(),
            0 <= axis < 3,
            self.quad(i, axis) is Some,
        ensures
            ({
                let (cx, cy, cz, d) = self.keys[i];
                let j1 = self.neighbor(i, axis, 0)->0;
                let j2 = self.neighbor(i, axis, 1)->0;
                let j3 = self.neighbor(i, axis, 2)->0;
                let v0 = self.vertex(i, 4 * axis)->0;
                let v1 = self.vertex(j1, 4 * axis + 1)->0;
                let v2 = self.vertex(j2, 4 * axis + 2)->0;
                let v3 = self.vertex(j3, 4 * axis + 3)->0;
                let q = self.quad(i, axis)->0;
                let first_inside = corner_inside(self.masks[i], edge_corner_spec(4 * axis).0);
                &&& 0 <= j1 < self.keys.len() && 0 <= j2 < self.keys.len() && 0 <= j3 < self.keys.len()
                &&& axis == 0 ==> self.keys[j1] == (cx, (cy - 1) as u32, cz, d) && self.keys[j2] == (cx, cy, (cz - 1) as u32, d)
                    && self.keys[j3] == (cx, (cy - 1) as u32, (cz - 1) as u32, d)
                &&& axis == 1 ==> self.keys[j1] == ((cx - 1) as u32, cy, cz, d) && self.keys[j2] == (cx, cy, (cz - 1) as u32, d)
                    && self.keys[j3] == ((cx - 1) as u32, cy, (cz - 1) as u32, d)
                &&& axis == 2 ==> self.keys[j1] == ((cx - 1) as u32, cy, cz, d) && self.keys[j2] == (cx, (cy - 1) as u32, cz, d)
                    && self.keys[j3] == ((cx - 1) as u32, (cy - 1) as u32, cz, d)
                &&& first_inside && axis != 1 ==> q == (v0, v1, v3, v2)
                &&& first_inside && axis == 1 ==> q == (v0, v2, v3, v1)
                &&& !first_inside && axis != 1 ==> q == (v2, v3, v1, v0)
                &&& !first_inside && axis == 1 ==> q == (v1, v3, v2, v0)
            }),
    {
        reveal(QuadInput::quad);
        let (cx, cy, cz, d) = self.keys[i];
        let n = self.keys.len() as int;
        assert forall|w: int| 0 <= w < 3 implies #[trigger] self.neighbor(i, axis, w) is Some ==> {
            let j = self.neighbor(i, axis, w)->0;
            0 <= j < n && self.keys[j] == (
                (cx - edge_step(axis, w, 0)) as u32,
                (cy - edge_step(axis, w, 1)) as u32,
                (cz - edge_step(axis, w, 2)) as u32,
                d,
            )
        } by {
            match edge_neighbor_spec(cx, cy, cz, axis, w) {
                Some((x, y, z)) => lemma_last_index_range(self.keys@, (x, y, z, d), n),
                None => {},
            }
        }
        assert(self.neighbor(i, axis, 0) is Some);
        assert(self.neighbor(i, axis, 1) is Some);
        assert(self.neighbor(i, axis, 2) is Some);
    }
}

/// A key present among the first `n` keys has a last position there.
proof fn lemma_last_index_found(keys: Seq<CellKey>, k: CellKey, n: int, j: int)
    requires
        0 <= j < n,
        keys[j] == k,
    ensures
        last_index(keys, k, n) is Some,
    decreases n,
{
    if keys[n - 1] != k {
        lemma_last_index_found(keys, k, n - 1, j);
    }
}

impl QuadInput {
    /// Quad presence: when every leaf has vertices, a leaf whose min-corner
    /// edge along `axis` changes sign and whose three other cells around that
    /// edge are all listed at its depth gets a quad over the edge.
    pub proof fn lemma_quad_present(&self, i: int, axis: int)
        requires
            self.inv(),
            0 <= i < self.keys.len(),
            0 <= axis < 3,
            forall|j: int| 0 <= j < self.keys.len() ==> #[trigger] self.vertex_base[j] is Some,
            corner_inside(self.masks[i], edge_corner_spec(4 * axis).0) != corner_inside(
                self.masks[i],
                edge_corner_spec(4 * axis).1,
            ),
            forall|w: int|
                0 <= w < 3 ==> match #[trigger] edge_neighbor_spec(
                    self.keys[i].0,
                    self.keys[i].1,
                    self.keys[i].2,
                    axis,
                    w,
                ) {
                    Some((x, y, z)) => self.keys@.contains((x, y, z, self.keys[i].3)),
                    None => false,
                },
        ensures
            self.quad(i, axis) is Some,
    {
        reveal(QuadInput::quad);
        let (cx, cy, cz, d) = self.keys[i];
        let n = self.keys.len() as int;
        assert forall|w: int| 0 <= w < 3 implies (#[trigger] self.neighbor(i, axis, w)) matches Some(j) && 0 <= j < n
            && self.vertex_base[j] is Some by {
            match edge_neighbor_spec(cx, cy, cz, axis, w) {
                Some((x, y, z)) => {
                    let k = (x, y, z, d);
                    assert(self.keys@.contains(k));
                    let j = choose|j: int| 0 <= j < n && self.keys@[j] == k;
                    lemma_last_index_found(self.keys@, k, n, j);
                    lemma_last_index_range(self.keys@, k, n);
                },
                None => {},
            }
        }
        assert(self.neighbor(i, axis, 0) is Some);
        assert(self.neighbor(i, axis, 1) is Some);
        assert(self.neighbor(i, axis, 2) is Some);
    }
}

/// `(u, v)` is a side of quad `q` in its own direction: a to b, b to c, c to
/// d or d to a.
pub open spec fn forward_side(q: (usize, usize, usize, usize), u: usize, v: usize) -> bool {
    ||| (u, v) == (q.0, q.1)
    ||| (u, v) == (q.1, q.2)
    ||| (u, v) == (q.2, q.3)
    ||| (u, v) == (q.3, q.0)
}

/// `(u, v)` joins the ends of the diagonal a-c (`split_ac`) or b-d, either way.
pub open spec fn on_diagonal(q: (usize, usize, usize, usize), split_ac: bool, u: usize, v: usize) -> bool {
    if split_ac {
        (u, v) == (q.0, q.2) || (u, v) == (q.2, q.0)
    } else {
        (u, v) == (q.1, q.3) || (u, v) == (q.3, q.1)
    }
}

/// Each side of triangle `t` (first to second, second to third, third to
/// first) runs along quad `q` in its direction or across the chosen diagonal.
pub open spec fn keeps_orientation(q: (usize, usize, usize, usize), split_ac: bool, t: (usize, usize, usize)) -> bool {
    &&& forward_side(q, t.0, t.1) || on_diagonal(q, split_ac, t.0, t.1)
    &&& forward_side(q, t.1, t.2) || on_diagonal(q, split_ac, t.1, t.2)
    &&& forward_side(q, t.2, t.0) || on_diagonal(q, split_ac, t.2, t.0)
}

/// Splitting a quad keeps its orientation: every triangle has three distinct
/// vertices, and each of its sides follows the quad's direction or crosses
/// the chosen diagonal. When the quad's four vertices are distinct there are
/// two triangles, which cross the diagonal in opposite directions and
/// between them run along all four sides of the quad.
pub proof fn lemma_triangles_keep_orientation(q: (usize, usize, usize, usize), split_ac: bool)
    ensures
        ({
            let r = quad_triangles_spec(q, split_ac);
            &&& forall|i: int|
                0 <= i < r.len() ==> {
                    let t = #[trigger] r[i];
                    &&& t.0 != t.1 && t.1 != t.2 && t.0 != t.2
                    &&& keeps_orientation(q, split_ac, t)
                }
            &&& (q.0 != q.1 && q.0 != q.2 && q.0 != q.3 && q.1 != q.2 && q.1 != q.3 && q.2 != q.3) ==> {
                &&& r.len() == 2
                &&& forall|u: usize, v: usize|
                    forward_side(q, u, v) ==> exists|i: int|
                        0 <= i < 2 && {
                            let t = #[trigger] r[i];
                            (t.0, t.1) == (u, v) || (t.1, t.2) == (u, v) || (t.2, t.0) == (u, v)
                        }
                &&& if split_ac {
                    (r[0].2, r[0].0) == (q.2, q.0) && (r[1].0, r[1].1) == (q.0, q.2)
                } else {
                    (r[0].1, r[0].2) == (q.1, q.3) && (r[1].2, r[1].0) == (q.3, q.1)
                }
            }
        }),
{
    let r = quad_triangles_spec(q, split_ac);
    if q.0 != q.1 && q.0 != q.2 && q.0 != q.3 && q.1 != q.2 && q.1 != q.3 && q.2 != q.3 {
        assert(r.len() == 2);
        assert forall|u: usize, v: usize| forward_side(q, u, v) implies exists|i: int|
            0 <= i < 2 && {
                let t = #[trigger] r[i];
                (t.0, t.1) == (u, v) || (t.1, t.2) == (u, v) || (t.2, t.0) == (u, v)
            } by {
            if split_ac {
                if (u, v) == (q.0, q.1) || (u, v) == (q.1, q.2) {
                    assert((r[0].0, r[0].1) == (u, v) || (r[0].1, r[0].2) == (u, v));
                } else {
                    assert((r[1].1, r[1].2) == (u, v) || (r[1].2, r[1].0) == (u, v));
                }
            } else {
                if (u, v) == (q.0, q.1) || (u, v) == (q.3, q.0) {
                    assert((r[0].0, r[0].1) == (u, v) || (r[0].2, r[0].0) == (u, v));
                } else {
                    assert((r[1].0, r[1].1) == (u, v) || (r[1].1, r[1].2) == (u, v));
                }
            }
        }
    }
}

} // verus!
