//! Reading back a split: the path that `subdivide` walks (by grid position)
//! and the path that `cell_at` walks (by cell coordinates) agree, so after a
//! cell is split its children are found where they belong.
use vstd::prelude::*;
use vstd::arithmetic::power2::pow2;
use crate::eval::cache::{corner_offset, lemma_corner_offsets};
use crate::octree::cell::Cell;
use crate::octree::{
    child_spec, coord_bit, descend, descent_depth, follow_slot, levels_ok, path_bit, path_octant, path_seq,
    subdivided, Octree,
};

verus! {

proof fn lemma_low_bit(x: u32)
    ensures
        (x & 1) as int == (x as int) % 2,
{
    assert((x & 1) as int == (x as int) % 2) by (bit_vector);
}

/// At level `l`, the descent to grid position `c * 2^(m - d)` on the grid of
/// depth `m` takes bit `d - l - 1` of `c`, the bit the descent to cell `c` at
/// depth `d` takes.
proof fn lemma_grid_bit(c: u32, d: u8, m: u8, l: int)
    requires
        0 <= l < d < m <= 31,
        (c as int) < pow2(d as nat),
    ensures
        path_bit((c as int * pow2((m - d) as nat)) as u32, m, l) == coord_bit(c, d - l - 1),
{
    let w = pow2((m - d) as nat) as int;
    let p = pow2((d - 1 - l) as nat) as int;
    let v = c as int * w;
    vstd::arithmetic::power2::lemma_pow2_pos((m - d) as nat);
    vstd::arithmetic::power2::lemma_pow2_pos((d - 1 - l) as nat);
    vstd::arithmetic::power2::lemma_pow2_adds(d as nat, (m - d) as nat);
    vstd::arithmetic::power2::lemma_pow2_adds((m - d) as nat, (d - 1 - l) as nat);
    assert((d as nat + (m - d) as nat) == m as nat);
    assert(((m - d) as nat + (d - 1 - l) as nat) == (m - 1 - l) as nat);
    vstd::arithmetic::mul::lemma_mul_strict_inequality(c as int, pow2(d as nat) as int, w);
    vstd::arithmetic::power2::lemma_pow2_strictly_increases(m as nat, 32);
    vstd::arithmetic::power2::lemma2_to64();
    assert(0 <= v < pow2(m as nat));
    assert(v <= u32::MAX);
    assert((v as u32) as int == v);
    vstd::arithmetic::div_mod::lemma_div_denominator(v, w, p);
    vstd::arithmetic::mul::lemma_mul_is_commutative(c as int, w);
    vstd::arithmetic::div_mod::lemma_div_multiples_vanish(c as int, w);
    assert(v / w == c as int);
    assert(v / pow2((m - 1 - l) as nat) as int == (c as int) / p);
    let s = (d - l - 1) as u32;
    vstd::bits::lemma_u32_shr_is_div(c, s);
    lemma_low_bit(c >> s);
}

/// Doubling a coordinate and adding a bit shifts its bits up by one.
proof fn lemma_child_bits(c: u32, b: u32, s: u32)
    by (bit_vector)
    requires
        c < 0x8000_0000,
        b <= 1,
        s < 31,
    ensures
        (((2 * c + b) as u32) >> ((s + 1) as u32)) & 1 == (c >> s) & 1,
        (((2 * c + b) as u32) >> 0u32) & 1 == b,
{
}

/// The descent to a child of cell `c` at depth `d + 1` takes the same octants
/// as the descent to `c` for the first `d` levels, then the child's octant.
proof fn lemma_child_path(cx: u32, cy: u32, cz: u32, d: u8, octant: u8, l: int)
    requires
        d < 31,
        (cx as int) < pow2(d as nat),
        (cy as int) < pow2(d as nat),
        (cz as int) < pow2(d as nat),
        octant < 8,
        0 <= l <= d,
    ensures
        ({
            let qx = (2 * cx + corner_offset(octant, 0)) as u32;
            let qy = (2 * cy + corner_offset(octant, 1)) as u32;
            let qz = (2 * cz + corner_offset(octant, 2)) as u32;
            &&& l < d ==> path_octant(qx, qy, qz, (d + 1) as u8, l) == path_octant(cx, cy, cz, d, l)
            &&& l == d ==> path_octant(qx, qy, qz, (d + 1) as u8, l) == octant
        }),
{
    lemma_corner_offsets(octant);
    vstd::arithmetic::power2::lemma_pow2_strictly_increases(d as nat, 31);
    vstd::arithmetic::power2::lemma2_to64();
    let bx = corner_offset(octant, 0) as u32;
    let by = corner_offset(octant, 1) as u32;
    let bz = corner_offset(octant, 2) as u32;
    if l < d {
        let s = (d - l - 1) as u32;
        lemma_child_bits(cx, bx, s);
        lemma_child_bits(cy, by, s);
        lemma_child_bits(cz, bz, s);
        assert((((d + 1) as u8) - l - 1) as u32 == s + 1);
    } else {
        lemma_child_bits(cx, bx, 0);
        lemma_child_bits(cy, by, 0);
        lemma_child_bits(cz, bz, 0);
        assert((((d + 1) as u8) - l - 1) as u32 == 0);
    }
}

/// Walking down the octants of `path` from a cell `k` levels deep on the way to
/// (`cx`, `cy`, `cz`) at depth `d` (reached without meeting a cell without
/// children) ends at the slot of the cell at depth `d`, an entry whose cells
/// lie at depth `d`.
proof fn lemma_slot_level<S>(
    ch: Seq<[Cell<S>; 8]>,
    root: Cell<S>,
    lv: Seq<nat>,
    h: nat,
    c: Cell<S>,
    cx: u32,
    cy: u32,
    cz: u32,
    d: u8,
    path: Seq<u8>,
    k: int,
    slot: Option<(int, int)>,
)
    requires
        levels_ok(ch, root, lv, h),
        path.len() == d,
        0 <= k <= d,
        forall|l: int| 0 <= l < d ==> #[trigger] path[l] as int == path_octant(cx, cy, cz, d, l),
        slot is None ==> c == root && k == 0,
        slot matches Some((i, o)) ==> 0 <= i < ch.len() && 0 <= o < 8 && c == ch[i][o] && lv[i] == k,
        descent_depth(ch, c, cx, cy, cz, d, k, (d - k) as nat) == d - k,
    ensures
        match follow_slot(ch, c, path, k, slot) {
            None => d == 0,
            Some((i, o)) => 0 <= i < ch.len() && 0 <= o < 8 && lv[i] == d,
        },
    decreases d - k,
{
    if k < d {
        let j = c->children_index as int;
        let o = path[k] as int;
        crate::octree::lemma_path_octant_range(cx, cy, cz, d, k);
        lemma_slot_level(ch, root, lv, h, ch[j][o], cx, cy, cz, d, path, k + 1, Some((j, o)));
    }
}

/// After the split, the descent from a cell `k` levels deep on the way to
/// child (`qx`, `qy`, `qz`) of the split cell goes down the same cells as
/// before to the split cell, now a branch, and on to the new child.
proof fn lemma_lookup_after<S>(
    ch: Seq<[Cell<S>; 8]>,
    root: Cell<S>,
    lv: Seq<nat>,
    h: nat,
    ch2: Seq<[Cell<S>; 8]>,
    root2: Cell<S>,
    kids: [Cell<S>; 8],
    target: Option<(int, int)>,
    cx: u32,
    cy: u32,
    cz: u32,
    d: u8,
    qx: u32,
    qy: u32,
    qz: u32,
    path: Seq<u8>,
    k: int,
    c: Cell<S>,
    slot: Option<(int, int)>,
)
    requires
        levels_ok(ch, root, lv, h),
        path.len() == d,
        0 <= k <= d,
        forall|l: int| 0 <= l < d ==> #[trigger] path[l] as int == path_octant(cx, cy, cz, d, l),
        forall|l: int| 0 <= l < d ==> #[trigger] path_octant(qx, qy, qz, (d + 1) as u8, l) == path_octant(cx, cy, cz, d, l),
        match target {
            None => d == 0,
            Some((i, o)) => 0 <= i < ch.len() && 0 <= o < 8 && lv[i] == d,
        },
        ch2.len() == ch.len() + 1,
        ch2[ch.len() as int] == kids,
        match target {
            None => {
                &&& root2 == Cell::<S>::Branch { children_index: ch.len() as u32 }
                &&& forall|j: int| 0 <= j < ch.len() ==> #[trigger] ch2[j] == ch[j]
            },
            Some((i, o)) => {
                &&& root2 == root
                &&& forall|j: int| 0 <= j < ch.len() && j != i ==> #[trigger] ch2[j] == ch[j]
                &&& ch2[i]@ == ch[i]@.update(o, Cell::<S>::Branch { children_index: ch.len() as u32 })
            },
        },
        ch.len() < u32::MAX,
        slot is None ==> c == root && k == 0,
        slot matches Some((i, o)) ==> 0 <= i < ch.len() && 0 <= o < 8 && c == ch[i][o] && lv[i] == k,
        descent_depth(ch, c, cx, cy, cz, d, k, (d - k) as nat) == d - k,
        follow_slot(ch, c, path, k, slot) == target,
    ensures
        ({
            let c2 = match slot {
                None => root2,
                Some((i, o)) => ch2[i][o],
            };
            &&& descend(ch2, c2, qx, qy, qz, (d + 1) as u8, k, (d + 1 - k) as nat) == kids[path_octant(
                qx,
                qy,
                qz,
                (d + 1) as u8,
                d as int,
            )]
            &&& descent_depth(ch2, c2, qx, qy, qz, (d + 1) as u8, k, (d + 1 - k) as nat) == d + 1 - k
        }),
    decreases d - k,
{
    let n = ch.len() as int;
    let c2 = match slot {
        None => root2,
        Some((i, o)) => ch2[i][o],
    };
    if k == d {
        assert(follow_slot(ch, c, path, k, slot) == slot);
        match slot {
            None => {},
            Some((i, o)) => {
                assert(ch2[i][o] == ch2[i]@[o]);
            },
        }
        assert(c2 == Cell::<S>::Branch { children_index: n as u32 });
        let last = path_octant(qx, qy, qz, (d + 1) as u8, d as int);
        assert(child_spec(ch2, c2, last) == kids[last]);
        assert(descend(ch2, kids[last], qx, qy, qz, (d + 1) as u8, k + 1, 0) == kids[last]);
        assert(descent_depth(ch2, kids[last], qx, qy, qz, (d + 1) as u8, k + 1, 0) == 0);
    } else {
        let j = c->children_index as int;
        let o = path[k] as int;
        crate::octree::lemma_path_octant_range(cx, cy, cz, d, k);
        // the cell itself is unchanged: it lies above the split slot
        match slot {
            None => {
                assert(target is Some);
                assert(c2 == c);
            },
            Some((a, b)) => {
                match target {
                    Some((i, _)) => {
                        assert(a != i);
                        assert(ch2[a] == ch[a]);
                    },
                    None => {},
                }
                assert(c2 == c);
            },
        }
        assert(c is Branch);
        assert(0 <= j < n);
        lemma_lookup_after(
            ch,
            root,
            lv,
            h,
            ch2,
            root2,
            kids,
            target,
            cx,
            cy,
            cz,
            d,
            qx,
            qy,
            qz,
            path,
            k + 1,
            ch[j][o],
            Some((j, o)),
        );
        assert(path_octant(qx, qy, qz, (d + 1) as u8, k) == o);
        assert(child_spec(ch2, c2, o) == ch2[j][o]);
    }
}

/// Reading back a split: after `subdivide` splits the cell at (`cx`, `cy`,
/// `cz`) at depth `d` of a well-formed tree whose descent reaches that depth
/// (the cell given by its grid position on the grid of depth `m`), looking up
/// child `octant` of that cell at depth `d + 1` finds `kids[octant]`.
pub proof fn lemma_lookup_after_subdivide<S>(
    before: Octree<S>,
    after: Octree<S>,
    cx: u32,
    cy: u32,
    cz: u32,
    d: u8,
    m: u8,
    kids: [Cell<S>; 8],
    octant: u8,
)
    requires
        before.well_formed(),
        before.children.len() < u32::MAX,
        d < m <= 31,
        (cx as int) < pow2(d as nat),
        (cy as int) < pow2(d as nat),
        (cz as int) < pow2(d as nat),
        before.lookup_depth(cx, cy, cz, d) == d,
        octant < 8,
        subdivided(
            before,
            after,
            path_seq(
                (cx * pow2((m - d) as nat)) as u32,
                (cy * pow2((m - d) as nat)) as u32,
                (cz * pow2((m - d) as nat)) as u32,
                d,
                m,
            ),
            kids,
        ),
    ensures
        ({
            let qx = (2 * cx + corner_offset(octant, 0)) as u32;
            let qy = (2 * cy + corner_offset(octant, 1)) as u32;
            let qz = (2 * cz + corner_offset(octant, 2)) as u32;
            &&& after.lookup_cell(qx, qy, qz, (d + 1) as u8) == kids[octant as int]
            &&& after.lookup_depth(qx, qy, qz, (d + 1) as u8) == d + 1
        }),
{
    let lv = choose|lv: Seq<nat>| levels_ok(before.children@, before.root, lv, 31);
    let ch = before.children@;
    let gx = (cx * pow2((m - d) as nat)) as u32;
    let gy = (cy * pow2((m - d) as nat)) as u32;
    let gz = (cz * pow2((m - d) as nat)) as u32;
    let path = path_seq(gx, gy, gz, d, m);
    let qx = (2 * cx + corner_offset(octant, 0)) as u32;
    let qy = (2 * cy + corner_offset(octant, 1)) as u32;
    let qz = (2 * cz + corner_offset(octant, 2)) as u32;
    assert forall|l: int| 0 <= l < d implies #[trigger] path[l] as int == path_octant(cx, cy, cz, d, l) by {
        lemma_grid_bit(cx, d, m, l);
        lemma_grid_bit(cy, d, m, l);
        lemma_grid_bit(cz, d, m, l);
        crate::octree::lemma_path_octant_range(cx, cy, cz, d, l);
    }
    assert forall|l: int| 0 <= l < d implies #[trigger] path_octant(qx, qy, qz, (d + 1) as u8, l) == path_octant(
        cx,
        cy,
        cz,
        d,
        l,
    ) by {
        lemma_child_path(cx, cy, cz, d, octant, l);
    }
    lemma_child_path(cx, cy, cz, d, octant, d as int);
    let target = follow_slot(ch, before.root, path, 0, None);
    lemma_slot_level(ch, before.root, lv, 31, before.root, cx, cy, cz, d, path, 0, None);
    lemma_lookup_after(
        ch,
        before.root,
        lv,
        31,
        after.children@,
        after.root,
        kids,
        target,
        cx,
        cy,
        cz,
        d,
        qx,
        qy,
        qz,
        path,
        0,
        before.root,
        None,
    );
}

} // verus!
