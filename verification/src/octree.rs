//! Octant bookkeeping of the Barnes-Hut octree: which child octant a point
//! falls in, and on which side of the parent's centre each child lies.

use vstd::prelude::*;

verus! {

/// Insertions deeper than this are ignored (guards against endless
/// subdivision of coincident points).
pub const MAX_TREE_DEPTH: usize = 20;

/// Octant index of a point: bit 0 set when it is not below the centre along
/// x, bit 1 along y, bit 2 along z.
pub open spec fn octant_index_of(x_high: bool, y_high: bool, z_high: bool) -> int {
    (if x_high { 1int } else { 0int }) + (if y_high { 2int } else { 0int }) + (if z_high { 4int } else { 0int })
}

/// Octant of a point, given on which side of the node's centre it lies
/// along each axis (`true`: at or above the centre).
pub fn octant_index(x_high: bool, y_high: bool, z_high: bool) -> (r: usize)
    ensures
        r == octant_index_of(x_high, y_high, z_high),
        r < 8,
{
    let dx: usize = if x_high { 1 } else { 0 };
    let dy: usize = if y_high { 2 } else { 0 };
    let dz: usize = if z_high { 4 } else { 0 };
    dx + dy + dz
}

/// Side of the parent's centre on which the centre of child `idx` lies
/// along each axis (`true`: offset by plus half the child size).
pub fn child_offsets(idx: usize) -> (r: (bool, bool, bool))
    requires
        idx < 8,
    ensures
        r.0 == (idx % 2 == 1),
        r.1 == ((idx / 2) % 2 == 1),
        r.2 == (idx / 4 == 1),
{
    (idx % 2 == 1, (idx / 2) % 2 == 1, idx / 4 == 1)
}

/// The centre of each child lies in the octant that child was created for:
/// locating a child's centre gives back the child's index.
pub proof fn lemma_child_centre_in_own_octant(idx: int)
    requires
        0 <= idx < 8,
    ensures
        octant_index_of(idx % 2 == 1, (idx / 2) % 2 == 1, idx / 4 == 1) == idx,
{
}

/// Distinct octants of a point are distinct children.
pub proof fn lemma_octants_distinct(a: (bool, bool, bool), b: (bool, bool, bool))
    requires
        a != b,
    ensures
        octant_index_of(a.0, a.1, a.2) != octant_index_of(b.0, b.1, b.2),
{
}

} // verus!
