//! Triangle indices of the textured Earth sphere.
//!
//! The sphere has `(lat_steps + 1) * (lon_steps + 1)` vertices laid out
//! ring by ring (vertex `lat * (lon_steps + 1) + lon`); every grid cell is
//! drawn as two triangles.

use vstd::prelude::*;
use vstd::arithmetic::div_mod::lemma_fundamental_div_mod_converse;

verus! {

/// Number of vertices of the sphere mesh.
pub open spec fn vertex_count(lat_steps: int, lon_steps: int) -> int {
    (lat_steps + 1) * (lon_steps + 1)
}

/// Entry `k` of the index list: cell `c = k / 6` (ring `c / lon_steps`,
/// column `c % lon_steps`) contributes the triangles (first, second, first+1)
/// and (second, second+1, first+1), where `first` is the cell's corner vertex
/// and `second` the vertex below it on the next ring.
pub open spec fn sphere_index(lon_steps: int, k: int) -> int {
    let c = k / 6;
    let first = (c / lon_steps) * (lon_steps + 1) + c % lon_steps;
    let second = first + lon_steps + 1;
    let j = k % 6;
    if j == 0 {
        first
    } else if j == 1 {
        second
    } else if j == 2 {
        first + 1
    } else if j == 3 {
        second
    } else if j == 4 {
        second + 1
    } else {
        first + 1
    }
}

proof fn lemma_cell_entry(lat: int, lon: int, lon_steps: int, j: int)
    requires
        0 <= lat,
        0 <= lon < lon_steps,
        0 <= j < 6,
    ensures
        ({
            let k = 6 * (lat * lon_steps + lon) + j;
            &&& k / 6 == lat * lon_steps + lon
            &&& k % 6 == j
            &&& (lat * lon_steps + lon) / lon_steps == lat
            &&& (lat * lon_steps + lon) % lon_steps == lon
        }),
{
    let c = lat * lon_steps + lon;
    assert(6 * c + j == c * 6 + j) by (nonlinear_arith);
    lemma_fundamental_div_mod_converse(6 * c + j, 6, c, j);
    lemma_fundamental_div_mod_converse(c, lon_steps, lat, lon);
}

/// The triangle index list of the sphere mesh.
pub fn sphere_indices(lat_steps: u32, lon_steps: u32) -> (r: Vec<u32>)
    requires
        vertex_count(lat_steps as int, lon_steps as int) <= u32::MAX as int + 1,
    ensures
        r.len() == 6 * lat_steps * lon_steps,
        forall|k: int| 0 <= k < r.len() ==> #[trigger] r[k] == sphere_index(lon_steps as int, k),
        forall|k: int| 0 <= k < r.len() ==> #[trigger] r[k] < vertex_count(lat_steps as int, lon_steps as int),
{
    let mut r: Vec<u32> = Vec::new();
    let ghost t = lat_steps as int;
    let ghost l = lon_steps as int;
    let mut lat: u32 = 0;
    while lat < lat_steps
        invariant
            0 <= lat <= lat_steps,
            t == lat_steps,
            l == lon_steps,
            (t + 1) * (l + 1) <= u32::MAX as int + 1,
            r.len() == 6 * (lat * l),
            forall|k: int| 0 <= k < r.len() ==> #[trigger] r[k] == sphere_index(l, k),
            forall|k: int| 0 <= k < r.len() ==> #[trigger] r[k] < (t + 1) * (l + 1),
        decreases lat_steps - lat,
    {
        let mut lon: u32 = 0;
        while lon < lon_steps
            invariant
                0 <= lat < lat_steps,
                0 <= lon <= lon_steps,
                t == lat_steps,
                l == lon_steps,
                (t + 1) * (l + 1) <= u32::MAX as int + 1,
                r.len() == 6 * (lat * l + lon),
                forall|k: int| 0 <= k < r.len() ==> #[trigger] r[k] == sphere_index(l, k),
                forall|k: int| 0 <= k < r.len() ==> #[trigger] r[k] < (t + 1) * (l + 1),
            decreases lon_steps - lon,
        {
            let ghost f = lat * (l + 1) + lon;
            assert(f + l + 2 <= (t + 1) * (l + 1) - 1) by (nonlinear_arith)
                requires
                    f == lat * (l + 1) + lon,
                    0 <= lat < t,
                    0 <= lon < l,
            ;
            let first: u32 = lat * (lon_steps + 1) + lon;
            let second: u32 = first + lon_steps + 1;
            let ghost base = r.len() as int;
            proof {
                lemma_cell_entry(lat as int, lon as int, l, 0);
                lemma_cell_entry(lat as int, lon as int, l, 1);
                lemma_cell_entry(lat as int, lon as int, l, 2);
                lemma_cell_entry(lat as int, lon as int, l, 3);
                lemma_cell_entry(lat as int, lon as int, l, 4);
                lemma_cell_entry(lat as int, lon as int, l, 5);
                assert(base == 6 * (lat * l + lon));
            }
            r.push(first);
            r.push(second);
            r.push(first + 1);
            r.push(second);
            r.push(second + 1);
            r.push(first + 1);
            assert(r.len() == 6 * (lat * l + lon + 1));
            assert(forall|k: int| 0 <= k < r.len() ==> #[trigger] r[k] == sphere_index(l, k)) by {
                assert(r[base] == sphere_index(l, base));
                assert(r[base + 1] == sphere_index(l, base + 1));
                assert(r[base + 2] == sphere_index(l, base + 2));
                assert(r[base + 3] == sphere_index(l, base + 3));
                assert(r[base + 4] == sphere_index(l, base + 4));
                assert(r[base + 5] == sphere_index(l, base + 5));
            }
            lon += 1;
        }
        assert(6 * (lat * l + l) == 6 * ((lat + 1) * l)) by (nonlinear_arith);
        lat += 1;
    }
    assert(6 * lat_steps * lon_steps == 6 * (t * l)) by (nonlinear_arith)
        requires
            t == lat_steps,
            l == lon_steps,
    ;
    r
}

} // verus!
