//! Scenario bookkeeping of the simulation: the population cap, sampling of
//! recorded paths, which catalogue TLE sets belong to which fragment family,
//! and how bodies are labelled in the exported catalogue.

use vstd::prelude::*;
use crate::body::{BodyType, is_satellite_kind};
use crate::names::{contains, is_cosmos_fragment, is_iridium_fragment, is_cosmos_name, is_iridium_name, occurs_in};

verus! {

/// Upper bound on the number of bodies; newly created bodies beyond it are dropped.
pub const MAX_DEBRIS: usize = 50000;

/// Pieces the Cosmos-2251 satellite breaks into in the primary collision.
pub const COSMOS_PIECES: usize = 893;

/// Pieces the Iridium-33 satellite breaks into in the primary collision.
pub const IRIDIUM_PIECES: usize = 366;

/// How many of `offered` new bodies are added to a population of `current`
/// bodies: each is added while the population is below `cap`.
pub open spec fn admitted(current: nat, offered: nat, cap: nat) -> nat {
    if current >= cap {
        0
    } else if offered < cap - current {
        offered
    } else {
        (cap - current) as nat
    }
}

/// Appends new bodies in order while the population is below `cap`; the rest
/// are dropped.
pub fn admit_new_bodies<T>(bodies: &mut Vec<T>, newcomers: Vec<T>, cap: usize)
    ensures
        final(bodies)@ == old(bodies)@ + newcomers@.take(
            admitted(old(bodies).len() as nat, newcomers.len() as nat, cap as nat) as int,
        ),
{
    let mut newcomers = newcomers;
    let n = if bodies.len() >= cap {
        0
    } else if newcomers.len() < cap - bodies.len() {
        newcomers.len()
    } else {
        cap - bodies.len()
    };
    let ghost offered = newcomers@;
    newcomers.truncate(n);
    assert(newcomers@ =~= offered.take(n as int));
    bodies.append(&mut newcomers);
}

/// A population that is within its cap stays within it.
pub proof fn lemma_admission_respects_cap(current: nat, offered: nat, cap: nat)
    requires
        current <= cap,
    ensures
        current + admitted(current, offered, cap) <= cap,
        admitted(current, offered, cap) <= offered,
        current + offered <= cap ==> admitted(current, offered, cap) == offered,
        admitted(current, offered, cap) == offered || current + admitted(current, offered, cap) == cap,
{
}

/// Indices `0, step, 2 step, ...` below `min(len, limit)`: the samples kept
/// when a series is cut to `limit` items and thinned by `step`.
pub fn strided_indices(len: usize, limit: usize, step: usize) -> (r: Vec<usize>)
    requires
        step > 0,
    ensures
        forall|k: int| 0 <= k < r.len() ==> #[trigger] r[k] == k * step,
        forall|k: int| 0 <= k < r.len() ==> #[trigger] r[k] < len && r[k] < limit,
        r.len() * step >= (if len < limit { len } else { limit }),
{
    let m = if len < limit { len } else { limit };
    let mut r: Vec<usize> = Vec::new();
    let mut i: usize = 0;
    assert(r.len() * step == 0) by (nonlinear_arith)
        requires
            r.len() == 0,
    ;
    while i < m
        invariant_except_break
            i == r.len() * step,
        invariant
            m == (if len < limit { len } else { limit }),
            step > 0,
            forall|k: int| 0 <= k < r.len() ==> #[trigger] r[k] == k * step,
            forall|k: int| 0 <= k < r.len() ==> #[trigger] r[k] < m,
        ensures
            r.len() * step >= m,
        decreases m - i,
    {
        let ghost c = r.len();
        r.push(i);
        assert((c + 1) * step == c * step + step) by (nonlinear_arith);
        if m - i <= step {
            break;
        }
        i = i + step;
    }
    r
}

/// Whether a catalogue name belongs to the fragment family: Iridium-33
/// fragments when `iridium`, Cosmos-2251 fragments otherwise.
pub open spec fn in_family(name: Seq<char>, iridium: bool) -> bool {
    if iridium {
        is_iridium_name(name)
    } else {
        is_cosmos_name(name)
    }
}

/// Indices, among the first `n` names, of those in the family, in order.
pub open spec fn family_indices(names: Seq<String>, iridium: bool, n: int) -> Seq<usize>
    decreases n,
{
    if n <= 0 {
        Seq::empty()
    } else {
        let before = family_indices(names, iridium, n - 1);
        if in_family(names[n - 1]@, iridium) {
            before.push((n - 1) as usize)
        } else {
            before
        }
    }
}

/// The family of a breakup in the catalogue: in increasing catalogue order,
/// exactly the sets whose names hold "IRIDIUM" (Iridium-33 fragments) or,
/// for Cosmos-2251 fragments, "COSMOS" or "2251".
pub proof fn lemma_family_selection(names: Seq<String>, iridium: bool, n: int)
    requires
        0 <= n <= names.len(),
        names.len() <= usize::MAX,
    ensures
        ({
            let f = family_indices(names, iridium, n);
            &&& forall|k: int|
                0 <= k < f.len() ==> #[trigger] f[k] < n && (if iridium {
                    occurs_in(names[f[k] as int]@, "IRIDIUM"@)
                } else {
                    occurs_in(names[f[k] as int]@, "COSMOS"@) || occurs_in(names[f[k] as int]@, "2251"@)
                })
            &&& forall|k1: int, k2: int| 0 <= k1 < k2 < f.len() ==> #[trigger] f[k1] < #[trigger] f[k2]
            &&& forall|i: int|
                0 <= i < n && (if iridium {
                    occurs_in(names[i]@, "IRIDIUM"@)
                } else {
                    occurs_in(names[i]@, "COSMOS"@) || occurs_in(names[i]@, "2251"@)
                }) ==> exists|k: int| 0 <= k < f.len() && #[trigger] f[k] == i
        }),
    decreases n,
{
    if n > 0 {
        lemma_family_selection(names, iridium, n - 1);
        let before = family_indices(names, iridium, n - 1);
        let f = family_indices(names, iridium, n);
        assert forall|i: int|
            0 <= i < n && (if iridium {
                occurs_in(names[i]@, "IRIDIUM"@)
            } else {
                occurs_in(names[i]@, "COSMOS"@) || occurs_in(names[i]@, "2251"@)
            }) implies exists|k: int| 0 <= k < f.len() && #[trigger] f[k] == i by {
            if i < n - 1 {
                let k = choose|k: int| 0 <= k < before.len() && #[trigger] before[k] == i;
                assert(f[k] == before[k]);
            } else {
                assert(in_family(names[i]@, iridium));
                assert(f == before.push((n - 1) as usize));
                assert(f[before.len() as int] == i);
            }
        }
    }
}

/// Which catalogue TLE sets the first fragments of a breakup take over: the
/// sets of the family, in catalogue order, one per fragment, as many as
/// there are fragments.  Entry `i` is the index of the set fragment `i` takes.
pub fn tle_assignment(names: &Vec<String>, iridium: bool, pieces: usize) -> (r: Vec<usize>)
    ensures
        r@ == family_indices(names@, iridium, names.len() as int).take(
            if family_indices(names@, iridium, names.len() as int).len() < pieces {
                family_indices(names@, iridium, names.len() as int).len() as int
            } else {
                pieces as int
            },
        ),
{
    let mut all: Vec<usize> = Vec::new();
    let mut k: usize = 0;
    while k < names.len()
        invariant
            0 <= k <= names.len(),
            all@ == family_indices(names@, iridium, k as int),
        decreases names.len() - k,
    {
        let hit = if iridium {
            is_iridium_fragment(names[k].as_str())
        } else {
            is_cosmos_fragment(names[k].as_str())
        };
        if hit {
            all.push(k);
        }
        k += 1;
    }
    let ghost full = all@;
    if pieces < all.len() {
        all.truncate(pieces);
    }
    assert(all@ =~= full.take(if full.len() < pieces { full.len() as int } else { pieces as int }));
    all
}

/// Label of a body kind in the exported catalogue.
pub fn catalog_label(t: BodyType) -> (r: &'static str)
    ensures
        is_satellite_kind(t) ==> r@ == "SATELLITE"@,
        !is_satellite_kind(t) ==> r@ == "DEBRIS"@,
{
    if t.is_satellite() {
        "SATELLITE"
    } else {
        "DEBRIS"
    }
}

/// Index of the first name containing `a` or `b`, if any.
pub fn find_first_naming(names: &Vec<String>, a: &str, b: &str) -> (r: Option<usize>)
    ensures
        r matches Some(k) ==> {
            &&& k < names.len()
            &&& (occurs_in(names@[k as int]@, a@) || occurs_in(names@[k as int]@, b@))
            &&& forall|j: int| 0 <= j < k ==> !(occurs_in(#[trigger] names@[j]@, a@) || occurs_in(names@[j]@, b@))
        },
        r is None ==> forall|j: int| 0 <= j < names.len() ==> !(occurs_in(#[trigger] names@[j]@, a@) || occurs_in(names@[j]@, b@)),
{
    let mut k: usize = 0;
    while k < names.len()
        invariant
            0 <= k <= names.len(),
            forall|j: int| 0 <= j < k ==> !(occurs_in(#[trigger] names@[j]@, a@) || occurs_in(names@[j]@, b@)),
        decreases names.len() - k,
    {
        if contains(names[k].as_str(), a) || contains(names[k].as_str(), b) {
            return Some(k);
        }
        k += 1;
    }
    None
}

/// The TLE set of the primary Cosmos-2251 satellite among catalogue sets:
/// the first whose name holds "22675" or "2251".
pub fn find_cosmos_primary(names: &Vec<String>) -> (r: Option<usize>)
    ensures
        r matches Some(k) ==> {
            &&& k < names.len()
            &&& (occurs_in(names@[k as int]@, "22675"@) || occurs_in(names@[k as int]@, "2251"@))
            &&& forall|j: int| 0 <= j < k ==> !(occurs_in(#[trigger] names@[j]@, "22675"@) || occurs_in(names@[j]@, "2251"@))
        },
        r is None ==> forall|j: int| 0 <= j < names.len() ==> !(occurs_in(#[trigger] names@[j]@, "22675"@) || occurs_in(names@[j]@, "2251"@)),
{
    find_first_naming(names, "22675", "2251")
}

/// The TLE set of the primary Iridium-33 satellite among catalogue sets:
/// the first whose name holds "24946" or "33".
pub fn find_iridium_primary(names: &Vec<String>) -> (r: Option<usize>)
    ensures
        r matches Some(k) ==> {
            &&& k < names.len()
            &&& (occurs_in(names@[k as int]@, "24946"@) || occurs_in(names@[k as int]@, "33"@))
            &&& forall|j: int| 0 <= j < k ==> !(occurs_in(#[trigger] names@[j]@, "24946"@) || occurs_in(names@[j]@, "33"@))
        },
        r is None ==> forall|j: int| 0 <= j < names.len() ==> !(occurs_in(#[trigger] names@[j]@, "24946"@) || occurs_in(names@[j]@, "33"@)),
{
    find_first_naming(names, "24946", "33")
}

} // verus!
