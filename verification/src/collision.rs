//! Collision pass: the spatial-grid broad phase, the decision taken for each
//! nearby pair, and which bodies a pass destroys.
//!
//! Distances are measured by the caller; this module decides with the
//! outcomes of the three distance comparisons the pass makes.

use vstd::prelude::*;
use crate::body::{BodyType, is_satellite_kind, visual_radius_km};

verus! {

/// Edge of a broad-phase grid cell, in kilometres.
pub const GRID_CELL_SIZE_KM: u32 = 160;

/// A satellite closer than this (kilometres) to another body fragments.
pub const COLLISION_DISTANCE_KM: u32 = 50;

/// Two bodies closer than this (metres) bounce off each other.
pub const INTERACTION_DISTANCE_M: u32 = 500;

/// Pieces released when the station module is hit after the primary collision.
pub const CASCADE_PIECES: usize = 200;

/// Pieces released by each fragmenting satellite.
pub const FRAGMENT_PIECES: usize = 60;

/// Fragment count reported by a fragmentation event.
pub const FRAGMENT_EVENT_PIECES: usize = 120;

/// Integer grid coordinates of a body (position divided by the cell size, floored).
pub type GridCell = (i32, i32, i32);

pub open spec fn coords_adjacent(a: i32, b: i32) -> bool {
    -1 <= a - b <= 1
}

/// Two cells touch: they are equal or neighbours along every axis.
pub open spec fn cells_adjacent(a: GridCell, b: GridCell) -> bool {
    coords_adjacent(a.0, b.0) && coords_adjacent(a.1, b.1) && coords_adjacent(a.2, b.2)
}

/// A cell whose neighbours can be addressed without leaving the `i32` range.
pub open spec fn cell_in_range(c: GridCell) -> bool {
    i32::MIN < c.0 < i32::MAX && i32::MIN < c.1 < i32::MAX && i32::MIN < c.2 < i32::MAX
}

/// The pair `(i, j)` is examined by the pass: both bodies are alive and lie
/// in touching cells.
pub open spec fn is_candidate_pair(cells: Seq<GridCell>, alive: Seq<bool>, i: int, j: int) -> bool {
    &&& 0 <= i < j < cells.len()
    &&& j < alive.len()
    &&& alive[i]
    &&& alive[j]
    &&& cells_adjacent(cells[i], cells[j])
}

/// Lexicographic order on index pairs.
pub open spec fn pair_before(p: (usize, usize), q: (usize, usize)) -> bool {
    p.0 < q.0 || (p.0 == q.0 && p.1 < q.1)
}

fn coords_touch(a: i32, b: i32) -> (r: bool)
    ensures
        r == coords_adjacent(a, b),
{
    let d = a as i64 - b as i64;
    -1 <= d && d <= 1
}

/// Every pair of alive bodies in touching grid cells, each pair once, with
/// the smaller index first, in lexicographic order.
pub fn candidate_pairs(cells: &Vec<GridCell>, alive: &Vec<bool>) -> (pairs: Vec<(usize, usize)>)
    requires
        cells.len() == alive.len(),
        forall|i: int| 0 <= i < cells.len() && alive[i] ==> cell_in_range(#[trigger] cells[i]),
    ensures
        forall|k: int|
            0 <= k < pairs.len() ==> is_candidate_pair(
                cells@,
                alive@,
                (#[trigger] pairs[k]).0 as int,
                pairs[k].1 as int,
            ),
        forall|i: int, j: int|
            is_candidate_pair(cells@, alive@, i, j) ==> exists|k: int|
                0 <= k < pairs.len() && #[trigger] pairs[k] == (i as usize, j as usize),
        forall|k1: int, k2: int|
            0 <= k1 < k2 < pairs.len() ==> pair_before(#[trigger] pairs[k1], #[trigger] pairs[k2]),
{
    let n = cells.len();
    let mut pairs: Vec<(usize, usize)> = Vec::new();
    let mut i: usize = 0;
    while i < n
        invariant
            0 <= i <= n,
            n == cells.len(),
            n == alive.len(),
            forall|k: int|
                0 <= k < pairs.len() ==> is_candidate_pair(
                    cells@,
                    alive@,
                    (#[trigger] pairs[k]).0 as int,
                    pairs[k].1 as int,
                ),
            forall|k: int| 0 <= k < pairs.len() ==> (#[trigger] pairs[k]).0 < i,
            forall|a: int, b: int|
                is_candidate_pair(cells@, alive@, a, b) && a < i ==> exists|k: int|
                    0 <= k < pairs.len() && #[trigger] pairs[k] == (a as usize, b as usize),
            forall|k1: int, k2: int|
                0 <= k1 < k2 < pairs.len() ==> pair_before(#[trigger] pairs[k1], #[trigger] pairs[k2]),
        decreases n - i,
    {
        if alive[i] {
            let mut j: usize = i + 1;
            while j < n
                invariant
                    i < n,
                    i + 1 <= j <= n,
                    n == cells.len(),
                    n == alive.len(),
                    alive[i as int],
                    forall|k: int|
                        0 <= k < pairs.len() ==> is_candidate_pair(
                            cells@,
                            alive@,
                            (#[trigger] pairs[k]).0 as int,
                            pairs[k].1 as int,
                        ),
                    forall|k: int|
                        0 <= k < pairs.len() ==> (#[trigger] pairs[k]).0 < i || (pairs[k].0 == i
                            && pairs[k].1 < j),
                    forall|a: int, b: int|
                        is_candidate_pair(cells@, alive@, a, b) && (a < i || (a == i && b < j))
                            ==> exists|k: int|
                            0 <= k < pairs.len() && #[trigger] pairs[k] == (a as usize, b as usize),
                    forall|k1: int, k2: int|
                        0 <= k1 < k2 < pairs.len() ==> pair_before(
                            #[trigger] pairs[k1],
                            #[trigger] pairs[k2],
                        ),
                decreases n - j,
            {
                let ci = cells[i];
                let cj = cells[j];
                if alive[j] && coords_touch(ci.0, cj.0) && coords_touch(ci.1, cj.1) && coords_touch(
                    ci.2,
                    cj.2,
                ) {
                    let ghost before = pairs@;
                    pairs.push((i, j));
                    assert forall|a: int, b: int|
                        is_candidate_pair(cells@, alive@, a, b) && (a < i || (a == i && b < j + 1))
                            implies exists|k: int|
                            0 <= k < pairs.len() && #[trigger] pairs[k] == (a as usize, b as usize) by {
                        if a == i && b == j {
                            assert(pairs[before.len() as int] == (a as usize, b as usize));
                        } else {
                            let k = choose|k: int|
                                0 <= k < before.len() && #[trigger] before[k] == (a as usize, b as usize);
                            assert(pairs[k] == (a as usize, b as usize));
                        }
                    }
                }
                j += 1;
            }
        }
        i += 1;
    }
    pairs
}

/// Which distance thresholds a pair lies within.
#[derive(Debug, Clone, Copy, PartialEq, Eq, Structural)]
pub struct Proximity {
    /// Closer than the sum of the two bodies' drawing radii.
    pub within_contact: bool,
    /// Closer than `COLLISION_DISTANCE_KM`.
    pub within_collision: bool,
    /// Closer than `INTERACTION_DISTANCE_M`.
    pub within_interaction: bool,
}

/// What the pass does with one examined pair.
#[derive(Debug, Clone, Copy, PartialEq, Eq, Structural)]
pub enum PairOutcome {
    /// No effect.
    Nothing,
    /// The station module was hit after the primary collision: a cloud of
    /// `CASCADE_PIECES` is released at the station and both bodies are lost.
    ZaryaCascade,
    /// Satellites in the pair break up into `FRAGMENT_PIECES` each; `first`
    /// and `second` tell which of the two fragment.
    Fragment { first: bool, second: bool },
    /// Two close bodies bounce off each other.
    Bounce,
}

/// The decision rule for one pair of kinds `t1`, `t2`.
pub open spec fn outcome_of(t1: BodyType, t2: BodyType, p: Proximity, main_done: bool) -> PairOutcome {
    if (t1 is Zarya || t2 is Zarya) && p.within_contact {
        if main_done {
            PairOutcome::ZaryaCascade
        } else {
            PairOutcome::Nothing
        }
    } else if (is_satellite_kind(t1) || is_satellite_kind(t2)) && p.within_collision {
        PairOutcome::Fragment { first: is_satellite_kind(t1), second: is_satellite_kind(t2) }
    } else if p.within_interaction {
        PairOutcome::Bounce
    } else {
        PairOutcome::Nothing
    }
}

/// The decision rule for a pair, with the satellite kinds (the station
/// module, Cosmos-2251, Iridium-33 and the live constellation) spelled out:
/// a contact with the station module is a cascade once the primary
/// collision has happened and nothing before; otherwise, a pair within the
/// collision distance that holds a satellite fragments exactly its
/// satellites, whichever position they hold in the pair; otherwise two
/// bodies within the interaction distance bounce; otherwise nothing happens.
pub proof fn lemma_pair_decision_rule(t1: BodyType, t2: BodyType, p: Proximity, main_done: bool)
    ensures
        ({
            let sat1 = t1 is Zarya || t1 is Russs || t1 is Iridium33 || t1 is LiveSatellite;
            let sat2 = t2 is Zarya || t2 is Russs || t2 is Iridium33 || t2 is LiveSatellite;
            let station_contact = (t1 is Zarya || t2 is Zarya) && p.within_contact;
            outcome_of(t1, t2, p, main_done) == if station_contact {
                if main_done {
                    PairOutcome::ZaryaCascade
                } else {
                    PairOutcome::Nothing
                }
            } else if (sat1 || sat2) && p.within_collision {
                PairOutcome::Fragment { first: sat1, second: sat2 }
            } else if p.within_interaction {
                PairOutcome::Bounce
            } else {
                PairOutcome::Nothing
            }
        }),
{
}

/// The decision does not depend on the order of the pair: swapping the two
/// bodies gives the same outcome, with the fragmentation flags swapped.
pub proof fn lemma_pair_decision_symmetric(t1: BodyType, t2: BodyType, p: Proximity, main_done: bool)
    ensures
        outcome_of(t2, t1, p, main_done) == match outcome_of(t1, t2, p, main_done) {
            PairOutcome::Fragment { first, second } => PairOutcome::Fragment { first: second, second: first },
            o => o,
        },
{
}

/// Distance (kilometres) under which a pair involving the station module is a contact.
pub fn contact_distance_km(t1: BodyType, t2: BodyType) -> (r: u32)
    ensures
        r == visual_radius_km(t1) + visual_radius_km(t2),
{
    t1.visual_radius() + t2.visual_radius()
}

/// Decides what happens to one examined pair.
pub fn classify_pair(t1: BodyType, t2: BodyType, p: Proximity, main_done: bool) -> (r: PairOutcome)
    ensures
        r == outcome_of(t1, t2, p, main_done),
        (t1 is Zarya || t2 is Zarya) && p.within_contact ==> r == (if main_done {
            PairOutcome::ZaryaCascade
        } else {
            PairOutcome::Nothing
        }),
        !((t1 is Zarya || t2 is Zarya) && p.within_contact) && p.within_collision && (t1 is Zarya
            || t1 is Russs || t1 is Iridium33 || t1 is LiveSatellite || t2 is Zarya || t2 is Russs
            || t2 is Iridium33 || t2 is LiveSatellite) ==> r == (PairOutcome::Fragment {
            first: t1 is Zarya || t1 is Russs || t1 is Iridium33 || t1 is LiveSatellite,
            second: t2 is Zarya || t2 is Russs || t2 is Iridium33 || t2 is LiveSatellite,
        }),
{
    let zarya_involved = match t1 {
        BodyType::Zarya => true,
        _ => match t2 {
            BodyType::Zarya => true,
            _ => false,
        },
    };
    let sat1 = t1.is_satellite();
    let sat2 = t2.is_satellite();
    if zarya_involved && p.within_contact {
        if main_done {
            PairOutcome::ZaryaCascade
        } else {
            PairOutcome::Nothing
        }
    } else if (sat1 || sat2) && p.within_collision {
        PairOutcome::Fragment { first: sat1, second: sat2 }
    } else if p.within_interaction {
        PairOutcome::Bounce
    } else {
        PairOutcome::Nothing
    }
}

/// The ids a single outcome destroys, for the pair of bodies `(a, b)`.
pub open spec fn destroyed_by(ids: Seq<u64>, pair: (usize, usize), o: PairOutcome) -> Seq<u64> {
    match o {
        PairOutcome::ZaryaCascade => seq![ids[pair.0 as int], ids[pair.1 as int]],
        PairOutcome::Fragment { first, second } => (if first {
            seq![ids[pair.0 as int]]
        } else {
            Seq::empty()
        }) + (if second {
            seq![ids[pair.1 as int]]
        } else {
            Seq::empty()
        }),
        _ => Seq::empty(),
    }
}

/// The ids destroyed by the first `n` outcomes, in order.
pub open spec fn destroyed_upto(
    ids: Seq<u64>,
    pairs: Seq<(usize, usize)>,
    outcomes: Seq<PairOutcome>,
    n: int,
) -> Seq<u64>
    decreases n,
{
    if n <= 0 {
        Seq::empty()
    } else {
        destroyed_upto(ids, pairs, outcomes, n - 1) + destroyed_by(ids, pairs[n - 1], outcomes[n - 1])
    }
}

/// The decisions of one collision pass.
pub struct CollisionPlan {
    /// One outcome per examined pair, in the order of the pairs.
    pub outcomes: Vec<PairOutcome>,
    /// Ids of the bodies the pass destroys (an id may appear more than once).
    pub doomed: Vec<u64>,
}

/// Decides every examined pair and collects the ids of the bodies destroyed.
///
/// `proximity[k]` holds the distance comparisons for `pairs[k]`; `main_done`
/// tells whether the primary collision has already happened.
pub fn plan_collisions(
    types: &Vec<BodyType>,
    ids: &Vec<u64>,
    pairs: &Vec<(usize, usize)>,
    proximity: &Vec<Proximity>,
    main_done: bool,
) -> (plan: CollisionPlan)
    requires
        types.len() == ids.len(),
        pairs.len() == proximity.len(),
        forall|k: int|
            0 <= k < pairs.len() ==> (#[trigger] pairs[k]).0 < types.len() && pairs[k].1
                < types.len(),
    ensures
        plan.outcomes.len() == pairs.len(),
        forall|k: int|
            0 <= k < pairs.len() ==> #[trigger] plan.outcomes[k] == outcome_of(
                types[pairs[k].0 as int],
                types[pairs[k].1 as int],
                proximity[k],
                main_done,
            ),
        plan.doomed@ == destroyed_upto(ids@, pairs@, plan.outcomes@, pairs.len() as int),
{
    let mut outcomes: Vec<PairOutcome> = Vec::new();
    let mut doomed: Vec<u64> = Vec::new();
    let mut k: usize = 0;
    while k < pairs.len()
        invariant
            0 <= k <= pairs.len(),
            types.len() == ids.len(),
            pairs.len() == proximity.len(),
            forall|q: int|
                0 <= q < pairs.len() ==> (#[trigger] pairs[q]).0 < types.len() && pairs[q].1
                    < types.len(),
            outcomes.len() == k,
            forall|q: int|
                0 <= q < k ==> #[trigger] outcomes[q] == outcome_of(
                    types[pairs[q].0 as int],
                    types[pairs[q].1 as int],
                    proximity[q],
                    main_done,
                ),
            doomed@ == destroyed_upto(ids@, pairs@, outcomes@, k as int),
        decreases pairs.len() - k,
    {
        let (a, b) = pairs[k];
        let o = classify_pair(types[a], types[b], proximity[k], main_done);
        let ghost before = doomed@;
        let ghost before_outcomes = outcomes@;
        match o {
            PairOutcome::ZaryaCascade => {
                doomed.push(ids[a]);
                doomed.push(ids[b]);
            },
            PairOutcome::Fragment { first, second } => {
                if first {
                    doomed.push(ids[a]);
                }
                if second {
                    doomed.push(ids[b]);
                }
            },
            _ => {},
        }
        outcomes.push(o);
        proof {
            lemma_destroyed_upto_prefix(ids@, pairs@, outcomes@, before_outcomes, k as int);
            assert(outcomes@[k as int] == o);
            assert(doomed@ =~= before + destroyed_by(ids@, pairs[k as int], o));
            assert(destroyed_upto(ids@, pairs@, outcomes@, k + 1) == destroyed_upto(
                ids@,
                pairs@,
                outcomes@,
                k as int,
            ) + destroyed_by(ids@, pairs@[k as int], outcomes@[k as int]));
        }
        k += 1;
    }
    CollisionPlan { outcomes, doomed }
}

/// `destroyed_upto` only looks at the first `n` outcomes.
proof fn lemma_destroyed_upto_prefix(
    ids: Seq<u64>,
    pairs: Seq<(usize, usize)>,
    o1: Seq<PairOutcome>,
    o2: Seq<PairOutcome>,
    n: int,
)
    requires
        0 <= n <= o1.len(),
        n <= o2.len(),
        forall|q: int| 0 <= q < n ==> o1[q] == o2[q],
    ensures
        destroyed_upto(ids, pairs, o1, n) == destroyed_upto(ids, pairs, o2, n),
    decreases n,
{
    if n > 0 {
        lemma_destroyed_upto_prefix(ids, pairs, o1, o2, n - 1);
    }
}

/// Index `i` holds the first body with id `d`.
pub open spec fn first_with_id(ids: Seq<u64>, i: int, d: u64) -> bool {
    &&& 0 <= i < ids.len()
    &&& ids[i] == d
    &&& forall|j: int| 0 <= j < i ==> ids[j] != d
}

/// Alive flags after destroying, for each doomed id, the first body carrying it.
pub open spec fn after_destruction(alive: Seq<bool>, ids: Seq<u64>, doomed: Seq<u64>) -> Seq<bool> {
    Seq::new(
        alive.len(),
        |i: int|
            alive[i] && !(exists|k: int| 0 <= k < doomed.len() && first_with_id(ids, i, #[trigger] doomed[k])),
    )
}

/// Marks as dead, for each doomed id, the first body carrying that id.
pub fn mark_destroyed(alive: &mut Vec<bool>, ids: &Vec<u64>, doomed: &Vec<u64>)
    requires
        old(alive).len() == ids.len(),
    ensures
        final(alive)@ == after_destruction(old(alive)@, ids@, doomed@),
{
    let ghost start = alive@;
    let mut k: usize = 0;
    while k < doomed.len()
        invariant
            0 <= k <= doomed.len(),
            alive.len() == ids.len(),
            start.len() == ids.len(),
            forall|i: int|
                0 <= i < alive.len() ==> #[trigger] alive[i] == (start[i] && !(exists|q: int|
                    0 <= q < k && first_with_id(ids@, i, #[trigger] doomed[q]))),
        decreases doomed.len() - k,
    {
        let d = doomed[k];
        let mut i: usize = 0;
        let mut found = false;
        while i < ids.len() && !found
            invariant
                0 <= i <= ids.len(),
                alive.len() == ids.len(),
                start.len() == ids.len(),
                0 <= k < doomed.len(),
                d == doomed[k as int],
                found ==> i >= 1 && first_with_id(ids@, i - 1, d),
                !found ==> forall|j: int| 0 <= j < i ==> ids[j] != d,
                forall|j: int|
                    0 <= j < alive.len() ==> #[trigger] alive[j] == (start[j] && !(exists|q: int|
                        0 <= q < k && first_with_id(ids@, j, #[trigger] doomed[q])) && !(found && j
                        == i - 1)),
            decreases ids.len() - i + (if found { 0int } else { 1int }),
        {
            if ids[i] == d {
                alive.set(i, false);
                found = true;
            }
            i += 1;
        }
        assert forall|j: int| 0 <= j < alive.len() implies #[trigger] alive[j] == (start[j] && !(exists|q: int|
            0 <= q < k + 1 && first_with_id(ids@, j, #[trigger] doomed[q]))) by {
            if first_with_id(ids@, j, d) {
                assert(found);
                assert(j == i - 1);
            }
            if exists|q: int| 0 <= q < k + 1 && first_with_id(ids@, j, #[trigger] doomed[q]) {
                let q = choose|q: int| 0 <= q < k + 1 && first_with_id(ids@, j, #[trigger] doomed[q]);
                if q == k {
                    assert(first_with_id(ids@, j, d));
                }
            }
            if found && j == i - 1 {
                assert(first_with_id(ids@, j, doomed[k as int]));
            }
        }
        k += 1;
    }
    assert(alive@ =~= after_destruction(start, ids@, doomed@));
}

/// The outcome of the pair `pair` destroys the body at index `i`.
pub open spec fn outcome_destroys(pair: (usize, usize), o: PairOutcome, i: int) -> bool {
    match o {
        PairOutcome::ZaryaCascade => pair.0 == i || pair.1 == i,
        PairOutcome::Fragment { first, second } => (first && pair.0 == i) || (second && pair.1 == i),
        _ => false,
    }
}

/// Some examined pair destroys the body at index `i`.
pub open spec fn destroyed_in_pass(pairs: Seq<(usize, usize)>, outcomes: Seq<PairOutcome>, i: int) -> bool {
    exists|k: int| 0 <= k < pairs.len() && #[trigger] outcome_destroys(pairs[k], outcomes[k], i)
}

/// No two bodies share an id.
pub open spec fn unique_ids(ids: Seq<u64>) -> bool {
    forall|i: int, j: int| 0 <= i < ids.len() && 0 <= j < ids.len() && i != j ==> ids[i] != ids[j]
}

proof fn lemma_destroyed_membership(
    ids: Seq<u64>,
    pairs: Seq<(usize, usize)>,
    outcomes: Seq<PairOutcome>,
    n: int,
    i: int,
)
    requires
        unique_ids(ids),
        0 <= i < ids.len(),
        0 <= n <= pairs.len(),
        outcomes.len() == pairs.len(),
        forall|k: int| 0 <= k < pairs.len() ==> (#[trigger] pairs[k]).0 < ids.len() && pairs[k].1 < ids.len(),
    ensures
        (exists|q: int| 0 <= q < destroyed_upto(ids, pairs, outcomes, n).len()
            && #[trigger] destroyed_upto(ids, pairs, outcomes, n)[q] == ids[i]) <==> (exists|k: int|
            0 <= k < n && #[trigger] outcome_destroys(pairs[k], outcomes[k], i)),
    decreases n,
{
    if n > 0 {
        lemma_destroyed_membership(ids, pairs, outcomes, n - 1, i);
        let prev = destroyed_upto(ids, pairs, outcomes, n - 1);
        let last = destroyed_by(ids, pairs[n - 1], outcomes[n - 1]);
        let all = destroyed_upto(ids, pairs, outcomes, n);
        assert(all == prev + last);
        let p = pairs[n - 1];
        let in_last = exists|q: int| 0 <= q < last.len() && #[trigger] last[q] == ids[i];
        assert(in_last <==> outcome_destroys(p, outcomes[n - 1], i)) by {
            if outcome_destroys(p, outcomes[n - 1], i) {
                match outcomes[n - 1] {
                    PairOutcome::ZaryaCascade => {
                        if p.0 == i {
                            assert(last[0] == ids[i]);
                        } else {
                            assert(last[1] == ids[i]);
                        }
                    },
                    PairOutcome::Fragment { first, second } => {
                        if first && p.0 == i {
                            assert(last[0] == ids[i]);
                        } else {
                            assert(last[last.len() - 1] == ids[i]);
                        }
                    },
                    _ => {},
                }
            }
            if in_last {
                let q = choose|q: int| 0 <= q < last.len() && #[trigger] last[q] == ids[i];
                match outcomes[n - 1] {
                    PairOutcome::ZaryaCascade => {
                        assert(ids[p.0 as int] == ids[i] || ids[p.1 as int] == ids[i]);
                    },
                    PairOutcome::Fragment { first, second } => {
                        if first && q == 0 {
                            assert(ids[p.0 as int] == ids[i]);
                        } else {
                            assert(second);
                            assert(ids[p.1 as int] == ids[i]);
                        }
                    },
                    _ => {},
                }
            }
        }
        if exists|q: int| 0 <= q < all.len() && #[trigger] all[q] == ids[i] {
            let q = choose|q: int| 0 <= q < all.len() && #[trigger] all[q] == ids[i];
            if q < prev.len() {
                assert(prev[q] == ids[i]);
            } else {
                assert(last[q - prev.len()] == ids[i]);
            }
        }
        if exists|k: int| 0 <= k < n && #[trigger] outcome_destroys(pairs[k], outcomes[k], i) {
            let k = choose|k: int| 0 <= k < n && #[trigger] outcome_destroys(pairs[k], outcomes[k], i);
            if k < n - 1 {
                let q = choose|q: int| 0 <= q < prev.len() && #[trigger] prev[q] == ids[i];
                assert(all[q] == ids[i]);
            } else {
                let q = choose|q: int| 0 <= q < last.len() && #[trigger] last[q] == ids[i];
                assert(all[prev.len() + q] == ids[i]);
            }
        }
    }
}

/// A collision pass destroys exactly the bodies that took part in a cascade
/// and the satellites of fragmenting pairs; every other body keeps its state.
pub proof fn lemma_pass_destroys_exactly_participants(
    alive: Seq<bool>,
    ids: Seq<u64>,
    pairs: Seq<(usize, usize)>,
    outcomes: Seq<PairOutcome>,
)
    requires
        alive.len() == ids.len(),
        unique_ids(ids),
        outcomes.len() == pairs.len(),
        forall|k: int| 0 <= k < pairs.len() ==> (#[trigger] pairs[k]).0 < ids.len() && pairs[k].1 < ids.len(),
    ensures
        forall|i: int|
            0 <= i < alive.len() ==> #[trigger] after_destruction(
                alive,
                ids,
                destroyed_upto(ids, pairs, outcomes, pairs.len() as int),
            )[i] == (alive[i] && !destroyed_in_pass(pairs, outcomes, i)),
{
    let doomed = destroyed_upto(ids, pairs, outcomes, pairs.len() as int);
    assert forall|i: int| 0 <= i < alive.len() implies #[trigger] after_destruction(alive, ids, doomed)[i] == (
    alive[i] && !destroyed_in_pass(pairs, outcomes, i)) by {
        lemma_destroyed_membership(ids, pairs, outcomes, pairs.len() as int, i);
        let hit = exists|k: int| 0 <= k < doomed.len() && first_with_id(ids, i, #[trigger] doomed[k]);
        let member = exists|q: int| 0 <= q < doomed.len() && #[trigger] doomed[q] == ids[i];
        assert(hit <==> member) by {
            if member {
                let q = choose|q: int| 0 <= q < doomed.len() && #[trigger] doomed[q] == ids[i];
                assert(first_with_id(ids, i, doomed[q]));
            }
        }
    }
}

} // verus!
