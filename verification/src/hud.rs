//! Decisions behind the display: which bodies are drawn, how they are
//! counted and labelled, and which satellite an avoidance burn is planned for.

use vstd::prelude::*;
use crate::body::{BodyType, is_satellite_kind};
use crate::names::{contains, lowercase, lowercase_of, uppercase, uppercase_of, occurs_in};

verus! {

/// Bodies drawn at most per frame.
pub const DRAW_CAP: usize = 50005;

/// Body `i` is drawn: it is alive, and either debris is shown or it is a satellite.
pub open spec fn is_drawn(alive: Seq<bool>, types: Seq<BodyType>, show_debris: bool, i: int) -> bool {
    alive[i] && (show_debris || is_satellite_kind(types[i]))
}

/// Indices, among the first `n` bodies, of the drawn ones, in order.
pub open spec fn drawn_upto(alive: Seq<bool>, types: Seq<BodyType>, show_debris: bool, n: int) -> Seq<usize>
    decreases n,
{
    if n <= 0 {
        Seq::empty()
    } else {
        let before = drawn_upto(alive, types, show_debris, n - 1);
        if is_drawn(alive, types, show_debris, n - 1) {
            before.push((n - 1) as usize)
        } else {
            before
        }
    }
}

/// The bodies to draw, in order: the alive ones that are satellites or, when
/// debris is shown, any alive ones; at most `cap` of them.
pub fn drawn_bodies(alive: &Vec<bool>, types: &Vec<BodyType>, show_debris: bool, cap: usize) -> (r: Vec<usize>)
    requires
        alive.len() == types.len(),
    ensures
        r@ == drawn_upto(alive@, types@, show_debris, alive.len() as int).take(
            if drawn_upto(alive@, types@, show_debris, alive.len() as int).len() < cap {
                drawn_upto(alive@, types@, show_debris, alive.len() as int).len() as int
            } else {
                cap as int
            },
        ),
        r.len() <= cap,
        forall|k: int|
            0 <= k < r.len() ==> #[trigger] r[k] < alive.len() && alive[r[k] as int] && (show_debris
                || types[r[k] as int] is Zarya || types[r[k] as int] is Russs || types[r[k] as int] is Iridium33
                || types[r[k] as int] is LiveSatellite),
        forall|k1: int, k2: int| 0 <= k1 < k2 < r.len() ==> #[trigger] r[k1] < #[trigger] r[k2],
        r.len() < cap ==> forall|i: int|
            0 <= i < alive.len() && alive[i] && (show_debris || types[i] is Zarya || types[i] is Russs
                || types[i] is Iridium33 || types[i] is LiveSatellite) ==> exists|k: int|
                0 <= k < r.len() && #[trigger] r[k] == i,
{
    proof {
        lemma_drawn_selection(alive@, types@, show_debris, alive.len() as int);
    }
    let mut r: Vec<usize> = Vec::new();
    let mut i: usize = 0;
    while i < alive.len()
        invariant
            0 <= i <= alive.len(),
            alive.len() == types.len(),
            r@ == drawn_upto(alive@, types@, show_debris, i as int),
        decreases alive.len() - i,
    {
        if alive[i] && (show_debris || types[i].is_satellite()) {
            r.push(i);
        }
        i += 1;
    }
    let ghost full = r@;
    if cap < r.len() {
        r.truncate(cap);
    }
    assert(r@ =~= full.take(if full.len() < cap { full.len() as int } else { cap as int }));
    r
}

/// Number of satellites among the first `n` kinds.
pub open spec fn satellites_upto(types: Seq<BodyType>, n: int) -> nat
    decreases n,
{
    if n <= 0 {
        0
    } else {
        satellites_upto(types, n - 1) + if is_satellite_kind(types[n - 1]) { 1nat } else { 0nat }
    }
}

/// What is drawn: the drawn list of the first `n` bodies holds, in
/// increasing order, exactly the alive bodies that are satellites (the
/// station module, Cosmos-2251, Iridium-33, the live constellation) or,
/// when debris is shown, any alive body.  With debris hidden no piece of
/// debris is ever drawn.
pub proof fn lemma_drawn_selection(alive: Seq<bool>, types: Seq<BodyType>, show_debris: bool, n: int)
    requires
        0 <= n <= alive.len(),
        alive.len() == types.len(),
        alive.len() <= usize::MAX,
    ensures
        ({
            let r = drawn_upto(alive, types, show_debris, n);
            &&& forall|k: int|
                0 <= k < r.len() ==> #[trigger] r[k] < n && alive[r[k] as int] && (show_debris
                    || types[r[k] as int] is Zarya || types[r[k] as int] is Russs
                    || types[r[k] as int] is Iridium33 || types[r[k] as int] is LiveSatellite)
            &&& forall|k1: int, k2: int| 0 <= k1 < k2 < r.len() ==> #[trigger] r[k1] < #[trigger] r[k2]
            &&& forall|i: int|
                0 <= i < n && alive[i] && (show_debris || types[i] is Zarya || types[i] is Russs
                    || types[i] is Iridium33 || types[i] is LiveSatellite) ==> exists|k: int|
                    0 <= k < r.len() && #[trigger] r[k] == i
        }),
    decreases n,
{
    if n > 0 {
        lemma_drawn_selection(alive, types, show_debris, n - 1);
        let before = drawn_upto(alive, types, show_debris, n - 1);
        let r = drawn_upto(alive, types, show_debris, n);
        assert forall|i: int|
            0 <= i < n && alive[i] && (show_debris || types[i] is Zarya || types[i] is Russs
                || types[i] is Iridium33 || types[i] is LiveSatellite) implies exists|k: int|
            0 <= k < r.len() && #[trigger] r[k] == i by {
            if i < n - 1 {
                let k = choose|k: int| 0 <= k < before.len() && #[trigger] before[k] == i;
                assert(r[k] == before[k]);
            } else {
                assert(is_drawn(alive, types, show_debris, n - 1));
                assert(r == before.push((n - 1) as usize));
                assert(r[before.len() as int] == i);
            }
        }
    }
}

/// Selects the satellite kinds: the station module, Cosmos-2251, Iridium-33
/// and the live constellation.
pub open spec fn satellite_kinds() -> spec_fn(BodyType) -> bool {
    |b: BodyType| b is Zarya || b is Russs || b is Iridium33 || b is LiveSatellite
}

/// The satellite counter counts the satellites: nothing for no bodies, and
/// one more body adds one exactly when it is the station module,
/// Cosmos-2251, Iridium-33 or a live satellite; the count of a list is the
/// number of its entries of these kinds.
pub proof fn lemma_satellite_count(types: Seq<BodyType>, t: BodyType)
    ensures
        satellites_upto(types, 0) == 0,
        satellites_upto(types.push(t), types.len() + 1int) == satellites_upto(types, types.len() as int) + if t
            is Zarya || t is Russs || t is Iridium33 || t is LiveSatellite {
            1nat
        } else {
            0nat
        },
        satellites_upto(types, types.len() as int) == types.filter(satellite_kinds()).len(),
{
    lemma_satellites_upto_prefix(types.push(t), types, types.len() as int);
    lemma_satellites_upto_filter(types, types.len() as int);
    assert(types.take(types.len() as int) =~= types);
}

proof fn lemma_satellites_upto_prefix(a: Seq<BodyType>, b: Seq<BodyType>, n: int)
    requires
        0 <= n <= a.len(),
        n <= b.len(),
        forall|i: int| 0 <= i < n ==> a[i] == b[i],
    ensures
        satellites_upto(a, n) == satellites_upto(b, n),
    decreases n,
{
    if n > 0 {
        lemma_satellites_upto_prefix(a, b, n - 1);
    }
}

proof fn lemma_satellites_upto_filter(types: Seq<BodyType>, n: int)
    requires
        0 <= n <= types.len(),
    ensures
        satellites_upto(types, n) == types.take(n).filter(satellite_kinds()).len(),
    decreases n,
{
    reveal(Seq::filter);
    if n > 0 {
        lemma_satellites_upto_filter(types, n - 1);
        assert(types.take(n).drop_last() =~= types.take(n - 1));
        assert(types.take(n).last() == types[n - 1]);
    } else {
        assert(types.take(0) =~= Seq::<BodyType>::empty());
    }
}

/// Counts of satellites and of debris among the bodies, for the telemetry panel.
pub fn count_assets(types: &Vec<BodyType>) -> (r: (usize, usize))
    ensures
        r.0 == satellites_upto(types@, types.len() as int),
        r.0 + r.1 == types.len(),
        r.0 == types@.filter(satellite_kinds()).len(),
{
    proof {
        lemma_satellites_upto_filter(types@, types.len() as int);
        assert(types@.take(types.len() as int) =~= types@);
    }
    let mut sats: usize = 0;
    let mut debris: usize = 0;
    let mut i: usize = 0;
    while i < types.len()
        invariant
            0 <= i <= types.len(),
            sats == satellites_upto(types@, i as int),
            sats + debris == i,
        decreases types.len() - i,
    {
        if types[i].is_satellite() {
            sats += 1;
        } else {
            debris += 1;
        }
        i += 1;
    }
    (sats, debris)
}

/// Description of a body kind shown for the selected body.
pub fn type_label(t: BodyType) -> (r: &'static str)
    ensures
        t is LiveSatellite ==> r@ == "🛰️ LIVE ASSET"@,
        t is Zarya ==> r@ == "🏰 STATION MODULE"@,
        (t is Russs || t is Iridium33) ==> r@ == "🚀 PRIMARY SATELLITE"@,
        t is CollisionDebris ==> r@ == "🧱 FRAGMENTED DEBRIS"@,
        t is PreExistingDebris ==> r@ == "⚙️ LEGACY DEBRIS"@,
{
    match t {
        BodyType::LiveSatellite => "🛰️ LIVE ASSET",
        BodyType::Zarya => "🏰 STATION MODULE",
        BodyType::Russs | BodyType::Iridium33 => "🚀 PRIMARY SATELLITE",
        BodyType::CollisionDebris => "🧱 FRAGMENTED DEBRIS",
        BodyType::PreExistingDebris => "⚙️ LEGACY DEBRIS",
    }
}

/// Where a debris piece comes from, judged by its upper-cased name.
pub open spec fn debris_origin(upper: Seq<char>) -> Seq<char> {
    if occurs_in(upper, "COSMOS"@) || occurs_in(upper, "2251"@) {
        "Fragment of Cosmos 2251 (Russia)"@
    } else if occurs_in(upper, "IRIDIUM"@) || occurs_in(upper, "33"@) {
        "Fragment of Iridium 33 (United States)"@
    } else if occurs_in(upper, "ZARYA"@) {
        "Fragment of ISS Zarya"@
    } else {
        "Unknown Orbital Debris"@
    }
}

/// Origin shown for a body: the operator of each satellite kind; for debris,
/// judged from the name (see `debris_origin`).
pub open spec fn origin_of(t: BodyType, upper_name: Seq<char>) -> Seq<char> {
    match t {
        BodyType::LiveSatellite => "India (ISRO / Indian Registry)"@,
        BodyType::Zarya => "International (ISS Zarya)"@,
        BodyType::Russs => "Russia (Cosmos)"@,
        BodyType::Iridium33 => "United States (Iridium)"@,
        _ => debris_origin(upper_name),
    }
}

/// Origin of a body whose name is given already upper-cased.
pub fn origin_label_upper(t: BodyType, upper_name: &str) -> (r: &'static str)
    ensures
        r@ == origin_of(t, upper_name@),
{
    match t {
        BodyType::LiveSatellite => "India (ISRO / Indian Registry)",
        BodyType::Zarya => "International (ISS Zarya)",
        BodyType::Russs => "Russia (Cosmos)",
        BodyType::Iridium33 => "United States (Iridium)",
        _ => {
            if contains(upper_name, "COSMOS") || contains(upper_name, "2251") {
                "Fragment of Cosmos 2251 (Russia)"
            } else if contains(upper_name, "IRIDIUM") || contains(upper_name, "33") {
                "Fragment of Iridium 33 (United States)"
            } else if contains(upper_name, "ZARYA") {
                "Fragment of ISS Zarya"
            } else {
                "Unknown Orbital Debris"
            }
        },
    }
}

/// Origin of a body, its name compared in upper case.
pub fn origin_label(t: BodyType, name: &str) -> (r: &'static str)
    ensures
        r@ == origin_of(t, uppercase_of(name@)),
{
    let upper = uppercase(name);
    origin_label_upper(t, upper.as_str())
}

/// Which body of a risky pair an avoidance burn is planned for.
#[derive(Debug, Clone, Copy, PartialEq, Eq, Structural)]
pub enum BurnTarget {
    First,
    Second,
}

/// The satellite of a risky pair that manoeuvres: the first body if it is a
/// satellite, else the second if it is; none for two pieces of debris.
pub fn burn_target(t1: BodyType, t2: BodyType) -> (r: Option<BurnTarget>)
    ensures
        is_satellite_kind(t1) ==> r == Some(BurnTarget::First),
        !is_satellite_kind(t1) && is_satellite_kind(t2) ==> r == Some(BurnTarget::Second),
        !is_satellite_kind(t1) && !is_satellite_kind(t2) ==> r is None,
{
    if t1.is_satellite() {
        Some(BurnTarget::First)
    } else if t2.is_satellite() {
        Some(BurnTarget::Second)
    } else {
        None
    }
}

/// Direction of an avoidance burn.
#[derive(Debug, Clone, Copy, PartialEq, Eq, Structural)]
pub enum BurnDirection {
    /// Along the velocity.
    Prograde,
    /// Along the orbit normal.
    Normal,
}

/// Burn direction planned for a satellite: prograde for even ids, normal for odd ones.
pub fn burn_direction(id: u64) -> (r: BurnDirection)
    ensures
        id % 2 == 0 ==> r == BurnDirection::Prograde,
        id % 2 == 1 ==> r == BurnDirection::Normal,
{
    if id % 2 == 0 {
        BurnDirection::Prograde
    } else {
        BurnDirection::Normal
    }
}

/// Trail segments drawn per frame at most: drawing stops with the segment
/// that takes the vertex data (14 values per segment) past 7,900,000 values.
pub const MAX_TRAIL_SEGMENTS: usize = 564286;

/// Segments a trail of `len` points is drawn with (none for fewer than two points).
pub open spec fn segments_of(len: nat) -> nat {
    if len < 2 {
        0
    } else {
        (len - 1) as nat
    }
}

/// Sum of a list of counts.
pub open spec fn total(s: Seq<nat>) -> nat
    decreases s.len(),
{
    if s.len() == 0 {
        0
    } else {
        total(s.drop_last()) + s.last()
    }
}

/// Segments drawn for each of the first `n` trails: trails are drawn in order
/// until `MAX_TRAIL_SEGMENTS` segments have been drawn in all.
pub open spec fn segment_plan(lens: Seq<usize>, n: int) -> Seq<nat>
    decreases n,
{
    if n <= 0 {
        Seq::empty()
    } else {
        let before = segment_plan(lens, n - 1);
        let used = total(before);
        let room: nat = if used >= MAX_TRAIL_SEGMENTS { 0 } else { (MAX_TRAIL_SEGMENTS - used) as nat };
        let want = segments_of(lens[n - 1] as nat);
        before.push(if want < room { want } else { room })
    }
}

proof fn lemma_segment_plan_len(lens: Seq<usize>, n: int)
    requires
        0 <= n,
    ensures
        segment_plan(lens, n).len() == n,
        total(segment_plan(lens, n)) <= MAX_TRAIL_SEGMENTS,
    decreases n,
{
    if n > 0 {
        lemma_segment_plan_len(lens, n - 1);
        let p = segment_plan(lens, n);
        assert(p.drop_last() =~= segment_plan(lens, n - 1));
    }
}

/// Segments all of the first `n` trails would want: a trail of `len`
/// points wants `len - 1` segments, one of fewer than two points none.
pub open spec fn wanted_segments(lens: Seq<usize>, n: int) -> int
    decreases n,
{
    if n <= 0 {
        0
    } else {
        wanted_segments(lens, n - 1) + if lens[n - 1] < 2 { 0 } else { lens[n - 1] - 1 }
    }
}

/// The trail budget: no trail gets more segments than it has, and the
/// trails together get all the segments they want up to the budget of
/// `MAX_TRAIL_SEGMENTS` (564,286 segments, the 7,900,000-value vertex cap).
pub proof fn lemma_segment_budget(lens: Seq<usize>, n: int)
    requires
        0 <= n <= lens.len(),
    ensures
        segment_plan(lens, n).len() == n,
        forall|k: int|
            0 <= k < n ==> #[trigger] segment_plan(lens, n)[k] <= if lens[k] < 2 { 0 } else { lens[k] - 1 },
        total(segment_plan(lens, n)) == if wanted_segments(lens, n) < 564286 {
            wanted_segments(lens, n)
        } else {
            564286
        },
    decreases n,
{
    if n > 0 {
        lemma_segment_budget(lens, n - 1);
        let p = segment_plan(lens, n);
        assert(p.drop_last() =~= segment_plan(lens, n - 1));
        assert forall|k: int| 0 <= k < n implies #[trigger] segment_plan(lens, n)[k] <= if lens[k] < 2 {
            0
        } else {
            lens[k] - 1
        } by {
            if k < n - 1 {
                assert(p[k] == segment_plan(lens, n - 1)[k]);
            }
        }
    }
}

/// Where a debris piece comes from, by its name in upper case: a name
/// holding "COSMOS" or "2251" is a Cosmos-2251 fragment; otherwise one
/// holding "IRIDIUM" or "33" an Iridium-33 fragment; otherwise one holding
/// "ZARYA" a fragment of the station module; anything else is unknown.
/// Each satellite kind has its operator.
pub proof fn lemma_origins(t: BodyType, upper: Seq<char>)
    ensures
        t is LiveSatellite ==> origin_of(t, upper) == "India (ISRO / Indian Registry)"@,
        t is Zarya ==> origin_of(t, upper) == "International (ISS Zarya)"@,
        t is Russs ==> origin_of(t, upper) == "Russia (Cosmos)"@,
        t is Iridium33 ==> origin_of(t, upper) == "United States (Iridium)"@,
        (t is CollisionDebris || t is PreExistingDebris) ==> origin_of(t, upper) == if occurs_in(
            upper,
            "COSMOS"@,
        ) || occurs_in(upper, "2251"@) {
            "Fragment of Cosmos 2251 (Russia)"@
        } else if occurs_in(upper, "IRIDIUM"@) || occurs_in(upper, "33"@) {
            "Fragment of Iridium 33 (United States)"@
        } else if occurs_in(upper, "ZARYA"@) {
            "Fragment of ISS Zarya"@
        } else {
            "Unknown Orbital Debris"@
        },
{
}

/// How many segments of each trail are drawn, given the trail lengths of
/// the drawn bodies in drawing order.
pub fn trail_segment_counts(trail_lens: &Vec<usize>) -> (r: Vec<usize>)
    ensures
        r.len() == trail_lens.len(),
        forall|k: int| 0 <= k < r.len() ==> #[trigger] r[k] as nat == segment_plan(trail_lens@, trail_lens.len() as int)[k],
        total(segment_plan(trail_lens@, trail_lens.len() as int)) <= MAX_TRAIL_SEGMENTS,
{
    let mut r: Vec<usize> = Vec::new();
    let mut used: usize = 0;
    let mut k: usize = 0;
    while k < trail_lens.len()
        invariant
            0 <= k <= trail_lens.len(),
            r.len() == k,
            segment_plan(trail_lens@, k as int).len() == k,
            forall|q: int| 0 <= q < k ==> #[trigger] r[q] as nat == segment_plan(trail_lens@, k as int)[q],
            used == total(segment_plan(trail_lens@, k as int)),
            used <= MAX_TRAIL_SEGMENTS,
        decreases trail_lens.len() - k,
    {
        let len = trail_lens[k];
        let want: usize = if len < 2 { 0 } else { len - 1 };
        let room: usize = MAX_TRAIL_SEGMENTS - used;
        let take = if want < room { want } else { room };
        proof {
            let p = segment_plan(trail_lens@, k + 1);
            assert(p.drop_last() =~= segment_plan(trail_lens@, k as int));
            assert(p.last() == take);
        }
        r.push(take);
        used = used + take;
        k += 1;
    }
    proof {
        lemma_segment_plan_len(trail_lens@, trail_lens.len() as int);
    }
    r
}

/// Number of risk entries the avoidance panel shows at most.
pub const BURN_PLANS_SHOWN: usize = 3;

/// Number of top risks the prediction panel lists.
pub const RISKS_LISTED: usize = 5;

/// Search results listed at most for satellites.
pub const SEARCH_RESULTS: usize = 20;

/// Body `i` is a search hit: it is alive and the lower-cased query occurs in
/// its lower-cased name.
pub open spec fn is_search_hit(alive: Seq<bool>, names: Seq<String>, query: Seq<char>, i: int) -> bool {
    alive[i] && occurs_in(lowercase_of(names[i]@), lowercase_of(query))
}

/// Index of the first of the first `n` debris groups whose first body bears
/// `name`, or -1 when there is none.
pub open spec fn group_named(names: Seq<String>, groups: Seq<(usize, usize)>, name: Seq<char>, n: int) -> int
    decreases n,
{
    if n <= 0 {
        -1
    } else {
        let before = group_named(names, groups, name, n - 1);
        if before >= 0 {
            before
        } else if names[groups[n - 1].0 as int]@ == name {
            n - 1
        } else {
            -1
        }
    }
}

/// The search results after looking at the first `n` bodies: the matching
/// satellites in body order, and the matching debris grouped by name, each
/// group as (first body, number of bodies), in order of first appearance.
/// The search stops looking once `SEARCH_RESULTS` satellites are listed.
pub open spec fn search_scan(
    alive: Seq<bool>,
    names: Seq<String>,
    types: Seq<BodyType>,
    query: Seq<char>,
    n: int,
) -> (Seq<usize>, Seq<(usize, usize)>)
    decreases n,
{
    if n <= 0 {
        (Seq::empty(), Seq::empty())
    } else {
        let (sats, groups) = search_scan(alive, names, types, query, n - 1);
        let i = n - 1;
        if sats.len() >= SEARCH_RESULTS || !is_search_hit(alive, names, query, i) {
            (sats, groups)
        } else if is_satellite_kind(types[i]) {
            (sats.push(i as usize), groups)
        } else {
            let g = group_named(names, groups, names[i]@, groups.len() as int);
            if g >= 0 {
                (sats, groups.update(g, (groups[g].0, (groups[g].1 + 1) as usize)))
            } else {
                (sats, groups.push((i as usize, 1usize)))
            }
        }
    }
}

/// Once the satellite list is full, looking at more bodies changes nothing.
proof fn lemma_search_stops(
    alive: Seq<bool>,
    names: Seq<String>,
    types: Seq<BodyType>,
    query: Seq<char>,
    n: int,
    m: int,
)
    requires
        0 <= n <= m,
        search_scan(alive, names, types, query, n).0.len() >= SEARCH_RESULTS,
    ensures
        search_scan(alive, names, types, query, m) == search_scan(alive, names, types, query, n),
    decreases m - n,
{
    if m > n {
        lemma_search_stops(alive, names, types, query, n, m - 1);
    }
}

/// Index of the first group whose first body bears the name `name`, if any.
fn find_group(names: &Vec<String>, groups: &Vec<(usize, usize)>, name: &String) -> (r: Option<usize>)
    requires
        forall|g: int| 0 <= g < groups.len() ==> (#[trigger] groups[g]).0 < names.len(),
    ensures
        match r {
            Some(g) => g as int == group_named(names@, groups@, name@, groups.len() as int) && g < groups.len(),
            None => group_named(names@, groups@, name@, groups.len() as int) == -1,
        },
{
    let mut g: usize = 0;
    while g < groups.len()
        invariant
            0 <= g <= groups.len(),
            forall|q: int| 0 <= q < groups.len() ==> (#[trigger] groups[q]).0 < names.len(),
            group_named(names@, groups@, name@, g as int) == -1,
        decreases groups.len() - g,
    {
        if names[groups[g].0] == *name {
            proof {
                lemma_group_named_found(names@, groups@, name@, g as int, groups.len() as int);
            }
            return Some(g);
        }
        g += 1;
    }
    None
}

/// A group found at `g` is reported by every longer prefix.
proof fn lemma_group_named_found(names: Seq<String>, groups: Seq<(usize, usize)>, name: Seq<char>, g: int, n: int)
    requires
        0 <= g < n,
        group_named(names, groups, name, g) == -1,
        names[groups[g].0 as int]@ == name,
    ensures
        group_named(names, groups, name, n) == g,
    decreases n - g,
{
    if n > g + 1 {
        lemma_group_named_found(names, groups, name, g, n - 1);
    }
}

/// What `group_named` finds: a group whose first body bears the name, and
/// the first such; -1 only when no group bears it.
proof fn lemma_group_named_spec(names: Seq<String>, groups: Seq<(usize, usize)>, name: Seq<char>, n: int)
    requires
        0 <= n <= groups.len(),
    ensures
        -1 <= group_named(names, groups, name, n) < n,
        group_named(names, groups, name, n) >= 0 ==> names[groups[group_named(names, groups, name, n)].0 as int]@
            == name,
        group_named(names, groups, name, n) == -1 ==> forall|g: int|
            0 <= g < n ==> names[(#[trigger] groups[g]).0 as int]@ != name,
    decreases n,
{
    if n > 0 {
        lemma_group_named_spec(names, groups, name, n - 1);
    }
}

/// The search lists only what it should and misses nothing it should list:
/// at most `SEARCH_RESULTS` satellites, in increasing body order, each alive,
/// of a satellite kind (the station module, Cosmos-2251, Iridium-33, a live
/// satellite) and matching the query ignoring case; debris groups whose
/// first body is an alive, matching piece of debris, at least one body each,
/// no two groups for the same name.  While fewer than `SEARCH_RESULTS`
/// satellites are listed, every matching satellite looked at is listed and
/// every matching piece of debris has the group of its name.
pub proof fn lemma_search_lists_matches(
    alive: Seq<bool>,
    names: Seq<String>,
    types: Seq<BodyType>,
    query: Seq<char>,
    n: int,
)
    requires
        0 <= n <= names.len(),
        alive.len() == names.len(),
        types.len() == names.len(),
        names.len() <= usize::MAX,
    ensures
        ({
            let (sats, groups) = search_scan(alive, names, types, query, n);
            &&& sats.len() <= SEARCH_RESULTS
            &&& forall|k: int|
                0 <= k < sats.len() ==> #[trigger] sats[k] < n && alive[sats[k] as int] && (types[sats[k] as int] is Zarya
                    || types[sats[k] as int] is Russs || types[sats[k] as int] is Iridium33
                    || types[sats[k] as int] is LiveSatellite) && occurs_in(
                    lowercase_of(names[sats[k] as int]@),
                    lowercase_of(query),
                )
            &&& forall|k1: int, k2: int| 0 <= k1 < k2 < sats.len() ==> #[trigger] sats[k1] < #[trigger] sats[k2]
            &&& forall|g: int|
                0 <= g < groups.len() ==> (#[trigger] groups[g]).0 < n && 1 <= groups[g].1 <= n && alive[groups[g].0 as int]
                    && (types[groups[g].0 as int] is PreExistingDebris || types[groups[g].0 as int] is CollisionDebris)
                    && occurs_in(lowercase_of(names[groups[g].0 as int]@), lowercase_of(query))
            &&& forall|g1: int, g2: int|
                0 <= g1 < g2 < groups.len() ==> names[(#[trigger] groups[g1]).0 as int]@ != names[(
                #[trigger] groups[g2]).0 as int]@
            &&& sats.len() < SEARCH_RESULTS ==> forall|i: int|
                0 <= i < n && alive[i] && occurs_in(lowercase_of(names[i]@), lowercase_of(query)) ==> ((types[i] is Zarya
                    || types[i] is Russs || types[i] is Iridium33 || types[i] is LiveSatellite) ==> exists|k: int|
                    0 <= k < sats.len() && #[trigger] sats[k] == i) && ((types[i] is PreExistingDebris
                    || types[i] is CollisionDebris) ==> exists|g: int|
                    0 <= g < groups.len() && names[(#[trigger] groups[g]).0 as int]@ == names[i]@)
        }),
    decreases n,
{
    if n > 0 {
        lemma_search_lists_matches(alive, names, types, query, n - 1);
        let (sats0, groups0) = search_scan(alive, names, types, query, n - 1);
        let (sats, groups) = search_scan(alive, names, types, query, n);
        let i = n - 1;
        if sats0.len() >= SEARCH_RESULTS || !is_search_hit(alive, names, query, i) {
            assert(sats == sats0 && groups == groups0);
        } else if is_satellite_kind(types[i]) {
            assert(sats == sats0.push(i as usize) && groups == groups0);
            assert forall|j: int|
                0 <= j < n && alive[j] && occurs_in(lowercase_of(names[j]@), lowercase_of(query)) && (types[j] is Zarya
                    || types[j] is Russs || types[j] is Iridium33 || types[j] is LiveSatellite) implies exists|k: int|
                0 <= k < sats.len() && #[trigger] sats[k] == j by {
                if j < n - 1 {
                    let k = choose|k: int| 0 <= k < sats0.len() && #[trigger] sats0[k] == j;
                    assert(sats[k] == j);
                } else {
                    assert(sats[sats0.len() as int] == j);
                }
            }
            assert forall|j: int|
                0 <= j < n && alive[j] && occurs_in(lowercase_of(names[j]@), lowercase_of(query)) && (
                types[j] is PreExistingDebris || types[j] is CollisionDebris) implies exists|g: int|
                0 <= g < groups.len() && names[(#[trigger] groups[g]).0 as int]@ == names[j]@ by {
                if j < n - 1 {
                    let g = choose|g: int| 0 <= g < groups0.len() && names[(#[trigger] groups0[g]).0 as int]@ == names[j]@;
                    assert(groups[g] == groups0[g]);
                }
            }
        } else {
            let g = group_named(names, groups0, names[i]@, groups0.len() as int);
            lemma_group_named_spec(names, groups0, names[i]@, groups0.len() as int);
            assert(sats == sats0);
            if g >= 0 {
                assert(groups == groups0.update(g, (groups0[g].0, (groups0[g].1 + 1) as usize)));
                assert forall|h: int| 0 <= h < groups.len() implies (#[trigger] groups[h]).0 == groups0[h].0 by {}
                assert forall|j: int|
                    0 <= j < n && alive[j] && occurs_in(lowercase_of(names[j]@), lowercase_of(query)) && (
                    types[j] is PreExistingDebris || types[j] is CollisionDebris) implies exists|h: int|
                    0 <= h < groups.len() && names[(#[trigger] groups[h]).0 as int]@ == names[j]@ by {
                    if j < n - 1 {
                        let h = choose|h: int| 0 <= h < groups0.len() && names[(#[trigger] groups0[h]).0 as int]@ == names[j]@;
                        assert(groups[h].0 == groups0[h].0);
                    } else {
                        assert(groups[g].0 == groups0[g].0);
                    }
                }
            } else {
                assert(groups == groups0.push((i as usize, 1usize)));
                assert forall|j: int|
                    0 <= j < n && alive[j] && occurs_in(lowercase_of(names[j]@), lowercase_of(query)) && (
                    types[j] is PreExistingDebris || types[j] is CollisionDebris) implies exists|h: int|
                    0 <= h < groups.len() && names[(#[trigger] groups[h]).0 as int]@ == names[j]@ by {
                    if j < n - 1 {
                        let h = choose|h: int| 0 <= h < groups0.len() && names[(#[trigger] groups0[h]).0 as int]@ == names[j]@;
                        assert(groups[h] == groups0[h]);
                    } else {
                        assert(groups[groups0.len() as int].0 == j);
                    }
                }
            }
        }
    }
}

/// The satellite search: matching satellites (at most `SEARCH_RESULTS`, in
/// body order) and the matching debris grouped by name, each group given by
/// its first body and its size, in order of first appearance.
pub fn search_results(alive: &Vec<bool>, names: &Vec<String>, types: &Vec<BodyType>, query: &str) -> (r: (
    Vec<usize>,
    Vec<(usize, usize)>,
))
    requires
        alive.len() == names.len(),
        types.len() == names.len(),
    ensures
        (r.0@, r.1@) == search_scan(alive@, names@, types@, query@, names.len() as int),
{
    let q = lowercase(query);
    let mut sats: Vec<usize> = Vec::new();
    let mut groups: Vec<(usize, usize)> = Vec::new();
    let mut i: usize = 0;
    while i < names.len() && sats.len() < SEARCH_RESULTS
        invariant
            0 <= i <= names.len(),
            alive.len() == names.len(),
            types.len() == names.len(),
            q@ == lowercase_of(query@),
            (sats@, groups@) == search_scan(alive@, names@, types@, query@, i as int),
            forall|g: int| 0 <= g < groups.len() ==> (#[trigger] groups[g]).0 < i && groups[g].1 <= i,
        decreases names.len() - i,
    {
        let hit = alive[i] && {
            let n = lowercase(names[i].as_str());
            contains(n.as_str(), q.as_str())
        };
        if hit {
            if types[i].is_satellite() {
                sats.push(i);
            } else {
                match find_group(names, &groups, &names[i]) {
                    Some(g) => {
                        let (first, count) = groups[g];
                        groups.set(g, (first, count + 1));
                    },
                    None => {
                        groups.push((i, 1));
                    },
                }
            }
        }
        i += 1;
    }
    proof {
        if i < names.len() {
            lemma_search_stops(alive@, names@, types@, query@, i as int, names.len() as int);
        }
    }
    (sats, groups)
}

} // verus!
