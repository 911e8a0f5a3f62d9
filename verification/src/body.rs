//! Body categories and the rules the simulator attaches to them.

use vstd::prelude::*;
use std::collections::VecDeque;

verus! {

/// Trail length (points) kept for satellites.
pub const SAT_TRAIL_LEN: usize = 1200;

/// Trail length (points) kept for debris.
pub const DEB_TRAIL_LEN: usize = 200;

/// The kinds of object the simulation tracks.
#[derive(Debug, Clone, Copy, PartialEq, Eq, Structural)]
pub enum BodyType {
    Zarya,
    PreExistingDebris,
    Russs,
    Iridium33,
    CollisionDebris,
    LiveSatellite,
}

/// Satellites (as opposed to debris): the station module, the two primary
/// scenario satellites and the live constellation.
pub open spec fn is_satellite_kind(t: BodyType) -> bool {
    match t {
        BodyType::Zarya | BodyType::Russs | BodyType::Iridium33 | BodyType::LiveSatellite => true,
        _ => false,
    }
}

/// The trail length rule: satellites keep long trails, debris short ones.
pub open spec fn trail_capacity(t: BodyType) -> nat {
    if is_satellite_kind(t) { SAT_TRAIL_LEN as nat } else { DEB_TRAIL_LEN as nat }
}

impl BodyType {
    /// Whether this kind is a satellite (not debris).
    pub fn is_satellite(&self) -> (r: bool)
        ensures
            r == is_satellite_kind(*self),
            r <==> (*self is Zarya || *self is Russs || *self is Iridium33 || *self is LiveSatellite),
    {
        match self {
            BodyType::Zarya | BodyType::Russs | BodyType::Iridium33 | BodyType::LiveSatellite => true,
            _ => false,
        }
    }

    /// Maximum number of trail points kept for a body of this kind.
    pub fn max_trail_len(&self) -> (r: usize)
        ensures
            r == trail_capacity(*self),
            r == (if is_satellite_kind(*self) { SAT_TRAIL_LEN } else { DEB_TRAIL_LEN }),
            (*self is Zarya || *self is Russs || *self is Iridium33 || *self is LiveSatellite) ==> r == 1200,
            (*self is PreExistingDebris || *self is CollisionDebris) ==> r == 200,
    {
        match self {
            BodyType::Zarya | BodyType::Russs | BodyType::Iridium33 | BodyType::LiveSatellite => {
                SAT_TRAIL_LEN
            },
            _ => DEB_TRAIL_LEN,
        }
    }

    /// Drawing radius of a body of this kind, in kilometres.
    pub fn visual_radius(&self) -> (r: u32)
        ensures
            r == visual_radius_km(*self),
    {
        match self {
            BodyType::Zarya => 250,
            BodyType::PreExistingDebris => 10,
            BodyType::Russs => 200,
            BodyType::Iridium33 => 200,
            BodyType::CollisionDebris => 60,
            BodyType::LiveSatellite => 150,
        }
    }

    /// Marker shape the renderer uses: 0 for the station module and the two
    /// primary scenario satellites, 1 for every other body.
    pub fn visual_kind(&self) -> (r: u32)
        ensures
            r == (match *self {
                BodyType::Zarya | BodyType::Russs | BodyType::Iridium33 => 0u32,
                _ => 1u32,
            }),
    {
        match self {
            BodyType::Zarya | BodyType::Russs | BodyType::Iridium33 => 0,
            _ => 1,
        }
    }

    /// Default RGBA colour of a body of this kind, each channel in percent of
    /// full intensity.
    pub fn default_color(&self) -> (r: [u8; 4])
        ensures
            r@ == default_color_percent(*self),
    {
        match self {
            BodyType::PreExistingDebris => [40, 40, 40, 60],
            BodyType::CollisionDebris => [100, 30, 80, 90],
            _ => [0, 100, 100, 90],
        }
    }
}

/// The satellites are exactly the station module, the two primary scenario
/// satellites and the live constellation; both kinds of debris are not
/// satellites.  Satellites keep trails of 1200 points, debris of 200.
pub proof fn lemma_satellite_kinds(t: BodyType)
    ensures
        is_satellite_kind(t) <==> (t is Zarya || t is Russs || t is Iridium33 || t is LiveSatellite),
        (t is PreExistingDebris || t is CollisionDebris) <==> !is_satellite_kind(t),
        trail_capacity(t) == if t is PreExistingDebris || t is CollisionDebris { 200nat } else { 1200nat },
{
}

/// Drawing radius per kind, in kilometres.
pub open spec fn visual_radius_km(t: BodyType) -> u32 {
    match t {
        BodyType::Zarya => 250,
        BodyType::PreExistingDebris => 10,
        BodyType::Russs => 200,
        BodyType::Iridium33 => 200,
        BodyType::CollisionDebris => 60,
        BodyType::LiveSatellite => 150,
    }
}

/// Default colour per kind (RGBA, percent): legacy debris is translucent
/// grey, collision debris pink, every satellite cyan.
pub open spec fn default_color_percent(t: BodyType) -> Seq<u8> {
    match t {
        BodyType::PreExistingDebris => seq![40u8, 40, 40, 60],
        BodyType::CollisionDebris => seq![100u8, 30, 80, 90],
        _ => seq![0u8, 100, 100, 90],
    }
}

/// The drawing sizes and default colours of the kinds: the station module
/// 250 km, the two primary satellites 200 km, live satellites 150 km,
/// collision debris 60 km, legacy debris 10 km; satellites cyan (0, 100,
/// 100, 90 percent), legacy debris translucent grey (40, 40, 40, 60),
/// collision debris pink (100, 30, 80, 90).
pub proof fn lemma_kind_appearance(t: BodyType)
    ensures
        t is Zarya ==> visual_radius_km(t) == 250,
        (t is Russs || t is Iridium33) ==> visual_radius_km(t) == 200,
        t is LiveSatellite ==> visual_radius_km(t) == 150,
        t is CollisionDebris ==> visual_radius_km(t) == 60,
        t is PreExistingDebris ==> visual_radius_km(t) == 10,
        (t is Zarya || t is Russs || t is Iridium33 || t is LiveSatellite) ==> default_color_percent(t) == seq![
            0u8,
            100,
            100,
            90,
        ],
        t is PreExistingDebris ==> default_color_percent(t) == seq![40u8, 40, 40, 60],
        t is CollisionDebris ==> default_color_percent(t) == seq![100u8, 30, 80, 90],
{
}

/// Appending a point to a trail bounded by `max_len`: the point goes to the
/// back, and when the trail then exceeds the bound its oldest point is dropped.
pub open spec fn bounded_push<T>(trail: Seq<T>, point: T, max_len: nat) -> Seq<T> {
    if trail.len() + 1 > max_len {
        trail.push(point).drop_first()
    } else {
        trail.push(point)
    }
}

/// Appends `point` to `trail`, dropping the oldest point when the trail would
/// hold more than `max_len` points.
pub fn push_trail<T>(trail: &mut VecDeque<T>, point: T, max_len: usize)
    ensures
        final(trail)@ == bounded_push(old(trail)@, point, max_len as nat),
{
    trail.push_back(point);
    if trail.len() > max_len {
        let _ = trail.pop_front();
    }
}

/// The trail obtained by pushing `pushes`, in order, onto `start`.
pub open spec fn trail_after_pushes<T>(start: Seq<T>, pushes: Seq<T>, max_len: nat) -> Seq<T>
    decreases pushes.len(),
{
    if pushes.len() == 0 {
        start
    } else {
        bounded_push(trail_after_pushes(start, pushes.drop_last(), max_len), pushes.last(), max_len)
    }
}

/// A trail that respects its bound keeps respecting it after a push, and
/// (for a non-zero bound) its newest point is the one just pushed.
pub proof fn lemma_push_keeps_trail_bounded<T>(trail: Seq<T>, point: T, max_len: nat)
    requires
        trail.len() <= max_len,
    ensures
        bounded_push(trail, point, max_len).len() <= max_len,
        max_len > 0 ==> bounded_push(trail, point, max_len).last() == point,
        max_len > 0 ==> bounded_push(trail, point, max_len).len() == if trail.len() < max_len {
            trail.len() + 1
        } else {
            trail.len()
        },
{
}

/// Starting from an empty trail, the trail holds exactly the most recent
/// `min(n, max_len)` of the `n` points pushed, oldest first.
pub proof fn lemma_trail_holds_latest_points<T>(pushes: Seq<T>, max_len: nat)
    ensures
        trail_after_pushes(Seq::empty(), pushes, max_len) == pushes.skip(
            pushes.len() - (if pushes.len() < max_len { pushes.len() } else { max_len }),
        ),
    decreases pushes.len(),
{
    let n = pushes.len();
    if n > 0 {
        let prev = pushes.drop_last();
        lemma_trail_holds_latest_points(prev, max_len);
        let k = if prev.len() < max_len { prev.len() } else { max_len };
        let r = prev.skip(prev.len() - k);
        assert(trail_after_pushes(Seq::empty(), prev, max_len) == r);
        if r.len() + 1 > max_len {
            assert(r.push(pushes.last()).drop_first() =~= pushes.skip(n - max_len));
        } else {
            assert(r.push(pushes.last()) =~= pushes.skip(0));
        }
    } else {
        assert(pushes.skip(0) =~= pushes);
    }
}

} // verus!
