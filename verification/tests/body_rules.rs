use std::collections::VecDeque;

use orbital_sim::body::{push_trail, BodyType, DEB_TRAIL_LEN, SAT_TRAIL_LEN};

const ALL: [BodyType; 6] = [
    BodyType::Zarya,
    BodyType::PreExistingDebris,
    BodyType::Russs,
    BodyType::Iridium33,
    BodyType::CollisionDebris,
    BodyType::LiveSatellite,
];

#[test]
fn max_trail_len_by_kind() {
    assert_eq!(BodyType::Zarya.max_trail_len(), 1200);
    assert_eq!(BodyType::Russs.max_trail_len(), 1200);
    assert_eq!(BodyType::Iridium33.max_trail_len(), 1200);
    assert_eq!(BodyType::LiveSatellite.max_trail_len(), 1200);
    assert_eq!(BodyType::PreExistingDebris.max_trail_len(), 200);
    assert_eq!(BodyType::CollisionDebris.max_trail_len(), 200);
    assert_eq!(SAT_TRAIL_LEN, 1200);
    assert_eq!(DEB_TRAIL_LEN, 200);
}

#[test]
fn satellites_are_the_four_satellite_kinds() {
    let sats: Vec<BodyType> = ALL.iter().copied().filter(|t| t.is_satellite()).collect();
    assert_eq!(
        sats,
        vec![BodyType::Zarya, BodyType::Russs, BodyType::Iridium33, BodyType::LiveSatellite]
    );
}

#[test]
fn visual_radius_table() {
    assert_eq!(BodyType::Zarya.visual_radius(), 250);
    assert_eq!(BodyType::PreExistingDebris.visual_radius(), 10);
    assert_eq!(BodyType::Russs.visual_radius(), 200);
    assert_eq!(BodyType::Iridium33.visual_radius(), 200);
    assert_eq!(BodyType::CollisionDebris.visual_radius(), 60);
    assert_eq!(BodyType::LiveSatellite.visual_radius(), 150);
}

#[test]
fn visual_kind_table() {
    assert_eq!(BodyType::Zarya.visual_kind(), 0);
    assert_eq!(BodyType::Russs.visual_kind(), 0);
    assert_eq!(BodyType::Iridium33.visual_kind(), 0);
    assert_eq!(BodyType::LiveSatellite.visual_kind(), 1);
    assert_eq!(BodyType::PreExistingDebris.visual_kind(), 1);
    assert_eq!(BodyType::CollisionDebris.visual_kind(), 1);
}

#[test]
fn default_color_table() {
    assert_eq!(BodyType::Zarya.default_color(), [0, 100, 100, 90]);
    assert_eq!(BodyType::PreExistingDebris.default_color(), [40, 40, 40, 60]);
    assert_eq!(BodyType::CollisionDebris.default_color(), [100, 30, 80, 90]);
    assert_eq!(BodyType::LiveSatellite.default_color(), [0, 100, 100, 90]);
    // percent channels give the same f32 as the decimal literals
    assert_eq!(40.0f32 / 100.0, 0.4f32);
    assert_eq!(90.0f32 / 100.0, 0.9f32);
    assert_eq!(30.0f32 / 100.0, 0.3f32);
}

#[test]
fn trail_keeps_latest_points() {
    let mut trail: VecDeque<u32> = VecDeque::new();
    for p in 0..10u32 {
        push_trail(&mut trail, p, 4);
        assert!(trail.len() <= 4);
        assert_eq!(*trail.back().unwrap(), p);
    }
    assert_eq!(trail.iter().copied().collect::<Vec<_>>(), vec![6, 7, 8, 9]);
}

#[test]
fn trail_below_bound_grows() {
    let mut trail: VecDeque<i32> = VecDeque::new();
    push_trail(&mut trail, 1, 3);
    push_trail(&mut trail, 2, 3);
    assert_eq!(trail.iter().copied().collect::<Vec<_>>(), vec![1, 2]);
}

#[test]
fn trail_with_zero_bound_stays_empty() {
    let mut trail: VecDeque<i32> = VecDeque::new();
    push_trail(&mut trail, 5, 0);
    assert!(trail.is_empty());
}

#[test]
fn satellite_trail_caps_at_1200() {
    let mut trail: VecDeque<usize> = VecDeque::new();
    let max = BodyType::LiveSatellite.max_trail_len();
    for p in 0..1500usize {
        push_trail(&mut trail, p, max);
    }
    assert_eq!(trail.len(), 1200);
    assert_eq!(*trail.front().unwrap(), 300);
}
