use orbital_sim::body::BodyType;
use orbital_sim::collision::{
    candidate_pairs, classify_pair, contact_distance_km, mark_destroyed, plan_collisions,
    PairOutcome, Proximity, CASCADE_PIECES, COLLISION_DISTANCE_KM, FRAGMENT_EVENT_PIECES,
    FRAGMENT_PIECES, GRID_CELL_SIZE_KM, INTERACTION_DISTANCE_M,
};

fn prox(contact: bool, collision: bool, interaction: bool) -> Proximity {
    Proximity { within_contact: contact, within_collision: collision, within_interaction: interaction }
}

#[test]
fn constants_match_the_pass() {
    assert_eq!(GRID_CELL_SIZE_KM, 160);
    assert_eq!(COLLISION_DISTANCE_KM, 50);
    assert_eq!(INTERACTION_DISTANCE_M, 500);
    assert_eq!(CASCADE_PIECES, 200);
    assert_eq!(FRAGMENT_PIECES, 60);
    assert_eq!(FRAGMENT_EVENT_PIECES, 120);
}

#[test]
fn candidate_pairs_neighbouring_cells_only() {
    let cells = vec![(0, 0, 0), (1, 1, 1), (2, 0, 0), (0, 0, 0), (-1, 0, 1)];
    let alive = vec![true, true, true, false, true];
    let pairs = candidate_pairs(&cells, &alive);
    assert_eq!(pairs, vec![(0, 1), (0, 4), (1, 2)]);
}

#[test]
fn candidate_pairs_skip_dead_and_far() {
    let cells = vec![(5, 5, 5), (5, 5, 5), (9, 9, 9)];
    let alive = vec![false, true, true];
    assert!(candidate_pairs(&cells, &alive).is_empty());
}

#[test]
fn contact_distance_is_sum_of_radii() {
    assert_eq!(contact_distance_km(BodyType::Zarya, BodyType::Russs), 450);
    assert_eq!(contact_distance_km(BodyType::Zarya, BodyType::PreExistingDebris), 260);
}

#[test]
fn zarya_contact_after_main_collision_cascades() {
    let o = classify_pair(BodyType::CollisionDebris, BodyType::Zarya, prox(true, false, false), true);
    assert_eq!(o, PairOutcome::ZaryaCascade);
}

#[test]
fn zarya_contact_before_main_collision_does_nothing() {
    // even within the collision distance, the station branch is taken
    let o = classify_pair(BodyType::Zarya, BodyType::LiveSatellite, prox(true, true, true), false);
    assert_eq!(o, PairOutcome::Nothing);
}

#[test]
fn satellite_close_pass_fragments_satellites_only() {
    let o = classify_pair(BodyType::LiveSatellite, BodyType::CollisionDebris, prox(false, true, false), false);
    assert_eq!(o, PairOutcome::Fragment { first: true, second: false });
    let o = classify_pair(BodyType::Russs, BodyType::Iridium33, prox(false, true, true), true);
    assert_eq!(o, PairOutcome::Fragment { first: true, second: true });
}

#[test]
fn debris_pairs_bounce_when_very_close() {
    let o = classify_pair(BodyType::CollisionDebris, BodyType::PreExistingDebris, prox(false, true, true), true);
    assert_eq!(o, PairOutcome::Bounce);
    let o = classify_pair(BodyType::CollisionDebris, BodyType::PreExistingDebris, prox(false, true, false), true);
    assert_eq!(o, PairOutcome::Nothing);
}

#[test]
fn plan_and_destroy() {
    let types = vec![BodyType::Zarya, BodyType::CollisionDebris, BodyType::LiveSatellite, BodyType::PreExistingDebris];
    let ids = vec![10u64, 11, 12, 13];
    let pairs = vec![(0usize, 1usize), (2, 3), (1, 3)];
    let proximity = vec![prox(true, false, false), prox(false, true, false), prox(false, false, true)];
    let plan = plan_collisions(&types, &ids, &pairs, &proximity, true);
    assert_eq!(
        plan.outcomes,
        vec![PairOutcome::ZaryaCascade, PairOutcome::Fragment { first: true, second: false }, PairOutcome::Bounce]
    );
    assert_eq!(plan.doomed, vec![10, 11, 12]);
    let mut alive = vec![true; 4];
    mark_destroyed(&mut alive, &ids, &plan.doomed);
    assert_eq!(alive, vec![false, false, false, true]);
}

#[test]
fn destroy_marks_only_first_with_id() {
    let ids = vec![7u64, 7, 8];
    let mut alive = vec![true, true, true];
    mark_destroyed(&mut alive, &ids, &vec![7, 7, 99]);
    assert_eq!(alive, vec![false, true, true]);
}
