use orbital_sim::phase::{advance_phase, main_collision_done, PhaseKind};

#[test]
fn waits_until_collision_time() {
    let s = advance_phase(PhaseKind::PreCollision, false, true);
    assert_eq!(s.next, PhaseKind::PreCollision);
    assert!(!s.trigger_primary);
}

#[test]
fn collision_time_starts_the_flash() {
    let s = advance_phase(PhaseKind::PreCollision, true, false);
    assert_eq!(s.next, PhaseKind::CollisionFlash);
    assert!(s.trigger_primary);
    // a flash that starts in a step cannot end in it
    let s = advance_phase(PhaseKind::PreCollision, true, true);
    assert_eq!(s.next, PhaseKind::CollisionFlash);
    assert!(s.trigger_primary);
}

#[test]
fn flash_ends_in_fragmentation_phase() {
    let s = advance_phase(PhaseKind::CollisionFlash, true, false);
    assert_eq!(s.next, PhaseKind::CollisionFlash);
    assert!(!s.trigger_primary);
    let s = advance_phase(PhaseKind::CollisionFlash, true, true);
    assert_eq!(s.next, PhaseKind::PostCollision);
    assert!(!s.trigger_primary);
    let s = advance_phase(PhaseKind::PostCollision, true, false);
    assert_eq!(s.next, PhaseKind::PostCollision);
    assert!(!s.trigger_primary);
}

#[test]
fn station_cascade_only_after_primary_collision() {
    assert!(!main_collision_done(PhaseKind::PreCollision));
    assert!(main_collision_done(PhaseKind::CollisionFlash));
    assert!(main_collision_done(PhaseKind::PostCollision));
}

#[test]
fn primary_collision_fires_once_in_a_run() {
    let steps = [(false, false), (false, true), (true, false), (true, false), (true, true), (true, true), (true, false)];
    let mut p = PhaseKind::PreCollision;
    let mut fired = 0;
    let mut phases = Vec::new();
    for &(reached, over) in steps.iter() {
        let s = advance_phase(p, reached, over);
        if s.trigger_primary {
            fired += 1;
        }
        p = s.next;
        phases.push(p);
    }
    assert_eq!(fired, 1);
    assert_eq!(
        phases,
        vec![
            PhaseKind::PreCollision,
            PhaseKind::PreCollision,
            PhaseKind::CollisionFlash,
            PhaseKind::CollisionFlash,
            PhaseKind::PostCollision,
            PhaseKind::PostCollision,
            PhaseKind::PostCollision,
        ]
    );
}
