//! The scenario's phase machine: before the primary collision, the flash
//! that follows it, and the fragmentation phase after it.
//!
//! The caller measures time; the machine only sees, at each step, whether
//! the scheduled collision time has been reached and whether the flash has
//! lasted long enough.

use vstd::prelude::*;

verus! {

/// Phase of the scenario.
#[derive(Debug, Clone, Copy, PartialEq, Eq, Structural)]
pub enum PhaseKind {
    /// The two primary satellites have not met yet.
    PreCollision,
    /// The primary collision has just happened and the screen flashes.
    CollisionFlash,
    /// The fragments spread out.
    PostCollision,
}

/// What one simulation step decides about the phase.
#[derive(Debug, Clone, Copy, PartialEq, Eq, Structural)]
pub struct PhaseStep {
    /// Phase after the step.
    pub next: PhaseKind,
    /// The primary collision (both primary satellites break up) happens in this step.
    pub trigger_primary: bool,
}

/// Phase after one step: the collision fires once its time is reached, and
/// the flash gives way to the fragmentation phase once it is over.  A flash
/// that starts in a step has lasted no time, so it cannot end in that step.
pub open spec fn phase_after(p: PhaseKind, collision_time_reached: bool, flash_over: bool) -> PhaseKind {
    match p {
        PhaseKind::PreCollision => if collision_time_reached {
            PhaseKind::CollisionFlash
        } else {
            PhaseKind::PreCollision
        },
        PhaseKind::CollisionFlash => if flash_over {
            PhaseKind::PostCollision
        } else {
            PhaseKind::CollisionFlash
        },
        PhaseKind::PostCollision => PhaseKind::PostCollision,
    }
}

/// The primary collision fires in a step from phase `p`.
pub open spec fn fires_primary(p: PhaseKind, collision_time_reached: bool) -> bool {
    p is PreCollision && collision_time_reached
}

/// Decides the phase transition of one step.
pub fn advance_phase(p: PhaseKind, collision_time_reached: bool, flash_over: bool) -> (r: PhaseStep)
    ensures
        r.next == phase_after(p, collision_time_reached, flash_over),
        r.trigger_primary == fires_primary(p, collision_time_reached),
{
    match p {
        PhaseKind::PreCollision => {
            if collision_time_reached {
                PhaseStep { next: PhaseKind::CollisionFlash, trigger_primary: true }
            } else {
                PhaseStep { next: PhaseKind::PreCollision, trigger_primary: false }
            }
        },
        PhaseKind::CollisionFlash => {
            if flash_over {
                PhaseStep { next: PhaseKind::PostCollision, trigger_primary: false }
            } else {
                PhaseStep { next: PhaseKind::CollisionFlash, trigger_primary: false }
            }
        },
        PhaseKind::PostCollision => PhaseStep { next: PhaseKind::PostCollision, trigger_primary: false },
    }
}

/// Whether the primary collision has happened: collisions between other
/// bodies can then break up the station module.
pub fn main_collision_done(p: PhaseKind) -> (r: bool)
    ensures
        r == !(p is PreCollision),
{
    match p {
        PhaseKind::PreCollision => false,
        _ => true,
    }
}

/// The scenario's transitions: before the collision, the primary collision
/// fires exactly in the step that reaches its time and starts the flash; a
/// flash lasts until it is over and then gives way to the fragmentation
/// phase, which is final; the primary collision never fires outside the
/// pre-collision phase.
pub proof fn lemma_phase_transitions(p: PhaseKind, reached: bool, over: bool)
    ensures
        p is PreCollision ==> (fires_primary(p, reached) <==> reached),
        p is PreCollision && reached ==> phase_after(p, reached, over) is CollisionFlash,
        p is PreCollision && !reached ==> phase_after(p, reached, over) is PreCollision,
        !(p is PreCollision) ==> !fires_primary(p, reached),
        p is CollisionFlash ==> (phase_after(p, reached, over) is PostCollision <==> over),
        p is CollisionFlash && !over ==> phase_after(p, reached, over) is CollisionFlash,
        p is PostCollision ==> phase_after(p, reached, over) is PostCollision,
{
}

/// Position of a phase in the scenario's order.
pub open spec fn phase_rank(p: PhaseKind) -> int {
    match p {
        PhaseKind::PreCollision => 0,
        PhaseKind::CollisionFlash => 1,
        PhaseKind::PostCollision => 2,
    }
}

/// Phase after a sequence of steps, each given by its two observations
/// (collision time reached, flash over).
pub open spec fn phase_after_steps(p: PhaseKind, steps: Seq<(bool, bool)>) -> PhaseKind
    decreases steps.len(),
{
    if steps.len() == 0 {
        p
    } else {
        let q = phase_after_steps(p, steps.drop_last());
        phase_after(q, steps.last().0, steps.last().1)
    }
}

/// Number of steps, in a sequence of steps, in which the primary collision fires.
pub open spec fn primary_collisions(p: PhaseKind, steps: Seq<(bool, bool)>) -> nat
    decreases steps.len(),
{
    if steps.len() == 0 {
        0
    } else {
        let q = phase_after_steps(p, steps.drop_last());
        primary_collisions(p, steps.drop_last()) + if fires_primary(q, steps.last().0) {
            1nat
        } else {
            0nat
        }
    }
}

/// The phase never moves backwards: after any sequence of steps its rank is
/// at least the starting rank.
pub proof fn lemma_phase_never_regresses(p: PhaseKind, steps: Seq<(bool, bool)>)
    ensures
        phase_rank(phase_after_steps(p, steps)) >= phase_rank(p),
    decreases steps.len(),
{
    if steps.len() > 0 {
        lemma_phase_never_regresses(p, steps.drop_last());
    }
}

/// The primary collision happens at most once in a run, never once the
/// scenario has left the pre-collision phase, and whenever it has happened
/// the scenario is no longer before it.
pub proof fn lemma_primary_collision_at_most_once(p: PhaseKind, steps: Seq<(bool, bool)>)
    ensures
        primary_collisions(p, steps) <= 1,
        !(p is PreCollision) ==> primary_collisions(p, steps) == 0,
        primary_collisions(p, steps) == 1 ==> !(phase_after_steps(p, steps) is PreCollision),
        phase_after_steps(p, steps) is PreCollision ==> primary_collisions(p, steps) == 0,
    decreases steps.len(),
{
    if steps.len() > 0 {
        lemma_primary_collision_at_most_once(p, steps.drop_last());
        lemma_phase_never_regresses(p, steps.drop_last());
    }
}

} // verus!
