//! Verified core of the orbital collision digital twin: the body catalogue
//! rules, the collision broad phase and its decisions, the scenario
//! bookkeeping, and the text formats (TLE sets, CSV ephemerides, dates)
//! the simulator is fed with.

pub mod body;
pub mod collision;
pub mod text;
pub mod calendar;
pub mod tle;
pub mod records;
pub mod names;
pub mod scenario;
pub mod debris;
pub mod mesh;
pub mod hud;
pub mod octree;
pub mod phase;
