//! The integer world: every position, heading and verdict is exact fixed-point arithmetic,
//! so two machines that feed it the same inputs hold the same state.

pub mod buttons;
pub mod entities;
pub mod geometry;
pub mod input;
pub mod laws;
pub mod layout_laws;
pub mod opening_laws;
pub mod rng;
pub mod round;
pub mod spawn;
pub mod trig;
pub mod verdict_laws;
pub mod walk_laws;
pub mod world;

pub use crate::player_map::PlayerId;
pub use entities::{
    ClawPose, Crab, CrabPose, Externals, ExtractionPoint, Outcome, PilotPose, Player, PlayerStatus,
};
pub use geometry::Pos;
pub use input::Input;
pub use rng::random_match_seed;
pub use round::Sim;
pub use world::{CLAW_DOWN_BUFFER, CRAB_SCALE, EXTRACT_RADIUS, TICK_HZ, UNIT};
