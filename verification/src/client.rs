//! What a client sends each tick.

use crate::player_map::PlayerId;
use crate::sim::input::Input;
use vstd::prelude::*;

verus! {

/// The craft a player can fly.
#[derive(Debug, Clone, Copy, PartialEq, Eq, Structural)]
pub enum VehicleKind {
    Plane,
    Ship,
}

/// How a piloting player flies its craft. The analog controls are carried as the bit
/// patterns of their single-precision values: nothing here computes with them.
#[derive(Debug, Clone, Copy, PartialEq, Eq)]
pub struct PilotIntent {
    pub kind: VehicleKind,
    pub throttle_trim: u32,
    pub thrust: [u32; 3],
    pub pitch: u32,
    pub roll: u32,
    pub yaw: u32,
    pub match_velocity: bool,
}

/// One issued input. `pilot` is `None` on foot.
#[derive(Debug, Clone, Copy, PartialEq, Eq)]
pub struct TickMsg {
    pub issue_tick: u64,
    pub input: Input,
    pub pilot: Option<PilotIntent>,
}

/// An input with its authenticated sender.
#[derive(Debug, Clone, Copy, PartialEq, Eq)]
pub struct PeerMsg {
    pub pid: PlayerId,
    pub msg: TickMsg,
}

} // verus!
