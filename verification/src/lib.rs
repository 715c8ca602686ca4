//! The deterministic core of a host-authoritative co-op round: the integer world, the
//! server that assembles its ticks, the wire layouts they travel in, and the decisions of
//! the client around them.

pub mod bytes;
pub mod client;
pub mod player_map;
pub mod render;
pub mod roster;
pub mod server;
pub mod sim;
pub mod snapshot;
pub mod snapshot_laws;
pub mod telemetry;
pub mod text;
pub mod transport;
pub mod voice_delivery;
