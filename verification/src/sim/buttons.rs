//! The button bits of an [`crate::sim::Input`].

use vstd::prelude::*;

verus! {

/// Extract, at the extraction point.
pub const ACTION: u8 = 1;

/// Restart the round.
pub const RESTART: u8 = 2;

/// The foot buttons that stay live while piloting: RESTART works in every context, while
/// ACTION must not, as the ship's brake shares its key.
pub const PILOT_MASK: u8 = RESTART;

} // verus!
