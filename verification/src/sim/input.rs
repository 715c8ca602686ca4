//! One player's controls for one tick.

use crate::sim::buttons;
use vstd::prelude::*;

verus! {

/// Stick axes, quantized to [`Input::AXIS_SCALE`] steps each way, and the pressed buttons.
#[derive(Debug, Clone, Copy, PartialEq, Eq, Structural)]
pub struct Input {
    pub move_strafe: i16,
    pub move_forward: i16,
    pub look_yaw: i16,
    pub buttons: u8,
}

impl Default for Input {
    fn default() -> (i: Self)
        ensures
            i == neutral(),
    {
        Input { move_strafe: 0, move_forward: 0, look_yaw: 0, buttons: 0 }
    }
}

/// Hands off the controls.
pub open spec fn neutral() -> Input {
    Input { move_strafe: 0, move_forward: 0, look_yaw: 0, buttons: 0 }
}

/// Any of the bits in `bit` is pressed.
pub open spec fn pressing(i: Input, bit: u8) -> bool {
    i.buttons & bit != 0
}

/// The held-state part of an input: the move axes.
pub open spec fn held(i: Input) -> Input {
    Input { look_yaw: 0, buttons: 0, ..i }
}

/// What of an input survives while its player pilots a craft.
pub open spec fn masked(i: Input) -> Input {
    Input { buttons: i.buttons & buttons::PILOT_MASK, ..neutral() }
}

impl Input {
    /// Full deflection of an axis.
    pub const AXIS_SCALE: i16 = 1000;

    pub fn pressed(self, bit: u8) -> (r: bool)
        ensures
            r == pressing(self, bit),
    {
        self.buttons & bit != 0
    }

    /// The input substituted for a tick where this player's stream is starved: keep the
    /// held-state move axes, zero the rest. `look_yaw` is a per-tick delta, and a button
    /// tap fired again would double an extract or a restart.
    pub fn hold(self) -> (r: Self)
        ensures
            r == held(self),
    {
        Input {
            move_strafe: self.move_strafe,
            move_forward: self.move_forward,
            look_yaw: 0,
            buttons: 0,
        }
    }

    /// The input a piloting player contributes to a tick: the craft flies on its own intent,
    /// so the walk axes are zeroed and the buttons masked to [`buttons::PILOT_MASK`].
    pub fn pilot_masked(self) -> (r: Self)
        ensures
            r == masked(self),
    {
        Input {
            move_strafe: 0,
            move_forward: 0,
            look_yaw: 0,
            buttons: self.buttons & buttons::PILOT_MASK,
        }
    }
}

/// While piloting, RESTART passes and nothing else does; and holding a masked input cannot
/// press anything again.
pub proof fn lemma_pilot_mask(i: Input)
    ensures
        pressing(masked(i), buttons::RESTART) == pressing(i, buttons::RESTART),
        !pressing(masked(i), buttons::ACTION),
        masked(masked(i)) == masked(i),
        held(masked(i)) == neutral(),
{
    let b = i.buttons;
    assert((b & 2) & 2 == b & 2) by (bit_vector);
    assert((b & 2) & 1 == 0) by (bit_vector);
}

/// A hold presses no button and turns nothing, and holding twice is holding once.
pub proof fn lemma_hold(i: Input, bit: u8)
    ensures
        !pressing(held(i), bit),
        held(i).look_yaw == 0,
        held(held(i)) == held(i),
{
    assert(0u8 & bit == 0) by (bit_vector);
}

} // verus!
