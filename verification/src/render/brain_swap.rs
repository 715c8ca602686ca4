//! Who may change the crabs' brains.

use crate::render::driver::GcrContext;
use vstd::prelude::*;

verus! {

/// What comes of the chord that swaps brains.
#[derive(Debug, Clone, Copy, PartialEq, Eq, Structural)]
pub enum BrainSwap {
    Ignored,
    /// Only the host swaps.
    NotHost,
    Cycle,
}

/// The chord counts on foot only, in a round, where there are crabs to drive; a client is
/// told that the host swaps.
pub fn swap_brain(
    context: GcrContext,
    executed: bool,
    in_round: bool,
    is_client: bool,
    has_policies: bool,
) -> (r: BrainSwap)
    ensures
        r == (if context != GcrContext::OnFoot || !executed || !in_round {
            BrainSwap::Ignored
        } else if is_client {
            BrainSwap::NotHost
        } else if has_policies {
            BrainSwap::Cycle
        } else {
            BrainSwap::Ignored
        }),
{
    if context != GcrContext::OnFoot || !executed || !in_round {
        BrainSwap::Ignored
    } else if is_client {
        BrainSwap::NotHost
    } else if has_policies {
        BrainSwap::Cycle
    } else {
        BrainSwap::Ignored
    }
}

} // verus!
