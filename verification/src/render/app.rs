//! The game's start: what it boots into, and which rounds may be played.

use crate::player_map::PlayerId;
use crate::render::driver::crab_spots;
use crate::sim::geometry::Pos;
use crate::sim::round::Sim;
use crate::sim::spawn::{stream_settles, SETTLING_PARTY};
use crate::sim::world::MAX_CRABS;
use crate::text::push_text;
use vstd::prelude::*;
use vstd::string::*;

verus! {

/// Whether this machine and the host agree: on the crab's body, and on how many there are.
#[derive(Debug, Clone, Copy, PartialEq, Eq, Structural)]
pub struct SyncVerdict {
    pub assets: bool,
    pub crabs: bool,
}

/// A round that is ready to be played. Alone there is nobody to agree with.
#[derive(Debug)]
pub struct ReadyMatch {
    pub me: PlayerId,
    pub sim: Sim,
    pub sync: Option<SyncVerdict>,
}

/// What the game starts into.
#[derive(Debug)]
pub enum Boot {
    /// The menu; telemetry goes to the given endpoint.
    Menu { seed: u64, telemetry: Option<[u8; 32]> },
    Round(Box<ReadyMatch>),
}

/// Where the game is.
#[derive(Debug, Clone, Copy, PartialEq, Eq, Hash, Structural)]
pub enum AppPhase {
    Menu,
    Connecting,
    Playing,
}

impl Default for AppPhase {
    fn default() -> (p: Self)
        ensures
            p == AppPhase::Menu,
    {
        AppPhase::Menu
    }
}

/// A round may be played alone, or where everybody agrees.
pub open spec fn armable(sync: Option<SyncVerdict>) -> bool {
    match sync {
        None => true,
        Some(v) => v.assets && v.crabs,
    }
}

/// Why a round is refused, and what to do about it.
pub open spec fn refusal_text(sync: SyncVerdict) -> Seq<char> {
    let cause = if !sync.crabs {
        "the HOST's NN-crab count doesn't line up — it serves no crabs at all (a headless driver hosting a rest-pose match) or a different count than this device renders"@
    } else {
        "the crab body differs on a peer (a different sally.glb, baked collider table, or binary version) — it would build and render a different crab"@
    };
    let fix = if !sync.crabs {
        "host from a windowed device, and launch every device with the same --nn-crab-checkpoint binding list"@
    } else {
        "run rl-update on every device so all peers share the same build + model"@
    };
    "rl#114: refusing to start the round — can't arm the trained NN crabs (\"Sally\") for this multiplayer match because "@
        + cause + ". Fix: "@ + fix
        + ", then re-form the match. (There is deliberately no integer stand-in crab — an unarmable round refuses rather than silently dropping Sally.)"@
}

/// Whether a round may be played; if not, why not.
pub fn check_armable(sync: Option<SyncVerdict>) -> (r: Result<(), String>)
    ensures
        r is Ok <==> armable(sync),
        r matches Err(e) ==> sync matches Some(v) && e@ == refusal_text(v),
{
    match sync {
        None => Ok(()),
        Some(v) => {
            if v.assets && v.crabs {
                return Ok(());
            }
            let mut out = String::new();
            push_text(
                &mut out,
                "rl#114: refusing to start the round — can't arm the trained NN crabs (\"Sally\") for this multiplayer match because ",
            );
            if !v.crabs {
                push_text(
                    &mut out,
                    "the HOST's NN-crab count doesn't line up — it serves no crabs at all (a headless driver hosting a rest-pose match) or a different count than this device renders",
                );
            } else {
                push_text(
                    &mut out,
                    "the crab body differs on a peer (a different sally.glb, baked collider table, or binary version) — it would build and render a different crab",
                );
            }
            push_text(&mut out, ". Fix: ");
            if !v.crabs {
                push_text(
                    &mut out,
                    "host from a windowed device, and launch every device with the same --nn-crab-checkpoint binding list",
                );
            } else {
                push_text(
                    &mut out,
                    "run rl-update on every device so all peers share the same build + model",
                );
            }
            push_text(
                &mut out,
                ", then re-form the match. (There is deliberately no integer stand-in crab — an unarmable round refuses rather than silently dropping Sally.)",
            );
            assert(out@ =~= refusal_text(v));
            Err(out)
        },
    }
}

/// A round that may be played.
#[derive(Debug)]
pub struct ArmedRound {
    ready: ReadyMatch,
}

impl ArmedRound {
    /// The round.
    pub closed spec fn round(&self) -> ReadyMatch {
        self.ready
    }

    pub fn into_ready(self) -> (r: ReadyMatch)
        ensures
            r == self.round(),
    {
        self.ready
    }
}

/// Only a round that may be played becomes an armed one.
pub fn arm_round(ready: ReadyMatch) -> (r: Result<ArmedRound, String>)
    ensures
        match r {
            Ok(a) => armable(ready.sync) && a.round() == ready,
            Err(e) => ready.sync matches Some(v) && !armable(ready.sync) && e@ == refusal_text(v),
        },
{
    match check_armable(ready.sync) {
        Ok(_) => Ok(ArmedRound { ready }),
        Err(e) => Err(e),
    }
}

/// A solo round always may.
pub proof fn lemma_solo_always_arms()
    ensures
        armable(None),
{
}

/// One disagreement is enough to refuse a round, whichever it is, and to agree on more never
/// refuses one.
pub proof fn lemma_any_disagreement_refuses(v: SyncVerdict, w: SyncVerdict)
    ensures
        !v.assets ==> !armable(Some(v)),
        !v.crabs ==> !armable(Some(v)),
        armable(Some(v)) && (v.assets ==> w.assets) && (v.crabs ==> w.crabs) ==> armable(Some(w)),
        armable(Some(SyncVerdict { assets: true, crabs: true })),
{
}

/// Set a round up for a number of crabs before its first tick, and tell where they start.
/// `None` where it has begun, the number is out of bounds or no layout settles; the round is
/// then as it was.
pub fn seed_round_crabs(sim: &mut Sim, crabs: usize) -> (r: Option<Vec<Pos>>)
    requires
        old(sim).wf(),
        old(sim).fits(),
    ensures
        r is Some <==> old(sim)@.tick == 0 && 1 <= crabs <= MAX_CRABS && stream_settles(
            old(sim)@.rng,
            old(sim)@.roster,
            crabs as nat,
        ),
        old(sim)@.tick == 0 && 1 <= crabs <= MAX_CRABS && old(sim)@.roster.len() <= SETTLING_PARTY
            ==> r is Some,
        match r {
            Some(v) => {
                &&& final(sim)@ == Sim::with_crabs(old(sim)@, crabs as nat)
                &&& v@ == crab_spots(final(sim)@.crabs)
            },
            None => final(sim)@ == old(sim)@,
        },
        final(sim).wf(),
        final(sim).fits(),
        r is Some || old(sim).in_world() ==> final(sim).in_world(),
{
    if !sim.try_configure_crabs(crabs) {
        return None;
    }
    let c = sim.crabs();
    let mut out: Vec<Pos> = Vec::new();
    let mut i: usize = 0;
    while i < c.len()
        invariant
            i <= c@.len(),
            out@ == crab_spots(c@.take(i as int)),
        decreases c@.len() - i,
    {
        out.push(c[i].pos());
        i = i + 1;
        assert(out@ =~= crab_spots(c@.take(i as int)));
    }
    assert(c@.take(i as int) =~= c@);
    Some(out)
}

} // verus!
