//! The launch: from what the player asked for to what the game starts into.

use crate::player_map::PlayerId;
use crate::render::app::{Boot, ReadyMatch};
use crate::sim::rng::random_match_seed;
use crate::sim::round::Sim;
use crate::text::{decimal, push_decimal, push_text, texts};
use vstd::prelude::*;
use vstd::string::*;

verus! {

/// Names the directory of the crab's brain where no flag does.
pub const CHECKPOINT_ENV: &'static str = "RL_CRAB_CHECKPOINT_DIR";

/// How the game is launched.
#[derive(Debug, Clone, Copy, PartialEq, Eq)]
pub enum Launch {
    Menu,
    /// Straight into a match, dialing the given host if there is one.
    Lobby { dial: Option<[u8; 32]> },
}

/// What came of forming a match without a menu.
#[derive(Debug)]
pub enum MatchResult {
    Joined(ReadyMatch),
    Alone,
}

/// The game starts into the menu.
pub fn boot_menu(seed: u64, telemetry: Option<[u8; 32]>) -> (b: Boot)
    ensures
        b == (Boot::Menu { seed, telemetry }),
{
    Boot::Menu { seed, telemetry }
}

/// The game starts into the menu, on a seed of this launch's own.
pub fn launch_menu(telemetry: Option<[u8; 32]>) -> (b: Boot)
    ensures
        b matches Boot::Menu { seed: s, telemetry: t } && t == telemetry,
{
    boot_menu(random_match_seed(), telemetry)
}

/// A round of one's own, of which one player and no host know.
pub fn solo_round(seed: u64) -> (r: Option<ReadyMatch>)
    ensures
        r is Some,
        r matches Some(m) ==> {
            &&& m.me == PlayerId(0)
            &&& m.sync is None
            &&& m.sim@ == Sim::opening(seed, seq![PlayerId(0)], 1)
            &&& m.sim.wf()
            &&& m.sim.in_world()
        },
{
    let mut ids: Vec<PlayerId> = Vec::new();
    ids.push(PlayerId(0));
    assert(ids@ =~= seq![PlayerId(0)]);
    proof {
        crate::roster::lemma_in_order_exists(ids@);
    }
    match Sim::try_new(seed, ids.as_slice()) {
        Some(sim) => Some(ReadyMatch { me: PlayerId(0), sim, sync: None }),
        None => None,
    }
}

/// The game starts straight into the round that was formed, or a solo one where nobody came.
pub fn boot_lobby(formed: MatchResult, seed: u64) -> (r: Option<Boot>)
    ensures
        match formed {
            MatchResult::Joined(m) => r == Some(Boot::Round(Box::new(m))),
            MatchResult::Alone => {
                &&& r is Some
                &&& r matches Some(b) ==> b matches Boot::Round(m) && m.me == PlayerId(0) && m.sync
                    is None && m.sim@ == Sim::opening(seed, seq![PlayerId(0)], 1)
            },
        },
{
    match formed {
        MatchResult::Joined(m) => Some(Boot::Round(Box::new(m))),
        MatchResult::Alone => match solo_round(seed) {
            Some(m) => Some(Boot::Round(Box::new(m))),
            None => None,
        },
    }
}

/// Why a brain cannot be used.
#[derive(Debug)]
pub enum CheckpointUnusable {
    /// It was trained in a world that this launch cannot have.
    Plant(String),
    Missing,
    Refused(String),
    /// It was built for a body with other senses and muscles.
    Mismatch { obs: usize, action: usize },
}

/// The refusal in words: where the brain is, what its own body has, and what this one has.
pub open spec fn unusable_text(
    e: CheckpointUnusable,
    dir: Seq<char>,
    rig_obs: usize,
    rig_act: usize,
) -> Seq<char> {
    match e {
        CheckpointUnusable::Plant(err) => "checkpoint under "@ + dir
            + " records a plant this launch can't adopt — "@ + err@,
        CheckpointUnusable::Missing => "rl#114: no trained crab brain (brain.bin) under "@ + dir
            + " — the giant crab IS the trained NN body (\"Sally\"), and there is no integer stand-in. Point this command's checkpoint flag or "@
            + CHECKPOINT_ENV@
            + " at a trained checkpoint dir (deploy/rl-update must set it, and EVERY device needs the IDENTICAL brain + crab model), then relaunch."@,
        CheckpointUnusable::Refused(why) => "checkpoint under "@ + dir + " was REFUSED — "@ + why@
            + ". Fix the checkpoint, then relaunch."@,
        CheckpointUnusable::Mismatch { obs, action } => "rl#199: checkpoint under "@ + dir
            + " was built for a DIFFERENT rig — its brain wants "@ + decimal(obs as nat) + " obs / "@
            + decimal(action as nat) + " act but this binary's crab rig is "@ + decimal(
            rig_obs as nat,
        ) + " obs / "@ + decimal(rig_act as nat)
            + " act. Sally would launch as an inert rest-pose statue, so refusing to launch instead. Retrain/redeploy a checkpoint for this rig, or run a binary whose rig matches the checkpoint."@,
    }
}

/// The refusal in words.
pub fn checkpoint_error(e: &CheckpointUnusable, dir: &str, rig_obs: usize, rig_act: usize) -> (s:
    String)
    ensures
        s@ == unusable_text(*e, dir@, rig_obs, rig_act),
{
    let mut out = String::new();
    match e {
        CheckpointUnusable::Plant(err) => {
            push_text(&mut out, "checkpoint under ");
            push_text(&mut out, dir);
            push_text(&mut out, " records a plant this launch can't adopt — ");
            push_text(&mut out, err.as_str());
        },
        CheckpointUnusable::Missing => {
            push_text(&mut out, "rl#114: no trained crab brain (brain.bin) under ");
            push_text(&mut out, dir);
            push_text(
                &mut out,
                " — the giant crab IS the trained NN body (\"Sally\"), and there is no integer stand-in. Point this command's checkpoint flag or ",
            );
            push_text(&mut out, CHECKPOINT_ENV);
            push_text(
                &mut out,
                " at a trained checkpoint dir (deploy/rl-update must set it, and EVERY device needs the IDENTICAL brain + crab model), then relaunch.",
            );
        },
        CheckpointUnusable::Refused(why) => {
            push_text(&mut out, "checkpoint under ");
            push_text(&mut out, dir);
            push_text(&mut out, " was REFUSED — ");
            push_text(&mut out, why.as_str());
            push_text(&mut out, ". Fix the checkpoint, then relaunch.");
        },
        CheckpointUnusable::Mismatch { obs, action } => {
            push_text(&mut out, "rl#199: checkpoint under ");
            push_text(&mut out, dir);
            push_text(&mut out, " was built for a DIFFERENT rig — its brain wants ");
            push_decimal(&mut out, *obs as u64);
            push_text(&mut out, " obs / ");
            push_decimal(&mut out, *action as u64);
            push_text(&mut out, " act but this binary's crab rig is ");
            push_decimal(&mut out, rig_obs as u64);
            push_text(&mut out, " obs / ");
            push_decimal(&mut out, rig_act as u64);
            push_text(
                &mut out,
                " act. Sally would launch as an inert rest-pose statue, so refusing to launch instead. Retrain/redeploy a checkpoint for this rig, or run a binary whose rig matches the checkpoint.",
            );
        },
    }
    assert(out@ =~= unusable_text(*e, dir@, rig_obs, rig_act));
    out
}

/// Where the crabs' brains come from: the flags, one crab each, or the default place once.
pub open spec fn bindings_of(flags: Seq<Seq<char>>) -> Seq<Option<Seq<char>>> {
    if flags.len() == 0 {
        seq![None]
    } else {
        Seq::new(flags.len(), |i: int| Some(flags[i]))
    }
}

/// What optional texts hold.
pub open spec fn opt_texts(v: Seq<Option<String>>) -> Seq<Option<Seq<char>>> {
    Seq::new(
        v.len(),
        |i: int|
            match v[i] {
                Some(s) => Some(s@),
                None => None,
            },
    )
}

pub fn crab_bindings(flags: Vec<String>) -> (v: Vec<Option<String>>)
    ensures
        opt_texts(v@) == bindings_of(texts(flags@)),
{
    let mut out: Vec<Option<String>> = Vec::new();
    if flags.len() == 0 {
        out.push(None);
        assert(opt_texts(out@) =~= bindings_of(texts(flags@)));
        return out;
    }
    let mut i: usize = 0;
    while i < flags.len()
        invariant
            i <= flags@.len(),
            out@.len() == i,
            forall|k: int|
                0 <= k < i ==> ((#[trigger] out@[k]) matches Some(s) && s@ == flags@[k]@),
        decreases flags@.len() - i,
    {
        out.push(Some(flags[i].clone()));
        i = i + 1;
    }
    assert(opt_texts(out@) =~= bindings_of(texts(flags@)));
    out
}

/// What goes before the refusal of one of several brains.
pub open spec fn binding_text(idx: usize) -> Seq<char> {
    "crab "@ + decimal(idx as nat) + "'s brain binding is unusable (rl#200)"@
}

pub fn binding_context(idx: usize) -> (s: String)
    ensures
        s@ == binding_text(idx),
{
    let mut out = String::new();
    push_text(&mut out, "crab ");
    push_decimal(&mut out, idx as u64);
    push_text(&mut out, "'s brain binding is unusable (rl#200)");
    assert(out@ =~= binding_text(idx));
    out
}

} // verus!
