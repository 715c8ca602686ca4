//! Who stands in the scene and who is seen.

use crate::player_map::{seated, PlayerId};
use crate::sim::entities::{Player, PlayerStatus};
use crate::sim::geometry::Pos;
use crate::sim::round::Sim;
use vstd::prelude::*;

verus! {

/// An avatar to make.
#[derive(Debug, Clone, Copy, PartialEq, Eq)]
pub struct AvatarSpawn {
    pub id: PlayerId,
    pub pos: Pos,
    /// The local player's looks different.
    pub local: bool,
}

/// The avatars to take away, by place, and those to make.
#[derive(Debug)]
pub struct AvatarPlan {
    pub despawn: Vec<bool>,
    pub spawn: Vec<AvatarSpawn>,
}

/// The avatars that are missing, in the order of seats.
pub open spec fn missing(
    players: Seq<(PlayerId, Player)>,
    have: Seq<PlayerId>,
    me: PlayerId,
) -> Seq<AvatarSpawn>
    decreases players.len(),
{
    if players.len() == 0 {
        Seq::empty()
    } else {
        let (id, p) = players.last();
        let rest = missing(players.drop_last(), have, me);
        if have.contains(id) {
            rest
        } else {
            rest.push(AvatarSpawn { id, pos: p.pos, local: id == me })
        }
    }
}

/// Keep one avatar for each player: those of players who are gone go, and those that are
/// missing come.
pub fn reconcile_avatars(have: &Vec<PlayerId>, sim: &Sim, me: PlayerId) -> (p: AvatarPlan)
    requires
        sim.wf(),
    ensures
        p.despawn@.len() == have@.len(),
        forall|i: int|
            0 <= i < have@.len() ==> #[trigger] p.despawn@[i] == !seated(
                sim@.players,
                have@[i],
            ),
        p.spawn@ == missing(sim@.players, have@, me),
{
    let mut despawn: Vec<bool> = Vec::new();
    let mut i: usize = 0;
    while i < have.len()
        invariant
            i <= have@.len(),
            sim.wf(),
            despawn@.len() == i,
            forall|k: int|
                0 <= k < i ==> #[trigger] despawn@[k] == !seated(sim@.players, have@[k]),
        decreases have@.len() - i,
    {
        despawn.push(!sim.has_player(have[i]));
        i = i + 1;
    }
    let players = sim.players();
    let mut spawn: Vec<AvatarSpawn> = Vec::new();
    let mut j: usize = 0;
    while j < players.len()
        invariant
            j <= players@.len(),
            spawn@ == missing(players@.take(j as int), have@, me),
        decreases players@.len() - j,
    {
        proof {
            assert(players@.take(j + 1).drop_last() =~= players@.take(j as int));
            assert(players@.take(j + 1).last() == players@[j as int]);
        }
        let id = players[j].0;
        if !crate::player_map::contains_id(have.as_slice(), id) {
            spawn.push(AvatarSpawn { id, pos: players[j].1.pos(), local: id == me });
        }
        j = j + 1;
    }
    assert(players@.take(j as int) =~= players@);
    AvatarPlan { despawn, spawn }
}

/// Whether an avatar is hidden: the local player's is, and those of players who are out or in
/// a craft.
pub fn avatar_hidden(id: PlayerId, me: PlayerId, status: PlayerStatus, in_craft: bool) -> (b: bool)
    ensures
        b == (id == me || status == PlayerStatus::Extracted || in_craft),
{
    id == me || status == PlayerStatus::Extracted || in_craft
}

/// What the camera looks from.
#[derive(Debug, Clone, Copy, PartialEq, Eq, Structural)]
pub enum CameraSource {
    /// The craft.
    Cockpit,
    /// The player's eyes, turned as the world has the player.
    Eyes,
    /// The player's eyes, turned freely: a player who is down or out turns in no world.
    FreeEyes,
    /// Nothing: the camera stays where it is.
    Hold,
}

/// What the camera looks from: the craft once its pose is known, else the local player.
pub fn camera_source(cockpit: bool, status: Option<PlayerStatus>) -> (c: CameraSource)
    ensures
        c == (if cockpit {
            CameraSource::Cockpit
        } else {
            match status {
                Some(PlayerStatus::Alive) => CameraSource::Eyes,
                Some(_) => CameraSource::FreeEyes,
                None => CameraSource::Hold,
            }
        }),
{
    if cockpit {
        CameraSource::Cockpit
    } else {
        match status {
            Some(PlayerStatus::Alive) => CameraSource::Eyes,
            Some(_) => CameraSource::FreeEyes,
            None => CameraSource::Hold,
        }
    }
}

/// What is drawn of the crab: the skin stands for it where there is a model and a brain.
#[derive(Debug, Clone, Copy, PartialEq, Eq, Structural)]
pub struct CrabDressing {
    pub silhouette_hidden: bool,
    /// A window is told that the model is missing.
    pub banner: bool,
}

pub fn crab_dressing(armed: bool, have_model: bool, windowed: bool) -> (d: CrabDressing)
    ensures
        d == (CrabDressing {
            silhouette_hidden: armed && have_model,
            banner: armed && !have_model && windowed,
        }),
{
    CrabDressing {
        silhouette_hidden: armed && have_model,
        banner: armed && !have_model && windowed,
    }
}

} // verus!
