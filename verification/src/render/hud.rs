//! The status line of a round.

use crate::player_map::{lookup, PlayerId};
use crate::sim::entities::{Outcome, Player, PlayerStatus};
use crate::sim::round::Sim;
use crate::text::{decimal, push_decimal, push_text};
use vstd::prelude::*;

verus! {

/// A status in words.
pub open spec fn status_text(s: PlayerStatus) -> Seq<char> {
    match s {
        PlayerStatus::Alive => "ALIVE"@,
        PlayerStatus::Downed => "DOWNED"@,
        PlayerStatus::Extracted => "EXTRACTED"@,
    }
}

pub fn status_str(s: PlayerStatus) -> (t: &'static str)
    ensures
        t@ == status_text(s),
{
    match s {
        PlayerStatus::Alive => "ALIVE",
        PlayerStatus::Downed => "DOWNED",
        PlayerStatus::Extracted => "EXTRACTED",
    }
}

/// One of the others and its status.
pub open spec fn member_text(id: PlayerId, s: PlayerStatus) -> Seq<char> {
    "P"@ + decimal(id.0 as nat) + ": "@ + status_text(s)
}

/// Everybody but the local player, in the order of seats.
pub open spec fn party_text(players: Seq<(PlayerId, Player)>, me: PlayerId) -> Seq<char>
    decreases players.len(),
{
    if players.len() == 0 {
        Seq::empty()
    } else {
        let (id, p) = players.last();
        let rest = party_text(players.drop_last(), me);
        if id == me {
            rest
        } else if rest.len() == 0 {
            member_text(id, p.status)
        } else {
            rest + "   "@ + member_text(id, p.status)
        }
    }
}

/// How the round ended, once it has.
pub open spec fn outcome_line(o: Outcome) -> Seq<char> {
    match o {
        Outcome::Ongoing => Seq::empty(),
        Outcome::Extracted => "\nROUND WON — extracted!"@,
        Outcome::Wiped => "\nROUND LOST — wiped"@,
    }
}

/// The status line: the local player, the others if there are any, and the outcome.
pub open spec fn hud_text(
    players: Seq<(PlayerId, Player)>,
    outcome: Outcome,
    me: PlayerId,
) -> Seq<char> {
    let you = match lookup(players, me) {
        Some(p) => status_text(p.status),
        None => "—"@,
    };
    let party = party_text(players, me);
    "You: "@ + you + "   |   reach the green pillar, extract - dodge the crab"@ + (if party.len()
        == 0 {
        Seq::empty()
    } else {
        "\nParty: "@ + party
    }) + outcome_line(outcome)
}

/// The status line of a round.
pub fn update_hud(sim: &Sim, me: PlayerId) -> (s: String)
    requires
        sim.wf(),
    ensures
        s@ == hud_text(sim@.players, sim@.outcome, me),
{
    let mut out = String::new();
    push_text(&mut out, "You: ");
    match sim.player(me) {
        Some(p) => push_text(&mut out, status_str(p.status())),
        None => push_text(&mut out, "—"),
    }
    push_text(&mut out, "   |   reach the green pillar, extract - dodge the crab");
    let players = sim.players();
    let mut party = String::new();
    let mut empty: bool = true;
    let mut i: usize = 0;
    assert(party@ =~= party_text(players@.take(0), me));
    while i < players.len()
        invariant
            i <= players@.len(),
            party@ == party_text(players@.take(i as int), me),
            empty == (party@.len() == 0),
        decreases players@.len() - i,
    {
        let id = players[i].0;
        let st: PlayerStatus = players[i].1.status();
        proof {
            assert(players@.take(i + 1).drop_last() =~= players@.take(i as int));
            assert(players@.take(i + 1).last() == players@[i as int]);
            reveal_strlit("P");
        }
        let ghost before = party@;
        if id != me {
            if !empty {
                push_text(&mut party, "   ");
            }
            push_text(&mut party, "P");
            push_decimal(&mut party, id.0 as u64);
            push_text(&mut party, ": ");
            push_text(&mut party, status_str(st));
            empty = false;
            assert(party@ =~= (if before.len() == 0 {
                member_text(id, st)
            } else {
                before + "   "@ + member_text(id, st)
            }));
        }
        i = i + 1;
    }
    assert(players@.take(i as int) =~= players@);
    if !empty {
        push_text(&mut out, "\nParty: ");
        push_text(&mut out, party.as_str());
    }
    match sim.outcome() {
        Outcome::Ongoing => {},
        Outcome::Extracted => push_text(&mut out, "\nROUND WON — extracted!"),
        Outcome::Wiped => push_text(&mut out, "\nROUND LOST — wiped"),
    }
    assert(out@ =~= hud_text(sim@.players, sim@.outcome, me));
    out
}

} // verus!
