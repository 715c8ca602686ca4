//! What holds of what is shown and shipped of a round.

use crate::client::VehicleKind;
use crate::player_map::{seated, PlayerId};
use crate::render::articulation::{
    craft_after, craft_placed, crafts_sorted, crab_count, others, repose_after, repose_of,
    shipped, tag_of, wire_kind, BodyPart, CrabFrame, PartTransform, VehiclePoseWire,
};
use crate::render::chord_map::{
    aged, framed, resolved, ChordFrame, MapStateView, BLOOM_NANOS,
};
use crate::render::codes::ChordDir;
use crate::render::menu::{gathered, latched_by, presses, MenuInput, MenuPresses, StickTilt};
use crate::render::net_track::{batch, joined, next_mark, sampled, track_at, TrackView};
use crate::render::scene::{missing, AvatarSpawn};
use crate::render::screenshot::{
    both_clicked, capture_step, holding, tapped_at, toggled, CaptureStep, ScreenshotConfig,
    StickClicks,
};
use crate::render::driver::VehicleRequest;
use crate::sim::entities::Player;
use vstd::prelude::*;

verus! {

/// No two parts of a body share a tag: the carapace has the lowest, and every joint one of its
/// own, in their order; a part that is neither has none.
pub proof fn lemma_tags_tell_parts_apart(a: Option<u8>, b: Option<u8>)
    requires
        a matches Some(j) ==> j < 255,
        b matches Some(j) ==> j < 255,
    ensures
        tag_of(true, a) == Some(0u8),
        tag_of(false, None) is None,
        a is Some && b is Some ==> {
            &&& tag_of(false, a)->0 > 0
            &&& (a->0 < b->0 <==> tag_of(false, a)->0 < tag_of(false, b)->0)
            &&& (tag_of(false, a) == tag_of(false, b) ==> a == b)
        },
        a == Some(0u8) ==> tag_of(false, a) == Some(1u8),
{
}

/// What is shipped of a crab is every tagged part of its own and nothing else, each with its
/// tag, where it is and how it is turned.
pub proof fn lemma_a_crab_ships_its_parts(parts: Seq<BodyPart>, env: int, i: int)
    ensures
        ({
            let s = shipped(parts, env);
            &&& s.len() <= parts.len()
            &&& forall|k: int|
                0 <= k < s.len() ==> exists|j: int|
                    {
                        &&& 0 <= j < parts.len()
                        &&& (#[trigger] parts[j]).env == env
                        &&& tag_of(parts[j].carapace, parts[j].joint) == Some(
                            (#[trigger] s[k]).part,
                        )
                        &&& parts[j].pos == s[k].pos
                        &&& parts[j].rot == s[k].rot
                    }
            &&& (0 <= i < parts.len() && parts[i].env == env && tag_of(
                parts[i].carapace,
                parts[i].joint,
            ) is Some ==> s.contains(
                PartTransform {
                    part: tag_of(parts[i].carapace, parts[i].joint)->0,
                    pos: parts[i].pos,
                    rot: parts[i].rot,
                },
            ))
        }),
    decreases parts.len(),
{
    let s = shipped(parts, env);
    if parts.len() > 0 {
        let d = parts.drop_last();
        lemma_a_crab_ships_its_parts(d, env, i);
        let sd = shipped(d, env);
        let n = parts.len() - 1;
        assert forall|k: int| 0 <= k < s.len() implies exists|j: int|
            {
                &&& 0 <= j < parts.len()
                &&& (#[trigger] parts[j]).env == env
                &&& tag_of(parts[j].carapace, parts[j].joint) == Some((#[trigger] s[k]).part)
                &&& parts[j].pos == s[k].pos
                &&& parts[j].rot == s[k].rot
            } by {
            if k < sd.len() {
                assert(s[k] == sd[k]);
                let j = choose|j: int|
                    {
                        &&& 0 <= j < d.len()
                        &&& (#[trigger] d[j]).env == env
                        &&& tag_of(d[j].carapace, d[j].joint) == Some((#[trigger] sd[k]).part)
                        &&& d[j].pos == sd[k].pos
                        &&& d[j].rot == sd[k].rot
                    };
                assert(parts[j] == d[j]);
            } else {
                assert(parts[n].env == env);
            }
        }
        if 0 <= i < parts.len() && parts[i].env == env && tag_of(
            parts[i].carapace,
            parts[i].joint,
        ) is Some {
            let x = PartTransform {
                part: tag_of(parts[i].carapace, parts[i].joint)->0,
                pos: parts[i].pos,
                rot: parts[i].rot,
            };
            if i < n {
                assert(d[i] == parts[i]);
                let k = choose|k: int| 0 <= k < sd.len() && sd[k] == x;
                assert(s[k] == x);
            } else {
                assert(s[s.len() - 1] == x);
            }
        }
    }
}

/// There is a frame for every crab up to the last that has a tagged part.
pub proof fn lemma_crabs_are_counted(parts: Seq<BodyPart>, i: int)
    ensures
        0 <= i < parts.len() && tag_of(parts[i].carapace, parts[i].joint) is Some ==> parts[i].env
            < crab_count(parts),
        crab_count(parts) > 0 ==> exists|j: int|
            0 <= j < parts.len() && tag_of(
                (#[trigger] parts[j]).carapace,
                parts[j].joint,
            ) is Some && parts[j].env + 1 == crab_count(parts),
    decreases parts.len(),
{
    if parts.len() > 0 {
        let d = parts.drop_last();
        let n = parts.len() - 1;
        lemma_crabs_are_counted(d, i);
        if 0 <= i < n {
            assert(d[i] == parts[i]);
        }
        if crab_count(parts) > crab_count(d) {
            assert(parts[n].env + 1 == crab_count(parts));
        } else if crab_count(d) > 0 {
            let j = choose|j: int|
                0 <= j < d.len() && tag_of((#[trigger] d[j]).carapace, d[j].joint) is Some
                    && d[j].env + 1 == crab_count(d);
            assert(parts[j] == d[j]);
        }
    }
}

/// Sorting crafts loses none and repeats none, and the pilots ascend.
pub proof fn lemma_crafts_sorted(s: Seq<VehiclePoseWire>)
    ensures
        crafts_sorted(s).to_multiset() == s.to_multiset(),
        forall|i: int, j: int|
            0 <= i < j < crafts_sorted(s).len() ==> (#[trigger] crafts_sorted(s)[i]).pilot <= (
            #[trigger] crafts_sorted(s)[j]).pilot,
    decreases s.len(),
{
    if s.len() > 0 {
        let d = s.drop_last();
        lemma_crafts_sorted(d);
        lemma_craft_placed(crafts_sorted(d), s.last());
        assert(s =~= d.push(s.last()));
        d.to_multiset_ensures();
    }
}

proof fn lemma_craft_placed(s: Seq<VehiclePoseWire>, v: VehiclePoseWire)
    requires
        forall|i: int, j: int|
            0 <= i < j < s.len() ==> (#[trigger] s[i]).pilot <= (#[trigger] s[j]).pilot,
    ensures
        craft_placed(s, v).to_multiset() == s.to_multiset().insert(v),
        craft_placed(s, v).len() == s.len() + 1,
        forall|i: int, j: int|
            0 <= i < j < craft_placed(s, v).len() ==> (#[trigger] craft_placed(s, v)[i]).pilot <= (
            #[trigger] craft_placed(s, v)[j]).pilot,
        forall|i: int|
            0 <= i < craft_placed(s, v).len() ==> (#[trigger] craft_placed(s, v)[i]).pilot
                <= v.pilot || (s.len() > 0 && craft_placed(s, v)[i].pilot <= s.last().pilot),
    decreases s.len(),
{
    s.to_multiset_ensures();
    if s.len() == 0 || s.last().pilot <= v.pilot {
        assert forall|i: int| 0 <= i < s.len() implies (#[trigger] s[i]).pilot <= v.pilot by {
            if i < s.len() - 1 {
                assert(s[i].pilot <= s[s.len() - 1].pilot);
            }
        }
    } else {
        let d = s.drop_last();
        lemma_craft_placed(d, v);
        let m = craft_placed(d, v);
        m.to_multiset_ensures();
        d.to_multiset_ensures();
        assert(s =~= d.push(s.last()));
        assert(m.push(s.last()).to_multiset() =~= s.to_multiset().insert(v));
        assert forall|i: int| 0 <= i < m.len() implies (#[trigger] m[i]).pilot
            <= s.last().pilot by {
            if d.len() > 0 {
                assert(s[d.len() - 1].pilot <= s[s.len() - 1].pilot);
            }
        }
    }
}

/// A crab's shift is the first that names it, if any does.
pub proof fn lemma_first_shift_counts(reposes: Seq<(usize, [u32; 3])>, env: int, i: int)
    ensures
        repose_of(reposes, env) is None ==> (0 <= i < reposes.len() ==> reposes[i].0 != env),
        0 <= i < reposes.len() && reposes[i].0 == env && (forall|k: int|
            0 <= k < i ==> (#[trigger] reposes[k]).0 != env) ==> repose_of(reposes, env) == Some(
            reposes[i].1,
        ),
        repose_of(reposes, env) is Some ==> exists|k: int|
            0 <= k < reposes.len() && (#[trigger] reposes[k]).0 == env,
    decreases reposes.len(),
{
    if reposes.len() > 0 {
        let d = reposes.drop_last();
        let n = reposes.len() - 1;
        lemma_first_shift_counts(d, env, i);
        assert(reposes[n] == reposes.last());
        if repose_of(d, env) is Some {
            let k = choose|k: int| 0 <= k < d.len() && (#[trigger] d[k]).0 == env;
            assert(reposes[k].0 == env);
        }
        if 0 <= i < n {
            assert(d[i] == reposes[i]);
            assert(forall|k: int| 0 <= k < i ==> (#[trigger] d[k]) == reposes[k]);
        }
    }
}

/// A shift that came is the crab's from then on; where none came the last one stands.
pub proof fn lemma_shifts_last(before: Seq<Option<[u32; 3]>>, crabs: Seq<CrabFrame>, env: int)
    requires
        0 <= env < crabs.len(),
    ensures
        crabs[env].repose is Some ==> repose_after(before, crabs, env) == crabs[env].repose,
        crabs[env].repose is None && env < before.len() ==> repose_after(before, crabs, env)
            == before[env],
        crabs[env].repose is None && env >= before.len() ==> repose_after(before, crabs, env)
            is None,
{
}

/// The kind of a pilot's craft is that of its first one on the wire, if it has one there.
pub proof fn lemma_first_craft_counts(remote: Seq<VehiclePoseWire>, id: PlayerId, i: int)
    ensures
        wire_kind(remote, id) is None ==> (0 <= i < remote.len() ==> remote[i].pilot != id.0),
        0 <= i < remote.len() && remote[i].pilot == id.0 && (forall|k: int|
            0 <= k < i ==> (#[trigger] remote[k]).pilot != id.0) ==> wire_kind(remote, id) == Some(
            remote[i].kind,
        ),
        wire_kind(remote, id) is Some ==> exists|k: int|
            0 <= k < remote.len() && (#[trigger] remote[k]).pilot == id.0 && remote[k].kind
                == wire_kind(remote, id)->0,
    decreases remote.len(),
{
    if remote.len() > 0 {
        let d = remote.drop_last();
        let n = remote.len() - 1;
        lemma_first_craft_counts(d, id, i);
        assert(remote[n] == remote.last());
        if wire_kind(d, id) is Some {
            let k = choose|k: int|
                0 <= k < d.len() && (#[trigger] d[k]).pilot == id.0 && d[k].kind == wire_kind(
                    d,
                    id,
                )->0;
            assert(remote[k] == d[k]);
        }
        if 0 <= i < n {
            assert(d[i] == remote[i]);
            assert(forall|k: int| 0 <= k < i ==> (#[trigger] d[k]) == remote[k]);
        }
    }
}

/// A pilot has a craft exactly while the wire shows one of its, and keeps the kind it has as
/// long as the wire shows one of that kind.
pub proof fn lemma_craft_is_on_the_wire(
    before: Option<VehicleKind>,
    remote: Seq<VehiclePoseWire>,
    id: PlayerId,
    i: int,
)
    ensures
        0 <= i < remote.len() && remote[i].pilot == id.0 ==> craft_after(before, remote, id)
            is Some,
        0 <= i < remote.len() && remote[i].pilot == id.0 && before == Some(remote[i].kind)
            ==> craft_after(before, remote, id) == before,
        craft_after(before, remote, id) is Some ==> exists|k: int|
            0 <= k < remote.len() && (#[trigger] remote[k]).pilot == id.0 && remote[k].kind
                == craft_after(before, remote, id)->0,
{
    lemma_first_craft_counts(remote, id, i);
}

/// The crafts of others are those that somebody else flies, all of them.
pub proof fn lemma_others_are_not_mine(vehicles: Seq<VehiclePoseWire>, me: u8, v: VehiclePoseWire)
    ensures
        others(vehicles, me).contains(v) <==> vehicles.contains(v) && v.pilot != me,
    decreases vehicles.len(),
{
    reveal(Seq::filter);
    let o = others(vehicles, me);
    if vehicles.len() > 0 {
        let d = vehicles.drop_last();
        let n = vehicles.len() - 1;
        lemma_others_are_not_mine(d, me, v);
        let od = others(d, me);
        assert(o == if vehicles[n].pilot != me {
            od.push(vehicles[n])
        } else {
            od
        });
        if od.contains(v) {
            let i = choose|i: int| 0 <= i < od.len() && od[i] == v;
            assert(o[i] == v);
            let k = choose|k: int| 0 <= k < d.len() && d[k] == v;
            assert(vehicles[k] == v);
        }
        if o.contains(v) && !od.contains(v) {
            let i = choose|i: int| 0 <= i < o.len() && o[i] == v;
            if i < od.len() {
                assert(od[i] == v);
            }
        }
        if vehicles.contains(v) && v.pilot != me {
            let k = choose|k: int| 0 <= k < vehicles.len() && vehicles[k] == v;
            if k < n {
                assert(d[k] == v);
            } else {
                assert(o[o.len() - 1] == v);
            }
        }
    }
}

/// The next mark is the first multiple of the cadence after the tick.
pub proof fn lemma_next_mark_is_next(tick: u64, every: u64)
    requires
        every > 0,
    ensures
        next_mark(tick, every) > tick,
        next_mark(tick, every) <= tick + every,
        next_mark(tick, every) % (every as int) == 0,
{
    let e = every as int;
    let t = tick as int;
    let q = t / e;
    assert(e * q <= t < e * q + e) by (nonlinear_arith)
        requires
            e > 0,
            q == t / e,
    ;
    assert((q + 1) * e == e * q + e) by (nonlinear_arith);
    vstd::arithmetic::div_mod::lemma_mod_multiples_basic(q + 1, e);
}

/// A tick before the last one seen is another round's: nothing is kept of the one before, and
/// everything is due at once. Otherwise nothing changes but the tick that was seen.
pub proof fn lemma_track_starts_over(s: TrackView, tick: u64)
    ensures
        track_at(s, tick).seen == tick,
        tick < s.seen ==> {
            let t = track_at(s, tick);
            &&& t.players.len() == 0 && t.inputs.len() == 0
            &&& t.next_sample <= tick && t.next_emit <= tick
        },
        tick >= s.seen ==> track_at(s, tick) == (TrackView { seen: tick, ..s }),
{
}

/// Samples are strung with commas between them and none at the ends, and a batch is in
/// brackets; nothing sampled is no batch.
pub proof fn lemma_samples_are_strung(a: Seq<char>, b: Seq<char>)
    requires
        a.len() > 0,
    ensures
        joined(Seq::empty(), a) == a,
        joined(a, b).len() == a.len() + 1 + b.len(),
        joined(a, b).take(a.len() as int) == a,
        joined(a, b)[a.len() as int] == ',',
        joined(a, b).skip(a.len() as int + 1) == b,
        batch(Seq::empty()) is None,
        batch(a) matches Some(t) && t.len() == a.len() + 2 && t[0] == '[' && t.last() == ']'
            && t.subrange(1, t.len() - 1) == a,
{
    reveal_strlit(",");
    reveal_strlit("[");
    reveal_strlit("]");
    let j = joined(a, b);
    assert(j.take(a.len() as int) =~= a);
    assert(j.skip(a.len() as int + 1) =~= b);
    let t = "["@ + a + "]"@;
    assert(t.subrange(1, t.len() - 1) =~= a);
}

/// A sample keeps what was sampled before it; no walkers add nothing.
pub proof fn lemma_samples_add_up(s: TrackView, players: Option<Seq<char>>, input: Seq<char>)
    ensures
        ({
            let t = sampled(s, players, input);
            &&& t.inputs == joined(s.inputs, input)
            &&& (players is None || players == Some(Seq::<char>::empty()) ==> t.players
                == s.players)
            &&& (players is Some && players->0.len() > 0 ==> t.players == joined(
                s.players,
                players->0,
            ))
            &&& t.seen == s.seen && t.next_sample == s.next_sample && t.next_emit == s.next_emit
        }),
{
}

/// An avatar comes up for exactly those in the world who have none, each once, where it
/// stands, and as one's own for oneself alone.
pub proof fn lemma_missing_avatars(
    players: Seq<(PlayerId, Player)>,
    have: Seq<PlayerId>,
    me: PlayerId,
    i: int,
)
    ensures
        ({
            let m = missing(players, have, me);
            &&& m.len() <= players.len()
            &&& forall|k: int|
                0 <= k < m.len() ==> {
                    &&& !have.contains((#[trigger] m[k]).id)
                    &&& (m[k].local <==> m[k].id == me)
                    &&& seated(players, m[k].id)
                }
            &&& (0 <= i < players.len() && !have.contains(players[i].0) ==> m.contains(
                AvatarSpawn {
                    id: players[i].0,
                    pos: players[i].1.pos,
                    local: players[i].0 == me,
                },
            ))
        }),
    decreases players.len(),
{
    let m = missing(players, have, me);
    if players.len() > 0 {
        let d = players.drop_last();
        let n = players.len() - 1;
        lemma_missing_avatars(d, have, me, i);
        let md = missing(d, have, me);
        assert forall|k: int| 0 <= k < m.len() implies {
            &&& !have.contains((#[trigger] m[k]).id)
            &&& (m[k].local <==> m[k].id == me)
            &&& seated(players, m[k].id)
        } by {
            if k < md.len() {
                assert(m[k] == md[k]);
                assert(seated(d, md[k].id));
                let j = choose|j: int| 0 <= j < d.len() && (#[trigger] d[j]).0 == md[k].id;
                assert(players[j].0 == md[k].id);
            } else {
                assert(players[n].0 == m[k].id);
            }
        }
        if 0 <= i < players.len() && !have.contains(players[i].0) {
            let x = AvatarSpawn {
                id: players[i].0,
                pos: players[i].1.pos,
                local: players[i].0 == me,
            };
            if i < n {
                assert(d[i] == players[i]);
                let k = choose|k: int| 0 <= k < md.len() && md[k] == x;
                assert(m[k] == x);
            } else {
                assert(m[m.len() - 1] == x);
            }
        }
    }
}

/// A bloom lasts its time and no longer, in however many frames it is let go by; and it stays
/// where it is while the map is shut.
pub proof fn lemma_bloom_fades(b: Option<(Seq<ChordDir>, u64)>, x: u64, y: u64)
    requires
        x + y <= u64::MAX,
    ensures
        aged(aged(b, x), y) == aged(b, (x + y) as u64),
        b matches Some((code, age)) ==> {
            &&& (age + x < BLOOM_NANOS ==> aged(b, x) == Some((code, (age + x) as u64)))
            &&& (age + x >= BLOOM_NANOS ==> aged(b, x) is None)
        },
{
}

/// A chord that was discovered blooms from then on; otherwise what bloomed goes on. The map is
/// open exactly while a chord is typed, and its focus is what was last entered.
pub proof fn lemma_map_frame(s: MapStateView, f: ChordFrame, discovered: bool)
    ensures
        ({
            let t = framed(s, f, discovered);
            &&& (t.open <==> f.capturing)
            &&& (f.entered is None ==> t.focus == s.focus)
            &&& (f.entered is Some ==> t.focus == f.entered->0@)
            &&& (discovered && !f.capturing ==> t.bloom == Some((resolved(f), 0u64)))
            &&& (!discovered && !f.capturing ==> t.bloom == s.bloom)
            &&& (discovered && f.capturing && f.delta_nanos < BLOOM_NANOS ==> t.bloom == Some(
                (resolved(f), f.delta_nanos),
            ))
            &&& (!discovered && f.capturing ==> t.bloom == aged(s.bloom, f.delta_nanos))
        }),
{
}

/// What a menu is given in a frame: each way and each choice that its key, unless a code is
/// typed, or its pad was pressed for; and a stick's way, once, until it is let go.
pub proof fn lemma_menu_is_given_what_was_pressed(
    keys: MenuPresses,
    typing: bool,
    pads: MenuPresses,
    tilt: StickTilt,
    latched: bool,
)
    ensures
        ({
            let g = gathered(keys, typing, pads, tilt, latched);
            &&& (g.contains(MenuInput::Up) <==> (!typing && keys.up) || pads.up || (tilt is Up
                && !latched))
            &&& (g.contains(MenuInput::Down) <==> (!typing && keys.down) || pads.down || (
            tilt is Down && !latched))
            &&& (g.contains(MenuInput::Confirm) <==> (!typing && keys.confirm) || pads.confirm)
            &&& (g.contains(MenuInput::Back) <==> (!typing && keys.back) || pads.back)
            &&& g.len() <= 8
        }),
        tilt is Rest ==> !latched_by(tilt, latched),
        tilt is Between ==> latched_by(tilt, latched) == latched,
        tilt is Up || tilt is Down ==> latched_by(tilt, latched),
{
    let none = MenuPresses { up: false, down: false, confirm: false, back: false };
    let a = if typing {
        none
    } else {
        keys
    };
    let b = MenuPresses {
        up: pads.up || (tilt is Up && !latched),
        down: pads.down || (tilt is Down && !latched),
        ..pads
    };
    let pa = presses(a);
    let pb = presses(b);
    assert(pa + pb == gathered(keys, typing, pads, tilt, latched)) by {
        assert(presses(none) =~= Seq::empty());
    }
    lemma_presses(a);
    lemma_presses(b);
    lemma_in_either(pa, pb, MenuInput::Up);
    lemma_in_either(pa, pb, MenuInput::Down);
    lemma_in_either(pa, pb, MenuInput::Confirm);
    lemma_in_either(pa, pb, MenuInput::Back);
}

proof fn lemma_in_either(a: Seq<MenuInput>, b: Seq<MenuInput>, x: MenuInput)
    ensures
        (a + b).contains(x) <==> a.contains(x) || b.contains(x),
{
    let g = a + b;
    if a.contains(x) {
        let i = choose|i: int| 0 <= i < a.len() && a[i] == x;
        assert(g[i] == x);
    }
    if b.contains(x) {
        let i = choose|i: int| 0 <= i < b.len() && b[i] == x;
        assert(g[a.len() + i] == x);
    }
    if g.contains(x) {
        let i = choose|i: int| 0 <= i < g.len() && g[i] == x;
        if i < a.len() {
            assert(a[i] == x);
        } else {
            assert(b[i - a.len()] == x);
        }
    }
}

proof fn lemma_presses(p: MenuPresses)
    ensures
        presses(p).contains(MenuInput::Up) <==> p.up,
        presses(p).contains(MenuInput::Down) <==> p.down,
        presses(p).contains(MenuInput::Confirm) <==> p.confirm,
        presses(p).contains(MenuInput::Back) <==> p.back,
        presses(p).len() <= 4,
{
    let s = presses(p);
    let n1: int = if p.up {
        1
    } else {
        0
    };
    let n2: int = n1 + if p.down {
        1int
    } else {
        0
    };
    let n3: int = n2 + if p.confirm {
        1int
    } else {
        0
    };
    if p.up {
        assert(s[0] == MenuInput::Up);
    }
    if p.down {
        assert(s[n1] == MenuInput::Down);
    }
    if p.confirm {
        assert(s[n2] == MenuInput::Confirm);
    }
    if p.back {
        assert(s[n3] == MenuInput::Back);
    }
}

/// The scripted toggle leads from the ground through the plane and the ship to the ground.
pub proof fn lemma_toggles_go_round(v: Option<VehicleKind>)
    ensures
        toggled(v) == VehicleRequest::Exit <==> v == Some(VehicleKind::Ship),
        toggled(v) == VehicleRequest::Board(VehicleKind::Plane) <==> v is None,
        toggled(v) == VehicleRequest::Board(VehicleKind::Ship) <==> v == Some(VehicleKind::Plane),
{
}

/// A hold lasts from its first frame on and ends before its last, if it has one.
pub proof fn lemma_holds_end(from: u64, to: u64, frame: u64)
    ensures
        holding((from, None), frame) <==> from <= frame,
        holding((from, Some(to)), frame) <==> from <= frame < to,
{
}

/// A frame's taps are those scripted for it.
pub proof fn lemma_taps_come_at_their_frame(taps: Seq<(u64, ChordDir)>, frame: int, d: ChordDir)
    ensures
        tapped_at(taps, frame).contains(d) <==> exists|i: int|
            0 <= i < taps.len() && (#[trigger] taps[i]).0 == frame && taps[i].1 == d,
        tapped_at(taps, frame).len() <= taps.len(),
    decreases taps.len(),
{
    let t = tapped_at(taps, frame);
    if taps.len() > 0 {
        let e = taps.drop_last();
        let n = taps.len() - 1;
        lemma_taps_come_at_their_frame(e, frame, d);
        let te = tapped_at(e, frame);
        if te.contains(d) {
            let i = choose|i: int| 0 <= i < e.len() && (#[trigger] e[i]).0 == frame && e[i].1 == d;
            assert(taps[i] == e[i]);
            let k = choose|k: int| 0 <= k < te.len() && te[k] == d;
            assert(t[k] == d);
        }
        if taps[n].0 == frame && taps[n].1 == d {
            assert(t[t.len() - 1] == d);
        }
        if t.contains(d) && !te.contains(d) {
            let k = choose|k: int| 0 <= k < t.len() && t[k] == d;
            if k < te.len() {
                assert(te[k] == d);
            }
            assert(taps[n].0 == frame && taps[n].1 == d);
        }
        if exists|i: int| 0 <= i < taps.len() && (#[trigger] taps[i]).0 == frame && taps[i].1 == d {
            let i = choose|i: int|
                0 <= i < taps.len() && (#[trigger] taps[i]).0 == frame && taps[i].1 == d;
            if i < n {
                assert(e[i] == taps[i]);
            }
        }
    }
}

/// Without an animation one shot is taken. With one, a shot is taken as it settles and every
/// so many frames after, numbered from nothing, and the last is the one that makes up the
/// count.
pub proof fn lemma_shots_come_evenly(c: ScreenshotConfig, count: u32, every: u32, k: u32)
    requires
        c.anim == Some((count, every)),
        every > 0,
        c.settle + k * every <= u32::MAX,
    ensures
        capture_step(c, (c.settle + k * every) as u32) == (CaptureStep::Shot {
            shot: k,
            last: k + 1 >= count,
        }),
        capture_step(ScreenshotConfig { anim: None, ..c }, k) is Single,
{
    let e = every as int;
    vstd::arithmetic::div_mod::lemma_mod_multiples_basic(k as int, e);
    vstd::arithmetic::div_mod::lemma_div_by_multiple(k as int, e);
    assert(k * e >= 0) by (nonlinear_arith)
        requires
            e > 0,
            k >= 0,
    ;
}

/// A picture by the sticks takes both of them down and one of them just now; which of them it
/// was does not matter.
pub proof fn lemma_both_sticks_take_a_picture(p: StickClicks)
    requires
        p.left_fresh ==> p.left,
        p.right_fresh ==> p.right,
    ensures
        both_clicked(p) ==> p.left && p.right,
        both_clicked(p) ==> p.left_fresh || p.right_fresh,
        p.left && p.right && (p.left_fresh || p.right_fresh) ==> both_clicked(p),
        both_clicked(p) == both_clicked(
            StickClicks {
                left: p.right,
                right: p.left,
                left_fresh: p.right_fresh,
                right_fresh: p.left_fresh,
            },
        ),
{
}

} // verus!
