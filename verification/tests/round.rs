//! The client's round: what is driven, adopted, armed and told.

use net::client::{PilotIntent, TickMsg, VehicleKind};
use net::player_map::PlayerMap;
use net::render::app::{
    arm_round, check_armable, seed_round_crabs, AppPhase, ReadyMatch, SyncVerdict,
};
use net::render::articulation::{
    capture, own_wire_pose, part_tag, remote_vehicles, Adopted, BodyPart, CrabArticulation,
    RemoteVehicle, VehiclePoseWire,
};
use net::render::brain_swap::{swap_brain, BrainSwap};
use net::render::driver::{
    adopt_tick, drive_pack, end_round_server_down, host_tick, jitter_take, pilot_commands, AdoptBuffers,
    DecisionLatch, FlightControl, GcrContext, LocalControl, LocalVehicle, PendingTaps,
    PlaneControl, RescueStats, RoundEnd, ShipControl, StatusLog, TickSampler, VehicleRequest,
    JITTER_BUF_MAX, JITTER_BUF_TARGET,
};
use net::render::hud::{status_str, update_hud};
use net::render::part_windows::PartWindows;
use net::render::pose::{Pose, PoseWindow};
use net::render::run_game::{
    binding_context, boot_lobby, boot_menu, checkpoint_error, crab_bindings, solo_round,
    CheckpointUnusable, MatchResult,
};
use net::render::scene::{
    avatar_hidden, camera_source, crab_dressing, reconcile_avatars, CameraSource,
};
use net::render::vehicle_view::{reconcile_vehicle_models, Craft};
use net::server::Server;
use net::sim::buttons;
use net::sim::spawn::{lay_out, SpawnFrame};
use net::sim::trig::{wrap_turns, TURN};
use net::sim::world::{CRAB_BASE_X, CRAB_BASE_Z, CRAB_STAGGER};
use net::sim::{
    CrabPose, Externals, Input, Outcome, Player, PlayerId, PlayerStatus, Pos, Sim,
};
use net::snapshot::CoreSnapshot;

/// Sticks and buttons, quantized as a client quantizes them.
fn axes(strafe: f32, forward: f32, look_yaw: f32, buttons: u8) -> Input {
    let q = |v: f32| (v.clamp(-1.0, 1.0) * Input::AXIS_SCALE as f32).round() as i16;
    Input {
        move_strafe: q(strafe),
        move_forward: q(forward),
        look_yaw: q(look_yaw),
        buttons,
    }
}

fn bits3(v: [f32; 3]) -> [u32; 3] {
    [v[0].to_bits(), v[1].to_bits(), v[2].to_bits()]
}

fn bits4(v: [f32; 4]) -> [u32; 4] {
    [v[0].to_bits(), v[1].to_bits(), v[2].to_bits(), v[3].to_bits()]
}

fn wire(pilot: u8, kind: VehicleKind, pos: [f32; 3], rot: [f32; 4]) -> VehiclePoseWire {
    VehiclePoseWire { pilot, kind, pos: bits3(pos), rot: bits4(rot) }
}

fn ids(n: u8) -> Vec<PlayerId> {
    (0..n).map(PlayerId).collect()
}

fn intent(kind: VehicleKind) -> PilotIntent {
    PilotIntent {
        kind,
        throttle_trim: 0,
        thrust: [0; 3],
        pitch: 0,
        roll: 0,
        yaw: 0,
        match_velocity: false,
    }
}

fn snap_at(tick: u64) -> CoreSnapshot {
    let mut s = Sim::new(1, &ids(1)).core_snapshot();
    s.tick = tick;
    s
}

fn art_at(tick: u64) -> CrabArticulation {
    CrabArticulation { tick, crabs: Vec::new(), arena_anchor: [0; 3], vehicles: Vec::new() }
}

fn with_status(sim: &mut Sim, id: PlayerId, status: PlayerStatus) {
    let mut snap = sim.core_snapshot();
    let p = *snap.players.get(id).unwrap();
    snap.players.insert(id, Player::from_parts(p.pos(), p.yaw(), status));
    sim.apply_core_snapshot(snap);
}

#[test]
fn piloting_feeds_the_sim_a_neutral_foot_input_except_restart() {
    let walk = axes(0.5, -0.5, 0.25, buttons::ACTION);
    assert_eq!(
        LocalControl::OnFoot(walk).sim_input(),
        walk,
        "on foot the real walker input drives the sim unchanged"
    );
    let flying = |foot| LocalControl::Piloting {
        control: FlightControl::Plane(PlaneControl {
            throttle_trim: 1.0f32.to_bits(),
            pitch: 1.0f32.to_bits(),
            roll: (-1.0f32).to_bits(),
            yaw: 1.0f32.to_bits(),
        }),
        foot,
    };
    assert_eq!(
        flying(walk).sim_input(),
        Input::default(),
        "piloting: walk axes and ACTION never reach the sim, nor any flight axis"
    );
    assert_eq!(
        flying(axes(1.0, 0.0, 0.0, buttons::RESTART | buttons::ACTION)).sim_input(),
        axes(0.0, 0.0, 0.0, buttons::RESTART),
        "RESTART alone rides along"
    );
}

#[test]
fn own_wire_pose_picks_exactly_our_pilots_craft() {
    let art = CrabArticulation {
        tick: 7,
        crabs: Vec::new(),
        arena_anchor: [0; 3],
        vehicles: vec![
            wire(0, VehicleKind::Plane, [1.0, 2.0, 3.0], [0.0, 0.0, 0.0, 1.0]),
            wire(2, VehicleKind::Ship, [9.0, 8.0, 7.0], [0.0, 1.0, 0.0, 0.0]),
        ],
    };
    let (pos, orient) = own_wire_pose(&art, 2).expect("our craft is on the wire");
    assert_eq!(pos, bits3([9.0, 8.0, 7.0]));
    assert_eq!(orient, bits4([0.0, 1.0, 0.0, 0.0]));
    assert!(own_wire_pose(&art, 1).is_none(), "no craft on the wire: the camera holds off");
}

#[test]
fn jitter_take_paces_one_and_catches_down() {
    assert_eq!(jitter_take(0), 0, "empty: hold last state");
    for buffered in 1..=JITTER_BUF_MAX {
        assert_eq!(jitter_take(buffered), 1, "in-margin: even pacing");
    }
    assert_eq!(
        jitter_take(JITTER_BUF_MAX + 1),
        JITTER_BUF_MAX + 1 - JITTER_BUF_TARGET,
        "past the margin: drain to the target in one tick"
    );
    assert_eq!(jitter_take(10), 10 - JITTER_BUF_TARGET);
}

#[test]
fn unarmable_round_refuses_with_actionable_message_not_a_crash() {
    let synced = |assets, crabs| Some(SyncVerdict { assets, crabs });
    assert!(
        check_armable(None).is_ok(),
        "solo (no net, no formation verdict) always arms"
    );
    assert!(
        check_armable(synced(true, true)).is_ok(),
        "a networked round with synced assets + crab count arms"
    );
    let count = check_armable(synced(true, false))
        .expect_err("a count-mismatched networked round must refuse, not arm the wrong crabs");
    assert!(
        count.contains("crab count") || count.contains("NN-crab count"),
        "names the count cause: {count}"
    );
    assert!(count.contains("binding list"), "tells the operator the fix: {count}");
    let colliders = check_armable(synced(false, true))
        .expect_err("an unsynced-assets networked round must refuse, not arm a fake crab");
    assert!(colliders.contains("sally.glb"), "names the collider mismatch: {colliders}");
    assert!(colliders.contains("rl-update"), "tells the operator how to fix it: {colliders}");
    assert!(colliders.contains("refusing"), "the round REFUSES: {colliders}");
}

#[test]
fn full_look_axis_turns_one_tick_cap() {
    let mut sim = Sim::new(0, &[PlayerId(0)]);
    let before = sim.player(PlayerId(0)).unwrap().yaw();
    let mut inputs = PlayerMap::new();
    inputs.insert(PlayerId(0), axes(0.0, 0.0, 1.0, 0));
    let poses: Vec<CrabPose> = sim
        .crabs()
        .iter()
        .map(|c| CrabPose { pos: c.pos(), yaw: c.yaw(), claws: Vec::new() })
        .collect();
    sim.step(&inputs, Externals::crabs_only(&poses));
    let after = sim.player(PlayerId(0)).unwrap().yaw();
    let cap = TURN / 24;
    assert_eq!(
        wrap_turns(after - before),
        cap,
        "full look axis should turn exactly the sim's per-tick cap"
    );
}

#[test]
fn move_and_action_map_to_input() {
    let i = axes(1.0, 1.0, 0.0, buttons::ACTION);
    assert_eq!(i.move_strafe, Input::AXIS_SCALE, "full right is +AXIS_SCALE");
    assert_eq!(i.move_forward, Input::AXIS_SCALE, "full forward is +AXIS_SCALE");
    assert!(i.pressed(buttons::ACTION), "action bit set when pressed");
    let n = axes(0.0, 0.0, 0.0, 0);
    assert!(!n.pressed(buttons::ACTION), "no action bit when unpressed");
}

#[test]
fn teleport_resets_the_window_instead_of_smearing() {
    let at = |x: f32| Pose { pos: bits3([x, 0.0, 0.0]), orient: bits4([0.0, 0.0, 0.0, 1.0]) };
    let mut w = PoseWindow::new();
    for tick in 1..=3u64 {
        w.push(tick, at(tick as f32 * 0.1), false);
    }
    assert!(w.full().is_some());
    w.push(4, at(100.0), true);
    assert!(w.full().is_none(), "the window must restart at the arrival pose");
    assert_eq!(f32::from_bits(w.newest().unwrap().pos[0]), 100.0);
}

#[test]
fn spawns_tracks_and_despawns_remote_craft_models() {
    let craft = |pilot, kind| Craft { pilot, kind };
    let plan = reconcile_vehicle_models(&vec![], &vec![craft(1, VehicleKind::Plane)]);
    assert_eq!(plan.spawn, vec![true], "one model per remote craft");
    assert!(plan.follow.is_empty());

    // The craft moves: the same model follows.
    let have = vec![craft(1, VehicleKind::Plane)];
    let plan = reconcile_vehicle_models(&have, &vec![craft(1, VehicleKind::Plane)]);
    assert_eq!(plan.follow, vec![Some(0)]);
    assert_eq!(plan.spawn, vec![false]);

    // The pilot steps out: the model goes.
    let plan = reconcile_vehicle_models(&have, &vec![]);
    assert_eq!(plan.follow, vec![None], "step-out despawns the model");
    assert!(plan.spawn.is_empty());
}

#[test]
fn kind_cycle_swaps_the_model_in_one_pass() {
    let craft = |kind| Craft { pilot: 2, kind };
    let plan =
        reconcile_vehicle_models(&vec![craft(VehicleKind::Plane)], &vec![craft(VehicleKind::Ship)]);
    assert_eq!(plan.follow, vec![None], "the stale kind's model is gone");
    assert_eq!(plan.spawn, vec![true]);
}

#[test]
fn remote_crafts_follow_the_wire() {
    let at = |kind, x| wire(1, kind, [x, 0.0, 0.0], [0.0, 0.0, 0.0, 1.0]);
    let mut rv = RemoteVehicle::new();
    assert_eq!(rv.adopt(&vec![at(VehicleKind::Plane, 1.0)]), vec![true]);
    assert_eq!(rv.adopt(&vec![at(VehicleKind::Plane, 2.0)]), vec![false]);
    assert!(rv.contains(PlayerId(1)) && !rv.contains(PlayerId(2)));
    assert_eq!(rv.adopt(&vec![at(VehicleKind::Ship, 10.0)]), vec![true], "a swap starts anew");
    assert_eq!(rv.kind(PlayerId(1)), Some(VehicleKind::Ship));
    rv.adopt(&vec![]);
    assert!(!rv.contains(PlayerId(1)));
    let all = vec![
        wire(0, VehicleKind::Plane, [0.0; 3], [0.0; 4]),
        wire(7, VehicleKind::Ship, [1.0; 3], [0.0; 4]),
    ];
    assert_eq!(remote_vehicles(&all, 7), vec![all[0]], "our own craft is the cockpit");
}

#[test]
fn capture_orders_parts_and_adopt_takes_labels_and_shifts() {
    let part = |env, joint, x: f32| BodyPart {
        env,
        carapace: joint == None,
        joint,
        pos: bits3([x, 0.0, 0.0]),
        rot: bits4([0.0, 0.0, 0.0, 1.0]),
    };
    let parts = vec![
        part(1, Some(4), 4.0),
        part(0, Some(3), 3.0),
        part(0, None, 1.0),
        part(1, None, 2.0),
    ];
    let labels = vec![String::from("mlp512x3 @cafef00d"), String::from("REFUSED: wrong rig")];
    let shift = bits3([10.0, 0.0, -20.0]);
    let (art, _) = capture(42, &parts, &vec![(0, shift)], &labels, &vec![], bits3([3.5, 0.0, -7.25]));
    assert_eq!(art.tick, 42);
    assert_eq!(art.crabs.len(), 2, "one frame per crab");
    let tags: Vec<u8> = art.crabs[0].parts.iter().map(|p| p.part).collect();
    assert_eq!(tags, vec![part_tag(true, None).unwrap(), part_tag(false, Some(3)).unwrap()]);
    assert_eq!(art.crabs[0].repose, Some(shift));
    assert_eq!(art.crabs[1].repose, None);

    let mut adopted = Adopted { reposes: Vec::new(), arena_anchor: [0; 3], labels: Vec::new() };
    adopted.adopt(&art);
    assert_eq!(adopted.reposes, vec![Some(shift), None]);
    assert_eq!(adopted.labels, labels);
    assert_eq!(adopted.arena_anchor, bits3([3.5, 0.0, -7.25]));

    let mut windows = PartWindows::new();
    assert!(windows.window(0, 0).is_none());
    let flags = vec![vec![false; 2], vec![false; 2]];
    windows.adopt(&art, &flags);
    let at = |x: f32| Pose { pos: bits3([x, 0.0, 0.0]), orient: bits4([0.0, 0.0, 0.0, 1.0]) };
    let newest = |w: &PartWindows, env, tag| w.window(env, tag).unwrap().newest();
    assert_eq!(newest(&windows, 0, 0), Some(at(1.0)));
    assert_eq!(newest(&windows, 0, 4), Some(at(3.0)));
    assert_eq!(newest(&windows, 1, 5), Some(at(4.0)));
    assert_eq!(newest(&windows, 1, 4), None, "a part that is not named keeps its window");
    for tick in 43..45 {
        windows.adopt(&CrabArticulation { tick, ..art.clone() }, &flags);
    }
    assert!(windows.window(0, 0).unwrap().full().is_some(), "every tick feeds every part");
    let one = CrabArticulation { tick: 45, crabs: art.crabs[..1].to_vec(), ..art.clone() };
    windows.adopt(&one, &vec![vec![true, false]]);
    assert!(windows.window(1, 0).is_none(), "a crab that is gone is forgotten");
    assert!(windows.window(0, 0).unwrap().full().is_none(), "a jump starts over");
    assert!(windows.window(0, 4).unwrap().full().is_some());
}

#[test]
fn ready_matches_arm_or_say_why() {
    let ready = |sync| ReadyMatch { me: PlayerId(0), sim: Sim::new(3, &ids(1)), sync };
    let armed = arm_round(ready(None)).expect("solo arms").into_ready();
    assert_eq!(armed.me, PlayerId(0));
    assert_eq!(
        arm_round(ready(Some(SyncVerdict { assets: false, crabs: true }))).err(),
        check_armable(Some(SyncVerdict { assets: false, crabs: true })).err()
    );
    assert_eq!(AppPhase::default(), AppPhase::Menu);
    let mut sim = Sim::new(3, &ids(1));
    let spots = seed_round_crabs(&mut sim, 2).expect("two crabs settle");
    assert_eq!(spots.len(), 2);
    assert_eq!(spots[1], sim.crabs()[1].pos());
}

#[test]
fn a_million_crabs_and_more_are_laid_out() {
    let frame = SpawnFrame { origin: Pos { x: 7, z: -9 }, rot: 0 };
    let n = (1usize << 20) + 1;
    let l = lay_out(frame, &ids(1), &vec![0; n]).expect("a party of one settles");
    assert_eq!(l.crabs.len(), n);
    assert_eq!(
        l.crabs[n - 1].pos(),
        Pos {
            x: 7 + CRAB_BASE_X + (n as i64 - 1) * CRAB_STAGGER,
            z: -9 + CRAB_BASE_Z
        }
    );
}

#[test]
fn boots_lead_where_they_say() {
    match boot_menu(9, Some([7; 32])) {
        net::render::app::Boot::Menu { seed, telemetry } => {
            assert_eq!((seed, telemetry), (9, Some([7; 32])));
        }
        other => panic!("{other:?}"),
    }
    let solo = solo_round(5).expect("one player settles");
    assert_eq!(solo.sync, None);
    assert_eq!(solo.sim.state_hash(), Sim::new(5, &[solo.me]).state_hash());
    match boot_lobby(MatchResult::Alone, 5).expect("alone plays solo") {
        net::render::app::Boot::Round(r) => assert_eq!(r.sim.state_hash(), solo.sim.state_hash()),
        other => panic!("{other:?}"),
    }
}

#[test]
fn unusable_brains_are_explained() {
    let e = checkpoint_error(&CheckpointUnusable::Mismatch { obs: 3, action: 4 }, "/x", 5, 6);
    assert!(e.contains("/x") && e.contains("3 obs / 4 act") && e.contains("5 obs / 6 act"), "{e}");
    let m = checkpoint_error(&CheckpointUnusable::Missing, "/y", 1, 1);
    assert!(m.contains("/y") && m.contains("RL_CRAB_CHECKPOINT_DIR"), "{m}");
    let r = checkpoint_error(&CheckpointUnusable::Refused(String::from("bad sum")), "/z", 1, 1);
    assert!(r.contains("REFUSED") && r.contains("bad sum"), "{r}");
    let p = checkpoint_error(&CheckpointUnusable::Plant(String::from("gravity")), "/w", 1, 1);
    assert!(p.contains("gravity"), "{p}");
    assert_eq!(crab_bindings(vec![]), vec![None]);
    assert_eq!(
        crab_bindings(vec![String::from("a"), String::from("b")]),
        vec![Some(String::from("a")), Some(String::from("b"))]
    );
    assert!(binding_context(2).starts_with("crab 2's"));
}

#[test]
fn local_craft_follows_requests() {
    let mut v = LocalVehicle::OnFoot;
    let board = |k| Some(VehicleRequest::Board(k));
    assert!(!v.apply_vehicle_request(board(VehicleKind::Plane), false), "boarding is gated");
    assert!(v.apply_vehicle_request(board(VehicleKind::Plane), true));
    assert_eq!((v.kind(), v.context()), (Some(VehicleKind::Plane), GcrContext::Plane));
    assert!(v.apply_vehicle_request(board(VehicleKind::Ship), false), "aloft, a swap is free");
    assert_eq!(v.context(), GcrContext::Ship);
    assert!(!v.apply_vehicle_request(None, true));
    assert!(v.apply_vehicle_request(Some(VehicleRequest::Exit), false));
    assert_eq!((v.kind(), v.context()), (None, GcrContext::OnFoot));
}

#[test]
fn pilot_intents_carry_the_controls() {
    let ship = LocalControl::Piloting {
        control: FlightControl::Ship(ShipControl {
            thrust: [1, 2, 3],
            pitch: 4,
            roll: 5,
            yaw: 6,
            match_velocity: true,
        }),
        foot: Input::default(),
    };
    let i = ship.pilot_intent().expect("a pilot has an intent");
    assert_eq!(
        (i.kind, i.thrust, i.pitch, i.roll, i.yaw, i.match_velocity),
        (VehicleKind::Ship, [1, 2, 3], 4, 5, 6, true)
    );
    assert_eq!(LocalControl::OnFoot(Input::default()).pilot_intent(), None);
}

#[test]
fn taps_are_kept_until_a_tick_takes_them() {
    let mut taps = PendingTaps { action: true, restart: true };
    assert_eq!(taps.drain(), buttons::ACTION | buttons::RESTART);
    assert_eq!(taps.drain(), 0);
}

#[test]
fn snapshots_are_released_evenly_and_in_order() {
    let mut b = AdoptBuffers::new();
    assert!(b.release().is_empty());
    assert!(b.stalled());
    b.receive((1..=2).map(snap_at).collect(), vec![]);
    let ticks = |v: Vec<CoreSnapshot>| v.iter().map(|s| s.tick).collect::<Vec<_>>();
    assert_eq!(ticks(b.release()), vec![1]);
    assert!(!b.stalled());
    b.receive((3..=7).map(snap_at).collect(), vec![]);
    assert_eq!(ticks(b.release()), vec![2, 3, 4, 5, 6], "a burst drains to the target");
    assert_eq!(ticks(b.release()), vec![7]);
}

#[test]
fn the_articulation_of_the_adopted_tick_is_due() {
    let mut b = AdoptBuffers::new();
    b.receive(vec![], (1..=4).map(art_at).collect());
    assert_eq!(b.due_articulation(2).map(|a| a.tick), Some(2), "the newest not ahead");
    assert_eq!(b.due_articulation(2), None, "each is taken once");
    assert_eq!(b.due_articulation(9).map(|a| a.tick), Some(4));
}

#[test]
fn a_tick_adopts_what_was_released_and_its_poses() {
    let mut sim = Sim::new(1, &ids(1));
    let mut latch = DecisionLatch { reported: true };
    let mut b = AdoptBuffers::new();
    let stalled = adopt_tick(&mut sim, &mut latch, &mut b, vec![], vec![art_at(1)]);
    assert!(!stalled.adopted && b.stalled());
    assert_eq!(stalled.articulation, None, "poses wait for their tick");
    assert_eq!((sim.tick(), latch.reported), (0, true));
    let a = adopt_tick(&mut sim, &mut latch, &mut b, vec![snap_at(1), snap_at(2)], vec![art_at(2)]);
    assert!(a.adopted && !b.stalled());
    assert_eq!(sim.tick(), 1);
    assert_eq!(a.articulation.map(|x| x.tick), Some(1));
    assert!(!latch.reported, "a live tick is to be reported anew");
    let a = adopt_tick(&mut sim, &mut latch, &mut b, vec![], vec![]);
    assert_eq!((sim.tick(), a.articulation.map(|x| x.tick)), (2, Some(2)));
}

#[test]
fn a_decision_is_told_once_a_round() {
    let mut l = DecisionLatch { reported: false };
    assert!(!l.decide(Outcome::Ongoing));
    assert!(l.decide(Outcome::Wiped));
    assert!(!l.decide(Outcome::Wiped));
    l.saw(Outcome::Ongoing);
    assert!(l.decide(Outcome::Extracted));
}

#[test]
fn a_host_tick_ships_what_it_adopts() {
    let mut server = Server::new(PlayerId(0), &ids(2), Sim::new(8, &ids(2)));
    let mut latch = DecisionLatch { reported: false };
    assert!(host_tick(&mut server, &mut latch, &[], PlayerMap::new()).is_none(), "nothing ready");
    let msg = |t, b| TickMsg { issue_tick: t, input: axes(0.0, 1.0, 0.0, b), pilot: None };
    server.advance(msg(0, 0));
    let t = host_tick(&mut server, &mut latch, &[], PlayerMap::new()).expect("a tick is ready");
    assert_eq!(CoreSnapshot::from_bytes(&t.bytes).unwrap(), t.snapshot);
    assert_eq!(t.snapshot.tick, 1);
    assert_eq!(t.spawns, None);
    server.advance(msg(1, buttons::RESTART));
    let t = host_tick(&mut server, &mut latch, &[], PlayerMap::new()).expect("a tick is ready");
    let spots: Vec<Pos> = server.sim().crabs().iter().map(|c| c.pos()).collect();
    assert_eq!(t.spawns, Some(spots), "a restart says where the crabs start");
}

#[test]
fn pilots_are_matched_with_where_they_were() {
    let mut server = Server::new(PlayerId(0), &ids(2), Sim::new(8, &ids(2)));
    let mut before = PlayerMap::new();
    for (id, p) in server.sim().players() {
        before.insert(id, p);
    }
    assert!(pilot_commands(&server, &before).is_empty());
    server.file_intent(PlayerId(1), Some(intent(VehicleKind::Ship)));
    let v = pilot_commands(&server, &before);
    assert_eq!(v.len(), 1);
    assert_eq!((v[0].pilot, v[0].intent.kind), (PlayerId(1), VehicleKind::Ship));
    assert_eq!(v[0].now, v[0].prev);
}

#[test]
fn the_pack_is_driven_but_for_the_host() {
    let mut server = Server::new(PlayerId(0), &ids(3), Sim::new(8, &ids(3)));
    let bot = axes(0.0, 1.0, 0.0, 0);
    drive_pack(&mut server, PlayerId(0), 0, bot);
    assert!(server.queued(PlayerId(0)).is_empty());
    for p in [PlayerId(1), PlayerId(2)] {
        let q = server.queued(p);
        assert_eq!(q.len(), 1);
        assert_eq!((q[0].issue_tick, q[0].input, q[0].pilot), (0, bot, None));
    }
}

#[test]
fn samples_come_at_their_cadence() {
    let mut s = TickSampler { next: 0 };
    let due: Vec<u64> = (0..100).filter(|t| s.due(*t)).collect();
    assert_eq!(due, vec![0, 30, 60, 90]);
}

#[test]
fn rescues_are_reported_and_counted_anew() {
    let mut s = RescueStats {
        since_nonfinite: 2,
        since_below_terrain: 0,
        since_buried: 0,
        last_body: Some(String::from("carapace")),
    };
    let v = s.drain();
    assert_eq!(v.len(), 1);
    assert!(v[0].starts_with("crab rescue: 2 non-finite") && v[0].contains("carapace"));
    assert!(s.drain().is_empty());
    s.since_below_terrain = 1;
    s.since_buried = 3;
    let v = s.drain();
    assert_eq!(v.len(), 2);
    assert!(v[0].contains("1 below-terrain") && !v[0].contains("carapace"));
    assert!(v[1].contains("3 buried-carapace"));
}

#[test]
fn status_edges_are_told_once() {
    let mut sim = Sim::new(4, &ids(2));
    let mut log = StatusLog::new();
    assert!(log.look(&sim).is_empty(), "where everybody starts is no edge");
    with_status(&mut sim, PlayerId(1), PlayerStatus::Downed);
    let v = log.look(&sim);
    assert_eq!(v.len(), 1);
    assert_eq!(
        (v[0].pid, v[0].from, v[0].to),
        (PlayerId(1), PlayerStatus::Alive, PlayerStatus::Downed)
    );
    assert!(log.look(&sim).is_empty());
}

#[test]
fn a_lost_host_ends_the_round() {
    let (fault, end) = end_round_server_down(String::from("gone"), [1; 32], true);
    assert!(fault.ends_with("gone"));
    match end {
        RoundEnd::Menu { message, host } => assert_eq!((message.as_str(), host), ("gone", [1; 32])),
        RoundEnd::Exit => panic!("there is a menu"),
    }
    let (_, end) = end_round_server_down(String::from("gone"), [1; 32], false);
    assert!(matches!(end, RoundEnd::Exit));
}

#[test]
fn the_status_line_names_everybody() {
    let mut sim = Sim::new(4, &ids(2));
    assert_eq!(status_str(PlayerStatus::Downed), "DOWNED");
    let line = update_hud(&sim, PlayerId(0));
    assert!(line.starts_with("You: ALIVE"));
    assert!(line.ends_with("\nParty: P1: ALIVE"), "{line}");
    with_status(&mut sim, PlayerId(1), PlayerStatus::Extracted);
    assert!(update_hud(&sim, PlayerId(1)).starts_with("You: EXTRACTED"));
    let solo = Sim::new(4, &ids(1));
    assert!(!update_hud(&solo, PlayerId(0)).contains("Party"));
}

#[test]
fn brains_are_swapped_on_foot_by_the_host() {
    assert_eq!(swap_brain(GcrContext::OnFoot, true, true, false, true), BrainSwap::Cycle);
    assert_eq!(swap_brain(GcrContext::OnFoot, true, true, true, true), BrainSwap::NotHost);
    assert_eq!(swap_brain(GcrContext::Plane, true, true, false, true), BrainSwap::Ignored);
    assert_eq!(swap_brain(GcrContext::OnFoot, true, true, false, false), BrainSwap::Ignored);
}

#[test]
fn avatars_follow_the_world() {
    let sim = Sim::new(4, &ids(2));
    let plan = reconcile_avatars(&vec![PlayerId(1), PlayerId(5)], &sim, PlayerId(0));
    assert_eq!(plan.despawn, vec![false, true]);
    assert_eq!(plan.spawn.len(), 1);
    assert_eq!((plan.spawn[0].id, plan.spawn[0].local), (PlayerId(0), true));
    assert!(avatar_hidden(PlayerId(0), PlayerId(0), PlayerStatus::Alive, false), "nobody sees themself");
    assert!(!avatar_hidden(PlayerId(1), PlayerId(0), PlayerStatus::Alive, false));
    assert!(avatar_hidden(PlayerId(1), PlayerId(0), PlayerStatus::Alive, true));
    assert_eq!(camera_source(true, Some(PlayerStatus::Alive)), CameraSource::Cockpit);
    assert_eq!(camera_source(false, Some(PlayerStatus::Alive)), CameraSource::Eyes);
    assert_eq!(camera_source(false, None), CameraSource::Hold);
}

#[test]
fn the_skin_stands_for_an_armed_crab() {
    for armed in [false, true] {
        for have_model in [false, true] {
            for windowed in [false, true] {
                let d = crab_dressing(armed, have_model, windowed);
                assert_eq!(d.silhouette_hidden, armed && have_model);
                assert_eq!(d.banner, armed && !have_model && windowed);
            }
        }
    }
    let told = crab_dressing(true, false, true);
    assert!(told.banner && !told.silhouette_hidden);
    let dressed = crab_dressing(true, true, true);
    assert!(!dressed.banner && dressed.silhouette_hidden);
}
