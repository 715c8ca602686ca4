//! The authoritative server, driven through its public operations.

use net::client::{PeerMsg, PilotIntent, TickMsg, VehicleKind};
use net::player_map::PlayerMap;
use net::server::admission::Refusal;
use net::server::starvation::{
    StarvationReport, STARVATION_REPORT_COOLDOWN, STARVATION_WINDOW,
};
use net::server::stream::{InputStream, TARGET_BACKLOG};
use net::server::{
    may_admit_joiner, AdmissionRefusal, CrabPose, JoinRequest, Server, JOIN_LEAD,
};
use net::sim::buttons;
use net::sim::world::{SPAWN_SLOT_PITCH, STRIDE};
use net::sim::{Externals, Input, Player, PlayerId, PlayerStatus, Pos, Sim};
use net::snapshot::CoreSnapshot;

/// Sticks and buttons, quantized as a client quantizes them.
fn axes(strafe: f32, forward: f32, look_yaw: f32, buttons: u8) -> Input {
    let q = |v: f32| (v.clamp(-1.0, 1.0) * Input::AXIS_SCALE as f32).round() as i16;
    Input {
        move_strafe: q(strafe),
        move_forward: q(forward),
        look_yaw: q(look_yaw),
        buttons,
    }
}

fn walk(strafe: f32, forward: f32) -> Input {
    axes(strafe, forward, 0.0, 0)
}

fn ids(n: u8) -> Vec<PlayerId> {
    (0..n).map(PlayerId).collect()
}

fn srv(seed: u64, roster: &[PlayerId]) -> Server {
    Server::new(PlayerId(0), roster, Sim::new(seed, roster))
}

fn input(s: f32) -> Input {
    walk(s, 0.0)
}

fn tickmsg(issue_tick: u64, s: f32) -> TickMsg {
    TickMsg {
        issue_tick,
        input: input(s),
        pilot: None,
    }
}

fn intent(kind: VehicleKind) -> PilotIntent {
    PilotIntent {
        kind,
        throttle_trim: 0,
        thrust: [0; 3],
        pitch: 0,
        roll: 0,
        yaw: 0,
        match_velocity: false,
    }
}

#[test]
fn pilot_intents_follow_latest_message_and_roster() {
    let p1 = PlayerId(1);
    let mut s = srv(42, &ids(2));

    s.record_remote(
        p1,
        TickMsg {
            pilot: Some(intent(VehicleKind::Plane)),
            ..tickmsg(0, 0.0)
        },
    );
    assert_eq!(s.pilot_intents().get(p1).unwrap().kind, VehicleKind::Plane);
    s.record_remote(p1, tickmsg(0, 0.0));
    assert_eq!(
        s.pilot_intents().get(p1).unwrap().kind,
        VehicleKind::Plane,
        "a stale duplicate is rejected by the stream and must not clear the intent"
    );

    s.record_remote(
        p1,
        TickMsg {
            pilot: Some(intent(VehicleKind::Ship)),
            ..tickmsg(1, 0.0)
        },
    );
    assert_eq!(s.pilot_intents().get(p1).unwrap().kind, VehicleKind::Ship);
    s.record_remote(p1, tickmsg(2, 0.0));
    assert!(
        !s.pilot_intents().contains_key(p1),
        "pilot: None is on foot: the entry is removed, not zeroed"
    );

    s.advance(TickMsg {
        pilot: Some(intent(VehicleKind::Plane)),
        ..tickmsg(0, 0.0)
    });
    assert_eq!(s.pilot_intents().get(PlayerId(0)).unwrap().kind, VehicleKind::Plane);
    step_ready(&mut s);

    s.record_remote(
        p1,
        TickMsg {
            pilot: Some(intent(VehicleKind::Ship)),
            ..tickmsg(3, 0.0)
        },
    );
    assert!(s.pilot_intents().contains_key(p1));
    s.depart(p1);
    assert!(
        !s.pilot_intents().contains_key(p1),
        "departure drops the craft"
    );
    for t in 1..=4 {
        s.advance(tickmsg(t, 0.0));
        step_ready(&mut s);
    }
    let adm = s.admit_joiner();
    assert_eq!(adm.pid, p1, "the departed pid is reused");
    assert!(
        !s.pilot_intents().contains_key(p1),
        "the joiner reusing the pid starts intent-free"
    );
}

#[test]
fn boarding_is_gated_by_may_board_at_the_intent_insert() {
    let p1 = PlayerId(1);
    let mut sim = Sim::new(42, &ids(2));
    let mut snap = sim.core_snapshot();
    let p = snap.players.get(p1).copied().unwrap();
    snap.players.insert(
        p1,
        Player::from_parts(p.pos(), p.yaw(), PlayerStatus::Extracted),
    );
    sim.apply_core_snapshot(snap);
    let mut s = Server::new(PlayerId(0), &ids(2), sim);

    s.record_remote(
        p1,
        TickMsg {
            pilot: Some(intent(VehicleKind::Plane)),
            ..tickmsg(0, 0.0)
        },
    );
    assert!(
        !s.pilot_intents().contains_key(p1),
        "an extracted player's boarding intent is dropped, not parked"
    );

    s.file_intent(p1, Some(intent(VehicleKind::Plane)));
    assert!(
        !s.pilot_intents().contains_key(p1),
        "file_intent applies the same gate"
    );
    let mut snap = s.sim().core_snapshot();
    let p = snap.players.get(p1).copied().unwrap();
    snap.players.insert(
        p1,
        Player::from_parts(p.pos(), p.yaw(), PlayerStatus::Downed),
    );
    s.restore_world(snap);
    s.record_remote(
        p1,
        TickMsg {
            pilot: Some(intent(VehicleKind::Plane)),
            ..tickmsg(1, 0.0)
        },
    );
    assert!(
        s.pilot_intents().contains_key(p1),
        "downed means boards"
    );
    let mut snap = s.sim().core_snapshot();
    let p = snap.players.get(p1).copied().unwrap();
    snap.players.insert(
        p1,
        Player::from_parts(p.pos(), p.yaw(), PlayerStatus::Extracted),
    );
    s.restore_world(snap);
    s.record_remote(
        p1,
        TickMsg {
            pilot: Some(intent(VehicleKind::Ship)),
            ..tickmsg(2, 0.0)
        },
    );
    assert_eq!(
        s.pilot_intents().get(p1).unwrap().kind,
        VehicleKind::Ship,
        "extraction mid-flight does not eject: the flying pilot's intent still applies"
    );
}

#[test]
fn a_piloting_players_foot_input_is_neutralized_at_assembly() {
    let p1 = PlayerId(1);
    let mut s = srv(42, &ids(2));

    s.record_remote(
        p1,
        TickMsg {
            pilot: Some(intent(VehicleKind::Plane)),
            ..tickmsg(0, 1.0)
        },
    );
    s.advance(TickMsg {
        pilot: Some(intent(VehicleKind::Ship)),
        ..tickmsg(0, -1.0)
    });
    assert_eq!(
        s.assembled_input(p1).expect("advance assembled"),
        Input::default(),
        "the remote's walk axis is overridden while its intent is filed"
    );
    assert_eq!(
        s.assembled_input(PlayerId(0)).expect("advance assembled"),
        Input::default(),
        "the same rule covers the host's own seat"
    );
    step_ready(&mut s);

    s.advance(tickmsg(1, 0.0));
    assert_eq!(
        s.assembled_input(p1).expect("advance assembled"),
        Input::default(),
        "a starved HOLD never replays a walk input underneath the craft"
    );
    step_ready(&mut s);

    s.record_remote(p1, tickmsg(1, 1.0));
    s.advance(tickmsg(2, 0.5));
    assert_eq!(
        s.assembled_input(p1).expect("advance assembled"),
        input(1.0),
        "on foot again means input passes through"
    );
    assert_eq!(s.assembled_input(PlayerId(0)).expect("advance assembled"), input(0.5));
}

#[test]
fn a_piloting_players_restart_survives_the_assembly_mask() {
    let p1 = PlayerId(1);
    let mut s = srv(42, &ids(2));

    s.record_remote(
        p1,
        TickMsg {
            issue_tick: 0,
            input: axes(1.0, 1.0, 0.0, buttons::RESTART | buttons::ACTION),
            pilot: Some(intent(VehicleKind::Plane)),
        },
    );
    s.advance(TickMsg {
        pilot: Some(intent(VehicleKind::Ship)),
        ..tickmsg(0, -1.0)
    });
    assert_eq!(
        s.assembled_input(p1).expect("advance assembled"),
        axes(0.0, 0.0, 0.0, buttons::RESTART),
        "walk axes and ACTION are masked; RESTART passes"
    );
    assert!(
        s.step_next(&[], PlayerMap::new()).restarted,
        "the piloting player's RESTART press restarts the round"
    );
}

fn step_ready(s: &mut Server) -> Vec<CoreSnapshot> {
    let mut out = Vec::new();
    while s.next_tick_ready() {
        let bytes = s.step_next(&[], PlayerMap::new()).snapshot;
        out.push(CoreSnapshot::from_bytes(&bytes).expect("snapshot decodes"));
    }
    out
}

#[test]
fn solo_advances_one_tick_per_input() {
    let mut s = srv(42, &ids(1));
    for t in 0..5 {
        s.advance(tickmsg(t, 1.0));
        let snaps = step_ready(&mut s);
        assert_eq!(snaps.len(), 1, "each host input steps exactly one tick");
        assert_eq!(snaps[0].tick, t + 1);
        assert_eq!(
            snaps[0].input_next.get(PlayerId(0)).copied().unwrap(),
            t + 1,
            "the host's own watermark tracks its issue cursor"
        );
    }
}

#[test]
fn host_never_waits_on_a_remote() {
    let mut s = srv(42, &ids(2));
    let spawn = s.sim().player(PlayerId(1)).expect("rostered").pos();
    for t in 0..10 {
        s.advance(tickmsg(t, 1.0));
        assert!(s.next_tick_ready(), "tick {t} steps with no remote input");
        let _ = s.step_next(&[], PlayerMap::new());
    }
    assert_eq!(s.sim().tick(), 10, "the match ran at host pace");
    assert_eq!(
        s.sim().player(PlayerId(1)).expect("rostered").pos(),
        spawn,
        "the silent remote held neutral: it never moved"
    );
}

#[test]
fn remote_inputs_consume_in_order_one_per_tick() {
    let mut s = srv(42, &ids(2));
    s.record_remote(PlayerId(1), tickmsg(0, 1.0));
    for t in 0..4u64 {
        s.record_remote(PlayerId(1), tickmsg(t + 1, 1.0));
        s.advance(tickmsg(t, 0.0));
        let snaps = step_ready(&mut s);
        assert_eq!(
            snaps[0].input_next.get(PlayerId(1)).copied().unwrap(),
            t + 1,
            "tick {t}: watermark advances one consumed input per tick"
        );
    }
    let mut s = srv(42, &ids(2));
    for i in 0..3 {
        s.record_remote(PlayerId(1), tickmsg(i, 1.0));
    }
    for (t, expect) in [(0, 2), (1, 3), (2, 3), (3, 3)] {
        s.advance(tickmsg(t, 0.0));
        let snaps = step_ready(&mut s);
        assert_eq!(
            snaps[0].input_next.get(PlayerId(1)).copied().unwrap(),
            expect,
            "tick {t}: the burst folds, then consumption parks at the newest issue"
        );
    }
    assert!(s.queued(PlayerId(1)).is_empty(), "the burst fully consumed");
}

fn run_with_sender(
    s: &mut Server,
    last: u64,
    send: impl Fn(u64) -> bool,
) -> Vec<StarvationReport> {
    let mut reports = Vec::new();
    let mut issue = 0u64;
    for t in 0..=last {
        if send(t) {
            s.record_remote(PlayerId(1), tickmsg(issue, 1.0));
            issue += 1;
        }
        s.advance(tickmsg(t, 0.0));
        let _ = s.step_next(&[], PlayerMap::new());
        reports.extend(s.take_starvation_reports());
    }
    reports
}

#[test]
fn silent_stream_reports_starvation_once_per_cooldown() {
    let mut s = srv(42, &ids(2));
    let reports = run_with_sender(
        &mut s,
        STARVATION_REPORT_COOLDOWN + STARVATION_WINDOW,
        |t| t == 0,
    );
    assert_eq!(
        reports.len(),
        2,
        "one report at the first window boundary, the next only after the cooldown: {reports:?}"
    );
    assert_eq!(
        (reports[0].pid, reports[0].tick, reports[0].starved),
        (PlayerId(1), STARVATION_WINDOW, STARVATION_WINDOW - 1),
        "first window: every fill after the one consumed input was a hold"
    );
    assert_eq!(
        (reports[1].pid, reports[1].tick, reports[1].starved),
        (
            PlayerId(1),
            STARVATION_WINDOW + STARVATION_REPORT_COOLDOWN,
            STARVATION_WINDOW
        ),
        "re-report exactly one cooldown after the first"
    );
}

#[test]
fn never_sending_player_reports_full_window_starvation() {
    let mut s = srv(42, &ids(2));
    let reports = run_with_sender(&mut s, STARVATION_WINDOW, |_| false);
    assert_eq!(reports.len(), 1, "one report at the boundary: {reports:?}");
    assert_eq!(
        (reports[0].pid, reports[0].starved),
        (PlayerId(1), STARVATION_WINDOW),
        "every fill of the window was the no-stream neutral"
    );
}

#[test]
fn chronic_half_rate_stream_reports_starvation() {
    let mut s = srv(42, &ids(2));
    let reports = run_with_sender(&mut s, STARVATION_WINDOW, |t| t % 2 == 0);
    assert_eq!(reports.len(), 1, "half-rate is chronic: {reports:?}");
    assert_eq!(
        reports[0].starved,
        STARVATION_WINDOW / 2,
        "every other fill was a hold"
    );
}

#[test]
fn healthy_stream_reports_no_starvation() {
    let mut s = srv(42, &ids(2));
    let reports = run_with_sender(&mut s, 2 * STARVATION_WINDOW, |_| true);
    assert!(
        reports.is_empty(),
        "full-rate stream is healthy: {reports:?}"
    );
}

#[test]
fn starved_stream_holds_axes_and_strips_edges() {
    let mut stream = InputStream::new();
    stream.record(TickMsg {
        issue_tick: 0,
        input: axes(0.5, 1.0, 0.7, buttons::ACTION),
        pilot: None,
    });
    let (consumed, starved) = stream.consume();
    assert_eq!(consumed, axes(0.5, 1.0, 0.7, buttons::ACTION));
    assert!(!starved, "a real consume is not starved");
    let (held, starved) = stream.consume();
    assert!(starved, "an empty queue is a starved hold");
    assert_eq!(
        held,
        axes(0.5, 1.0, 0.0, 0),
        "hold keeps move axes, zeroes look delta + buttons"
    );
    assert_eq!(stream.input_next(), 1, "a hold consumes nothing");
}

#[test]
fn hold_keeps_a_moving_remote_moving() {
    let mut s = srv(42, &ids(2));
    s.record_remote(PlayerId(1), tickmsg(0, 1.0));
    let mut positions = vec![s.sim().player(PlayerId(1)).expect("rostered").pos()];
    for t in 0..3 {
        s.advance(tickmsg(t, 0.0));
        let _ = s.step_next(&[], PlayerMap::new());
        positions.push(s.sim().player(PlayerId(1)).expect("rostered").pos());
    }
    let step0 = positions[1].x - positions[0].x;
    assert_ne!(step0, 0, "the consumed input moves the player");
    for w in positions.windows(2) {
        assert_eq!(
            w[1].x - w[0].x,
            step0,
            "each starved tick holds the same move axes: no freeze, no drift"
        );
    }
}

#[test]
fn backlog_folds_to_target_keeping_taps_and_look() {
    let mut stream = InputStream::new();
    let n = TARGET_BACKLOG as u64 + 3;
    for i in 0..n {
        let btns = if i == 0 { buttons::RESTART } else { 0 };
        stream.record(TickMsg {
            issue_tick: i,
            input: axes(0.0, 0.1, 0.1, btns),
            pilot: None,
        });
    }
    assert_eq!(
        stream.queued().len(),
        TARGET_BACKLOG,
        "a burst folds down to the target depth at record time"
    );
    let (consumed, _) = stream.consume();
    assert!(
        consumed.pressed(buttons::RESTART),
        "the folded oldest input's tap rode forward to the consumed input"
    );
    let folded = n as usize - TARGET_BACKLOG;
    assert_eq!(
        consumed.look_yaw,
        axes(0.0, 0.0, 0.1, 0).look_yaw * (folded + 1) as i16,
        "folded look deltas summed into the consumed input"
    );
    assert_eq!(
        stream.input_next(),
        n - 1,
        "consumption skipped to the fold survivor's issue"
    );
}

#[test]
fn stale_and_duplicate_remote_inputs_are_dropped() {
    let mut s = srv(42, &ids(2));
    s.record_remote(PlayerId(1), tickmsg(0, 1.0));
    s.record_remote(PlayerId(1), tickmsg(0, -1.0));
    s.record_remote(PlayerId(1), tickmsg(1, 0.5));
    assert_eq!(
        s.queued(PlayerId(1))
            .iter()
            .map(|m| m.issue_tick)
            .collect::<Vec<_>>(),
        vec![0, 1],
        "one entry per issue tick"
    );
    assert_eq!(
        s.queued(PlayerId(1))[0].input,
        input(1.0),
        "the FIRST delivery of an issue wins"
    );
}

#[test]
fn non_rostered_input_is_dropped() {
    let mut s = srv(42, &ids(1));
    s.record_remote(PlayerId(9), tickmsg(0, 1.0));
    assert!(s.queued(PlayerId(9)).is_empty(), "no stranger stream");
}

#[test]
fn departure_shrinks_the_roster_and_the_match_ticks_on() {
    let mut s = srv(42, &ids(2));
    s.record_remote(PlayerId(1), tickmsg(0, 1.0));
    s.advance(tickmsg(0, 1.0));
    let _ = step_ready(&mut s);
    s.record_remote(PlayerId(1), tickmsg(1, 1.0));
    s.depart(PlayerId(1));
    assert_eq!(s.roster(), &[PlayerId(0)], "the roster shrank");
    assert!(s.queued(PlayerId(1)).is_empty(), "the stream dropped");
    s.depart(PlayerId(1));
    s.depart(PlayerId(9));
    for t in 1..5 {
        s.advance(tickmsg(t, 1.0));
        let snaps = step_ready(&mut s);
        assert_eq!(snaps.len(), 1, "post-departure ticks flow at host pace");
        assert!(
            !snaps[0].players.contains_key(PlayerId(1)),
            "the leaver is despawned from the stepped world"
        );
        assert!(
            !snaps[0].input_next.contains_key(PlayerId(1)),
            "no stray watermark for the leaver"
        );
    }
    assert_eq!(
        s.admit_joiner().pid,
        PlayerId(1),
        "the departed id is free for the next joiner"
    );
}

#[test]
fn departure_gap_does_not_resurrect_the_leaver() {
    let mut s = srv(42, &ids(3));
    s.record_remote(PlayerId(1), tickmsg(0, 1.0));
    s.record_remote(PlayerId(2), tickmsg(0, 1.0));
    s.advance(tickmsg(0, 0.0));
    let _ = step_ready(&mut s);
    s.depart(PlayerId(1));
    s.depart(PlayerId(2));
    assert_eq!(s.roster(), &[PlayerId(0)], "both shrinks scheduled");
    for t in 1..6 {
        s.advance(tickmsg(t, 0.0));
        let snaps = step_ready(&mut s);
        for pid in [PlayerId(1), PlayerId(2)] {
            assert!(
                !snaps[0].input_next.contains_key(pid),
                "tick {t}: a gap tick must not resurrect the leaver's watermark"
            );
            assert!(s.queued(pid).is_empty(), "tick {t}: no resurrected stream");
        }
    }
    assert!(
        !s.sim().has_player(PlayerId(1)) && !s.sim().has_player(PlayerId(2)),
        "both leavers despawned once their boundaries passed"
    );
}

#[test]
fn admit_allocates_lowest_free_id_without_renumbering() {
    let mut s = srv(42, &ids(2));
    let a = s.admit_joiner();
    assert_eq!(a.pid, PlayerId(2), "the lowest id not already in use");
    assert_eq!(a.roster, vec![PlayerId(0), PlayerId(1), PlayerId(2)]);
    assert!(
        a.effective_tick >= JOIN_LEAD,
        "a join lands at least JOIN_LEAD ahead"
    );
    assert_eq!(
        s.roster(),
        &[PlayerId(0), PlayerId(1), PlayerId(2)],
        "roster grew, ids 0/1 kept"
    );
    let b = s.admit_joiner();
    assert_eq!(b.pid, PlayerId(3));
    assert!(
        b.effective_tick > a.effective_tick,
        "back-to-back joins don't collide"
    );
}

#[test]
fn joiner_inputs_queue_until_the_effective_tick() {
    let mut s = srv(42, &ids(1));
    let adm = s.admit_joiner();
    s.record_remote(
        adm.pid,
        TickMsg {
            issue_tick: adm.effective_tick,
            input: input(1.0),
            pilot: None,
        },
    );
    for t in 0..adm.effective_tick + 2 {
        s.advance(tickmsg(t, 0.0));
        let snaps = step_ready(&mut s);
        let snap = &snaps[0];
        if snap.tick <= adm.effective_tick {
            assert!(
                !snap.players.contains_key(adm.pid),
                "no joiner before its effective tick"
            );
        } else {
            assert!(
                snap.players.contains_key(adm.pid),
                "the joiner is spawned from its effective tick"
            );
        }
        if snap.tick == adm.effective_tick + 1 {
            assert_eq!(
                snap.input_next.get(adm.pid).copied().unwrap(),
                adm.effective_tick + 1,
                "the joiner's queued input was consumed at its entry tick"
            );
        }
    }
}

#[test]
fn server_authoritative_path_is_sp_identical() {
    const SEED: u64 = 0x00C0FFEE;
    const SUBMITS: u64 = 40;
    let me = PlayerId(0);
    let roster = vec![me];

    // Out of reach and receding: the claim needs a live world on every tick.
    let pose_at = |tick: u64| CrabPose {
        pos: Pos {
            x: 15_000 + tick as i64 * 11,
            z: -12_000 - tick as i64 * 7,
        },
        yaw: (tick as i32).wrapping_mul(4096),
        claws: Vec::new(),
    };
    let input_at = |i: u64| {
        let strafe = ((i % 3) as f32 - 1.0) * 0.6;
        let btns = if i % 5 == 4 { buttons::ACTION } else { 0 };
        axes(strafe, 1.0, 0.0, btns)
    };

    // A bare world stepped by hand: what the server must reproduce.
    let mut baseline = Vec::new();
    {
        let mut sim = Sim::new(SEED, &roster);
        for i in 0..SUBMITS {
            let mut inputs = PlayerMap::new();
            inputs.insert(me, input_at(i));
            sim.step(&inputs, Externals::crabs_only(&[pose_at(i)]));
            baseline.push((sim.tick(), sim.state_hash()));
        }
    }

    // The server steps its own world; another world moves by its snapshots alone.
    let mut server_hashes = Vec::new();
    {
        let mut client = Sim::new(SEED, &roster);
        let mut server = Server::new(me, &roster, Sim::new(SEED, &roster));
        for i in 0..SUBMITS {
            server.advance(TickMsg {
                issue_tick: i,
                input: input_at(i),
                pilot: None,
            });
            while server.next_tick_ready() {
                let bytes = server
                    .step_next(&[pose_at(server.sim().tick())], PlayerMap::new())
                    .snapshot;
                let snap = CoreSnapshot::from_bytes(&bytes).expect("the server snapshot decodes");
                let input_next = snap.input_next.copied();
                client.apply_core_snapshot(snap);
                server_hashes.push((server.sim().tick(), server.sim().state_hash()));
                let mut again = client.core_snapshot();
                again.input_next = input_next;
                assert_eq!(
                    again.to_bytes(),
                    bytes,
                    "the client re-emits the server's exact snapshot"
                );
                assert_eq!(client.tick(), server.sim().tick());
            }
        }
    }

    assert_eq!(
        baseline, server_hashes,
        "server steps == hand-stepped world, tick for tick"
    );
    assert_eq!(baseline.len() as u64, SUBMITS);
    assert_eq!(baseline[0].0, 1);
}

#[test]
fn restart_does_not_wedge_the_match() {
    let mut s = srv(42, &ids(2));
    let opening: Vec<Pos> = s.sim().players().into_iter().map(|(_, p)| p.pos()).collect();
    let opening_frame = s.sim().spawn_frame();
    const RESTART_AT: u64 = 10;
    const TOTAL: u64 = 25;
    let mut last_snap_tick = 0;
    for t in 0..TOTAL {
        let btns = if t == RESTART_AT { buttons::RESTART } else { 0 };
        s.record_remote(
            PlayerId(1),
            TickMsg {
                issue_tick: t,
                input: axes(0.0, 1.0, 0.0, btns),
                pilot: None,
            },
        );
        s.advance(tickmsg(t, 1.0));
        assert!(s.next_tick_ready(), "tick {t} is steppable: no wedge");
        let stepped = s.step_next(&[], PlayerMap::new());
        assert_eq!(
            stepped.restarted,
            t == RESTART_AT,
            "the restart edge fires exactly on the RESTART tick"
        );
        let snap = CoreSnapshot::from_bytes(&stepped.snapshot).expect("snapshot decodes");
        assert_eq!(
            snap.tick,
            t + 1,
            "snapshot ticks stay monotone and gap-free"
        );
        assert!(snap.tick > last_snap_tick || t == 0);
        last_snap_tick = snap.tick;
        if t == RESTART_AT {
            let frame = s.sim().spawn_frame();
            assert_ne!(frame, opening_frame, "a restart draws a fresh layout");
            let spawn_state: Vec<Pos> = (0..2)
                .map(|i| frame.place((i - 1) * SPAWN_SLOT_PITCH, 0))
                .collect();
            let shipped: Vec<Pos> = (0..2).map(|i| snap.players.value_at(i).pos()).collect();
            assert_eq!(
                shipped, spawn_state,
                "the restart tick's snapshot carries the spawn-state world"
            );
            assert_ne!(shipped, opening);
        }
    }
    assert_eq!(
        s.sim().tick(),
        TOTAL,
        "the match ran to the end: no freeze"
    );
}

#[test]
fn mid_game_join_transfers_live_state_without_reset() {
    const SEED: u64 = 0x105E_F00D;
    const JOIN_AT: u64 = 12;
    const SUBMITS: u64 = 60;
    let host = PlayerId(0);
    let mut server = srv(SEED, &[host]);
    let crab_spawn = server.sim().crabs()[0].pos();

    let pose_at = |tick: u64| CrabPose {
        pos: Pos {
            x: 16_000 + tick as i64 * 13,
            z: -13_000 - tick as i64 * 9,
        },
        yaw: (tick as i32).wrapping_mul(2048),
        claws: Vec::new(),
    };
    let input_at = |i: u64| walk(((i % 3) as f32 - 1.0) * 0.5, 1.0);

    let mut joiner: Option<(PlayerId, u64, u64)> = None;
    let mut snaps: Vec<CoreSnapshot> = Vec::new();

    for i in 0..SUBMITS {
        if i == JOIN_AT {
            let adm = server.admit_joiner();
            joiner = Some((adm.pid, adm.effective_tick, adm.effective_tick));
        }
        if let Some((jpid, _, next_issue)) = joiner.as_mut() {
            server.record_remote(
                *jpid,
                TickMsg {
                    issue_tick: *next_issue,
                    input: input_at(i),
                    pilot: None,
                },
            );
            *next_issue += 1;
        }
        server.advance(TickMsg {
            issue_tick: i,
            input: input_at(i),
            pilot: None,
        });
        while server.next_tick_ready() {
            let tick = server.sim().tick();
            let bytes = server
                .step_next(&[pose_at(tick)], PlayerMap::new())
                .snapshot;
            snaps.push(CoreSnapshot::from_bytes(&bytes).expect("the server snapshot decodes"));
        }
    }

    let (jpid, eff, _) = joiner.expect("a joiner was admitted");
    for w in snaps.windows(2) {
        assert!(
            w[1].tick > w[0].tick,
            "the tick is monotonic: the join never resets the round"
        );
    }
    let before = snaps
        .iter()
        .find(|s| s.tick == eff)
        .expect("the sim stepped up to eff");
    assert!(
        !before.players.contains_key(jpid),
        "no joiner before its effective tick"
    );
    let after = snaps
        .iter()
        .find(|s| s.tick == eff + 1)
        .expect("the sim stepped through eff");
    assert!(
        after.players.contains_key(jpid),
        "the joiner appears in the snapshot at its entry"
    );
    assert_eq!(
        after.players.get(jpid).copied().unwrap().status(),
        PlayerStatus::Alive,
        "the joiner spawns Alive"
    );
    assert!(
        after.roster.contains(&jpid),
        "the snapshot roster carries the joiner"
    );
    assert_eq!(
        after.crabs[0].pos(),
        pose_at(eff).pos,
        "the crab is at its live pose at tick eff"
    );
    assert_ne!(
        after.crabs[0].pos(),
        crab_spawn,
        "the crab did NOT reset to spawn (no rebuild-on-join)"
    );
    assert!(eff > JOIN_LEAD, "the join genuinely lands mid-round");
}

#[test]
fn admission_gate_admits_match_and_refuses_mismatches() {
    let ha = 0x5A11_2233u64;
    let req = |asset_digest, crab_count| JoinRequest {
        asset_digest,
        crab_count,
    };
    assert_eq!(
        may_admit_joiner(ha, 2, &req(ha, 2)),
        Ok(()),
        "the host admits a matching joiner"
    );
    assert_eq!(
        may_admit_joiner(ha, 2, &req(ha, 0)),
        Ok(()),
        "a headless joiner (rig count 0) renders nothing: always count-admissible"
    );
    assert_eq!(
        may_admit_joiner(ha, 2, &req(ha ^ 1, 2)),
        Err(AdmissionRefusal::AssetsMismatch {
            host: ha,
            joiner: ha ^ 1
        }),
        "a different Sally/colliders is refused"
    );
    assert_eq!(
        may_admit_joiner(ha, 2, &req(ha, 1)),
        Err(AdmissionRefusal::CrabCountMismatch { host: 2, joiner: 1 }),
        "a rendering joiner with the wrong rig count is refused (it would show the wrong \
         number of crabs)"
    );
}

#[test]
fn early_inputs_seed_their_streams_in_order() {
    let mut s = srv(42, &ids(3));
    s.seed_early(&[
        PeerMsg { pid: PlayerId(1), msg: tickmsg(0, 1.0) },
        PeerMsg { pid: PlayerId(2), msg: tickmsg(0, 0.5) },
        PeerMsg { pid: PlayerId(1), msg: tickmsg(1, -1.0) },
        PeerMsg { pid: PlayerId(9), msg: tickmsg(0, 1.0) },
    ]);
    let issues = |s: &Server, p| -> Vec<u64> { s.queued(p).iter().map(|m| m.issue_tick).collect() };
    assert_eq!(issues(&s, PlayerId(1)), vec![0, 1]);
    assert_eq!(issues(&s, PlayerId(2)), vec![0]);
    assert!(issues(&s, PlayerId(9)).is_empty());
}

#[test]
fn a_try_step_is_the_step() {
    let mut a = srv(7, &ids(2));
    let mut b = a.clone();
    for t in 0..12 {
        a.advance(tickmsg(t, 1.0));
        b.advance(tickmsg(t, 1.0));
        let x = a.step_next(&[], PlayerMap::new());
        let y = b.try_step_next(&[], PlayerMap::new()).expect("this roster settles");
        assert_eq!(x, y);
    }
    assert_eq!(a.sim().state_hash(), b.sim().state_hash());
}

#[test]
fn a_late_tick_is_stepped_like_any_other() {
    for late in [1u64 << 43, 1 << 62, u64::MAX - 1] {
        let mut sim = Sim::new(7, &ids(2));
        let mut snap = sim.core_snapshot();
        snap.tick = late;
        sim.apply_core_snapshot(snap);
        assert!(sim.is_in_world());
        let mut alone = sim.clone();
        let mut inputs = PlayerMap::new();
        inputs.insert(PlayerId(0), input(1.0));
        inputs.insert(PlayerId(1), Input::default());
        let poses = vec![CrabPose { pos: Pos { x: 0, z: 0 }, yaw: 0, claws: Vec::new() }];
        let before = alone.player(PlayerId(0)).unwrap().pos();
        assert_eq!(
            alone.try_step(&inputs, Externals { crabs: &poses, pilots: None }),
            Some(false)
        );
        assert_eq!(alone.tick(), late + 1);
        let after = alone.player(PlayerId(0)).unwrap().pos();
        assert_ne!(after, before);
        assert!((after.x - before.x).abs() <= STRIDE && (after.z - before.z).abs() <= STRIDE);
        let mut s = Server::new(PlayerId(0), &ids(2), sim);
        s.advance(tickmsg(late, 1.0));
        let t = s.try_step_next(&[], PlayerMap::new()).expect("a tick is ready");
        assert_eq!(CoreSnapshot::from_bytes(&t.snapshot).unwrap().tick, late + 1);
        assert_eq!(s.sim().player(PlayerId(0)).unwrap(), alone.player(PlayerId(0)).unwrap());
    }
}

#[test]
fn every_shipped_snapshot_holds_its_roster_and_reads_back() {
    let mut s = srv(11, &ids(2));
    for t in 0..40 {
        if t == 3 {
            s.admit_joiner();
        }
        if t == 30 {
            s.depart(PlayerId(1));
        }
        let buttons = if t == 20 { buttons::RESTART } else { 0 };
        s.advance(TickMsg { input: axes(0.0, 1.0, 0.0, buttons), ..tickmsg(t, 0.0) });
        let r = s.step_next(&[], PlayerMap::new());
        let snap = CoreSnapshot::from_bytes(&r.snapshot).unwrap();
        assert_eq!(snap.tick, t + 1);
        assert_eq!(r.restarted, t == 20);
        let seated: Vec<PlayerId> = s.sim().players().iter().map(|(id, _)| *id).collect();
        assert_eq!(snap.roster, seated);
        assert_eq!(*snap.input_next.get(PlayerId(0)).unwrap(), t + 1);
        let mut client = Sim::new(11, &ids(2));
        client.apply_core_snapshot(snap);
        assert_eq!(client.state_hash(), s.sim().state_hash());
    }
}

#[test]
fn a_pilot_pose_counts_only_for_a_filed_pilot() {
    let mut s = srv(42, &ids(2));
    let at = Pos { x: 777, z: -888 };
    let spawn = s.sim().player(PlayerId(1)).unwrap().pos();
    s.file_intent(PlayerId(0), Some(intent(VehicleKind::Plane)));
    let mut fed = PlayerMap::new();
    fed.insert(PlayerId(0), net::sim::PilotPose { pos: at, yaw: 3 });
    fed.insert(PlayerId(1), net::sim::PilotPose { pos: at, yaw: 3 });
    s.advance(TickMsg { pilot: Some(intent(VehicleKind::Plane)), ..tickmsg(0, 0.0) });
    s.step_next(&[], fed);
    assert_eq!(s.sim().player(PlayerId(0)).unwrap().pos(), at, "the pilot rides its craft");
    assert_eq!(s.sim().player(PlayerId(1)).unwrap().pos(), spawn, "the walker does not");
}

#[test]
fn refusals_and_reports_have_texts() {
    let assets = AdmissionRefusal::AssetsMismatch { host: 1, joiner: 2 };
    let crabs = AdmissionRefusal::CrabCountMismatch { host: 2, joiner: 1 };
    assert_ne!(assets.text(), crabs.text());
    assert_eq!(Refusal::Admission(crabs).text(), crabs.text());
    assert_ne!(Refusal::Departed.text(), Refusal::Forming.text());
    let r = StarvationReport { pid: PlayerId(4), starved: 17, window: 30, tick: 600 };
    let text = r.text();
    assert!(text.starts_with("input starvation: player 4 held on 17/30 ticks"));
    assert!(text.contains("tick 600"));
}

/// The host is never said to starve, and a departed player's watermark stays away until its
/// seat is given again.
#[test]
fn the_host_never_starves_and_the_departed_leave_no_mark() {
    let mut s = srv(3, &ids(3));
    let mut reports: Vec<StarvationReport> = Vec::new();
    for t in 0..2 * STARVATION_WINDOW {
        s.advance(tickmsg(t, 0.0));
        step_ready(&mut s);
        reports.extend(s.take_starvation_reports());
    }
    assert!(!reports.is_empty());
    assert!(reports.iter().all(|r| r.pid != PlayerId(0) && r.tick % STARVATION_WINDOW == 0));
    let from = 2 * STARVATION_WINDOW;
    s.record_remote(PlayerId(1), tickmsg(0, 1.0));
    s.advance(tickmsg(from, 0.0));
    let marked = CoreSnapshot::from_bytes(&s.step_next(&[], PlayerMap::new()).snapshot).unwrap();
    assert_eq!(marked.input_next.get(PlayerId(0)), Some(&(from + 1)), "the host's own");
    assert_eq!(marked.input_next.get(PlayerId(1)), Some(&1));
    s.depart(PlayerId(1));
    for t in from + 1..from + 6 {
        s.record_remote(PlayerId(1), tickmsg(t, 1.0));
        s.advance(tickmsg(t, 0.0));
        let snap = CoreSnapshot::from_bytes(&s.step_next(&[], PlayerMap::new()).snapshot).unwrap();
        assert_eq!(snap.input_next.get(PlayerId(1)), None);
    }
}

/// A restart leaves in the world exactly who is rostered, joiners of that tick included.
#[test]
fn a_restart_seats_the_roster() {
    let mut s = srv(8, &ids(2));
    let joined = s.admit_joiner();
    for t in 0..joined.effective_tick {
        s.advance(tickmsg(t, 0.0));
        step_ready(&mut s);
    }
    s.advance(TickMsg {
        input: axes(0.0, 0.0, 0.0, buttons::RESTART),
        ..tickmsg(joined.effective_tick, 0.0)
    });
    let stepped = s.step_next(&[], PlayerMap::new());
    assert!(stepped.restarted);
    let snap = CoreSnapshot::from_bytes(&stepped.snapshot).unwrap();
    assert_eq!(snap.roster, ids(3));
    assert_eq!(snap.players.len(), 3);
    assert_eq!(snap.tick, joined.effective_tick + 1);
}
