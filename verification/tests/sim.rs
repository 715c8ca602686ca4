//! The integer world, driven through its public operations.

use net::player_map::PlayerMap;
use net::sim::buttons;
use net::sim::geometry::isqrt_i128;
use net::sim::spawn::SETTLING_PARTY;
use net::sim::trig::{cos, sin, wrap_turns, ONE, TURN};
use net::sim::world::{
    CRAB_BASE_X, CRAB_BASE_Z, CRAB_CHARGE_SPEED_PER_S, CRAB_STAGGER, MAX_YAW_TURNS_PER_TICK,
    MIN_CRAB_SPAWN_DISTANCE, PLAYER_HEIGHT_FP, PLAYER_SPEED, SAMPLE_CLAMP_HALF, SPAWN_SLOT_PITCH,
    STARTUP_GRACE_TICKS, TEN_HEIGHTS,
};
use net::sim::{
    ClawPose, Crab, CrabPose, Externals, Input, Outcome, PilotPose, Player, PlayerId, PlayerStatus,
    Pos, Sim, CLAW_DOWN_BUFFER, CRAB_SCALE, EXTRACT_RADIUS, TICK_HZ, UNIT,
};
use net::snapshot::CoreSnapshot;

const CLAW_M: i64 = PLAYER_HEIGHT_FP * 5 / 9;
const CRAB_SPEED: i64 = CRAB_CHARGE_SPEED_PER_S / TICK_HZ as i64;

/// Sticks and buttons, quantized as a client quantizes them.
fn axes(strafe: f32, forward: f32, look_yaw: f32, buttons: u8) -> Input {
    let q = |v: f32| (v.clamp(-1.0, 1.0) * Input::AXIS_SCALE as f32).round() as i16;
    Input {
        move_strafe: q(strafe),
        move_forward: q(forward),
        look_yaw: q(look_yaw),
        buttons,
    }
}

fn walk(strafe: f32, forward: f32) -> Input {
    axes(strafe, forward, 0.0, 0)
}

/// The heading towards `(dx, dz)`, in turn units.
fn atan2_turns(dx: i64, dz: i64) -> i32 {
    let turns = (dx as f64).atan2(dz as f64) / std::f64::consts::TAU;
    wrap_turns((turns * TURN as f64).round() as i32)
}

fn dist2_i128(dx: i64, dz: i64) -> i128 {
    dx as i128 * dx as i128 + dz as i128 * dz as i128
}

fn within(ax: i64, az: i64, bx: i64, bz: i64, r: i64) -> bool {
    dist2_i128(ax - bx, az - bz) <= r as i128 * r as i128
}

fn hold_poses(sim: &Sim) -> Vec<CrabPose> {
    sim.crabs()
        .iter()
        .map(|c| CrabPose { pos: c.pos(), yaw: c.yaw(), claws: Vec::new() })
        .collect()
}

/// A claw capsule beside `p`, its ends at height `y`.
fn claw_at(p: Pos, dx: i64, y: i64) -> ClawPose {
    ClawPose {
        a: Pos { x: p.x + dx - 2 * CLAW_M, z: p.z },
        b: Pos { x: p.x + dx + 2 * CLAW_M, z: p.z },
        a_y: y,
        b_y: y,
        radius: CLAW_M / 2,
    }
}

/// Every crab one tick nearer to its prey, claws out once the grace is over.
fn drive_crab_toward_prey(sim: &Sim) -> Vec<CrabPose> {
    let armed = sim.tick() >= sim.round_start() + STARTUP_GRACE_TICKS;
    let mut poses = hold_poses(sim);
    if !armed {
        return poses;
    }
    for (i, pose) in poses.iter_mut().enumerate() {
        if let Some(target) = sim.nearest_living_player_pos(i) {
            let dx = target.x - pose.pos.x;
            let dz = target.z - pose.pos.z;
            pose.yaw = atan2_turns(dx, dz);
            let dist = isqrt_i128(dist2_i128(dx, dz));
            if dist <= CRAB_SPEED as i128 {
                pose.pos = target;
            } else if dist > 0 {
                pose.pos.x += (dx as i128 * CRAB_SPEED as i128 / dist) as i64;
                pose.pos.z += (dz as i128 * CRAB_SPEED as i128 / dist) as i64;
            }
        }
        pose.claws = vec![claw_at(pose.pos, 0, CLAW_M)];
    }
    poses
}

/// Rewrite the world by way of its own snapshot.
fn edit(sim: &mut Sim, change: impl FnOnce(&mut CoreSnapshot)) {
    let mut snap = sim.core_snapshot();
    change(&mut snap);
    sim.apply_core_snapshot(snap);
}

fn edit_player(sim: &mut Sim, id: PlayerId, change: impl FnOnce(Player) -> Player) {
    let p = sim.player(id).expect("rostered");
    edit(sim, |snap| {
        snap.players.insert(id, change(p));
    });
}

fn players(n: u8) -> Vec<PlayerId> {
    (0..n).map(PlayerId).collect()
}

fn neutral_for(sim: &Sim) -> PlayerMap<Input> {
    let mut inputs = PlayerMap::new();
    for (id, _) in sim.players() {
        inputs.insert(id, Input::default());
    }
    inputs
}

fn step_scenery(sim: &mut Sim, inputs: &PlayerMap<Input>) -> bool {
    let poses = hold_poses(sim);
    sim.step(inputs, Externals::crabs_only(&poses))
}

fn held_with_claws(sim: &Sim, claws: Vec<ClawPose>) -> Vec<CrabPose> {
    let mut poses = hold_poses(sim);
    poses[0].claws = claws;
    poses
}

#[test]
fn mixed_foot_and_neutral_pilot_steps_deterministically() {
    let run = || {
        let mut sim = Sim::new(7, &players(2));
        let p0_start = sim.player(PlayerId(0)).unwrap().pos();
        let p1_start = sim.player(PlayerId(1)).unwrap().pos();
        for _ in 0..20 {
            let mut inputs = neutral_for(&sim);
            inputs.insert(PlayerId(0), walk(0.0, 1.0));
            step_scenery(&mut sim, &inputs);
        }
        let p0_end = sim.player(PlayerId(0)).unwrap().pos();
        let p1_end = sim.player(PlayerId(1)).unwrap().pos();
        (sim.state_hash(), p0_start, p0_end, p1_start, p1_end)
    };
    let (h1, ..) = run();
    let (h2, p0_start, p0_end, p1_start, p1_end) = run();
    assert_eq!(
        h1, h2,
        "the same mixed foot+pilot inputs must reproduce the state hash"
    );
    assert_eq!(
        p1_start, p1_end,
        "a piloting (neutral-input) player's foot avatar stays put"
    );
    assert_ne!(
        p0_start, p0_end,
        "the walking player actually moved (not a no-op step)"
    );
}

#[test]
fn pilot_mask_keeps_restart_only_and_holds_cannot_refire_it() {
    let walking = axes(1.0, -1.0, 0.5, buttons::ACTION | buttons::RESTART);
    assert_eq!(
        walking.pilot_masked(),
        axes(0.0, 0.0, 0.0, buttons::RESTART),
        "piloting: walk axes and ACTION are stripped, RESTART survives"
    );
    assert_eq!(
        walking.pilot_masked().hold(),
        Input::default(),
        "a starved hold of a masked input can't re-fire RESTART"
    );
}

#[test]
fn spawn_frame_randomizes_within_the_tile_interior() {
    let clamp = SAMPLE_CLAMP_HALF;
    let on_tile = |p: Pos| p.x.abs() <= clamp && p.z.abs() <= clamp;
    let mut origins = std::collections::BTreeSet::new();
    for seed in 0..64u64 {
        let sim = Sim::new(seed, &players(3));
        origins.insert((sim.spawn_frame().origin.x, sim.spawn_frame().origin.z));
        for (_, p) in sim.players() {
            assert!(
                on_tile(p.pos()),
                "seed {seed}: player off-tile at {:?}",
                p.pos()
            );
        }
        let ex = sim.extraction().pos();
        assert!(on_tile(ex), "seed {seed}: extraction off-tile at {ex:?}");
        for c in sim.crabs() {
            assert!(
                on_tile(c.pos()),
                "seed {seed}: crab off-tile at {:?}",
                c.pos()
            );
            let min = MIN_CRAB_SPAWN_DISTANCE as i128;
            for (_, p) in sim.players() {
                assert!(
                    dist2_i128(c.pos().x - p.pos().x, c.pos().z - p.pos().z) >= min * min,
                    "seed {seed}: spawn clearance broken"
                );
            }
            assert!(
                !within(ex.x, ex.z, c.pos().x, c.pos().z, 2 * EXTRACT_RADIUS),
                "seed {seed}: the bearing jitter parked the crab on the objective"
            );
        }
    }
    assert!(
        origins.len() == 64,
        "64 seeds must draw 64 distinct locales, got {}",
        origins.len()
    );
}

#[test]
fn spawn_is_deterministic_regardless_of_player_order() {
    let a = Sim::new(42, &[PlayerId(2), PlayerId(0), PlayerId(1)]);
    let b = Sim::new(42, &[PlayerId(0), PlayerId(1), PlayerId(2)]);
    assert_eq!(a.state_hash(), b.state_hash());
}

fn face_plus_z(sim: &mut Sim, id: PlayerId) {
    edit_player(sim, id, |p| Player::from_parts(p.pos(), 0, p.status()));
}

#[test]
fn forward_input_moves_along_facing() {
    let mut sim = Sim::new(0, &players(1));
    face_plus_z(&mut sim, PlayerId(0));
    let p0 = sim.player(PlayerId(0)).unwrap().pos();
    let mut inputs = PlayerMap::new();
    inputs.insert(PlayerId(0), walk(0.0, 1.0));
    step_scenery(&mut sim, &inputs);
    let p1 = sim.player(PlayerId(0)).unwrap().pos();
    assert_eq!(p1.x, p0.x, "no X drift facing +Z");
    let dz = p1.z - p0.z;
    assert!(
        (dz - PLAYER_SPEED).abs() <= 1,
        "forward step about PLAYER_SPEED, got {dz}"
    );
}

#[test]
fn strafe_input_moves_sideways_along_x() {
    let mut sim = Sim::new(0, &players(1));
    face_plus_z(&mut sim, PlayerId(0));
    let p0 = sim.player(PlayerId(0)).unwrap().pos();
    let mut right = PlayerMap::new();
    right.insert(PlayerId(0), axes(1.0, 0.0, 0.0, 0));
    step_scenery(&mut sim, &right);
    let p1 = sim.player(PlayerId(0)).unwrap().pos();
    assert_eq!(p1.z, p0.z, "no Z drift strafing at yaw 0");
    let dx = p1.x - p0.x;
    assert!(
        (dx - PLAYER_SPEED).abs() <= 1,
        "strafe-right step about +PLAYER_SPEED in X, got {dx}"
    );
    let mut sim = Sim::new(0, &players(1));
    face_plus_z(&mut sim, PlayerId(0));
    let mut left = PlayerMap::new();
    left.insert(PlayerId(0), axes(-1.0, 0.0, 0.0, 0));
    step_scenery(&mut sim, &left);
    let dx_left = sim.player(PlayerId(0)).unwrap().pos().x - p0.x;
    assert_eq!(dx_left, -dx, "strafe-left mirrors strafe-right exactly");
}

#[test]
fn predict_player_matches_step_for_the_local_avatar() {
    let inp = axes(0.6, -0.3, 0.4, 0);
    let mut stepped = Sim::new(7, &players(1));
    let mut inputs = PlayerMap::new();
    inputs.insert(PlayerId(0), inp);
    step_scenery(&mut stepped, &inputs);

    let mut predicted = Sim::new(7, &players(1));
    predicted.predict_player(PlayerId(0), inp);

    let sp = stepped.player(PlayerId(0)).unwrap();
    let pp = predicted.player(PlayerId(0)).unwrap();
    assert_eq!(
        (pp.pos(), pp.yaw()),
        (sp.pos(), sp.yaw()),
        "predicted local avatar must equal the stepped avatar"
    );

    let before = predicted.state_hash();
    predicted.predict_player(PlayerId(9), inp);
    assert_eq!(
        predicted.state_hash(),
        before,
        "predicting an absent player must change nothing"
    );
}

#[test]
fn look_then_move_turns_the_heading() {
    let mut sim = Sim::new(0, &players(1));
    face_plus_z(&mut sim, PlayerId(0));
    let ticks = ((TURN / 4) / MAX_YAW_TURNS_PER_TICK) as usize;
    for _ in 0..ticks {
        let mut inp = PlayerMap::new();
        inp.insert(PlayerId(0), axes(0.0, 0.0, 1.0, 0));
        step_scenery(&mut sim, &inp);
    }
    let before = sim.player(PlayerId(0)).unwrap().pos();
    let mut fwd = PlayerMap::new();
    fwd.insert(PlayerId(0), walk(0.0, 1.0));
    step_scenery(&mut sim, &fwd);
    let after = sim.player(PlayerId(0)).unwrap().pos();
    let dx = after.x - before.x;
    let dz = after.z - before.z;
    assert!(
        dx.abs() > dz.abs(),
        "after a ~quarter turn, forward should move mostly in X (dx={dx}, dz={dz})"
    );
}

#[test]
fn crab_pursues_and_claws_a_lone_player() {
    let mut sim = Sim::new(0, &players(1));
    let neutral = neutral_for(&sim);
    for _ in 0..STARTUP_GRACE_TICKS {
        let poses = drive_crab_toward_prey(&sim);
        sim.step(&neutral, Externals::crabs_only(&poses));
    }
    let crab_armed = sim.crabs()[0].pos();
    let prey = sim.player(PlayerId(0)).unwrap().pos();
    let d_start = dist2(crab_armed, prey);
    let poses = drive_crab_toward_prey(&sim);
    sim.step(&neutral, Externals::crabs_only(&poses));
    let d_next = dist2(sim.crabs()[0].pos(), sim.player(PlayerId(0)).unwrap().pos());
    assert!(d_next < d_start, "crab must close distance once driven");
    for _ in 0..2000 {
        if sim.outcome() != Outcome::Ongoing {
            break;
        }
        let poses = drive_crab_toward_prey(&sim);
        sim.step(&neutral, Externals::crabs_only(&poses));
    }
    assert_eq!(
        sim.outcome(),
        Outcome::Wiped,
        "standing-still player gets caught"
    );
    assert_eq!(
        sim.player(PlayerId(0)).unwrap().status(),
        PlayerStatus::Downed
    );
}

#[test]
fn adopted_crab_pose_seeds_and_is_hashed() {
    let pos = Pos {
        x: 7 * UNIT,
        z: -3 * UNIT,
    };
    let yaw = 123;

    let mut sim = Sim::new(0, &players(1));
    let pose = |pos| CrabPose {
        pos,
        yaw,
        claws: Vec::new(),
    };
    sim.adopt_crab_poses(&[pose(pos)]);
    assert_eq!(sim.crabs()[0].pos(), pos, "must seed the pose");
    assert_eq!(sim.crabs()[0].yaw(), yaw, "must seed the yaw");
    let h_seed = sim.state_hash();
    sim.adopt_crab_poses(&[pose(Pos {
        x: pos.x + 1,
        ..pos
    })]);
    assert_ne!(
        h_seed,
        sim.state_hash(),
        "the adopted crab pose must be folded into the state hash"
    );
}

#[test]
fn reaching_extraction_with_action_wins() {
    let mut sim = Sim::new(0, &players(1));
    let ex = sim.extraction().pos();
    assert!(CRAB_SPEED > PLAYER_SPEED, "a parked crab is the premise: a driven one outruns every walker");
    let route = [ex];
    let mut wp = 0usize;
    let mut won = false;
    for _ in 0..4000 {
        let p = sim.player(PlayerId(0)).unwrap();
        if p.status() != PlayerStatus::Alive {
            break;
        }
        let pp = p.pos();
        if wp < route.len() - 1 && within(pp.x, pp.z, route[wp].x, route[wp].z, UNIT) {
            wp += 1;
        }
        let target = route[wp];
        let want_yaw = atan2_turns(target.x - pp.x, target.z - pp.z);
        let delta = wrap_turns(want_yaw - p.yaw());
        let look = if delta == 0 {
            0.0
        } else if delta < TURN / 2 {
            1.0
        } else {
            -1.0
        };
        let mut inp = PlayerMap::new();
        inp.insert(PlayerId(0), axes(0.0, 1.0, look, buttons::ACTION));
        step_scenery(&mut sim, &inp);
        if sim.outcome() == Outcome::Extracted {
            won = true;
            break;
        }
    }
    assert!(
        won,
        "a player who reaches the point clear of the crab and holds ACTION should extract"
    );
}

#[test]
fn joiner_never_spawns_inside_a_crab_spawn_clearance_disc() {
    let mut sim = Sim::new(0, &players(1));
    let neutral = neutral_for(&sim);
    for _ in 0..=STARTUP_GRACE_TICKS {
        step_scenery(&mut sim, &neutral);
    }
    let parked = sim.spawn_frame().place(0, 0);
    let poses = vec![CrabPose {
        pos: parked,
        yaw: 0,
        claws: vec![claw_at(parked, 0, CLAW_M)],
    }];
    sim.adopt_crab_poses(&poses);
    sim.spawn_joining_player(PlayerId(1));
    let pos = sim.player(PlayerId(1)).unwrap().pos();
    let blocked = 2 * MIN_CRAB_SPAWN_DISTANCE / SPAWN_SLOT_PITCH + 1;
    assert!(
        (-blocked..=blocked).any(|d| sim.spawn_frame().place(d * SPAWN_SLOT_PITCH, 0) == pos),
        "joiner slot {pos:?} is not a spawn-line slot of the run's frame"
    );
    assert!(
        !within(pos.x, pos.z, parked.x, parked.z, MIN_CRAB_SPAWN_DISTANCE),
        "joiner slot {pos:?} sits within the crab's spawn-clearance disc"
    );
    sim.step(&neutral_for(&sim), Externals::crabs_only(&poses));
    assert_eq!(
        sim.player(PlayerId(0)).unwrap().status(),
        PlayerStatus::Downed,
        "the parked crab claws the host: proving the round is armed"
    );
    assert_eq!(
        sim.player(PlayerId(1)).unwrap().status(),
        PlayerStatus::Alive,
        "the joiner survives its first armed tick"
    );
}

#[test]
fn joiner_keeps_its_roster_slot_when_clear() {
    let mut sim = Sim::new(0, &players(1));
    sim.adopt_crab_poses(&[CrabPose {
        pos: sim.spawn_frame().place(0, 2 * MIN_CRAB_SPAWN_DISTANCE),
        yaw: 0,
        claws: Vec::new(),
    }]);
    sim.spawn_joining_player(PlayerId(1));
    assert_eq!(
        sim.player(PlayerId(1)).unwrap().pos(),
        sim.spawn_frame().place(0, 0),
        "an unobstructed joiner takes its roster slot exactly"
    );
}

#[test]
fn outcome_is_frozen_once_decided() {
    let mut sim = Sim::new(0, &players(1));
    let neutral = neutral_for(&sim);
    for _ in 0..2000 {
        if sim.outcome() != Outcome::Ongoing {
            break;
        }
        let poses = drive_crab_toward_prey(&sim);
        sim.step(&neutral, Externals::crabs_only(&poses));
    }
    assert_ne!(
        sim.outcome(),
        Outcome::Ongoing,
        "round should have resolved"
    );
    let snapshot = |s: &Sim| {
        (
            s.players().into_iter().collect::<Vec<_>>(),
            s.crabs().to_vec(),
            s.extraction(),
            s.outcome(),
        )
    };
    let frozen = snapshot(&sim);
    for _ in 0..10 {
        let poses = drive_crab_toward_prey(&sim);
        sim.step(&neutral, Externals::crabs_only(&poses));
    }
    assert_eq!(
        snapshot(&sim),
        frozen,
        "a decided round must freeze the world"
    );
}

#[test]
fn hash_changes_when_state_changes() {
    let mut sim = Sim::new(0, &players(2));
    let h0 = sim.state_hash();
    let mut inputs = neutral_for(&sim);
    inputs.insert(PlayerId(0), walk(1.0, 1.0));
    step_scenery(&mut sim, &inputs);
    assert_ne!(sim.state_hash(), h0);
}

#[test]
fn trig_table_hits_cardinal_points() {
        assert_eq!(sin(0), 0);
    assert_eq!(sin(TURN / 2), 0);
    assert!((sin(TURN / 4) - ONE).abs() <= 1);
    assert!((sin(3 * TURN / 4) + ONE).abs() <= 1);
    assert!((cos(0) - ONE).abs() <= 1);
    assert!(cos(TURN / 4).abs() <= 1);
    assert!((cos(TURN / 2) + ONE).abs() <= 1);
}

#[test]
fn trig_pythagorean_identity_holds() {
        for k in 0..64 {
        let a = k * (TURN / 64);
        let s = sin(a) as i64;
        let c = cos(a) as i64;
        let r2 = s * s + c * c;
        let one2 = (ONE as i64) * (ONE as i64);
        let err = (r2 - one2).abs();
        assert!(err <= one2 / 500, "sin2+cos2 off at {a}: {r2} vs {one2}");
    }
}

#[test]
fn isqrt_matches_floor_sqrt() {
    for n in [
        0i128,
        1,
        2,
        3,
        4,
        8,
        15,
        16,
        17,
        100,
        1_000_000,
        1_000_003,
        i64::MAX as i128,
        (i64::MAX as i128) * (i64::MAX as i128),
    ] {
        let r = isqrt_i128(n);
        assert!(
            r * r <= n && (r + 1) * (r + 1) > n,
            "isqrt({n})={r} not floor sqrt"
        );
    }
}

#[test]
fn cordic_table_matches_f64_reference_exactly() {
        for a in 0..TURN {
        let want = ((a as f64 / TURN as f64 * std::f64::consts::TAU).sin() * ONE as f64).round()
            as i32;
        assert_eq!(sin(a), want, "sin table off at {a}");
    }
    for a in (0..TURN).step_by(257) {
        let want = ((a as f64 / TURN as f64 * std::f64::consts::TAU).cos() * ONE as f64).round()
            as i32;
        assert_eq!(cos(a), want, "cos off at {a}");
    }
}

#[test]
fn crab_body_overhead_without_a_claw_never_downs() {
    let mut sim = Sim::new(0, &players(1));
    let p = sim.player(PlayerId(0)).unwrap().pos();
    sim.adopt_crab_poses(&[CrabPose {
        pos: p,
        yaw: 0,
        claws: Vec::new(),
    }]);
    let neutral = neutral_for(&sim);
    for _ in 0..=STARTUP_GRACE_TICKS + 10 {
        step_scenery(&mut sim, &neutral);
        assert_eq!(
            sim.player(PlayerId(0)).unwrap().status(),
            PlayerStatus::Alive,
            "her body core alone must never down (claw contact is the ONE mechanism)"
        );
    }
    let poses = held_with_claws(&sim, vec![claw_at(p, 0, CLAW_M)]);
    sim.step(&neutral, Externals::crabs_only(&poses));
    assert_eq!(
        sim.player(PlayerId(0)).unwrap().status(),
        PlayerStatus::Downed,
    );
}

#[test]
fn claw_touch_downs_a_player_after_the_grace() {
    let mut sim = Sim::new(0, &players(1));
    let p = sim.player(PlayerId(0)).unwrap().pos();
    let poses = held_with_claws(&sim, vec![claw_at(p, 0, CLAW_M)]);
    let touching = Externals::crabs_only(&poses);
    let neutral = neutral_for(&sim);
    for _ in 0..STARTUP_GRACE_TICKS {
        sim.step(&neutral, touching);
        assert_eq!(
            sim.player(PlayerId(0)).unwrap().status(),
            PlayerStatus::Alive,
            "no claw down during the startup grace"
        );
    }
    sim.step(&neutral, touching);
    assert_eq!(
        sim.player(PlayerId(0)).unwrap().status(),
        PlayerStatus::Downed,
        "a touching claw downs the player once armed"
    );
}

#[test]
fn a_piloting_player_rides_its_craft_and_cannot_be_downed() {
    let mut sim = Sim::new(0, &players(2));
    let neutral = neutral_for(&sim);
    let crab = sim.crabs()[0].pos();
    let poses = held_with_claws(&sim, vec![claw_at(crab, 0, CLAW_M)]);
    let both = |pilots: &[PlayerId]| {
        let mut m = PlayerMap::new();
        for &pid in pilots {
            m.insert(pid, PilotPose { pos: crab, yaw: 7 });
        }
        m
    };
    for _ in 0..=STARTUP_GRACE_TICKS + 1 {
        sim.step(
            &neutral,
            Externals {
                crabs: &poses,
                pilots: Some(&both(&[PlayerId(0), PlayerId(1)])),
            },
        );
    }
    let p0 = sim.player(PlayerId(0)).unwrap();
    assert_eq!(p0.pos(), crab, "the walker rides the fed craft pose");
    assert_eq!(p0.yaw(), 7, "facing follows the craft too");
    assert_eq!(
        p0.status(),
        PlayerStatus::Alive,
        "inside a hull there is no walker to claw"
    );
    sim.step(
        &neutral,
        Externals {
            crabs: &poses,
            pilots: Some(&both(&[PlayerId(0)])),
        },
    );
    assert_eq!(
        sim.player(PlayerId(1)).unwrap().status(),
        PlayerStatus::Downed,
        "the exemption ends the moment the player is on foot again"
    );
    assert_eq!(
        sim.player(PlayerId(0)).unwrap().status(),
        PlayerStatus::Alive,
        "the still-piloting player stays exempt"
    );
}

#[test]
fn claw_misses_do_not_down() {
    let mut sim = Sim::new(0, &players(1));
    let p = sim.player(PlayerId(0)).unwrap().pos();
    let neutral = neutral_for(&sim);
    let step_armed = |sim: &mut Sim, claw: ClawPose| {
        let poses = held_with_claws(sim, vec![claw]);
        for _ in 0..=STARTUP_GRACE_TICKS + 1 {
            sim.step(&neutral, Externals::crabs_only(&poses));
        }
        sim.player(PlayerId(0)).unwrap().status()
    };

    assert_eq!(
        step_armed(&mut sim, claw_at(p, 0, 10 * CLAW_M)),
        PlayerStatus::Alive,
        "a claw passing overhead must not down anyone"
    );
    let reach = CLAW_M / 2 + CLAW_DOWN_BUFFER;
    assert_eq!(
        step_armed(
            &mut sim,
            claw_at(p, 2 * CLAW_M + reach + CLAW_M / 10, CLAW_M)
        ),
        PlayerStatus::Alive,
        "a near miss beyond the buffer must not down"
    );
    assert_eq!(
        step_armed(
            &mut sim,
            claw_at(p, 2 * CLAW_M + reach - CLAW_M / 10, CLAW_M)
        ),
        PlayerStatus::Downed,
        "within the buffer of the capsule segment downs"
    );
}

#[test]
fn crab_spawns_clear_of_every_player() {
    for n in 1..=8u8 {
        let sim = Sim::new(0, &players(n));
        let crab = sim.crabs()[0].pos();
        let nearest = sim.players().into_iter().map(|(_, p)| dist2_i128(crab.x - p.pos().x, crab.z - p.pos().z))
            .min()
            .unwrap();
        let min = MIN_CRAB_SPAWN_DISTANCE as i128;
        assert!(
            nearest >= min * min,
            "n={n}: nearest player {} closer than MIN_CRAB_SPAWN_DISTANCE",
            isqrt_i128(nearest)
        );
    }
}

#[test]
fn restart_resets_the_round_to_spawn() {
    let mut sim = Sim::new(0xBEEF, &players(2));
    let mut twin = Sim::new(0xBEEF, &players(2));
    let world = |s: &Sim| {
        (
            s.players().into_iter().collect::<Vec<_>>(),
            s.crabs().to_vec(),
            s.extraction(),
            s.outcome(),
        )
    };
    let opening = world(&sim);
    let mut fwd = PlayerMap::new();
    fwd.insert(PlayerId(0), axes(0.3, 1.0, 0.5, 0));
    fwd.insert(PlayerId(1), axes(-0.2, 1.0, 0.0, 0));
    for _ in 0..50 {
        step_scenery(&mut sim, &fwd);
        step_scenery(&mut twin, &fwd);
    }
    let mut restart = PlayerMap::new();
    restart.insert(PlayerId(0), axes(0.0, 0.0, 0.0, buttons::RESTART));
    restart.insert(PlayerId(1), Input::default());
    let edge = step_scenery(&mut sim, &restart);
    assert!(edge, "the press reports the restart edge");
    assert_eq!(sim.tick(), 51, "the tick stays monotone across a restart");
    assert_eq!(sim.outcome(), Outcome::Ongoing);
    assert!(
        sim.players().into_iter().all(|(_, p)| p.status() == PlayerStatus::Alive),
        "a restart revives everyone at spawn"
    );
    assert_ne!(
        world(&sim),
        opening,
        "the restart draws a FRESH spawn layout off the seed's stream, \
         not a replay of the round-1 locale"
    );
    step_scenery(&mut twin, &restart);
    assert_eq!(
        world(&sim),
        world(&twin),
        "a restarted round is deterministic in (seed, input history)"
    );
}

#[test]
fn restart_works_after_the_round_is_decided() {
    let mut sim = Sim::new(0, &players(1));
    let neutral = neutral_for(&sim);
    for _ in 0..2000 {
        if sim.outcome() != Outcome::Ongoing {
            break;
        }
        let poses = drive_crab_toward_prey(&sim);
        sim.step(&neutral, Externals::crabs_only(&poses));
    }
    assert_eq!(sim.outcome(), Outcome::Wiped, "round should have ended");
    let tick_at_loss = sim.tick();
    let mut restart = PlayerMap::new();
    restart.insert(PlayerId(0), axes(0.0, 0.0, 0.0, buttons::RESTART));
    step_scenery(&mut sim, &restart);
    assert_eq!(sim.outcome(), Outcome::Ongoing, "restart revives the round");
    assert_eq!(sim.tick(), tick_at_loss + 1, "the tick keeps counting");
    assert_eq!(
        sim.player(PlayerId(0)).unwrap().status(),
        PlayerStatus::Alive,
        "the player is alive again after a post-loss restart"
    );
}

#[test]
fn restart_is_edge_triggered_not_level() {
    let mut sim = Sim::new(0, &players(1));
    let mut held = PlayerMap::new();
    held.insert(PlayerId(0), axes(0.0, 0.0, 0.0, buttons::RESTART));
    assert!(step_scenery(&mut sim, &held), "first press restarts");
    assert!(
        !step_scenery(&mut sim, &held),
        "a held key doesn't re-restart"
    );
    assert!(
        !step_scenery(&mut sim, &held),
        "still held, still no re-restart"
    );
    assert_eq!(sim.tick(), 3, "every tick counted, restart included");
    let neutral = neutral_for(&sim);
    assert!(!step_scenery(&mut sim, &neutral), "release: no restart");
    assert!(
        step_scenery(&mut sim, &held),
        "a new press after release restarts again"
    );
}

#[test]
fn restart_keeps_two_peers_in_lockstep() {
    let mut a = Sim::new(0x5151, &players(2));
    let mut b = Sim::new(0x5151, &players(2));
    let mut restarts = 0u32;
    for t in 0..120u64 {
        let mut inputs = PlayerMap::new();
        let restart_bit = if t == 40 { buttons::RESTART } else { 0 };
        inputs.insert(PlayerId(0), axes(0.4, 1.0, 0.2, 0));
        inputs.insert(PlayerId(1), axes(-0.3, 1.0, -0.1, restart_bit));
        restarts += u32::from(step_scenery(&mut a, &inputs));
        step_scenery(&mut b, &inputs);
        assert_eq!(
            a.state_hash(),
            b.state_hash(),
            "peers must stay bit-identical across a restart (tick {t})"
        );
    }
    assert_eq!(restarts, 1, "the mid-run restart fired exactly once");
    assert_eq!(a.tick(), 120, "a restart never rewinds the tick");
}

#[test]
fn restart_grants_a_fresh_startup_grace() {
    let mut sim = Sim::new(0, &players(1));
    let neutral = neutral_for(&sim);
    for _ in 0..(3 * STARTUP_GRACE_TICKS) {
        step_scenery(&mut sim, &neutral);
    }
    let mut restart = PlayerMap::new();
    restart.insert(PlayerId(0), axes(0.0, 0.0, 0.0, buttons::RESTART));
    assert!(step_scenery(&mut sim, &restart), "the restart fires");
    let crab0 = sim.crabs()[0].pos();
    edit_player(&mut sim, PlayerId(0), |p| Player::from_parts(crab0, p.yaw(), p.status()));
    let poses = held_with_claws(&sim, vec![claw_at(crab0, 0, CLAW_M)]);
    let touching = Externals::crabs_only(&poses);
    for i in 0..STARTUP_GRACE_TICKS {
        sim.step(&neutral, touching);
        assert_eq!(
            sim.player(PlayerId(0)).unwrap().status(),
            PlayerStatus::Alive,
            "no claw down during the post-restart grace (tick {i} into the round)"
        );
    }
    sim.step(&neutral, touching);
    assert_eq!(
        sim.player(PlayerId(0)).unwrap().status(),
        PlayerStatus::Downed,
        "the crab arms once the post-restart grace ends"
    );
}

#[test]
fn multi_crab_round_spawns_hashes_and_snapshots_per_crab() {
    let mut sim = Sim::new(0, &players(2));
    sim.configure_crabs(2);
    assert_eq!(sim.crabs().len(), 2);
    assert_ne!(
        sim.crabs()[0].pos(),
        sim.crabs()[1].pos(),
        "crabs spawn staggered, not stacked"
    );
    for (i, crab) in sim.crabs().iter().enumerate() {
        let nearest = sim.players().into_iter().map(|(_, p)| dist2(crab.pos(), p.pos()))
            .min()
            .unwrap();
        let min = MIN_CRAB_SPAWN_DISTANCE as i128;
        assert!(
            nearest >= min * min,
            "crab {i} spawns clear of every player"
        );
    }

    assert_ne!(sim.state_hash(), Sim::new(0, &players(2)).state_hash());
    let h0 = sim.state_hash();
    let mut poses = hold_poses(&sim);
    poses[1].pos.x += 1;
    sim.adopt_crab_poses(&poses);
    assert_ne!(sim.state_hash(), h0, "crab 1's pose folds into the hash");

    let snap = sim.core_snapshot();
    assert_eq!(snap.crabs.len(), 2);
    let restored = CoreSnapshot::from_bytes(&snap.to_bytes()).unwrap();
    let mut client = Sim::new(0, &players(2));
    client.apply_core_snapshot(restored);
    assert_eq!(
        client.crabs().len(),
        2,
        "an adopting client takes the host's crab count"
    );

    let mut restart = neutral_for(&sim);
    restart.insert(PlayerId(0), axes(0.0, 0.0, 0.0, buttons::RESTART));
    assert!(step_scenery(&mut sim, &restart));
    assert_eq!(
        sim.crabs().len(),
        2,
        "restart rebuilds the configured count"
    );
}

fn dist2(a: Pos, b: Pos) -> i128 {
    dist2_i128(a.x - b.x, a.z - b.z)
}

#[test]
fn state_hash_is_sensitive_to_every_hashed_field() {
    let base = Sim::new(7, &players(2));
    let h0 = base.state_hash();
    let hash_after = |change: &dyn Fn(&mut CoreSnapshot)| {
        let mut s = base.clone();
        edit(&mut s, |snap| change(snap));
        s.state_hash()
    };
    let foot = PlayerId(0);
    let p = base.player(foot).unwrap();
    let put = |snap: &mut CoreSnapshot, q: Player| {
        snap.players.insert(foot, q);
    };

    assert_eq!(hash_after(&|_| ()), h0, "an unchanged world keeps its hash");
    assert_ne!(hash_after(&|s| s.tick += 1), h0, "tick must be hashed");
    assert_ne!(
        hash_after(&|s| put(s, Player::from_parts(Pos { x: p.pos().x + 1, ..p.pos() }, p.yaw(), p.status()))),
        h0,
        "player pos.x must be hashed"
    );
    assert_ne!(
        hash_after(&|s| put(s, Player::from_parts(Pos { z: p.pos().z + 1, ..p.pos() }, p.yaw(), p.status()))),
        h0,
        "player pos.z must be hashed"
    );
    assert_ne!(
        hash_after(&|s| put(s, Player::from_parts(p.pos(), p.yaw() + 1, p.status()))),
        h0,
        "player yaw must be hashed"
    );
    assert_ne!(
        hash_after(&|s| put(s, Player::from_parts(p.pos(), p.yaw(), PlayerStatus::Downed))),
        h0,
        "player status must be hashed"
    );
    let c = base.crabs()[0];
    assert_ne!(
        hash_after(&|s| s.crabs[0] = Crab::from_parts(Pos { x: c.pos().x + 1, ..c.pos() }, c.yaw())),
        h0,
        "crab pos.x must be hashed"
    );
    assert_ne!(
        hash_after(&|s| s.crabs[0] = Crab::from_parts(Pos { z: c.pos().z + 1, ..c.pos() }, c.yaw())),
        h0,
        "crab pos.z must be hashed"
    );
    assert_ne!(
        hash_after(&|s| s.crabs[0] = Crab::from_parts(c.pos(), c.yaw() + 1)),
        h0,
        "crab yaw must be hashed"
    );
    assert_ne!(hash_after(&|s| s.extraction.x += 1), h0, "extraction pos.x must be hashed");
    assert_ne!(hash_after(&|s| s.extraction.z += 1), h0, "extraction pos.z must be hashed");
    assert_ne!(hash_after(&|s| s.outcome = Outcome::Wiped), h0, "outcome must be hashed");

    // What a peer never adopts must not move the hash: the random stream, and everything
    // that a world of another seed, stepped into a held restart, keeps for itself.
    let mut drawn = base.clone();
    let _ = drawn.rng().gen_range_i64(0, 9);
    assert_eq!(drawn.state_hash(), h0, "the rng stream is host-private");
    let mut other = Sim::new(7 ^ 0xdead_beef, &players(2));
    let mut held = neutral_for(&other);
    held.insert(foot, axes(0.0, 0.0, 0.0, buttons::RESTART));
    step_scenery(&mut other, &neutral_for(&base));
    assert!(step_scenery(&mut other, &held));
    assert_ne!(other.round_start(), base.round_start());
    assert_ne!(other.spawn_frame(), base.spawn_frame());
    other.apply_core_snapshot(base.core_snapshot());
    assert_eq!(other.state_hash(), h0, "seed, frame, grace and held restart are host-private");
}

#[test]
fn core_snapshot_roundtrip_reproduces_authoritative_state() {
    let mut original = Sim::new(7, &players(3));
    let posed = vec![CrabPose {
        pos: Pos { x: 4200, z: -1300 },
        yaw: 77,
        claws: Vec::new(),
    }];
    for _ in 0..5 {
        let mut inputs = neutral_for(&original);
        inputs.insert(PlayerId(0), walk(0.3, 1.0));
        original.step(&inputs, Externals::crabs_only(&posed));
    }
    edit_player(&mut original, PlayerId(1), |p| {
        Player::from_parts(p.pos(), p.yaw(), PlayerStatus::Downed)
    });

    let restored = CoreSnapshot::from_bytes(&original.core_snapshot().to_bytes())
        .expect("a freshly-built snapshot must round-trip through bytes");

    let mut target = original.clone();
    edit(&mut target, |snap| {
        snap.tick = 999;
        let p0 = *snap.players.get(PlayerId(0)).unwrap();
        let p1 = *snap.players.get(PlayerId(1)).unwrap();
        let p2 = *snap.players.get(PlayerId(2)).unwrap();
        let moved = Pos { x: p0.pos().x + 12_345, ..p0.pos() };
        snap.players.insert(PlayerId(0), Player::from_parts(moved, p0.yaw(), p0.status()));
        snap.players.insert(PlayerId(2), Player::from_parts(p2.pos(), p2.yaw() + 3, p2.status()));
        snap.players.insert(
            PlayerId(1),
            Player::from_parts(p1.pos(), p1.yaw(), PlayerStatus::Extracted),
        );
        snap.crabs[0] = Crab::from_parts(Pos { x: -1, z: -2 }, 9);
        snap.outcome = Outcome::Wiped;
        snap.roster = vec![PlayerId(0)];
    });
    assert_ne!(target.state_hash(), original.state_hash());

    target.apply_core_snapshot(restored);
    assert_eq!(
        target.state_hash(),
        original.state_hash(),
        "applying the round-tripped snapshot reproduces every hashed carried field"
    );
    assert_eq!(
        target.core_snapshot().roster,
        original.core_snapshot().roster,
        "the snapshot must carry the roster too"
    );
}

#[test]
fn a_tick_input_is_complete_or_it_is_not() {
    let sim = Sim::new(0, &players(2));
    let mut inputs = PlayerMap::new();
    inputs.insert(PlayerId(0), walk(0.0, 1.0));
    assert!(!sim.has_all_inputs(&inputs));
    inputs.insert(PlayerId(1), Input::default());
    assert!(sim.has_all_inputs(&inputs));
}

#[test]
fn try_variants_agree_with_the_plain_ones() {
    let a = Sim::new(5, &players(4));
    let b = Sim::try_new(5, &players(4)).expect("this roster settles");
    assert_eq!(a.state_hash(), b.state_hash());
    let mut a2 = a.clone();
    let mut b2 = b.clone();
    a2.configure_crabs(3);
    assert!(b2.try_configure_crabs(3));
    assert_eq!(a2.state_hash(), b2.state_hash());
    let inputs = neutral_for(&a2);
    let poses = hold_poses(&a2);
    let restarted = a2.step(&inputs, Externals::crabs_only(&poses));
    assert_eq!(b2.try_step(&inputs, Externals::crabs_only(&poses)), Some(restarted));
    assert_eq!(a2.state_hash(), b2.state_hash());
}

#[test]
fn match_stream_is_the_seeds_and_stays_in_range() {
    let mut sim = Sim::new(11, &players(1));
    let mut twin = Sim::new(11, &players(1));
    let mut other = Sim::new(12, &players(1));
    let draw = |s: &mut Sim| -> Vec<i64> { (0..32).map(|_| s.rng().gen_range_i64(-5, 5)).collect() };
    let (a, b, c) = (draw(&mut sim), draw(&mut twin), draw(&mut other));
    assert_eq!(a, b);
    assert_ne!(a, c);
    assert!(a.iter().all(|v| (-5..=5).contains(v)));
    assert!(a.iter().any(|v| *v != a[0]), "the stream moves on with every draw");
    let small: Vec<i32> = (0..32).map(|_| sim.rng().gen_range_i32(3, 4)).collect();
    assert!(small.iter().all(|v| (3..=4).contains(v)));
    assert!(small.contains(&3) && small.contains(&4));
}

#[test]
fn match_seeds_differ() {
    let seeds: Vec<u64> = (0..4).map(|_| net::sim::random_match_seed()).collect();
    assert!(seeds.iter().any(|s| *s != seeds[0]));
}

#[test]
fn departure_removes_the_player_and_only_it() {
    let mut sim = Sim::new(3, &players(3));
    let kept = sim.player(PlayerId(2));
    sim.despawn_departed_player(PlayerId(1));
    assert!(!sim.has_player(PlayerId(1)));
    assert_eq!(sim.player(PlayerId(1)), None);
    assert_eq!(sim.player(PlayerId(2)), kept);
    assert_eq!(sim.core_snapshot().roster, vec![PlayerId(0), PlayerId(2)]);
}

#[test]
fn last_living_player_leaving_decides_nothing_before_the_next_tick() {
    let mut sim = Sim::new(3, &players(2));
    edit_player(&mut sim, PlayerId(1), |p| Player::from_parts(p.pos(), p.yaw(), PlayerStatus::Downed));
    sim.despawn_departed_player(PlayerId(0));
    assert_eq!(sim.outcome(), Outcome::Ongoing);
    let inputs = neutral_for(&sim);
    step_scenery(&mut sim, &inputs);
    assert_eq!(sim.outcome(), Outcome::Wiped);
}

#[test]
fn neutral_steps_stand_still() {
    let mut sim = Sim::new(21, &players(3));
    let before: Vec<Pos> = sim.players().into_iter().map(|(_, p)| p.pos()).collect();
    let neutral = neutral_for(&sim);
    for _ in 0..10 {
        step_scenery(&mut sim, &neutral);
    }
    let after: Vec<Pos> = sim.players().into_iter().map(|(_, p)| p.pos()).collect();
    assert_eq!(before, after);
    assert_eq!(sim.tick(), 10);
}

/// The sizes and paces are whole units of a player a twelfth the crab's stature tall.
#[test]
fn sizes_follow_the_player_height() {
    let player_height = 0.6115f32 / CRAB_SCALE as f32;
    let heights = |h: f32| (h * player_height * UNIT as f32 + 0.5) as i64;
    assert_eq!(PLAYER_HEIGHT_FP, heights(1.0));
    assert_eq!(TEN_HEIGHTS, heights(10.0));
    assert_eq!(CLAW_DOWN_BUFFER, heights(2.0 / 1.8));
    assert_eq!(SPAWN_SLOT_PITCH, heights(2.0 / 1.8));
    assert_eq!(EXTRACT_RADIUS, heights(2.0 / 1.8));
    assert_eq!(CRAB_BASE_X, heights(6.0 / 1.8));
    assert_eq!(CRAB_STAGGER, heights(8.0 / 1.8));
    assert_eq!(CRAB_BASE_Z, heights(20.0 / 1.8));
    let pace = 166.0f32 * 30.0 / (1000.0 * 1.8);
    assert_eq!(
        PLAYER_SPEED,
        (pace * player_height * UNIT as f32 / TICK_HZ as f32 + 0.5) as i64
    );
}

/// A round of up to fifteen players opens from any seed and takes any number of crabs.
#[test]
fn a_small_round_always_opens() {
    for seed in 0..150u64 {
        let n = 1 + (seed % SETTLING_PARTY as u64) as u8;
        let mut sim = Sim::try_new(seed, &players(n)).expect("a small layout settles");
        assert!(sim.try_configure_crabs(1 + seed as usize % 9));
        assert_eq!(sim.crabs().len(), 1 + seed as usize % 9);
    }
}

/// After a restart the same players are in, and nobody goes down for a second, wherever the
/// claws are.
#[test]
fn a_restart_is_graced() {
    let mut sim = Sim::new(5, &players(3));
    let everyone = |buttons: u8| {
        let mut m = PlayerMap::new();
        for id in players(3) {
            m.insert(id, axes(0.0, 0.0, 0.0, buttons));
        }
        m
    };
    let on = |sim: &Sim, id: u8| {
        let p = sim.player(PlayerId(id)).unwrap().pos();
        let claw = claw_at(p, 0, 0);
        [CrabPose { pos: p, yaw: 0, claws: vec![claw] }]
    };
    let standing = [CrabPose { pos: sim.crabs()[0].pos(), yaw: 0, claws: Vec::new() }];
    assert!(sim.step(&everyone(buttons::RESTART), Externals::crabs_only(&standing)));
    for tick in 0..STARTUP_GRACE_TICKS {
        let poses = on(&sim, (tick % 3) as u8);
        sim.step(&everyone(0), Externals::crabs_only(&poses));
        assert_eq!(sim.players().len(), 3);
        for (_, p) in sim.players() {
            assert_eq!(p.status(), PlayerStatus::Alive, "grace step {tick}");
        }
    }
    let poses = on(&sim, 0);
    sim.step(&everyone(0), Externals::crabs_only(&poses));
    assert_eq!(sim.player(PlayerId(0)).unwrap().status(), PlayerStatus::Downed);
}
