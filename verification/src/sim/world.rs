//! The scale and the tuning of the world, on the fixed-point grid.
//!
//! The world runs at the crab's own scale: she stands 0.6115 m and [`CRAB_SCALE`] player
//! heights tall, so a player is 0.6115 / 12 m. Lengths below are given in player heights and
//! rounded to the nearest grid unit.

use vstd::prelude::*;

verus! {

/// Simulation ticks per second.
pub const TICK_HZ: u64 = 30;

/// Grid units per meter.
pub const UNIT: i64 = 100_000;

/// How many player heights the crab stands.
pub const CRAB_SCALE: i64 = 12;

/// One player height.
pub const PLAYER_HEIGHT_FP: i64 = 5_096;

/// Ten player heights.
pub const TEN_HEIGHTS: i64 = 50_958;

/// On-foot pace per tick: 166 of the old millimeter grid at 30 Hz for a 1.8 m player.
pub const PLAYER_SPEED: i64 = 470;

/// Slack around a claw collider: the player is a point, so this covers the body radius, the
/// near-miss feel margin and one tick of claw sweep. 2.0 / 1.8 player heights.
pub const CLAW_DOWN_BUFFER: i64 = 5_662;

/// Spacing between spawn slots along the spawn line. 2.0 / 1.8 player heights.
pub const SPAWN_SLOT_PITCH: i64 = 5_662;

/// Reach-the-objective radius. 2.0 / 1.8 player heights.
pub const EXTRACT_RADIUS: i64 = 5_662;

/// Sideways part of the first crab's base spot: 6.0 / 1.8 player heights.
pub const CRAB_BASE_X: i64 = 16_986;

/// Sideways stagger per further crab: 8.0 / 1.8 player heights.
pub const CRAB_STAGGER: i64 = 22_648;

/// Forward part of a crab's base spot: 20.0 / 1.8 player heights.
pub const CRAB_BASE_Z: i64 = 56_620;

/// Ticks after a round's start during which no claw downs anyone.
pub const STARTUP_GRACE_TICKS: u64 = 30;

/// The crab's sustained full-charge ground speed, grid units per second: one of her heights
/// per second.
pub const CRAB_CHARGE_SPEED_PER_S: i64 = 61_150;

/// How long a fresh spawn is guaranteed before the crab at full charge can be on them.
pub const SPAWN_GRACE_SECS: i64 = 5;

/// Spawn clearance from the crab, at round start and for joiners alike: the grace's worth of
/// her full charge.
pub const MIN_CRAB_SPAWN_DISTANCE: i64 = CRAB_CHARGE_SPEED_PER_S * SPAWN_GRACE_SECS;

/// How far everything that a spawn frame places may lie from its origin: the objective and a
/// crab pushed a full clearance beyond the widest spawn line of 256 seats.
pub const LAYOUT_LOCAL_RADIUS: i64 = 2 * MIN_CRAB_SPAWN_DISTANCE + TEN_HEIGHTS + 128
    * SPAWN_SLOT_PITCH;

/// Half the span of the terrain interior that spawn locales are drawn from, 9744 m.
pub const SAMPLE_CLAMP_HALF: i64 = 974_400_000;

/// How far from the center a spawn frame's origin may lie.
pub const ORIGIN_BOUND: i64 = SAMPLE_CLAMP_HALF - LAYOUT_LOCAL_RADIUS;

/// Most heading steps a player turns in one tick: a 24th of a turn.
pub const MAX_YAW_TURNS_PER_TICK: i32 = 2_730;

/// The most crabs that can be laid out: farther down the stagger no bearing keeps a crab's
/// base within 64 bits, scaled as the rotation scales it.
pub const MAX_CRABS: u64 = 0x4_0000_0000;

/// How far from the center anything fed into the world may lie.
pub const WORLD_LIMIT: i64 = 0x800_0000_0000_0000;

/// How far from the center a player may stand that a step is to move: from here every distance
/// that the step measures, after the walk too, is within the machine types.
pub const REACH: i64 = 0xfff_ffff_ffff_8000;

/// More than the farthest walk of one tick, along either axis.
pub const STRIDE: i64 = 0x8000;

/// `x` is the whole number nearest to `n / d`.
pub open spec fn rounds(x: int, n: int, d: int) -> bool {
    -d <= 2 * (d * x - n) <= d
}

/// The world is to the crab's scale: she is [`CRAB_SCALE`] players tall, runs one of her
/// heights a second, and every length that is given in player heights is that many of them. In
/// a player's terms the pace is that of a walker of 1.8 m who makes 166 mm a tick, a fresh
/// spawn has the grace's time, and a round starts with one second of peace.
pub proof fn lemma_world_is_to_scale()
    ensures
        ({
            let crab = CRAB_CHARGE_SPEED_PER_S as int;
            &&& rounds(PLAYER_HEIGHT_FP as int, crab, CRAB_SCALE as int)
            &&& rounds(TEN_HEIGHTS as int, 10 * crab, CRAB_SCALE as int)
            &&& rounds(EXTRACT_RADIUS as int, 20 * crab, 18 * CRAB_SCALE)
            &&& rounds(CRAB_BASE_X as int, 60 * crab, 18 * CRAB_SCALE)
            &&& rounds(CRAB_STAGGER as int, 80 * crab, 18 * CRAB_SCALE)
            &&& rounds(CRAB_BASE_Z as int, 200 * crab, 18 * CRAB_SCALE)
            &&& rounds(PLAYER_SPEED as int, 166 * crab, 1_800 * CRAB_SCALE)
        }),
        10_000 * CRAB_CHARGE_SPEED_PER_S == 6_115 * UNIT,
        EXTRACT_RADIUS == SPAWN_SLOT_PITCH == CLAW_DOWN_BUFFER,
        MIN_CRAB_SPAWN_DISTANCE == 5 * CRAB_CHARGE_SPEED_PER_S,
        STARTUP_GRACE_TICKS == TICK_HZ,
{
}

} // verus!
