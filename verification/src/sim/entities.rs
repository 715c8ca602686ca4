//! What stands in the world, and what is fed into it each tick.

use crate::player_map::{PlayerId, PlayerMap};
use crate::sim::geometry::{
    closest_on_segment, norm2, pos_bounded, segment_bounded, segment_point, within, Pos,
    COORD_LIMIT,
};
use crate::sim::world::{CLAW_DOWN_BUFFER, PLAYER_HEIGHT_FP, WORLD_LIMIT};
use vstd::prelude::*;

verus! {

#[derive(Debug, Clone, Copy, PartialEq, Eq, Structural)]
pub enum PlayerStatus {
    Alive,
    Downed,
    Extracted,
}

impl PlayerStatus {
    /// The vehicle-boarding gate: the downed may board, the extracted are out of the round.
    pub fn may_board(self) -> (r: bool)
        ensures
            r == (self is Alive || self is Downed),
    {
        matches!(self, PlayerStatus::Alive | PlayerStatus::Downed)
    }

    /// The byte that stands for the status on the wire.
    pub open spec fn tag_of(self) -> u8 {
        match self {
            PlayerStatus::Alive => 0,
            PlayerStatus::Downed => 1,
            PlayerStatus::Extracted => 2,
        }
    }

    /// The status that a wire byte stands for.
    pub open spec fn of_tag(t: u8) -> Option<PlayerStatus> {
        if t == 0 {
            Some(PlayerStatus::Alive)
        } else if t == 1 {
            Some(PlayerStatus::Downed)
        } else if t == 2 {
            Some(PlayerStatus::Extracted)
        } else {
            None
        }
    }

    pub fn tag(self) -> (t: u8)
        ensures
            t == self.tag_of(),
    {
        match self {
            PlayerStatus::Alive => 0,
            PlayerStatus::Downed => 1,
            PlayerStatus::Extracted => 2,
        }
    }

    pub fn from_tag(t: u8) -> (r: Option<Self>)
        ensures
            r == Self::of_tag(t),
    {
        match t {
            0 => Some(PlayerStatus::Alive),
            1 => Some(PlayerStatus::Downed),
            2 => Some(PlayerStatus::Extracted),
            _ => None,
        }
    }
}

/// A player on foot, or riding a craft.
#[derive(Debug, Clone, Copy, PartialEq, Eq, Structural)]
pub struct Player {
    pub pos: Pos,
    pub yaw: i32,
    pub status: PlayerStatus,
}

impl Player {
    pub fn from_parts(pos: Pos, yaw: i32, status: PlayerStatus) -> (p: Self)
        ensures
            p == (Player { pos, yaw, status }),
    {
        Player { pos, yaw, status }
    }

    pub fn pos(self) -> (p: Pos)
        ensures
            p == self.pos,
    {
        self.pos
    }

    pub fn yaw(self) -> (y: i32)
        ensures
            y == self.yaw,
    {
        self.yaw
    }

    pub fn status(self) -> (s: PlayerStatus)
        ensures
            s == self.status,
    {
        self.status
    }
}

#[derive(Debug, Clone, Copy, PartialEq, Eq, Structural)]
pub struct Crab {
    pub pos: Pos,
    pub yaw: i32,
}

impl Crab {
    pub fn from_parts(pos: Pos, yaw: i32) -> (c: Self)
        ensures
            c == (Crab { pos, yaw }),
    {
        Crab { pos, yaw }
    }

    pub fn pos(self) -> (p: Pos)
        ensures
            p == self.pos,
    {
        self.pos
    }

    pub fn yaw(self) -> (y: i32)
        ensures
            y == self.yaw,
    {
        self.yaw
    }
}

/// One claw collider as of this tick: a capsule given by its ground segment, the height of
/// each end above the local ground, and its radius. Touching one is the only way a player
/// goes down.
#[derive(Debug, Clone, Copy, PartialEq, Eq, Structural)]
pub struct ClawPose {
    pub a: Pos,
    pub b: Pos,
    pub a_y: i64,
    pub b_y: i64,
    pub radius: i64,
}

/// The claw lies where the arithmetic of [`ClawPose::downs`] stays in range.
pub open spec fn claw_bounded(c: ClawPose) -> bool {
    &&& segment_bounded(c.a, c.b)
    &&& -COORD_LIMIT <= c.a_y <= COORD_LIMIT
    &&& -COORD_LIMIT <= c.b_y <= COORD_LIMIT
    &&& -COORD_LIMIT <= c.radius <= COORD_LIMIT
}

/// The claw touches a player standing at `p`: their height span meets the capsule's height
/// band, and their ground point lies within reach of the capsule's segment.
pub open spec fn claw_touches(c: ClawPose, p: Pos) -> bool {
    let reach = c.radius + CLAW_DOWN_BUFFER;
    let low = if c.a_y < c.b_y {
        c.a_y
    } else {
        c.b_y
    };
    let high = if c.a_y < c.b_y {
        c.b_y
    } else {
        c.a_y
    };
    let near = segment_point(c.a, c.b, p);
    &&& high + reach >= 0
    &&& low - reach <= PLAYER_HEIGHT_FP
    &&& norm2(p.x - near.0, p.z - near.1) <= reach * reach
}

impl ClawPose {
    pub fn downs(&self, p: Pos) -> (r: bool)
        requires
            claw_bounded(*self),
            pos_bounded(p),
        ensures
            r == claw_touches(*self, p),
    {
        let reach: i64 = self.radius + CLAW_DOWN_BUFFER;
        let (low, high) = if self.a_y < self.b_y {
            (self.a_y, self.b_y)
        } else {
            (self.b_y, self.a_y)
        };
        if high + reach < 0 || low - reach > PLAYER_HEIGHT_FP {
            return false;
        }
        let (cx, cz) = closest_on_segment(self.a, self.b, p);
        within(p.x, p.z, cx, cz, reach)
    }
}

/// A piloting player's craft pose.
#[derive(Debug, Clone, Copy, PartialEq, Eq, Structural)]
pub struct PilotPose {
    pub pos: Pos,
    pub yaw: i32,
}

/// One crab's pose and claw colliders as of this tick.
#[derive(Debug, Clone)]
pub struct CrabPose {
    pub pos: Pos,
    pub yaw: i32,
    pub claws: Vec<ClawPose>,
}

/// What a crab's pose holds.
pub struct PoseView {
    pub pos: Pos,
    pub yaw: i32,
    pub claws: Seq<ClawPose>,
}

impl View for CrabPose {
    type V = PoseView;

    open spec fn view(&self) -> PoseView {
        PoseView { pos: self.pos, yaw: self.yaw, claws: self.claws@ }
    }
}

/// What each of several poses holds.
pub open spec fn pose_views(s: Seq<CrabPose>) -> Seq<PoseView> {
    Seq::new(s.len(), |i: int| s[i]@)
}

/// This tick's poses from the physics world, handed to each step: nothing of them is kept
/// but what the step makes of it.
#[derive(Debug, Clone, Copy)]
pub struct Externals<'a> {
    /// Every crab's pose and claws, one entry per crab of the round.
    pub crabs: &'a [CrabPose],
    /// Every piloting player's craft pose; `None` is nobody piloting. While a player flies
    /// its one position is the craft's, and no claw downs it.
    pub pilots: Option<&'a PlayerMap<PilotPose>>,
}

/// Within the range of what may be fed into the world.
pub open spec fn pos_in_world(p: Pos) -> bool {
    &&& -WORLD_LIMIT <= p.x <= WORLD_LIMIT
    &&& -WORLD_LIMIT <= p.z <= WORLD_LIMIT
}

/// The entries of the pilot set.
pub open spec fn pilot_entries(pilots: Option<&PlayerMap<PilotPose>>) -> Seq<
    (PlayerId, PilotPose),
> {
    match pilots {
        Some(m) => m@,
        None => Seq::empty(),
    }
}

/// Every crab pose fed lies in the world and every claw is in range.
pub open spec fn crab_poses_in_world(crabs: Seq<PoseView>) -> bool {
    &&& forall|i: int| 0 <= i < crabs.len() ==> pos_in_world((#[trigger] crabs[i]).pos)
    &&& forall|i: int, j: int|
        0 <= i < crabs.len() && 0 <= j < crabs[i].claws.len() ==> claw_bounded(
            #[trigger] crabs[i].claws[j],
        )
}

impl<'a> Externals<'a> {
    pub open spec fn in_world(self) -> bool {
        &&& crab_poses_in_world(pose_views(self.crabs@))
        &&& (self.pilots matches Some(m) ==> m.wf())
        &&& forall|i: int|
            0 <= i < pilot_entries(self.pilots).len() ==> pos_in_world(
                (#[trigger] pilot_entries(self.pilots)[i]).1.pos,
            )
    }

    /// Crab poses with nobody piloting.
    pub fn crabs_only(crabs: &'a [CrabPose]) -> (e: Self)
        ensures
            e.crabs@ == crabs@,
            e.pilots is None,
    {
        Externals { crabs, pilots: None }
    }
}

/// Some claw of some crab touches a player standing at `p`.
pub open spec fn some_claw_touches(crabs: Seq<PoseView>, p: Pos) -> bool {
    exists|i: int, j: int|
        0 <= i < crabs.len() && 0 <= j < crabs[i].claws.len() && claw_touches(
            #[trigger] crabs[i].claws[j],
            p,
        )
}

/// Whether any claw touches a player standing at `p`, whichever crab owns it.
pub(crate) fn any_claw_downs(crabs: &[CrabPose], p: Pos) -> (r: bool)
    requires
        crab_poses_in_world(pose_views(crabs@)),
        pos_bounded(p),
    ensures
        r == some_claw_touches(pose_views(crabs@), p),
{
    let mut i: usize = 0;
    while i < crabs.len()
        invariant
            i <= crabs.len(),
            crab_poses_in_world(pose_views(crabs@)),
            pos_bounded(p),
            forall|a: int, b: int|
                0 <= a < i && 0 <= b < pose_views(crabs@)[a].claws.len() ==> !claw_touches(
                    #[trigger] pose_views(crabs@)[a].claws[b],
                    p,
                ),
        decreases crabs.len() - i,
    {
        let claws = &crabs[i].claws;
        let mut j: usize = 0;
        while j < claws.len()
            invariant
                i < crabs.len(),
                j <= claws.len(),
                claws@ == pose_views(crabs@)[i as int].claws,
                crab_poses_in_world(pose_views(crabs@)),
                pos_bounded(p),
                forall|b: int| 0 <= b < j ==> !claw_touches(#[trigger] claws@[b], p),
            decreases claws.len() - j,
        {
            assert(claw_bounded(pose_views(crabs@)[i as int].claws[j as int]));
            if claws[j].downs(p) {
                assert(claw_touches(pose_views(crabs@)[i as int].claws[j as int], p));
                return true;
            }
            j = j + 1;
        }
        i = i + 1;
    }
    false
}

#[derive(Debug, Clone, Copy, PartialEq, Eq, Structural)]
pub struct ExtractionPoint {
    pub pos: Pos,
}

impl ExtractionPoint {
    pub fn pos(self) -> (p: Pos)
        ensures
            p == self.pos,
    {
        self.pos
    }
}

#[derive(Debug, Clone, Copy, PartialEq, Eq, Structural)]
pub enum Outcome {
    Ongoing,
    Extracted,
    Wiped,
}

impl Outcome {
    /// The byte that stands for the outcome on the wire.
    pub open spec fn tag_of(self) -> u8 {
        match self {
            Outcome::Ongoing => 0,
            Outcome::Extracted => 1,
            Outcome::Wiped => 2,
        }
    }

    /// The outcome that a wire byte stands for.
    pub open spec fn of_tag(t: u8) -> Option<Outcome> {
        if t == 0 {
            Some(Outcome::Ongoing)
        } else if t == 1 {
            Some(Outcome::Extracted)
        } else if t == 2 {
            Some(Outcome::Wiped)
        } else {
            None
        }
    }

    pub fn tag(self) -> (t: u8)
        ensures
            t == self.tag_of(),
    {
        match self {
            Outcome::Ongoing => 0,
            Outcome::Extracted => 1,
            Outcome::Wiped => 2,
        }
    }

    pub fn from_tag(t: u8) -> (r: Option<Self>)
        ensures
            r == Self::of_tag(t),
    {
        match t {
            0 => Some(Outcome::Ongoing),
            1 => Some(Outcome::Extracted),
            2 => Some(Outcome::Wiped),
            _ => None,
        }
    }
}

} // verus!
