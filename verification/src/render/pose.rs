//! The last poses of a body, by tick. Poses are carried as the bit patterns of their
//! single-precision values: nothing here computes with them.

use vstd::prelude::*;

verus! {

/// Where a body is.
#[derive(Debug, Clone, Copy, PartialEq, Eq)]
pub struct Pose {
    pub pos: [u32; 3],
    pub orient: [u32; 4],
}

/// How many poses are kept.
pub const WINDOW: usize = 3;

/// The last poses, oldest first.
#[derive(Debug)]
pub struct PoseWindow {
    buf: Vec<(u64, Pose)>,
}

impl View for PoseWindow {
    type V = Seq<(u64, Pose)>;

    closed spec fn view(&self) -> Seq<(u64, Pose)> {
        self.buf@
    }
}

/// The window with one more pose: it starts over where time does not advance or the body
/// jumped farther than it can move, and keeps the last three.
pub open spec fn pushed(w: Seq<(u64, Pose)>, tick: u64, p: Pose, jumped: bool) -> Seq<(u64, Pose)> {
    let kept = if w.len() > 0 && (tick <= w.last().0 || jumped) {
        Seq::empty()
    } else if w.len() >= WINDOW {
        w.skip(w.len() - WINDOW + 1)
    } else {
        w
    };
    kept.push((tick, p))
}

impl PoseWindow {
    /// At most three poses, of ascending ticks.
    pub open spec fn wf(&self) -> bool {
        &&& self@.len() <= WINDOW
        &&& forall|i: int, j: int| 0 <= i < j < self@.len() ==> (#[trigger] self@[i]).0 < (
        #[trigger] self@[j]).0
    }

    /// No poses.
    pub fn new() -> (w: Self)
        ensures
            w.wf(),
            w@.len() == 0,
    {
        PoseWindow { buf: Vec::new() }
    }

    /// Whether there are no poses.
    pub fn is_empty(&self) -> (b: bool)
        ensures
            b == (self@.len() == 0),
    {
        self.buf.len() == 0
    }

    /// Take in a pose. `jumped` says that it lies farther from the last one than the body
    /// can move.
    pub fn push(&mut self, tick: u64, p: Pose, jumped: bool)
        requires
            old(self).wf(),
        ensures
            final(self)@ == pushed(old(self)@, tick, p, jumped),
            final(self).wf(),
    {
        let ghost w = self@;
        let n: usize = self.buf.len();
        if n > 0 && (tick <= self.buf[n - 1].0 || jumped) {
            self.buf = Vec::new();
            assert(self.buf@ =~= Seq::empty());
        } else if n >= WINDOW {
            self.buf.remove(0);
            assert(self.buf@ =~= w.skip(w.len() - WINDOW + 1));
        }
        self.buf.push((tick, p));
    }

    /// The three poses to draw between, once there are three.
    pub fn full(&self) -> (r: Option<((u64, Pose), (u64, Pose), (u64, Pose))>)
        requires
            self.wf(),
        ensures
            match r {
                Some((a, b, c)) => self@ == seq![a, b, c],
                None => self@.len() < WINDOW,
            },
    {
        if self.buf.len() < WINDOW {
            return None;
        }
        let a: (u64, Pose) = self.buf[0];
        let b: (u64, Pose) = self.buf[1];
        let c: (u64, Pose) = self.buf[2];
        assert(self@ =~= seq![a, b, c]);
        Some((a, b, c))
    }

    /// The newest pose: what is drawn until there are three.
    pub fn newest(&self) -> (r: Option<Pose>)
        ensures
            match r {
                Some(p) => self@.len() > 0 && p == self@.last().1,
                None => self@.len() == 0,
            },
    {
        let n: usize = self.buf.len();
        if n == 0 {
            None
        } else {
            Some(self.buf[n - 1].1)
        }
    }
}

/// After a jump only the pose of arrival is drawn.
pub proof fn lemma_jump_starts_over(w: Seq<(u64, Pose)>, tick: u64, p: Pose)
    ensures
        pushed(w, tick, p, true) == seq![(tick, p)],
{
    assert(pushed(w, tick, p, true) =~= seq![(tick, p)]);
}

} // verus!
