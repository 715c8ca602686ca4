//! The last poses of every part of every crab, as a client draws them.

use crate::render::articulation::{CrabArticulation, CrabFrame, PartTransform};
use crate::render::pose::{pushed, Pose, PoseWindow};
use vstd::prelude::*;

verus! {

/// How many tags a part can have.
pub const TAGS: usize = 256;

/// One pose window per crab and part: of crab `env` and tag `t`, the one at `env`, `t`.
#[derive(Debug)]
pub struct PartWindows {
    crabs: Vec<Vec<PoseWindow>>,
}

/// The poses that windows hold.
pub open spec fn window_views(v: Seq<PoseWindow>) -> Seq<Seq<(u64, Pose)>> {
    Seq::new(v.len(), |t: int| v[t]@)
}

impl View for PartWindows {
    type V = Seq<Seq<Seq<(u64, Pose)>>>;

    closed spec fn view(&self) -> Seq<Seq<Seq<(u64, Pose)>>> {
        Seq::new(self.crabs@.len(), |env: int| window_views(self.crabs@[env]@))
    }
}

/// The poses held of a part, none where its crab is not known.
pub open spec fn poses_of(w: Seq<Seq<Seq<(u64, Pose)>>>, env: int, tag: u8) -> Seq<(u64, Pose)> {
    if 0 <= env < w.len() {
        w[env][tag as int]
    } else {
        Seq::empty()
    }
}

/// Where a part is, as a pose.
pub open spec fn pose_of(p: PartTransform) -> Pose {
    Pose { pos: p.pos, orient: p.rot }
}

/// A part's window once the parts of its crab's frame were taken in, in order: each of its
/// own is pushed, and no other.
pub open spec fn fed(
    w: Seq<(u64, Pose)>,
    tag: u8,
    parts: Seq<PartTransform>,
    jumped: Seq<bool>,
    tick: u64,
) -> Seq<(u64, Pose)>
    decreases parts.len(),
{
    if parts.len() == 0 {
        w
    } else {
        let before = fed(w, tag, parts.drop_last(), jumped, tick);
        if parts.last().part == tag {
            pushed(before, tick, pose_of(parts.last()), jumped[parts.len() - 1])
        } else {
            before
        }
    }
}

/// There is a flag for every part of every crab.
pub open spec fn flags_fit(crabs: Seq<CrabFrame>, jumped: Seq<Vec<bool>>) -> bool {
    &&& jumped.len() == crabs.len()
    &&& forall|env: int|
        0 <= env < crabs.len() ==> (#[trigger] jumped[env])@.len() == crabs[env].parts@.len()
}

/// The windows after a tick: those of crabs that are gone are dropped, and each part's is
/// fed.
pub open spec fn adopted(
    w: Seq<Seq<Seq<(u64, Pose)>>>,
    art: CrabArticulation,
    jumped: Seq<Vec<bool>>,
) -> Seq<Seq<Seq<(u64, Pose)>>> {
    Seq::new(
        art.crabs@.len(),
        |env: int|
            Seq::new(
                TAGS as nat,
                |tag: int|
                    fed(
                        poses_of(w, env, tag as u8),
                        tag as u8,
                        art.crabs@[env].parts@,
                        jumped[env]@,
                        art.tick,
                    ),
            ),
    )
}

/// A part that its crab's frame names once has its window pushed with the tick and the pose.
pub proof fn lemma_named_part_is_pushed(
    w: Seq<(u64, Pose)>,
    parts: Seq<PartTransform>,
    jumped: Seq<bool>,
    tick: u64,
    i: int,
)
    requires
        0 <= i < parts.len(),
        forall|j: int| 0 <= j < parts.len() && j != i ==> (#[trigger] parts[j]).part != parts[i].part,
    ensures
        fed(w, parts[i].part, parts, jumped, tick) == pushed(
            w,
            tick,
            pose_of(parts[i]),
            jumped[i],
        ),
    decreases parts.len(),
{
    let d = parts.drop_last();
    assert forall|j: int| 0 <= j < d.len() && j != i implies (#[trigger] d[j]).part
        != parts[i].part by {
        assert(d[j] == parts[j]);
    }
    if i == parts.len() - 1 {
        lemma_unnamed_part_stays(w, parts[i].part, d, jumped, tick);
    } else {
        assert(d[i] == parts[i]);
        assert(parts[parts.len() - 1].part != parts[i].part);
        lemma_named_part_is_pushed(w, d, jumped, tick, i);
    }
}

/// A part that its crab's frame does not name keeps its window.
pub proof fn lemma_unnamed_part_stays(
    w: Seq<(u64, Pose)>,
    tag: u8,
    parts: Seq<PartTransform>,
    jumped: Seq<bool>,
    tick: u64,
)
    requires
        forall|j: int| 0 <= j < parts.len() ==> (#[trigger] parts[j]).part != tag,
    ensures
        fed(w, tag, parts, jumped, tick) == w,
    decreases parts.len(),
{
    if parts.len() > 0 {
        let d = parts.drop_last();
        assert forall|j: int| 0 <= j < d.len() implies (#[trigger] d[j]).part != tag by {
            assert(d[j] == parts[j]);
        }
        assert(parts[parts.len() - 1].part != tag);
        lemma_unnamed_part_stays(w, tag, d, jumped, tick);
    }
}

/// A window for every tag.
spec fn full_set(v: Seq<PoseWindow>) -> bool {
    v.len() == TAGS && forall|t: int| 0 <= t < v.len() ==> (#[trigger] v[t]).wf()
}

/// Windows that hold nothing.
fn empty_set() -> (v: Vec<PoseWindow>)
    ensures
        full_set(v@),
        forall|t: int| 0 <= t < v@.len() ==> (#[trigger] v@[t])@ == Seq::<(u64, Pose)>::empty(),
{
    let mut v: Vec<PoseWindow> = Vec::new();
    while v.len() < TAGS
        invariant
            v@.len() <= TAGS,
            forall|t: int| 0 <= t < v@.len() ==> (#[trigger] v@[t]).wf(),
            forall|t: int|
                0 <= t < v@.len() ==> (#[trigger] v@[t])@ == Seq::<(u64, Pose)>::empty(),
        decreases TAGS - v@.len(),
    {
        let w = PoseWindow::new();
        assert(w@ =~= Seq::<(u64, Pose)>::empty());
        v.push(w);
    }
    v
}

/// Take in the parts of one crab's frame.
fn feed(v: &mut Vec<PoseWindow>, parts: &Vec<PartTransform>, jumped: &Vec<bool>, tick: u64)
    requires
        full_set(old(v)@),
        jumped@.len() == parts@.len(),
    ensures
        full_set(final(v)@),
        forall|t: int|
            0 <= t < TAGS ==> (#[trigger] final(v)@[t])@ == fed(
                old(v)@[t]@,
                t as u8,
                parts@,
                jumped@,
                tick,
            ),
{
    let ghost start = v@;
    let mut i: usize = 0;
    while i < parts.len()
        invariant
            i <= parts@.len(),
            jumped@.len() == parts@.len(),
            full_set(v@),
            forall|t: int|
                0 <= t < TAGS ==> (#[trigger] v@[t])@ == fed(
                    start[t]@,
                    t as u8,
                    parts@.take(i as int),
                    jumped@,
                    tick,
                ),
        decreases parts@.len() - i,
    {
        let p = parts[i];
        let ghost before = v@;
        let at: usize = p.part as usize;
        proof {
            assert(parts@.take(i + 1).drop_last() =~= parts@.take(i as int));
            assert(parts@.take(i + 1).last() == p);
            assert(before[at as int].wf());
        }
        v[at].push(tick, Pose { pos: p.pos, orient: p.rot }, jumped[i]);
        proof {
            assert forall|t: int| 0 <= t < TAGS implies (#[trigger] v@[t])@ == fed(
                start[t]@,
                t as u8,
                parts@.take(i + 1),
                jumped@,
                tick,
            ) by {
                assert(before[t]@ == fed(start[t]@, t as u8, parts@.take(i as int), jumped@, tick));
                if t != at {
                    assert(v@[t] == before[t]);
                    assert(t as u8 != p.part);
                }
            }
            assert forall|t: int| 0 <= t < v@.len() implies (#[trigger] v@[t]).wf() by {
                if t != at {
                    assert(v@[t] == before[t]);
                }
            }
        }
        i = i + 1;
    }
    assert(parts@.take(i as int) =~= parts@);
}

impl PartWindows {
    /// A window for every tag of every crab, each at most three poses of ascending ticks.
    pub closed spec fn wf(&self) -> bool {
        forall|env: int| 0 <= env < self.crabs@.len() ==> full_set((#[trigger] self.crabs@[env])@)
    }

    /// Nothing taken in.
    pub fn new() -> (w: Self)
        ensures
            w.wf(),
            w@ == Seq::<Seq<Seq<(u64, Pose)>>>::empty(),
    {
        let w = PartWindows { crabs: Vec::new() };
        assert(w@ =~= Seq::<Seq<Seq<(u64, Pose)>>>::empty());
        w
    }

    /// The window of a part, if its crab is known.
    pub fn window(&self, env: usize, tag: u8) -> (r: Option<&PoseWindow>)
        requires
            self.wf(),
        ensures
            match r {
                Some(w) => env < self@.len() && w@ == poses_of(self@, env as int, tag) && w.wf(),
                None => env >= self@.len(),
            },
    {
        if env < self.crabs.len() {
            assert(full_set(self.crabs@[env as int]@));
            assert(self.crabs@[env as int]@[tag as int].wf());
            Some(&self.crabs[env][tag as usize])
        } else {
            None
        }
    }

    /// Take in a tick. `jumped` says of each part of each crab whether it lies farther from
    /// where it was than it can move.
    pub fn adopt(&mut self, art: &CrabArticulation, jumped: &Vec<Vec<bool>>)
        requires
            old(self).wf(),
            flags_fit(art.crabs@, jumped@),
        ensures
            final(self).wf(),
            final(self)@ == adopted(old(self)@, *art, jumped@),
    {
        let ghost start = self@;
        let n: usize = art.crabs.len();
        while self.crabs.len() > n
            invariant
                self.wf(),
                n == art.crabs@.len(),
                self@.len() == self.crabs@.len(),
                forall|env: int, tag: u8|
                    0 <= env < n ==> #[trigger] poses_of(self@, env, tag) == poses_of(
                        start,
                        env,
                        tag,
                    ),
            decreases self.crabs@.len(),
        {
            let ghost before = self.crabs@;
            let ghost seen = self@;
            self.crabs.pop();
            proof {
                assert(forall|env: int|
                    0 <= env < self.crabs@.len() ==> #[trigger] self.crabs@[env] == before[env]);
                assert forall|env: int, tag: u8| 0 <= env < n implies #[trigger] poses_of(
                    self@,
                    env,
                    tag,
                ) == poses_of(start, env, tag) by {
                    assert(poses_of(seen, env, tag) == poses_of(start, env, tag));
                    assert(self@[env] == seen[env]);
                }
            }
        }
        while self.crabs.len() < n
            invariant
                self.wf(),
                n == art.crabs@.len(),
                self.crabs@.len() <= n,
                self@.len() == self.crabs@.len(),
                forall|env: int, tag: u8|
                    0 <= env < n ==> #[trigger] poses_of(self@, env, tag) == poses_of(
                        start,
                        env,
                        tag,
                    ),
            decreases n - self.crabs@.len(),
        {
            let ghost before = self.crabs@;
            let ghost seen = self@;
            let fresh = empty_set();
            self.crabs.push(fresh);
            proof {
                assert(forall|env: int|
                    0 <= env < before.len() ==> #[trigger] self.crabs@[env] == before[env]);
                assert forall|env: int, tag: u8| 0 <= env < n implies #[trigger] poses_of(
                    self@,
                    env,
                    tag,
                ) == poses_of(start, env, tag) by {
                    assert(poses_of(seen, env, tag) == poses_of(start, env, tag));
                    if env < before.len() {
                        assert(self@[env] == seen[env]);
                    } else if env == before.len() {
                        assert(self@[env][tag as int] == fresh@[tag as int]@);
                    }
                }
            }
        }
        let mut env: usize = 0;
        while env < n
            invariant
                self.wf(),
                n == art.crabs@.len(),
                env <= n,
                self.crabs@.len() == n,
                flags_fit(art.crabs@, jumped@),
                forall|e: int, tag: u8|
                    env <= e < n ==> #[trigger] poses_of(self@, e, tag) == poses_of(start, e, tag),
                forall|e: int, tag: u8|
                    0 <= e < env ==> #[trigger] poses_of(self@, e, tag) == fed(
                        poses_of(start, e, tag),
                        tag,
                        art.crabs@[e].parts@,
                        jumped@[e]@,
                        art.tick,
                    ),
            decreases n - env,
        {
            let ghost before = self.crabs@;
            let ghost seen = self@;
            proof {
                assert(full_set(before[env as int]@));
                assert(jumped@[env as int]@.len() == art.crabs@[env as int].parts@.len());
            }
            feed(&mut self.crabs[env], &art.crabs[env].parts, &jumped[env], art.tick);
            proof {
                assert(forall|e: int|
                    0 <= e < n && e != env ==> #[trigger] self.crabs@[e] == before[e]);
                assert forall|e: int| 0 <= e < self.crabs@.len() implies full_set(
                    (#[trigger] self.crabs@[e])@,
                ) by {
                    if e != env {
                        assert(full_set(before[e]@));
                    }
                }
                assert forall|e: int, tag: u8| 0 <= e < n implies #[trigger] poses_of(
                    self@,
                    e,
                    tag,
                ) == (if e == env {
                    fed(
                        poses_of(start, e, tag),
                        tag,
                        art.crabs@[e].parts@,
                        jumped@[e]@,
                        art.tick,
                    )
                } else {
                    poses_of(seen, e, tag)
                }) by {
                    if e == env {
                        assert(poses_of(seen, e, tag) == poses_of(start, e, tag));
                        assert(self.crabs@[e]@[tag as int]@ == fed(
                            before[e]@[tag as int]@,
                            (tag as int) as u8,
                            art.crabs@[e].parts@,
                            jumped@[e]@,
                            art.tick,
                        ));
                    } else {
                        assert(self@[e] == seen[e]);
                    }
                }
            }
            env = env + 1;
        }
        proof {
            let goal = adopted(start, *art, jumped@);
            assert forall|e: int| 0 <= e < n implies #[trigger] self@[e] == goal[e] by {
                assert(full_set(self.crabs@[e]@));
                assert forall|t: int| 0 <= t < TAGS implies self@[e][t] == #[trigger] goal[e][t] by {
                    let tag = t as u8;
                    assert(poses_of(self@, e, tag) == fed(
                        poses_of(start, e, tag),
                        tag,
                        art.crabs@[e].parts@,
                        jumped@[e]@,
                        art.tick,
                    ));
                }
                assert(self@[e] =~= goal[e]);
            }
            assert(self@ =~= goal);
        }
    }
}

} // verus!
