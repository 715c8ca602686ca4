//! Who is in the round, tick by tick.

use crate::player_map::{strictly_ascending, PlayerId};
use vstd::prelude::*;

verus! {

/// `r` lists the distinct members of `s` in ascending order.
pub open spec fn lists_in_order(r: Seq<PlayerId>, s: Seq<PlayerId>) -> bool {
    &&& strictly_ascending(r)
    &&& forall|id: PlayerId| #[trigger] r.contains(id) <==> s.contains(id)
}

/// The distinct members of `s` in ascending order.
pub open spec fn in_order(s: Seq<PlayerId>) -> Seq<PlayerId> {
    choose|r: Seq<PlayerId>| lists_in_order(r, s)
}

/// Two ascending lists with the same members are the same list.
pub proof fn lemma_ascending_unique(a: Seq<PlayerId>, b: Seq<PlayerId>)
    requires
        strictly_ascending(a),
        strictly_ascending(b),
        forall|id: PlayerId| #[trigger] a.contains(id) <==> b.contains(id),
    ensures
        a == b,
    decreases a.len(),
{
    if a.len() == 0 {
        if b.len() > 0 {
            assert(b.contains(b[0]));
            assert(a.contains(b[0]));
        }
        assert(a =~= b);
    } else {
        assert(a.contains(a[a.len() - 1]));
        assert(b.contains(a.last()));
        assert(b.contains(b[b.len() - 1]));
        assert(a.contains(b.last()));
        let i = choose|i: int| 0 <= i < b.len() && b[i] == a.last();
        let j = choose|j: int| 0 <= j < a.len() && a[j] == b.last();
        if i < b.len() - 1 {
            assert(b[i].0 < b[b.len() - 1].0);
            if j < a.len() - 1 {
                assert(a[j].0 < a[a.len() - 1].0);
            }
        }
        assert(a.last() == b.last());
        let da = a.drop_last();
        let db = b.drop_last();
        lemma_ascending_drop_last(a);
        lemma_ascending_drop_last(b);
        assert forall|id: PlayerId| #[trigger] da.contains(id) <==> db.contains(id) by {
            assert(a.contains(id) <==> b.contains(id));
        }
        lemma_ascending_unique(da, db);
        assert(a =~= da.push(a.last()));
        assert(b =~= db.push(b.last()));
    }
}

/// Dropping the last of an ascending list drops just that member.
pub proof fn lemma_ascending_drop_last(a: Seq<PlayerId>)
    requires
        strictly_ascending(a),
        a.len() > 0,
    ensures
        strictly_ascending(a.drop_last()),
        forall|id: PlayerId| #[trigger]
            a.drop_last().contains(id) <==> a.contains(id) && id != a.last(),
{
    let d = a.drop_last();
    assert forall|i: int, j: int| 0 <= i < j < d.len() implies (#[trigger] d[i]).0 < (
    #[trigger] d[j]).0 by {
        assert(a[i].0 < a[j].0);
    }
    assert forall|id: PlayerId| #[trigger] d.contains(id) <==> a.contains(id) && id != a.last() by {
        if d.contains(id) {
            let i = choose|i: int| 0 <= i < d.len() && d[i] == id;
            assert(a[i] == id);
            assert(a[i].0 < a[a.len() - 1].0);
        }
        if a.contains(id) && id != a.last() {
            let i = choose|i: int| 0 <= i < a.len() && a[i] == id;
            assert(d[i] == id);
        }
    }
}

/// The ascending list exists and is the only one.
pub proof fn lemma_in_order(s: Seq<PlayerId>, r: Seq<PlayerId>)
    requires
        lists_in_order(r, s),
    ensures
        in_order(s) == r,
{
    let c = in_order(s);
    assert(lists_in_order(c, s));
    assert forall|id: PlayerId| #[trigger] c.contains(id) <==> r.contains(id) by {
        assert(s.contains(id) <==> r.contains(id));
    }
    lemma_ascending_unique(c, r);
}

/// Only membership matters: lists with the same members order alike.
pub proof fn lemma_order_independent(a: Seq<PlayerId>, b: Seq<PlayerId>)
    requires
        forall|id: PlayerId| #[trigger] a.contains(id) <==> b.contains(id),
    ensures
        in_order(a) == in_order(b),
{
    assert forall|r: Seq<PlayerId>| lists_in_order(r, a) == lists_in_order(r, b) by {
        if lists_in_order(r, a) {
            assert forall|id: PlayerId| #[trigger] r.contains(id) <==> b.contains(id) by {
                assert(a.contains(id) <==> b.contains(id));
            }
        }
        if lists_in_order(r, b) {
            assert forall|id: PlayerId| #[trigger] r.contains(id) <==> a.contains(id) by {
                assert(a.contains(id) <==> b.contains(id));
            }
        }
    }
    lemma_in_order_exists(a);
    lemma_in_order(b, in_order(a));
}

pub proof fn lemma_in_order_exists(s: Seq<PlayerId>)
    ensures
        lists_in_order(in_order(s), s),
        in_order(s).len() <= s.len(),
        in_order(s).len() <= 256,
    decreases s.len(),
{
    if s.len() == 0 {
        assert(lists_in_order(s, s));
        lemma_in_order(s, s);
    } else {
        let d = s.drop_last();
        lemma_in_order_exists(d);
        let rd = in_order(d);
        let id = s.last();
        lemma_with_id(rd, id);
        let r = with_id(rd, id);
        assert forall|k: PlayerId| #[trigger] r.contains(k) <==> s.contains(k) by {
            assert(r.contains(k) <==> rd.contains(k) || k == id);
            if s.contains(k) && k != id {
                let i = choose|i: int| 0 <= i < s.len() && s[i] == k;
                assert(d[i] == k);
                assert(d.contains(k));
            }
            if d.contains(k) {
                let i = choose|i: int| 0 <= i < d.len() && d[i] == k;
                assert(s[i] == k);
            }
            if k == id {
                assert(s[s.len() - 1] == k);
            }
        }
        lemma_in_order(s, r);
    }
    lemma_ascending_len(in_order(s));
}

/// Seats are bytes, so an ascending list of them has at most 256.
pub proof fn lemma_ascending_len(s: Seq<PlayerId>)
    requires
        strictly_ascending(s),
    ensures
        s.len() <= 256,
        s.len() > 0 ==> s.len() <= s.last().0 + 1,
    decreases s.len(),
{
    if s.len() > 0 {
        lemma_ascending_drop_last(s);
        lemma_ascending_len(s.drop_last());
        if s.len() > 1 {
            assert(s[s.len() - 2].0 < s[s.len() - 1].0);
        }
    }
}

/// An ascending list with `id` added in its place.
pub open spec fn with_id(s: Seq<PlayerId>, id: PlayerId) -> Seq<PlayerId>
    decreases s.len(),
{
    if s.len() == 0 || s.last().0 < id.0 {
        s.push(id)
    } else if s.last() == id {
        s
    } else {
        with_id(s.drop_last(), id).push(s.last())
    }
}

pub proof fn lemma_with_id(s: Seq<PlayerId>, id: PlayerId)
    requires
        strictly_ascending(s),
    ensures
        strictly_ascending(with_id(s, id)),
        forall|k: PlayerId| #[trigger]
            with_id(s, id).contains(k) <==> s.contains(k) || k == id,
        with_id(s, id).len() <= s.len() + 1,
    decreases s.len(),
{
    let r = with_id(s, id);
    if s.len() == 0 || s.last().0 < id.0 {
        assert forall|i: int, j: int| 0 <= i < j < r.len() implies (#[trigger] r[i]).0 < (
        #[trigger] r[j]).0 by {
            if j < s.len() {
                assert(s[i].0 < s[j].0);
            } else if i < s.len() - 1 {
                assert(s[i].0 < s[s.len() - 1].0);
            }
        }
        assert forall|k: PlayerId| #[trigger] r.contains(k) <==> s.contains(k) || k == id by {
            if s.contains(k) {
                let i = choose|i: int| 0 <= i < s.len() && s[i] == k;
                assert(r[i] == k);
            }
            if k == id {
                assert(r[s.len() as int] == k);
            }
        }
    } else if s.last() == id {
        assert(s.contains(id));
    } else {
        let d = s.drop_last();
        lemma_ascending_drop_last(s);
        lemma_with_id(d, id);
        let rd = with_id(d, id);
        let last = s.last();
        assert forall|i: int| 0 <= i < rd.len() implies (#[trigger] rd[i]).0 < last.0 by {
            assert(rd.contains(rd[i]));
            if rd[i] != id {
                assert(d.contains(rd[i]));
                let k = choose|k: int| 0 <= k < d.len() && d[k] == rd[i];
                assert(s[k].0 < s[s.len() - 1].0);
            }
        }
        assert forall|i: int, j: int| 0 <= i < j < r.len() implies (#[trigger] r[i]).0 < (
        #[trigger] r[j]).0 by {
            if j < rd.len() {
                assert(rd[i].0 < rd[j].0);
            } else {
                assert(rd[i].0 < last.0);
            }
        }
        assert forall|k: PlayerId| #[trigger] r.contains(k) <==> s.contains(k) || k == id by {
            assert(rd.contains(k) <==> d.contains(k) || k == id);
            assert(d.contains(k) <==> s.contains(k) && k != last);
            if rd.contains(k) {
                let i = choose|i: int| 0 <= i < rd.len() && rd[i] == k;
                assert(r[i] == k);
            }
            if k == last {
                assert(r[r.len() - 1] == k);
                assert(s[s.len() - 1] == k);
            }
        }
    }
}

/// The distinct members of `set`, ascending.
pub(crate) fn sorted(set: &[PlayerId]) -> (v: Vec<PlayerId>)
    ensures
        v@ == in_order(set@),
        lists_in_order(v@, set@),
        v@.len() <= 256,
{
    let mut v: Vec<PlayerId> = Vec::new();
    let mut i: usize = 0;
    assert(set@.take(0) =~= Seq::<PlayerId>::empty());
    assert(lists_in_order(v@, set@.take(0)));
    while i < set.len()
        invariant
            i <= set.len(),
            lists_in_order(v@, set@.take(i as int)),
        decreases set.len() - i,
    {
        let ghost before = v@;
        let id = set[i];
        insert_sorted(&mut v, id);
        proof {
            lemma_with_id(before, id);
            let s0 = set@.take(i as int);
            let s1 = set@.take(i + 1);
            assert forall|k: PlayerId| #[trigger] v@.contains(k) <==> s1.contains(k) by {
                assert(before.contains(k) <==> s0.contains(k));
                if s0.contains(k) {
                    let j = choose|j: int| 0 <= j < s0.len() && s0[j] == k;
                    assert(s1[j] == k);
                }
                if s1.contains(k) {
                    let j = choose|j: int| 0 <= j < s1.len() && s1[j] == k;
                    if j < i {
                        assert(s0[j] == k);
                    }
                }
                if k == id {
                    assert(s1[i as int] == k);
                }
            }
        }
        i = i + 1;
    }
    proof {
        assert(set@.take(set@.len() as int) =~= set@);
        lemma_in_order(set@, v@);
        lemma_ascending_len(v@);
    }
    v
}

/// Add `id` to an ascending list, unless it is there.
pub(crate) fn insert_sorted(v: &mut Vec<PlayerId>, id: PlayerId)
    requires
        strictly_ascending(old(v)@),
    ensures
        final(v)@ == with_id(old(v)@, id),
        strictly_ascending(final(v)@),
{
    let ghost before = v@;
    proof {
        lemma_with_id(before, id);
    }
    let mut at: usize = v.len();
    assert(before.take(at as int) =~= before);
    assert(before.skip(at as int) =~= Seq::<PlayerId>::empty());
    assert(with_id(before, id) =~= with_id(before.take(at as int), id) + before.skip(at as int));
    while at > 0 && v[at - 1].0 > id.0
        invariant
            at <= v.len(),
            v@ == before,
            with_id(before, id) == with_id(before.take(at as int), id) + before.skip(at as int),
        decreases at,
    {
        proof {
            let t = before.take(at as int);
            assert(t.last() == before[at - 1]);
            assert(t.drop_last() =~= before.take(at - 1));
            assert(with_id(before, id) =~= with_id(before.take(at - 1), id) + before.skip(at - 1));
        }
        at = at - 1;
    }
    if at > 0 && v[at - 1] == id {
        proof {
            let t = before.take(at as int);
            assert(t.last() == id);
            assert(t + before.skip(at as int) =~= before);
        }
        return;
    }
    v.insert(at, id);
    proof {
        let t = before.take(at as int);
        if at > 0 {
            assert(t.last() == before[at - 1]);
        }
        assert(v@ =~= t.push(id) + before.skip(at as int));
    }
}

/// The change points: from each tick on, until the next one's, its list is the roster.
pub open spec fn well_scheduled(p: Seq<(u64, Seq<PlayerId>)>) -> bool {
    &&& p.len() > 0
    &&& p[0].0 == 0
    &&& forall|i: int, j: int| 0 <= i < j < p.len() ==> (#[trigger] p[i]).0 < (#[trigger] p[j]).0
    &&& forall|i: int| 0 <= i < p.len() ==> strictly_ascending((#[trigger] p[i]).1)
}

/// The roster at `tick`: that of the latest change point not after it.
pub open spec fn roster_at(p: Seq<(u64, Seq<PlayerId>)>, tick: u64) -> Seq<PlayerId>
    decreases p.len(),
{
    if p.len() == 0 {
        Seq::empty()
    } else if p.last().0 <= tick {
        p.last().1
    } else {
        roster_at(p.drop_last(), tick)
    }
}

/// The participant set over time.
#[derive(Debug, Clone, PartialEq, Eq)]
pub struct RosterSchedule {
    points: Vec<(u64, Vec<PlayerId>)>,
}

impl View for RosterSchedule {
    type V = Seq<(u64, Seq<PlayerId>)>;

    closed spec fn view(&self) -> Seq<(u64, Seq<PlayerId>)> {
        Seq::new(self.points@.len(), |i: int| (self.points@[i].0, self.points@[i].1@))
    }
}

/// A change point is strictly later than every one before it, so a scheduled change leaves
/// the roster of every earlier tick as it was and rules from its own tick on.
pub proof fn lemma_change_applies_from_its_tick(
    p: Seq<(u64, Seq<PlayerId>)>,
    at: u64,
    set: Seq<PlayerId>,
    tick: u64,
)
    requires
        well_scheduled(p),
        p.last().0 < at,
    ensures
        tick < at ==> roster_at(p.push((at, set)), tick) == roster_at(p, tick),
        tick >= at ==> roster_at(p.push((at, set)), tick) == set,
{
    assert(p.push((at, set)).drop_last() =~= p);
}

/// A well-scheduled roster is ascending at every tick.
pub proof fn lemma_roster_at_ascending(p: Seq<(u64, Seq<PlayerId>)>, tick: u64)
    requires
        well_scheduled(p),
    ensures
        strictly_ascending(roster_at(p, tick)),
        roster_at(p, tick).len() <= 256,
    decreases p.len(),
{
    if p.last().0 <= tick {
        lemma_ascending_len(p.last().1);
    } else {
        let d = p.drop_last();
        assert(p.len() > 1);
        assert(d[0] == p[0]);
        assert forall|i: int, j: int| 0 <= i < j < d.len() implies (#[trigger] d[i]).0 < (
        #[trigger] d[j]).0 by {
            assert(p[i].0 < p[j].0);
        }
        assert forall|i: int| 0 <= i < d.len() implies strictly_ascending((#[trigger] d[i]).1) by {
            assert(strictly_ascending(p[i].1));
        }
        lemma_roster_at_ascending(d, tick);
    }
}

/// From the latest change on, the roster is the latest one.
pub proof fn lemma_roster_settled(p: Seq<(u64, Seq<PlayerId>)>, tick: u64)
    requires
        well_scheduled(p),
        tick >= p.last().0,
    ensures
        roster_at(p, tick) == p.last().1,
{
}

impl RosterSchedule {
    pub open spec fn wf(&self) -> bool {
        well_scheduled(self@)
    }

    /// A schedule that is `initial` from tick 0 with no changes.
    pub fn frozen(initial: &[PlayerId]) -> (r: Self)
        ensures
            r.wf(),
            r@ == seq![(0u64, in_order(initial@))],
    {
        let first = sorted(initial);
        let mut points: Vec<(u64, Vec<PlayerId>)> = Vec::new();
        points.push((0, first));
        let r = RosterSchedule { points };
        assert(r@ =~= seq![(0u64, in_order(initial@))]);
        r
    }

    /// The roster at `tick`.
    pub fn at(&self, tick: u64) -> (ids: &[PlayerId])
        requires
            self.wf(),
        ensures
            ids@ == roster_at(self@, tick),
            strictly_ascending(ids@),
            ids@.len() <= 256,
    {
        proof {
            lemma_roster_at_ascending(self@, tick);
        }
        let mut i: usize = self.points.len() - 1;
        assert(self@.take(i + 1) =~= self@);
        while self.points[i].0 > tick
            invariant
                i < self.points.len(),
                self.wf(),
                roster_at(self@, tick) == roster_at(self@.take(i + 1), tick),
            decreases i,
        {
            proof {
                assert(self@[i as int].0 == self.points@[i as int].0);
                assert(self@[0].0 == 0);
                assert(self@.take(i + 1).last() == self@[i as int]);
                assert(self@.take(i + 1).drop_last() =~= self@.take(i as int));
            }
            i = i - 1;
        }
        proof {
            assert(self@.take(i + 1).last() == self@[i as int]);
        }
        self.points[i].1.as_slice()
    }

    /// The roster that the latest change left.
    pub fn current(&self) -> (ids: &[PlayerId])
        requires
            self.wf(),
        ensures
            ids@ == self@.last().1,
            strictly_ascending(ids@),
            ids@.len() <= 256,
    {
        proof {
            lemma_ascending_len(self@.last().1);
        }
        self.points[self.points.len() - 1].1.as_slice()
    }

    /// The tick of the latest change.
    pub fn latest_change_tick(&self) -> (t: u64)
        requires
            self.wf(),
        ensures
            t == self@.last().0,
    {
        self.points[self.points.len() - 1].0
    }

    /// The first tick, not before `floor`, at which a change can be scheduled.
    pub fn earliest_change_at(&self, floor: u64) -> (t: u64)
        requires
            self.wf(),
            self@.last().0 < u64::MAX,
        ensures
            t == (if floor > self@.last().0 {
                floor as int
            } else {
                self@.last().0 + 1
            }),
            t > self@.last().0,
            t >= floor,
    {
        let next: u64 = self.latest_change_tick() + 1;
        if floor > next {
            floor
        } else {
            next
        }
    }

    /// Make `set` the roster from `effective_tick` on. Delivering a change again is no
    /// change; a new one lies after every one before it.
    pub fn schedule_change(&mut self, effective_tick: u64, set: &[PlayerId])
        requires
            old(self).wf(),
            effective_tick > old(self)@.last().0 || old(self)@.contains(
                (effective_tick, in_order(set@)),
            ),
        ensures
            final(self).wf(),
            effective_tick > old(self)@.last().0 ==> final(self)@ == old(self)@.push(
                (effective_tick, in_order(set@)),
            ),
            effective_tick <= old(self)@.last().0 ==> final(self)@ == old(self)@,
    {
        let set = sorted(set);
        if effective_tick <= self.latest_change_tick() {
            return;
        }
        let ghost before = self@;
        self.points.push((effective_tick, set));
        proof {
            let after = self@;
            assert(after =~= before.push((effective_tick, set@)));
            assert forall|i: int, j: int| 0 <= i < j < after.len() implies (#[trigger] after[i]).0
                < (#[trigger] after[j]).0 by {
                if j == before.len() && i < before.len() - 1 {
                    assert(before[i].0 < before[before.len() - 1].0);
                } else if j < before.len() {
                    assert(before[i].0 < before[j].0);
                }
            }
            assert forall|i: int| 0 <= i < after.len() implies strictly_ascending(
                (#[trigger] after[i]).1,
            ) by {
                if i < before.len() {
                    assert(strictly_ascending(before[i].1));
                }
            }
        }
    }
}

} // verus!
