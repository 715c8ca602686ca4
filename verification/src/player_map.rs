//! Player seats, and maps from seats to values kept in ascending seat order.

use vstd::prelude::*;

verus! {

/// A participant's seat in the round.
#[derive(Debug, Clone, Copy, PartialEq, Eq, PartialOrd, Ord, Hash, Structural)]
pub struct PlayerId(pub u8);

/// Each seat occurs once, and seats ascend.
pub open spec fn ascending<V>(s: Seq<(PlayerId, V)>) -> bool {
    forall|i: int, j: int| 0 <= i < j < s.len() ==> (#[trigger] s[i]).0.0 < (#[trigger] s[j]).0.0
}

/// Seat `id` has an entry.
pub open spec fn seated<V>(s: Seq<(PlayerId, V)>, id: PlayerId) -> bool {
    exists|i: int| 0 <= i < s.len() && (#[trigger] s[i]).0 == id
}

/// The entry number of seat `id`.
pub open spec fn seat_index<V>(s: Seq<(PlayerId, V)>, id: PlayerId) -> int {
    choose|i: int| 0 <= i < s.len() && (#[trigger] s[i]).0 == id
}

/// The value held for seat `id`.
pub open spec fn lookup<V>(s: Seq<(PlayerId, V)>, id: PlayerId) -> Option<V> {
    if seated(s, id) {
        Some(s[seat_index(s, id)].1)
    } else {
        None
    }
}

/// The entries with seat `id` set to `v`: a new entry in its place in the order, or the old
/// one replaced.
pub open spec fn put<V>(s: Seq<(PlayerId, V)>, id: PlayerId, v: V) -> Seq<(PlayerId, V)>
    decreases s.len(),
{
    if s.len() == 0 || s.last().0.0 < id.0 {
        s.push((id, v))
    } else if s.last().0 == id {
        s.drop_last().push((id, v))
    } else {
        put(s.drop_last(), id, v).push(s.last())
    }
}

/// The entries without seat `id`.
pub open spec fn without<V>(s: Seq<(PlayerId, V)>, id: PlayerId) -> Seq<(PlayerId, V)> {
    if seated(s, id) {
        s.remove(seat_index(s, id))
    } else {
        s
    }
}

/// The entries whose seat is one of `ids`.
pub open spec fn kept<V>(s: Seq<(PlayerId, V)>, ids: Seq<PlayerId>) -> Seq<(PlayerId, V)>
    decreases s.len(),
{
    if s.len() == 0 {
        s
    } else if ids.contains(s.last().0) {
        kept(s.drop_last(), ids).push(s.last())
    } else {
        kept(s.drop_last(), ids)
    }
}

/// The seats of the entries, in order.
pub open spec fn seats<V>(s: Seq<(PlayerId, V)>) -> Seq<PlayerId> {
    Seq::new(s.len(), |i: int| s[i].0)
}

/// Seats ascend strictly.
pub open spec fn strictly_ascending(s: Seq<PlayerId>) -> bool {
    forall|i: int, j: int| 0 <= i < j < s.len() ==> (#[trigger] s[i]).0 < (#[trigger] s[j]).0
}

pub proof fn lemma_lookup_at<V>(s: Seq<(PlayerId, V)>, i: int)
    requires
        ascending(s),
        0 <= i < s.len(),
    ensures
        seated(s, s[i].0),
        seat_index(s, s[i].0) == i,
        lookup(s, s[i].0) == Some(s[i].1),
{
    let id = s[i].0;
    assert(seated(s, id));
    let k = seat_index(s, id);
    assert(0 <= k < s.len() && s[k].0 == id);
    if k < i {
        assert(s[k].0.0 < s[i].0.0);
    } else if i < k {
        assert(s[i].0.0 < s[k].0.0);
    }
}

/// Setting a seat keeps the order, answers the new value for it, and leaves every other
/// seat alone.
pub proof fn lemma_put<V>(s: Seq<(PlayerId, V)>, id: PlayerId, v: V)
    requires
        ascending(s),
    ensures
        ascending(put(s, id, v)),
        seated(put(s, id, v), id),
        lookup(put(s, id, v), id) == Some(v),
        forall|k: PlayerId|
            k != id ==> #[trigger] lookup(put(s, id, v), k) == lookup(s, k) && seated(
                put(s, id, v),
                k,
            ) == seated(s, k),
        s.len() <= put(s, id, v).len() <= s.len() + 1,
    decreases s.len(),
{
    let r = put(s, id, v);
    lemma_put_order(s, id, v);
    let at = put_at(s, id);
    lemma_lookup_at(r, at);
    assert forall|k: PlayerId| k != id implies #[trigger] lookup(r, k) == lookup(s, k) && seated(r, k)
        == seated(s, k) by {
        if seated(s, k) {
            let i = seat_index(s, k);
            lemma_lookup_at(s, i);
            if i < at {
                assert(r[i] == s[i]);
                lemma_lookup_at(r, i);
            } else {
                let j = if r.len() == s.len() {
                    i
                } else {
                    i + 1
                };
                assert(r[j] == s[i]);
                lemma_lookup_at(r, j);
            }
        }
        if seated(r, k) {
            let j = seat_index(r, k);
            if j < at {
                assert(r[j] == s[j]);
                assert(seated(s, k));
            } else {
                assert(j != at);
                let i = if r.len() == s.len() {
                    j
                } else {
                    j - 1
                };
                assert(r[j] == s[i]);
                assert(seated(s, k));
            }
        }
    }
}

/// Where [`put`] writes.
pub open spec fn put_at<V>(s: Seq<(PlayerId, V)>, id: PlayerId) -> int
    decreases s.len(),
{
    if s.len() == 0 || s.last().0.0 < id.0 {
        s.len() as int
    } else if s.last().0 == id {
        s.len() - 1
    } else {
        put_at(s.drop_last(), id)
    }
}

/// The shape of [`put`]: everything before the place is below the seat, everything after is
/// above it.
pub proof fn lemma_put_order<V>(s: Seq<(PlayerId, V)>, id: PlayerId, v: V)
    requires
        ascending(s),
    ensures
        ({
            let r = put(s, id, v);
            let at = put_at(s, id);
            &&& 0 <= at <= s.len()
            &&& forall|i: int| 0 <= i < at ==> (#[trigger] s[i]).0.0 < id.0
            &&& forall|i: int| 0 <= i < at ==> #[trigger] r[i] == s[i]
            &&& at < r.len() && r[at] == (id, v)
            &&& (at < s.len() && s[at].0 == id) ==> r == s.update(at, (id, v))
            &&& !(at < s.len() && s[at].0 == id) ==> r == s.insert(at, (id, v)) && (forall|i: int|
                at <= i < s.len() ==> id.0 < (#[trigger] s[i]).0.0)
            &&& ascending(r)
            &&& seated(s, id) ==> at < s.len() && s[at].0 == id
        }),
    decreases s.len(),
{
    let r = put(s, id, v);
    let at = put_at(s, id);
    if s.len() == 0 || s.last().0.0 < id.0 {
        assert(r =~= s.insert(at, (id, v)));
        assert forall|i: int| 0 <= i < at implies (#[trigger] s[i]).0.0 < id.0 by {
            if i < s.len() - 1 {
                assert(s[i].0.0 < s[s.len() - 1].0.0);
            }
        }
    } else if s.last().0 == id {
        assert(r =~= s.update(at, (id, v)));
        assert forall|i: int| 0 <= i < at implies (#[trigger] s[i]).0.0 < id.0 by {
            assert(s[i].0.0 < s[s.len() - 1].0.0);
        }
    } else {
        let d = s.drop_last();
        assert forall|i: int, j: int| 0 <= i < j < d.len() implies (#[trigger] d[i]).0.0 < (
        #[trigger] d[j]).0.0 by {
            assert(s[i].0.0 < s[j].0.0);
        }
        lemma_put_order(d, id, v);
        let rd = put(d, id, v);
        assert(forall|i: int| 0 <= i < d.len() ==> #[trigger] d[i] == s[i]);
        assert forall|i: int| 0 <= i < at implies (#[trigger] s[i]).0.0 < id.0 by {
            assert(d[i].0.0 < id.0);
        }
        if at < d.len() && d[at].0 == id {
            assert(r =~= s.update(at, (id, v)));
        } else {
            assert(r =~= s.insert(at, (id, v)));
            assert forall|i: int| at <= i < s.len() implies id.0 < (#[trigger] s[i]).0.0 by {
                if i < d.len() {
                    assert(id.0 < d[i].0.0);
                }
            }
        }
    }
    assert forall|i: int, j: int| 0 <= i < j < r.len() implies (#[trigger] r[i]).0.0 < (
    #[trigger] r[j]).0.0 by {
        if r.len() == s.len() {
            assert(s[i].0.0 < s[j].0.0);
        } else {
            let i0 = if i < at {
                i
            } else {
                i - 1
            };
            let j0 = if j < at {
                j
            } else {
                j - 1
            };
            if i == at {
                assert(s[j0].0.0 > id.0);
            } else if j == at {
                assert(s[i0].0.0 < id.0);
            } else {
                assert(s[i0].0.0 < s[j0].0.0);
            }
        }
    }
    if seated(s, id) {
        let k = seat_index(s, id);
        if k < at {
            assert(s[k].0.0 < id.0);
        } else if !(at < s.len() && s[at].0 == id) {
            assert(id.0 < s[k].0.0);
        }
    }
}

/// Dropping a seat keeps the order, empties that seat, and leaves every other seat alone.
pub proof fn lemma_without<V>(s: Seq<(PlayerId, V)>, id: PlayerId)
    requires
        ascending(s),
    ensures
        ascending(without(s, id)),
        !seated(without(s, id), id),
        forall|k: PlayerId|
            k != id ==> #[trigger] lookup(without(s, id), k) == lookup(s, k) && seated(
                without(s, id),
                k,
            ) == seated(s, k),
{
    let r = without(s, id);
    if seated(s, id) {
        let at = seat_index(s, id);
        assert(0 <= at < s.len() && s[at].0 == id);
        assert forall|i: int, j: int| 0 <= i < j < r.len() implies (#[trigger] r[i]).0.0 < (
        #[trigger] r[j]).0.0 by {
            let i0 = if i < at {
                i
            } else {
                i + 1
            };
            let j0 = if j < at {
                j
            } else {
                j + 1
            };
            assert(s[i0].0.0 < s[j0].0.0);
        }
        if seated(r, id) {
            let i = seat_index(r, id);
            let i0 = if i < at {
                i
            } else {
                i + 1
            };
            assert(s[i0].0 == id);
            if i0 < at {
                assert(s[i0].0.0 < s[at].0.0);
            } else {
                assert(s[at].0.0 < s[i0].0.0);
            }
        }
        assert forall|k: PlayerId| k != id implies #[trigger] lookup(r, k) == lookup(s, k) && seated(
            r,
            k,
        ) == seated(s, k) by {
            if seated(s, k) {
                let i = seat_index(s, k);
                assert(i != at);
                let j = if i < at {
                    i
                } else {
                    i - 1
                };
                assert(r[j] == s[i]);
                lemma_lookup_at(r, j);
            }
            if seated(r, k) {
                let j = seat_index(r, k);
                let i = if j < at {
                    j
                } else {
                    j + 1
                };
                assert(s[i] == r[j]);
                lemma_lookup_at(s, i);
            }
        }
    }
}

/// Keeping only some seats keeps the order and the values of the seats kept.
pub proof fn lemma_kept<V>(s: Seq<(PlayerId, V)>, ids: Seq<PlayerId>)
    requires
        ascending(s),
    ensures
        ascending(kept(s, ids)),
        kept(s, ids).len() <= s.len(),
        forall|i: int|
            0 <= i < kept(s, ids).len() ==> ids.contains((#[trigger] kept(s, ids)[i]).0) && seated(
                s,
                kept(s, ids)[i].0,
            ),
        forall|k: PlayerId|
            #[trigger]
            lookup(kept(s, ids), k) == (if ids.contains(k) {
                lookup(s, k)
            } else {
                None
            }),
        forall|k: PlayerId| #[trigger] seated(kept(s, ids), k) == (seated(s, k) && ids.contains(k)),
    decreases s.len(),
{
    let r = kept(s, ids);
    if s.len() > 0 {
        let d = s.drop_last();
        let last = s.last();
        assert forall|i: int, j: int| 0 <= i < j < d.len() implies (#[trigger] d[i]).0.0 < (
        #[trigger] d[j]).0.0 by {
            assert(s[i].0.0 < s[j].0.0);
        }
        lemma_kept(d, ids);
        let rd = kept(d, ids);
        assert forall|i: int| 0 <= i < rd.len() implies (#[trigger] rd[i]).0.0 < last.0.0 by {
            assert(seated(d, rd[i].0));
            let k = seat_index(d, rd[i].0);
            assert(d[k].0 == rd[i].0);
            assert(s[k].0.0 < s[s.len() - 1].0.0);
        }
        assert forall|k: PlayerId| #[trigger] seated(r, k) == (seated(s, k) && ids.contains(k)) by {
            assert(seated(rd, k) == (seated(d, k) && ids.contains(k)));
            if seated(d, k) {
                let i = seat_index(d, k);
                assert(s[i] == d[i]);
            }
            if seated(s, k) && k != last.0 {
                let i = seat_index(s, k);
                assert(d[i] == s[i]);
            }
            if seated(rd, k) {
                let i = seat_index(rd, k);
                assert(r[i] == rd[i]);
            }
            if seated(r, k) {
                let i = seat_index(r, k);
                if i < rd.len() {
                    assert(rd[i] == r[i]);
                }
            }
            if k == last.0 {
                assert(s[s.len() - 1].0 == k);
                if ids.contains(k) {
                    assert(r[r.len() - 1].0 == k);
                }
            }
        }
        assert forall|k: PlayerId|
            #[trigger]
            lookup(r, k) == (if ids.contains(k) {
                lookup(s, k)
            } else {
                None
            }) by {
            assert(lookup(rd, k) == (if ids.contains(k) {
                lookup(d, k)
            } else {
                None
            }));
            assert(seated(r, k) == (seated(s, k) && ids.contains(k)));
            if seated(r, k) {
                if k == last.0 {
                    lemma_lookup_at(s, s.len() - 1);
                    lemma_lookup_at(r, r.len() - 1);
                } else {
                    let i = seat_index(s, k);
                    assert(d[i] == s[i]);
                    lemma_lookup_at(s, i);
                    lemma_lookup_at(d, i);
                    let j = seat_index(r, k);
                    assert(rd[j] == r[j]);
                    lemma_lookup_at(r, j);
                    lemma_lookup_at(rd, j);
                }
            }
        }
        assert forall|i: int| 0 <= i < r.len() implies ids.contains((#[trigger] r[i]).0) && seated(
            s,
            r[i].0,
        ) by {
            assert(seated(r, r[i].0));
        }
    }
}

/// Entries in ascending order are determined by what each seat holds.
pub proof fn lemma_entries_unique<V>(a: Seq<(PlayerId, V)>, b: Seq<(PlayerId, V)>)
    requires
        ascending(a),
        ascending(b),
        forall|k: PlayerId| #[trigger] lookup(a, k) == lookup(b, k),
    ensures
        a == b,
    decreases a.len(),
{
    if a.len() == 0 {
        if b.len() > 0 {
            lemma_lookup_at(b, 0);
            assert(lookup(a, b[0].0) == lookup(b, b[0].0));
            assert(seated(a, b[0].0));
        }
        assert(a =~= b);
    } else {
        let la = a.last();
        lemma_lookup_at(a, a.len() - 1);
        assert(lookup(b, la.0) == lookup(a, la.0));
        assert(seated(b, la.0));
        let kb = seat_index(b, la.0);
        lemma_lookup_at(b, kb);
        let lb = b.last();
        lemma_lookup_at(b, b.len() - 1);
        assert(lookup(a, lb.0) == lookup(b, lb.0));
        assert(seated(a, lb.0));
        let ka = seat_index(a, lb.0);
        lemma_lookup_at(a, ka);
        if kb < b.len() - 1 {
            assert(b[kb].0.0 < b[b.len() - 1].0.0);
            if ka < a.len() - 1 {
                assert(a[ka].0.0 < a[a.len() - 1].0.0);
            }
        }
        assert(kb == b.len() - 1);
        assert(la == lb);
        let da = a.drop_last();
        let db = b.drop_last();
        assert forall|i: int, j: int| 0 <= i < j < da.len() implies (#[trigger] da[i]).0.0 < (
        #[trigger] da[j]).0.0 by {
            assert(a[i].0.0 < a[j].0.0);
        }
        assert forall|i: int, j: int| 0 <= i < j < db.len() implies (#[trigger] db[i]).0.0 < (
        #[trigger] db[j]).0.0 by {
            assert(b[i].0.0 < b[j].0.0);
        }
        assert forall|k: PlayerId| #[trigger] lookup(da, k) == lookup(db, k) by {
            assert(lookup(a, k) == lookup(b, k));
            lemma_lookup_drop_last(a, k);
            lemma_lookup_drop_last(b, k);
        }
        lemma_entries_unique(da, db);
        assert(a =~= da.push(la));
        assert(b =~= db.push(lb));
    }
}

proof fn lemma_lookup_drop_last<V>(a: Seq<(PlayerId, V)>, k: PlayerId)
    requires
        ascending(a),
        a.len() > 0,
    ensures
        lookup(a.drop_last(), k) == (if k == a.last().0 {
            None
        } else {
            lookup(a, k)
        }),
{
    let d = a.drop_last();
    assert forall|i: int, j: int| 0 <= i < j < d.len() implies (#[trigger] d[i]).0.0 < (
    #[trigger] d[j]).0.0 by {
        assert(a[i].0.0 < a[j].0.0);
    }
    if seated(d, k) {
        let i = seat_index(d, k);
        assert(a[i] == d[i]);
        assert(a[i].0.0 < a[a.len() - 1].0.0);
        lemma_lookup_at(a, i);
        lemma_lookup_at(d, i);
    } else if seated(a, k) && k != a.last().0 {
        let i = seat_index(a, k);
        assert(d[i] == a[i]);
    }
}

/// A map from seats to values, walked in ascending seat order.
#[derive(Debug, Clone, PartialEq, Eq)]
pub struct PlayerMap<V> {
    entries: Vec<(PlayerId, V)>,
}

impl<V> View for PlayerMap<V> {
    type V = Seq<(PlayerId, V)>;

    closed spec fn view(&self) -> Seq<(PlayerId, V)> {
        self.entries@
    }
}

impl<V> PlayerMap<V> {
    /// The entries ascend.
    pub open spec fn wf(&self) -> bool {
        ascending(self@)
    }

    pub fn new() -> (m: Self)
        ensures
            m.wf(),
            m@ == Seq::<(PlayerId, V)>::empty(),
    {
        PlayerMap { entries: Vec::new() }
    }

    pub fn len(&self) -> (n: usize)
        ensures
            n == self@.len(),
    {
        self.entries.len()
    }

    pub fn is_empty(&self) -> (b: bool)
        ensures
            b == (self@.len() == 0),
    {
        self.entries.len() == 0
    }

    /// The seat of entry `i`.
    pub fn key_at(&self, i: usize) -> (id: PlayerId)
        requires
            i < self@.len(),
        ensures
            id == self@[i as int].0,
    {
        self.entries[i].0
    }

    /// The value of entry `i`.
    pub fn value_at(&self, i: usize) -> (v: &V)
        requires
            i < self@.len(),
        ensures
            *v == self@[i as int].1,
    {
        &self.entries[i].1
    }

    /// Replace the value of entry `i`, handing the old one back.
    pub fn replace_at(&mut self, i: usize, v: V) -> (old_v: V)
        requires
            i < old(self)@.len(),
        ensures
            final(self)@ == old(self)@.update(i as int, (old(self)@[i as int].0, v)),
            old_v == old(self)@[i as int].1,
            old(self).wf() ==> final(self).wf(),
    {
        let id = self.entries[i].0;
        let ghost before = self.entries@;
        self.entries.push((id, v));
        let (_, old_v) = self.entries.swap_remove(i);
        assert(self.entries@ =~= before.update(i as int, (id, v)));
        proof {
            if ascending(before) {
                let after = self.entries@;
                assert forall|a: int, b: int| 0 <= a < b < after.len() implies (
                #[trigger] after[a]).0.0 < (#[trigger] after[b]).0.0 by {
                    assert(before[a].0.0 < before[b].0.0);
                }
            }
        }
        old_v
    }

    /// The entry number of seat `id`.
    pub fn position(&self, id: PlayerId) -> (r: Option<usize>)
        requires
            self.wf(),
        ensures
            match r {
                Some(i) => i < self@.len() && seated(self@, id) && seat_index(self@, id) == i
                    && self@[i as int].0 == id,
                None => !seated(self@, id),
            },
    {
        let mut i: usize = 0;
        while i < self.entries.len()
            invariant
                i <= self.entries.len(),
                self.wf(),
                forall|k: int| 0 <= k < i ==> (#[trigger] self@[k]).0 != id,
            decreases self.entries.len() - i,
        {
            if self.entries[i].0 == id {
                proof {
                    lemma_lookup_at(self@, i as int);
                }
                return Some(i);
            }
            i = i + 1;
        }
        None
    }

    pub fn contains_key(&self, id: PlayerId) -> (b: bool)
        requires
            self.wf(),
        ensures
            b == seated(self@, id),
    {
        self.position(id).is_some()
    }

    pub fn get(&self, id: PlayerId) -> (r: Option<&V>)
        requires
            self.wf(),
        ensures
            match r {
                Some(v) => lookup(self@, id) == Some(*v),
                None => lookup(self@, id) is None && !seated(self@, id),
            },
    {
        match self.position(id) {
            Some(i) => Some(&self.entries[i].1),
            None => None,
        }
    }

    /// Set seat `id` to `v`, handing back what it held.
    pub fn insert(&mut self, id: PlayerId, v: V) -> (r: Option<V>)
        requires
            old(self).wf(),
        ensures
            final(self).wf(),
            final(self)@ == put(old(self)@, id, v),
            r == lookup(old(self)@, id),
    {
        proof {
            lemma_put_order(self@, id, v);
        }
        let ghost before = self@;
        let mut at: usize = 0;
        while at < self.entries.len() && self.entries[at].0.0 < id.0
            invariant
                at <= self.entries.len(),
                self@ == before,
                ascending(before),
                forall|k: int| 0 <= k < at ==> (#[trigger] before[k]).0.0 < id.0,
            decreases self.entries.len() - at,
        {
            at = at + 1;
        }
        proof {
            let pa = put_at(before, id);
            if at < pa {
                assert(before[at as int].0.0 < id.0);
            }
            if pa < at {
                assert(before[pa].0.0 < id.0);
            }
            assert(pa == at);
        }
        if at < self.entries.len() && self.entries[at].0 == id {
            let old_v = self.replace_at(at, v);
            proof {
                lemma_lookup_at(before, at as int);
            }
            Some(old_v)
        } else {
            self.entries.insert(at, (id, v));
            None
        }
    }

    /// Drop seat `id`, handing back what it held.
    pub fn remove(&mut self, id: PlayerId) -> (r: Option<V>)
        requires
            old(self).wf(),
        ensures
            final(self).wf(),
            final(self)@ == without(old(self)@, id),
            r == lookup(old(self)@, id),
    {
        proof {
            lemma_without(self@, id);
        }
        match self.position(id) {
            Some(i) => {
                let (_, v) = self.entries.remove(i);
                Some(v)
            },
            None => None,
        }
    }

    /// Drop every entry whose seat is not among `ids`.
    pub fn keep_only(&mut self, ids: &[PlayerId])
        requires
            old(self).wf(),
        ensures
            final(self).wf(),
            final(self)@ == kept(old(self)@, ids@),
    {
        let ghost before = self@;
        proof {
            lemma_kept(before, ids@);
        }
        let mut i: usize = 0;
        let ghost mut seen: nat = 0;
        assert(before.take(0) =~= Seq::empty());
        assert(self@ =~= kept(before.take(0), ids@) + before.skip(0));
        while i < self.entries.len()
            invariant
                i <= self.entries.len(),
                seen <= before.len(),
                self@ == kept(before.take(seen as int), ids@) + before.skip(seen as int),
                i == kept(before.take(seen as int), ids@).len(),
            decreases before.len() - seen,
        {
            let id = self.entries[i].0;
            proof {
                assert(self@[i as int] == before.skip(seen as int)[0]);
                assert(before.take(seen as int + 1).drop_last() =~= before.take(seen as int));
                assert(before.take(seen as int + 1).last() == before[seen as int]);
            }
            if contains_id(ids, id) {
                i = i + 1;
            } else {
                self.entries.remove(i);
            }
            proof {
                seen = seen + 1;
                assert(self@ =~= kept(before.take(seen as int), ids@) + before.skip(seen as int));
            }
        }
        proof {
            assert(before.take(seen as int) =~= before) by {
                assert(before.skip(seen as int).len() == 0);
            }
            assert(self@ =~= kept(before, ids@));
        }
    }
}

impl<V: Copy> PlayerMap<V> {
    /// An equal map.
    pub fn copied(&self) -> (m: Self)
        requires
            self.wf(),
        ensures
            m@ == self@,
            m.wf(),
    {
        let mut entries: Vec<(PlayerId, V)> = Vec::new();
        let mut i: usize = 0;
        while i < self.entries.len()
            invariant
                i <= self.entries.len(),
                entries@ == self.entries@.take(i as int),
            decreases self.entries.len() - i,
        {
            entries.push((self.entries[i].0, self.entries[i].1));
            i = i + 1;
            assert(entries@ =~= self.entries@.take(i as int));
        }
        assert(entries@ =~= self.entries@);
        PlayerMap { entries }
    }
}

/// Whether `id` is among `ids`.
pub fn contains_id(ids: &[PlayerId], id: PlayerId) -> (b: bool)
    ensures
        b == ids@.contains(id),
{
    let mut i: usize = 0;
    while i < ids.len()
        invariant
            i <= ids.len(),
            forall|k: int| 0 <= k < i ==> (#[trigger] ids@[k]) != id,
        decreases ids.len() - i,
    {
        if ids[i] == id {
            assert(ids@[i as int] == id);
            return true;
        }
        i = i + 1;
    }
    false
}

} // verus!
