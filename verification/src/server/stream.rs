//! One remote player's inputs, queued in issue order.

use crate::client::TickMsg;
use crate::player_map::{
    ascending, lemma_lookup_at, lookup, put, seat_index, seated, without, PlayerId,
};
use crate::sim::input::{held, neutral, pressing, Input};
use std::collections::VecDeque;
use vstd::prelude::*;

verus! {

/// A queue is folded down to this depth when an input is recorded, so a burst after a stall
/// never becomes that player's standing latency.
pub const TARGET_BACKLOG: usize = 2;

/// What a stream holds.
pub struct StreamState {
    pub queue: Seq<TickMsg>,
    /// The last input consumed: what a starved tick holds.
    pub held: Input,
    /// The first issue tick not yet consumed; zero before anything was.
    pub input_next: u64,
}

/// A stream that has seen nothing.
pub open spec fn fresh_stream() -> StreamState {
    StreamState { queue: Seq::empty(), held: neutral(), input_next: 0 }
}

/// Issue ticks ascend from the watermark on, and the depth is within the target.
pub open spec fn stream_wf(s: StreamState) -> bool {
    &&& s.queue.len() <= TARGET_BACKLOG
    &&& forall|i: int| 0 <= i < s.queue.len() ==> s.input_next <= (#[trigger] s.queue[i]).issue_tick
    &&& forall|i: int| 0 <= i < s.queue.len() ==> (#[trigger] s.queue[i]).issue_tick < u64::MAX
    &&& forall|i: int, j: int|
        0 <= i < j < s.queue.len() ==> (#[trigger] s.queue[i]).issue_tick < (
        #[trigger] s.queue[j]).issue_tick
}

/// The first issue tick that would be news.
pub open spec fn next_fresh(s: StreamState) -> int {
    if s.queue.len() == 0 {
        s.input_next as int
    } else {
        s.queue.last().issue_tick + 1
    }
}

/// `a + b` kept within 16 bits.
pub open spec fn saturating_sum(a: i16, b: i16) -> i16 {
    if a + b > i16::MAX {
        i16::MAX
    } else if a + b < i16::MIN {
        i16::MIN
    } else {
        (a + b) as i16
    }
}

/// `next` with the taps and the turn of the `dropped` input before it: a tap or a turn is
/// never lost, only the move axes skip ahead.
pub open spec fn folded_onto(dropped: TickMsg, next: TickMsg) -> TickMsg {
    TickMsg {
        input: Input {
            buttons: next.input.buttons | dropped.input.buttons,
            look_yaw: saturating_sum(next.input.look_yaw, dropped.input.look_yaw),
            ..next.input
        },
        ..next
    }
}

/// The queue folded from the front until it is no deeper than the target.
pub open spec fn folded(q: Seq<TickMsg>) -> Seq<TickMsg>
    decreases q.len(),
{
    if q.len() <= TARGET_BACKLOG {
        q
    } else {
        folded(q.skip(1).update(0, folded_onto(q[0], q[1])))
    }
}

/// The stream after a delivery: news is queued, anything else is dropped.
pub open spec fn recorded(s: StreamState, msg: TickMsg) -> StreamState {
    if msg.issue_tick < next_fresh(s) {
        s
    } else {
        StreamState { queue: folded(s.queue.push(msg)), ..s }
    }
}

/// The stream after it has filled one tick.
pub open spec fn consumed(s: StreamState) -> StreamState {
    if s.queue.len() == 0 {
        s
    } else {
        StreamState {
            queue: s.queue.skip(1),
            held: s.queue[0].input,
            input_next: (s.queue[0].issue_tick + 1) as u64,
        }
    }
}

/// What the stream fills a tick with: the next queued input, or a hold of the last one.
pub open spec fn fill_of(s: StreamState) -> Input {
    if s.queue.len() == 0 {
        held(s.held)
    } else {
        s.queue[0].input
    }
}

/// Nothing was queued to fill the tick with.
pub open spec fn is_starved(s: StreamState) -> bool {
    s.queue.len() == 0
}

/// One remote player's ordered input queue and hold state.
#[derive(Debug, Clone)]
pub struct InputStream {
    queue: VecDeque<TickMsg>,
    held: Input,
    input_next: u64,
}

impl View for InputStream {
    type V = StreamState;

    closed spec fn view(&self) -> StreamState {
        StreamState { queue: self.queue@, held: self.held, input_next: self.input_next }
    }
}

/// A delivered input is queued or was stale, and the stream stays well formed.
pub proof fn lemma_recorded_wf(s: StreamState, msg: TickMsg)
    requires
        stream_wf(s),
        msg.issue_tick < u64::MAX,
    ensures
        stream_wf(recorded(s, msg)),
        msg.issue_tick >= next_fresh(s) ==> next_fresh(recorded(s, msg)) == msg.issue_tick + 1,
{
    if msg.issue_tick >= next_fresh(s) {
        let q = s.queue.push(msg);
        assert forall|i: int, j: int| 0 <= i < j < q.len() implies (#[trigger] q[i]).issue_tick < (
        #[trigger] q[j]).issue_tick by {
            if j == s.queue.len() && i < s.queue.len() - 1 {
                assert(s.queue[i].issue_tick < s.queue[s.queue.len() - 1].issue_tick);
            }
        }
        if q.len() > TARGET_BACKLOG {
            let r = q.skip(1).update(0, folded_onto(q[0], q[1]));
            assert(folded(q) == folded(r));
            assert(folded(r) == r);
            assert(r.len() == 2);
            assert(r[1] == q[2]);
            assert(r[0].issue_tick == q[1].issue_tick);
        } else {
            assert(folded(q) == q);
        }
    }
}

/// Filling a tick keeps the stream well formed, and the watermark only rises.
pub proof fn lemma_consumed_wf(s: StreamState)
    requires
        stream_wf(s),
    ensures
        stream_wf(consumed(s)),
        consumed(s).input_next >= s.input_next,
        next_fresh(consumed(s)) == next_fresh(s),
        is_starved(s) ==> consumed(s) == s,
{
    if s.queue.len() > 0 {
        let c = consumed(s);
        assert forall|i: int| 0 <= i < c.queue.len() implies c.input_next <= (
        #[trigger] c.queue[i]).issue_tick && c.queue[i].issue_tick < u64::MAX by {
            assert(s.queue[0].issue_tick < s.queue[i + 1].issue_tick);
        }
        assert forall|i: int, j: int| 0 <= i < j < c.queue.len() implies (
        #[trigger] c.queue[i]).issue_tick < (#[trigger] c.queue[j]).issue_tick by {
            assert(s.queue[i + 1].issue_tick < s.queue[j + 1].issue_tick);
        }
        if c.queue.len() > 0 {
            assert(c.queue.last() == s.queue.last());
        }
    }
}

/// Delivering an input again changes nothing.
pub proof fn lemma_redelivery_is_dropped(s: StreamState, msg: TickMsg)
    requires
        stream_wf(s),
        msg.issue_tick < u64::MAX,
    ensures
        recorded(recorded(s, msg), msg) == recorded(s, msg),
{
    lemma_recorded_wf(s, msg);
}

/// Somewhere in the queue a button of `bit` is pressed.
pub open spec fn tap_queued(q: Seq<TickMsg>, bit: u8) -> bool {
    exists|i: int| 0 <= i < q.len() && (#[trigger] q[i]).input.buttons & bit != 0
}

/// Folding loses no tap: a button pressed anywhere in the queue is pressed in what is left,
/// and nothing else is.
pub proof fn lemma_fold_keeps_taps(q: Seq<TickMsg>, bit: u8)
    ensures
        tap_queued(folded(q), bit) == tap_queued(q, bit),
    decreases q.len(),
{
    if q.len() > TARGET_BACKLOG {
        let r = q.skip(1).update(0, folded_onto(q[0], q[1]));
        lemma_fold_keeps_taps(r, bit);
        let a = q[0].input.buttons;
        let b = q[1].input.buttons;
        assert((b | a) & bit != 0 <==> (a & bit != 0 || b & bit != 0)) by (bit_vector);
        assert(r[0].input.buttons == b | a);
        if tap_queued(q, bit) {
            let i = choose|i: int| 0 <= i < q.len() && (#[trigger] q[i]).input.buttons & bit != 0;
            if i >= 2 {
                assert(r[i - 1] == q[i]);
            } else {
                assert(r[0].input.buttons & bit != 0);
            }
        }
        if tap_queued(r, bit) {
            let i = choose|i: int| 0 <= i < r.len() && (#[trigger] r[i]).input.buttons & bit != 0;
            if i >= 1 {
                assert(q[i + 1] == r[i]);
            } else {
                assert(q[0].input.buttons & bit != 0 || q[1].input.buttons & bit != 0);
            }
        }
    }
}

/// The queue's whole turn.
pub open spec fn look_sum(q: Seq<TickMsg>) -> int
    decreases q.len(),
{
    if q.len() == 0 {
        0
    } else {
        q[0].input.look_yaw + look_sum(q.skip(1))
    }
}

/// The turn that folding leaves is the sum of the turns, as long as no partial sum leaves 16
/// bits.
pub proof fn lemma_fold_sums_look(q: Seq<TickMsg>)
    requires
        q.len() <= TARGET_BACKLOG + 1,
        q.len() > 2 ==> i16::MIN <= q[0].input.look_yaw + q[1].input.look_yaw <= i16::MAX,
    ensures
        look_sum(folded(q)) == look_sum(q),
{
    if q.len() > TARGET_BACKLOG {
        let r = q.skip(1).update(0, folded_onto(q[0], q[1]));
        assert(folded(r) == r);
        assert(r.skip(1) =~= q.skip(1).skip(1));
        assert(look_sum(q) == q[0].input.look_yaw + look_sum(q.skip(1)));
        assert(look_sum(q.skip(1)) == q[1].input.look_yaw + look_sum(q.skip(1).skip(1)));
    }
}

/// Folding leaves the last messages, as deep as the target: each with the issue tick, the move
/// axes and the pilot's intent of the one message delivered in that place, and the last one
/// unchanged.
pub proof fn lemma_fold_skips_ahead(q: Seq<TickMsg>, j: int)
    requires
        0 <= j < folded(q).len(),
    ensures
        folded(q).len() == (if q.len() <= TARGET_BACKLOG {
            q.len()
        } else {
            TARGET_BACKLOG as nat
        }),
        ({
            let kept = folded(q)[j];
            let sent = q[q.len() - folded(q).len() + j];
            &&& kept.issue_tick == sent.issue_tick
            &&& kept.input.move_strafe == sent.input.move_strafe
            &&& kept.input.move_forward == sent.input.move_forward
            &&& kept.pilot == sent.pilot
            &&& (j > 0 ==> kept == sent)
        }),
        folded(q).last() == q.last(),
    decreases q.len(),
{
    if q.len() > TARGET_BACKLOG {
        let r = q.skip(1).update(0, folded_onto(q[0], q[1]));
        assert(folded(q) == folded(r));
        if r.len() > TARGET_BACKLOG {
            lemma_fold_skips_ahead(r, j);
            assert(r[r.len() - folded(r).len() + j] == q[q.len() - folded(q).len() + j]);
            lemma_fold_skips_ahead(r, folded(r).len() - 1);
        } else {
            assert(folded(r) == r);
        }
    }
}

/// A button is pressed in the first message that folding leaves if it was in that one or in
/// any before it, and in a later one if it was in that one.
pub proof fn lemma_fold_moves_taps_forward(q: Seq<TickMsg>, j: int, bit: u8)
    requires
        0 <= j < folded(q).len(),
    ensures
        folded(q)[j].input.buttons & bit != 0 <==> ({
            let at = q.len() - folded(q).len() + j;
            ||| q[at].input.buttons & bit != 0
            ||| (j == 0 && tap_queued(q.take(at), bit))
        }),
    decreases q.len(),
{
    lemma_fold_skips_ahead(q, j);
    let at = q.len() - folded(q).len() + j;
    if q.len() > TARGET_BACKLOG {
        let r = q.skip(1).update(0, folded_onto(q[0], q[1]));
        assert(folded(q) == folded(r));
        let a = q[0].input.buttons;
        let b = q[1].input.buttons;
        assert((b | a) & bit != 0 <==> (a & bit != 0 || b & bit != 0)) by (bit_vector);
        assert(r[0].input.buttons == b | a);
        lemma_fold_moves_taps_forward(r, j, bit);
        lemma_fold_skips_ahead(r, j);
        let p = q.take(at);
        let o = r.take(at - 1);
        if at >= 2 {
            assert(r[at - 1] == q[at]);
            if tap_queued(p, bit) {
                let i = choose|i: int|
                    0 <= i < p.len() && (#[trigger] p[i]).input.buttons & bit != 0;
                if i >= 2 {
                    assert(o[i - 1] == p[i]);
                } else {
                    assert(o[0] == r[0]);
                }
            }
            if tap_queued(o, bit) {
                let i = choose|i: int|
                    0 <= i < o.len() && (#[trigger] o[i]).input.buttons & bit != 0;
                if i >= 1 {
                    assert(p[i + 1] == o[i]);
                } else {
                    assert(p[0] == q[0] && p[1] == q[1]);
                }
            }
        } else if at == 1 {
            assert(o.len() == 0);
            assert(p.len() == 1 && p[0] == q[0]);
            if tap_queued(p, bit) {
                assert(p[0].input.buttons & bit != 0);
            }
        }
    } else {
        assert(q.take(at).len() == at);
        if j == 0 {
            assert(at == 0);
        }
    }
}

/// A delivery that folds one message away leaves, in the turn of the next, whatever comes
/// nearest to the two turns together within 16 bits, and every later turn as it was.
pub proof fn lemma_delivery_keeps_the_turn(s: StreamState, msg: TickMsg, v: i16)
    requires
        stream_wf(s),
        s.queue.len() == TARGET_BACKLOG,
        msg.issue_tick >= next_fresh(s),
    ensures
        ({
            let both = s.queue[0].input.look_yaw + s.queue[1].input.look_yaw;
            let kept = recorded(s, msg).queue[0].input.look_yaw;
            &&& (kept <= both ==> both - kept <= (if v <= both {
                both - v
            } else {
                v - both
            }))
            &&& (kept >= both ==> kept - both <= (if v <= both {
                both - v
            } else {
                v - both
            }))
            &&& recorded(s, msg).queue[1] == msg
        }),
{
    let q = s.queue.push(msg);
    let r = q.skip(1).update(0, folded_onto(q[0], q[1]));
    assert(folded(q) == folded(r));
    assert(folded(r) == r);
}

/// What is delivered in order while the queue is within its target is consumed as it was sent,
/// once each and in order; then the stream starves, and holds the last axes without turning or
/// pressing anything.
pub proof fn lemma_sent_is_consumed_once_in_order(s: StreamState, a: TickMsg, b: TickMsg, bit: u8)
    requires
        stream_wf(s),
        is_starved(s),
        s.input_next <= a.issue_tick < b.issue_tick < u64::MAX,
    ensures
        ({
            let one = recorded(recorded(s, a), b);
            let two = consumed(one);
            let three = consumed(two);
            &&& !is_starved(one) && !is_starved(two) && is_starved(three)
            &&& fill_of(one) == a.input
            &&& fill_of(two) == b.input
            &&& fill_of(three).move_strafe == b.input.move_strafe
            &&& fill_of(three).move_forward == b.input.move_forward
            &&& fill_of(three).look_yaw == 0
            &&& !pressing(fill_of(three), bit)
            &&& consumed(three) == three
            &&& one.input_next == s.input_next
            &&& two.input_next == a.issue_tick + 1
            &&& three.input_next == b.issue_tick + 1
        }),
{
    let q1 = s.queue.push(a);
    assert(folded(q1) == q1);
    let q2 = q1.push(b);
    assert(folded(q2) == q2);
    let one = recorded(recorded(s, a), b);
    assert(one.queue[0] == a && one.queue[1] == b);
    assert(consumed(one).queue[0] == b);
    assert(0u8 & bit == 0) by (bit_vector);
}

/// A delivery is news exactly if it was issued after everything consumed and everything
/// queued; only then does anything change, and then it stands last in the queue.
pub proof fn lemma_only_news_is_queued(s: StreamState, msg: TickMsg)
    requires
        stream_wf(s),
        msg.issue_tick < u64::MAX,
    ensures
        ({
            let news = s.input_next <= msg.issue_tick && forall|i: int|
                0 <= i < s.queue.len() ==> (#[trigger] s.queue[i]).issue_tick < msg.issue_tick;
            &&& (news ==> recorded(s, msg).queue.len() > 0 && recorded(s, msg).queue.last() == msg)
            &&& (!news ==> recorded(s, msg) == s)
            &&& recorded(s, msg).held == s.held
            &&& recorded(s, msg).input_next == s.input_next
        }),
{
    let q = s.queue.push(msg);
    if s.queue.len() > 0 {
        let last = s.queue.len() - 1;
        assert(s.input_next <= s.queue[last].issue_tick);
        assert forall|i: int| 0 <= i < s.queue.len() implies (#[trigger] s.queue[i]).issue_tick
            <= s.queue[last].issue_tick by {
            if i < last {
                assert(s.queue[i].issue_tick < s.queue[last].issue_tick);
            }
        }
    }
    if msg.issue_tick >= next_fresh(s) {
        lemma_recorded_wf(s, msg);
        if q.len() > TARGET_BACKLOG {
            let r = q.skip(1).update(0, folded_onto(q[0], q[1]));
            assert(folded(q) == folded(r) && folded(r) == r);
        }
    }
}

impl InputStream {
    pub open spec fn wf(&self) -> bool {
        stream_wf(self@)
    }

    pub fn new() -> (s: Self)
        ensures
            s@ == fresh_stream(),
            s.wf(),
    {
        let s = InputStream { queue: VecDeque::new(), held: Input::default(), input_next: 0 };
        assert(s@.queue =~= Seq::empty());
        s
    }

    /// Queue an input, unless it is stale. Tells whether it was news.
    pub fn record(&mut self, msg: TickMsg) -> (accepted: bool)
        requires
            old(self).wf(),
            msg.issue_tick < u64::MAX,
        ensures
            final(self)@ == recorded(old(self)@, msg),
            accepted == (msg.issue_tick >= next_fresh(old(self)@)),
            final(self).wf(),
    {
        let ghost start = self@;
        proof {
            lemma_recorded_wf(start, msg);
        }
        let fresh: u64 = if self.queue.len() == 0 {
            self.input_next
        } else {
            let last: usize = self.queue.len() - 1;
            assert(self@.queue[last as int].issue_tick < u64::MAX);
            self.queue[last].issue_tick + 1
        };
        if msg.issue_tick < fresh {
            return false;
        }
        self.queue.push_back(msg);
        let ghost target = folded(self.queue@);
        while self.queue.len() > TARGET_BACKLOG
            invariant
                self.held == start.held,
                self.input_next == start.input_next,
                folded(self.queue@) == target,
            decreases self.queue@.len(),
        {
            let ghost q = self.queue@;
            let dropped = self.queue.pop_front().unwrap();
            let next = self.queue.pop_front().unwrap();
            let merged = TickMsg {
                issue_tick: next.issue_tick,
                input: Input {
                    move_strafe: next.input.move_strafe,
                    move_forward: next.input.move_forward,
                    look_yaw: saturating_add(next.input.look_yaw, dropped.input.look_yaw),
                    buttons: next.input.buttons | dropped.input.buttons,
                },
                pilot: next.pilot,
            };
            self.queue.push_front(merged);
            assert(merged == folded_onto(q[0], q[1]));
            assert(self.queue@ =~= q.skip(1).update(0, folded_onto(q[0], q[1])));
        }
        true
    }

    /// Fill one tick: the next queued input, exactly once and in issue order, or a hold of
    /// the last one. Tells whether the tick was starved.
    pub fn consume(&mut self) -> (r: (Input, bool))
        requires
            old(self).wf(),
        ensures
            final(self)@ == consumed(old(self)@),
            r.0 == fill_of(old(self)@),
            r.1 == is_starved(old(self)@),
            final(self).wf(),
    {
        proof {
            lemma_consumed_wf(self@);
        }
        let ghost start = self@;
        match self.queue.pop_front() {
            Some(m) => {
                assert(start.queue[0].issue_tick < u64::MAX);
                self.held = m.input;
                self.input_next = m.issue_tick + 1;
                assert(self@.queue =~= start.queue.skip(1));
                (m.input, false)
            },
            None => (self.held.hold(), true),
        }
    }

    /// The first issue tick not yet consumed.
    pub fn input_next(&self) -> (t: u64)
        ensures
            t == self@.input_next,
    {
        self.input_next
    }

    /// What is queued and not yet consumed, in issue order.
    pub fn queued(&self) -> (v: Vec<TickMsg>)
        ensures
            v@ == self@.queue,
    {
        let mut v: Vec<TickMsg> = Vec::new();
        let mut i: usize = 0;
        while i < self.queue.len()
            invariant
                i <= self.queue@.len(),
                v@ == self.queue@.take(i as int),
            decreases self.queue@.len() - i,
        {
            v.push(self.queue[i]);
            i = i + 1;
            assert(v@ =~= self.queue@.take(i as int));
        }
        assert(v@ =~= self.queue@);
        v
    }
}

fn saturating_add(a: i16, b: i16) -> (r: i16)
    ensures
        r == saturating_sum(a, b),
{
    let s: i32 = a as i32 + b as i32;
    if s > 32767 {
        i16::MAX
    } else if s < -32768 {
        i16::MIN
    } else {
        s as i16
    }
}

/// The streams' states, seat by seat.
pub open spec fn stream_states(s: Seq<(PlayerId, InputStream)>) -> Seq<(PlayerId, StreamState)> {
    Seq::new(s.len(), |i: int| (s[i].0, s[i].1@))
}

/// Looking a seat up in the states is looking it up in the streams.
pub(crate) proof fn lemma_states_lookup(s: Seq<(PlayerId, InputStream)>, id: PlayerId)
    requires
        ascending(s),
    ensures
        ascending(stream_states(s)),
        seated(stream_states(s), id) == seated(s, id),
        seated(s, id) ==> seat_index(stream_states(s), id) == seat_index(s, id),
        seated(s, id) ==> lookup(stream_states(s), id) == Some((lookup(s, id)->0)@),
{
    let v = stream_states(s);
    assert forall|i: int, j: int| 0 <= i < j < v.len() implies (#[trigger] v[i]).0.0 < (
    #[trigger] v[j]).0.0 by {
        assert(s[i].0.0 < s[j].0.0);
    }
    if seated(s, id) {
        let i = seat_index(s, id);
        assert(v[i].0 == id);
        lemma_lookup_at(v, i);
    }
    if seated(v, id) {
        let i = seat_index(v, id);
        assert(s[i].0 == id);
    }
}

pub(crate) proof fn lemma_states_put(s: Seq<(PlayerId, InputStream)>, id: PlayerId, st: InputStream)
    ensures
        stream_states(put(s, id, st)) == put(stream_states(s), id, st@),
    decreases s.len(),
{
    let v = stream_states(s);
    if s.len() > 0 {
        lemma_states_put(s.drop_last(), id, st);
        assert(stream_states(s.drop_last()) =~= v.drop_last());
    }
    assert(stream_states(put(s, id, st)) =~= put(v, id, st@));
}

pub(crate) proof fn lemma_states_without(s: Seq<(PlayerId, InputStream)>, id: PlayerId)
    requires
        ascending(s),
    ensures
        stream_states(without(s, id)) == without(stream_states(s), id),
{
    lemma_states_lookup(s, id);
    assert(stream_states(without(s, id)) =~= without(stream_states(s), id));
}

} // verus!
