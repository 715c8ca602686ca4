//! Noticing players whose inputs chronically come late.

use crate::player_map::{ascending, lemma_put, lookup, put, seated, PlayerId, PlayerMap};
use crate::sim::world::TICK_HZ;
use crate::text::{decimal, push_decimal, push_text};
use vstd::prelude::*;

verus! {

/// Starved fills are counted per window of this many assembled ticks. A windowed count and
/// not a run length: a client that is late every other tick never forms a run.
pub const STARVATION_WINDOW: u64 = TICK_HZ;

/// Starved fills within one window at which a player counts as chronically starved.
pub const STARVATION_REPORT_THRESHOLD: u64 = 15;

/// Least ticks between two reports of the same player.
pub const STARVATION_REPORT_COOLDOWN: u64 = 300;

/// At most this many reports are held undrained.
pub const STARVATION_REPORT_CAP: usize = 16;

/// `pid` filled `starved` of the `window` assembled ticks before `tick` with holds.
#[derive(Debug, Clone, Copy, PartialEq, Eq, Structural)]
pub struct StarvationReport {
    pub pid: PlayerId,
    pub starved: u64,
    pub window: u64,
    pub tick: u64,
}

impl StarvationReport {
    /// The report as one line.
    pub open spec fn text_of(self) -> Seq<char> {
        "input starvation: player "@ + decimal(self.pid.0 as nat) + " held on "@ + decimal(
            self.starved as nat,
        ) + "/"@ + decimal(self.window as nat) + " ticks in the window closing at tick "@ + decimal(
            self.tick as nat,
        ) + " — its input stream is chronically late (rl#213)"@
    }

    /// The report as one line.
    pub fn text(self) -> (s: String)
        ensures
            s@ == self.text_of(),
    {
        let mut out = String::new();
        push_text(&mut out, "input starvation: player ");
        push_decimal(&mut out, self.pid.0 as u64);
        push_text(&mut out, " held on ");
        push_decimal(&mut out, self.starved);
        push_text(&mut out, "/");
        push_decimal(&mut out, self.window);
        push_text(&mut out, " ticks in the window closing at tick ");
        push_decimal(&mut out, self.tick);
        push_text(&mut out, " — its input stream is chronically late (rl#213)");
        assert(out@ =~= self.text_of());
        out
    }
}

/// One player's count.
#[derive(Debug, Clone, Copy, PartialEq, Eq, Structural)]
pub struct StarvationTally {
    /// Starved fills in the current window.
    pub starved_in_window: u64,
    /// The tick of this player's last report.
    pub last_report: Option<u64>,
}

/// A report is owed: the count is chronic and the last report is old enough.
pub open spec fn report_due(t: StarvationTally, tick: u64) -> bool {
    &&& t.starved_in_window >= STARVATION_REPORT_THRESHOLD
    &&& (t.last_report matches Some(t0) ==> tick - t0 >= STARVATION_REPORT_COOLDOWN)
}

/// The tallies and reports after the window before `tick` is closed: each player due is
/// reported, in seat order, while there is room; every count starts over.
pub open spec fn closed_window(
    t: Seq<(PlayerId, StarvationTally)>,
    reports: Seq<StarvationReport>,
    tick: u64,
) -> (Seq<(PlayerId, StarvationTally)>, Seq<StarvationReport>)
    decreases t.len(),
{
    if t.len() == 0 {
        (t, reports)
    } else {
        let (pt, pr) = closed_window(t.drop_last(), reports, tick);
        let (id, tally) = t.last();
        if report_due(tally, tick) && pr.len() < STARVATION_REPORT_CAP {
            (
                pt.push(
                    (id, StarvationTally { starved_in_window: 0, last_report: Some(tick) }),
                ),
                pr.push(
                    StarvationReport {
                        pid: id,
                        starved: tally.starved_in_window,
                        window: STARVATION_WINDOW,
                        tick,
                    },
                ),
            )
        } else {
            (pt.push((id, StarvationTally { starved_in_window: 0, ..tally })), pr)
        }
    }
}

/// One more starved fill of seat `id`.
pub open spec fn counted(
    t: Seq<(PlayerId, StarvationTally)>,
    id: PlayerId,
) -> Seq<(PlayerId, StarvationTally)> {
    let tally = match lookup(t, id) {
        Some(v) => v,
        None => StarvationTally { starved_in_window: 0, last_report: None },
    };
    put(
        t,
        id,
        StarvationTally { starved_in_window: (tally.starved_in_window + 1) as u64, ..tally },
    )
}

/// How many ticks of the current window have been assembled when `next` comes up.
pub open spec fn window_fill(next: u64) -> int {
    if next == 0 {
        0
    } else {
        (next - 1) % (STARVATION_WINDOW as int) + 1
    }
}

/// No count exceeds what the window has seen, and no report lies in the future.
pub open spec fn tallies_ok(t: Seq<(PlayerId, StarvationTally)>, filled: int, next: u64) -> bool {
    &&& ascending(t)
    &&& forall|i: int|
        0 <= i < t.len() ==> (#[trigger] t[i]).1.starved_in_window <= filled && (
        t[i].1.last_report matches Some(t0) ==> t0 <= next)
}

/// Closing a window keeps the seats, clears the counts, appends to the reports, and holds no
/// more of them than the cap allows.
pub proof fn lemma_closed_window(
    t: Seq<(PlayerId, StarvationTally)>,
    reports: Seq<StarvationReport>,
    tick: u64,
)
    requires
        ascending(t),
        forall|i: int|
            0 <= i < t.len() ==> ((#[trigger] t[i]).1.last_report matches Some(t0) ==> t0 <= tick),
    ensures
        closed_window(t, reports, tick).0.len() == t.len(),
        forall|i: int|
            0 <= i < t.len() ==> (#[trigger] closed_window(t, reports, tick).0[i]).0 == t[i].0,
        tallies_ok(closed_window(t, reports, tick).0, 0, tick),
        reports.len() <= closed_window(t, reports, tick).1.len(),
        closed_window(t, reports, tick).1.take(reports.len() as int) == reports,
        reports.len() <= STARVATION_REPORT_CAP ==> closed_window(t, reports, tick).1.len()
            <= STARVATION_REPORT_CAP,
        forall|k: int|
            reports.len() <= k < closed_window(t, reports, tick).1.len() ==> {
                let r = #[trigger] closed_window(t, reports, tick).1[k];
                &&& r.tick == tick
                &&& r.window == STARVATION_WINDOW
                &&& r.starved >= STARVATION_REPORT_THRESHOLD
                &&& lookup(t, r.pid) matches Some(v) && v.starved_in_window == r.starved
                    && report_due(v, tick)
            },
    decreases t.len(),
{
    let (ct, cr) = closed_window(t, reports, tick);
    if t.len() == 0 {
        assert(cr.take(reports.len() as int) =~= reports);
    } else {
        let d = t.drop_last();
        assert forall|i: int, j: int| 0 <= i < j < d.len() implies (#[trigger] d[i]).0.0 < (
        #[trigger] d[j]).0.0 by {
            assert(t[i].0.0 < t[j].0.0);
        }
        assert forall|i: int| 0 <= i < d.len() implies ((#[trigger] d[i]).1.last_report matches Some(
            t0,
        ) ==> t0 <= tick) by {
            assert(t[i] == d[i]);
        }
        lemma_closed_window(d, reports, tick);
        let (pt, pr) = closed_window(d, reports, tick);
        assert forall|i: int| 0 <= i < t.len() implies (#[trigger] ct[i]).0 == t[i].0 by {
            if i < d.len() {
                assert(ct[i] == pt[i]);
                assert(d[i] == t[i]);
            }
        }
        assert forall|i: int, j: int| 0 <= i < j < ct.len() implies (#[trigger] ct[i]).0.0 < (
        #[trigger] ct[j]).0.0 by {
            assert(t[i].0.0 < t[j].0.0);
        }
        assert forall|i: int| 0 <= i < ct.len() implies (#[trigger] ct[i]).1.starved_in_window <= 0
            && (ct[i].1.last_report matches Some(t0) ==> t0 <= tick) by {
            if i < d.len() {
                assert(ct[i] == pt[i]);
            } else {
                assert(t[t.len() - 1].1.last_report matches Some(t0) ==> t0 <= tick);
            }
        }
        assert(cr.take(reports.len() as int) =~= pr.take(reports.len() as int));
        assert forall|k: int| reports.len() <= k < cr.len() implies {
            let r = #[trigger] cr[k];
            &&& r.tick == tick
            &&& r.window == STARVATION_WINDOW
            &&& r.starved >= STARVATION_REPORT_THRESHOLD
            &&& lookup(t, r.pid) matches Some(v) && v.starved_in_window == r.starved && report_due(
                v,
                tick,
            )
        } by {
            if k < pr.len() {
                assert(cr[k] == pr[k]);
                let r = pr[k];
                let i = crate::player_map::seat_index(d, r.pid);
                assert(seated(d, r.pid));
                assert(t[i] == d[i]);
                crate::player_map::lemma_lookup_at(t, i);
                crate::player_map::lemma_lookup_at(d, i);
            } else {
                crate::player_map::lemma_lookup_at(t, t.len() - 1);
            }
        }
    }
}

/// Among the reports added to those before, one names `pid`.
pub open spec fn newly_reported(
    before: Seq<StarvationReport>,
    after: Seq<StarvationReport>,
    pid: PlayerId,
) -> bool {
    exists|k: int| before.len() <= k < after.len() && (#[trigger] after[k]).pid == pid
}

/// A report, and nothing else, starts a player's cooldown: one that found no room does not.
pub proof fn lemma_only_reports_start_cooldowns(
    t: Seq<(PlayerId, StarvationTally)>,
    reports: Seq<StarvationReport>,
    tick: u64,
)
    requires
        ascending(t),
        forall|i: int|
            0 <= i < t.len() ==> ((#[trigger] t[i]).1.last_report matches Some(t0) ==> t0 <= tick),
    ensures
        ({
            let (ct, cr) = closed_window(t, reports, tick);
            forall|i: int|
                0 <= i < t.len() ==> (#[trigger] ct[i]).1.last_report == (if newly_reported(
                    reports,
                    cr,
                    t[i].0,
                ) {
                    Some(tick)
                } else {
                    t[i].1.last_report
                })
        }),
    decreases t.len(),
{
    let (ct, cr) = closed_window(t, reports, tick);
    if t.len() > 0 {
        let d = t.drop_last();
        assert forall|i: int, j: int| 0 <= i < j < d.len() implies (#[trigger] d[i]).0.0 < (
        #[trigger] d[j]).0.0 by {
            assert(t[i].0.0 < t[j].0.0);
        }
        assert forall|i: int| 0 <= i < d.len() implies ((#[trigger] d[i]).1.last_report matches Some(
            t0,
        ) ==> t0 <= tick) by {
            assert(t[i] == d[i]);
        }
        lemma_only_reports_start_cooldowns(d, reports, tick);
        lemma_closed_window(d, reports, tick);
        let (pt, pr) = closed_window(d, reports, tick);
        let (id, tally) = t.last();
        assert(!newly_reported(reports, pr, id)) by {
            if newly_reported(reports, pr, id) {
                let k = choose|k: int|
                    reports.len() <= k < pr.len() && (#[trigger] pr[k]).pid == id;
                assert(lookup(d, pr[k].pid) is Some);
                let i = crate::player_map::seat_index(d, id);
                assert(d[i].0 == id);
                assert(t[i].0.0 < t[t.len() - 1].0.0);
            }
        }
        assert forall|i: int| 0 <= i < t.len() implies (#[trigger] ct[i]).1.last_report == (
        if newly_reported(reports, cr, t[i].0) {
            Some(tick)
        } else {
            t[i].1.last_report
        }) by {
            if i < d.len() {
                assert(ct[i] == pt[i]);
                assert(d[i] == t[i]);
                assert(t[i].0.0 < t[t.len() - 1].0.0);
                assert(newly_reported(reports, cr, t[i].0) == newly_reported(
                    reports,
                    pr,
                    t[i].0,
                )) by {
                    if newly_reported(reports, pr, t[i].0) {
                        let k = choose|k: int|
                            reports.len() <= k < pr.len() && (#[trigger] pr[k]).pid == t[i].0;
                        assert(cr[k].pid == t[i].0);
                    }
                    if newly_reported(reports, cr, t[i].0) {
                        let k = choose|k: int|
                            reports.len() <= k < cr.len() && (#[trigger] cr[k]).pid == t[i].0;
                        assert(pr[k].pid == t[i].0);
                    }
                }
            } else if cr.len() > pr.len() {
                assert(cr[pr.len() as int].pid == id);
            }
        }
    }
}

/// One more fill keeps the counts within the window.
pub proof fn lemma_counted(
    t: Seq<(PlayerId, StarvationTally)>,
    id: PlayerId,
    filled: int,
    next: u64,
)
    requires
        tallies_ok(t, filled, next),
        0 <= filled < u64::MAX,
        lookup(t, id) matches Some(v) ==> v.starved_in_window <= filled - 1,
        filled >= 1,
    ensures
        tallies_ok(counted(t, id), filled, next),
        forall|k: PlayerId| k != id ==> #[trigger] lookup(counted(t, id), k) == lookup(t, k),
{
    let tally = match lookup(t, id) {
        Some(v) => v,
        None => StarvationTally { starved_in_window: 0, last_report: None },
    };
    if seated(t, id) {
        let i = crate::player_map::seat_index(t, id);
        assert(t[i].1 == tally);
    }
    let v = StarvationTally { starved_in_window: (tally.starved_in_window + 1) as u64, ..tally };
    lemma_put(t, id, v);
    crate::player_map::lemma_put_order(t, id, v);
    let r = counted(t, id);
    let at = crate::player_map::put_at(t, id);
    assert forall|i: int| 0 <= i < r.len() implies (#[trigger] r[i]).1.starved_in_window <= filled && (
    r[i].1.last_report matches Some(t0) ==> t0 <= next) by {
        if i < at {
            assert(r[i] == t[i]);
        } else if i > at {
            if r.len() == t.len() {
                assert(r[i] == t[i]);
            } else {
                assert(r[i] == t[i - 1]);
            }
        }
    }
}

/// Close the window before `tick`.
pub(crate) fn close_window(
    tallies: &mut PlayerMap<StarvationTally>,
    reports: &mut Vec<StarvationReport>,
    tick: u64,
)
    requires
        old(tallies).wf(),
        forall|i: int|
            0 <= i < old(tallies)@.len() ==> ((#[trigger] old(tallies)@[i]).1.last_report matches Some(
                t0,
            ) ==> t0 <= tick),
    ensures
        (final(tallies)@, final(reports)@) == closed_window(old(tallies)@, old(reports)@, tick),
        final(tallies).wf(),
{
    let ghost t = tallies@;
    let ghost r0 = reports@;
    proof {
        lemma_closed_window(t, r0, tick);
    }
    let mut i: usize = 0;
    assert(t.take(0) =~= Seq::empty());
    while i < tallies.len()
        invariant
            i <= tallies@.len(),
            tallies@.len() == t.len(),
            tallies.wf(),
            (tallies@.take(i as int), reports@) == closed_window(t.take(i as int), r0, tick),
            forall|k: int| i <= k < t.len() ==> #[trigger] tallies@[k] == t[k],
            forall|k: int|
                0 <= k < t.len() ==> ((#[trigger] t[k]).1.last_report matches Some(t0) ==> t0 <= tick),
        decreases tallies@.len() - i,
    {
        let id = tallies.key_at(i);
        let tally = *tallies.value_at(i);
        let ghost before = tallies@;
        proof {
            assert(tallies@[i as int] == t[i as int]);
            assert(t.take(i + 1).drop_last() =~= t.take(i as int));
            assert(t.take(i + 1).last() == t[i as int]);
        }
        let cool: bool = match tally.last_report {
            Some(t0) => tick - t0 >= STARVATION_REPORT_COOLDOWN,
            None => true,
        };
        let due: bool = tally.starved_in_window >= STARVATION_REPORT_THRESHOLD && cool
            && reports.len() < STARVATION_REPORT_CAP;
        let last_report: Option<u64> = if due {
            Some(tick)
        } else {
            tally.last_report
        };
        if due {
            reports.push(
                StarvationReport {
                    pid: id,
                    starved: tally.starved_in_window,
                    window: STARVATION_WINDOW,
                    tick,
                },
            );
        }
        tallies.replace_at(i, StarvationTally { starved_in_window: 0, last_report });
        i = i + 1;
        assert(tallies@.take(i as int) =~= before.take(i - 1).push(tallies@[i - 1]));
    }
    assert(t.take(i as int) =~= t);
    assert(tallies@.take(i as int) =~= tallies@);
}

/// Count one more starved fill.
pub(crate) fn count_starved(tallies: &mut PlayerMap<StarvationTally>, id: PlayerId)
    requires
        old(tallies).wf(),
        lookup(old(tallies)@, id) matches Some(v) ==> v.starved_in_window < u64::MAX,
    ensures
        final(tallies)@ == counted(old(tallies)@, id),
        final(tallies).wf(),
{
    let tally = match tallies.get(id) {
        Some(v) => *v,
        None => StarvationTally { starved_in_window: 0, last_report: None },
    };
    tallies.insert(
        id,
        StarvationTally {
            starved_in_window: tally.starved_in_window + 1,
            last_report: tally.last_report,
        },
    );
}

} // verus!
