//! The state a host ships to its clients each tick, and its byte layout.
//!
//! All numbers are little-endian. A snapshot is its tick (8 bytes); a count (4) and that many
//! players of seat (1), x (8), z (8), yaw (4) and status (1); a count (4) and that many crabs
//! of x (8), z (8) and yaw (4); the extraction point's x (8) and z (8); the outcome (1); a
//! count (4) and that many roster seats (1); a count (4) and that many input watermarks of
//! seat (1) and issue tick (8). Nothing may follow.

use crate::bytes::{
    le, le_value, lemma_le_len, lemma_le_roundtrip, lemma_spans, lemma_twos_roundtrip, push_i32,
    push_i64, push_u32, push_u64, read_le, signed_32, signed_64, span, twos, untwos,
};
use crate::player_map::{ascending, put, PlayerId, PlayerMap};
use crate::sim::entities::{Crab, Outcome, Player, PlayerStatus};
use crate::sim::geometry::Pos;
use vstd::prelude::*;

verus! {

/// What a snapshot holds.
pub struct SnapshotView {
    pub tick: u64,
    pub players: Seq<(PlayerId, Player)>,
    pub crabs: Seq<Crab>,
    pub extraction: Pos,
    pub outcome: Outcome,
    pub roster: Seq<PlayerId>,
    pub input_next: Seq<(PlayerId, u64)>,
}

/// A full state of the shared world as of one tick.
#[derive(Debug, Clone, PartialEq, Eq)]
pub struct CoreSnapshot {
    /// The tick this snapshot is of.
    pub tick: u64,
    pub players: PlayerMap<Player>,
    pub crabs: Vec<Crab>,
    /// Where the round is won: drawn by the host, so it rides along.
    pub extraction: Pos,
    pub outcome: Outcome,
    /// The participant set, ascending: the host ships it and clients adopt it.
    pub roster: Vec<PlayerId>,
    /// Per player, the first issue tick not yet consumed into this state: the watermark a
    /// client replays its own predictions from. Coordination, not world state.
    pub input_next: PlayerMap<u64>,
}

impl View for CoreSnapshot {
    type V = SnapshotView;

    open spec fn view(&self) -> SnapshotView {
        SnapshotView {
            tick: self.tick,
            players: self.players@,
            crabs: self.crabs@,
            extraction: self.extraction,
            outcome: self.outcome,
            roster: self.roster@,
            input_next: self.input_next@,
        }
    }
}

/// Why a byte string is no snapshot.
#[derive(Debug, Clone, Copy, PartialEq, Eq, Structural)]
pub enum SnapshotDecodeError {
    Truncated,
    BadTag,
    NoCrabs,
    TrailingBytes,
}

impl SnapshotDecodeError {
    /// What to tell a person.
    pub open spec fn text_of(self) -> Seq<char> {
        match self {
            SnapshotDecodeError::Truncated => "snapshot buffer ended mid-field"@,
            SnapshotDecodeError::BadTag => "snapshot held an unknown enum tag"@,
            SnapshotDecodeError::NoCrabs =>
                "snapshot carried zero crabs (a round always has one — rl#114)"@,
            SnapshotDecodeError::TrailingBytes => "trailing bytes after a complete snapshot"@,
        }
    }

    /// What to tell a person.
    pub fn text(self) -> (s: &'static str)
        ensures
            s@ == self.text_of(),
    {
        match self {
            SnapshotDecodeError::Truncated => "snapshot buffer ended mid-field",
            SnapshotDecodeError::BadTag => "snapshot held an unknown enum tag",
            SnapshotDecodeError::NoCrabs =>
                "snapshot carried zero crabs (a round always has one — rl#114)",
            SnapshotDecodeError::TrailingBytes => "trailing bytes after a complete snapshot",
        }
    }
}

/// A position's 16 bytes.
pub open spec fn pos_bytes(p: Pos) -> Seq<u8> {
    le(twos(p.x as int, 8), 8) + le(twos(p.z as int, 8), 8)
}

/// A player's 22 bytes.
pub open spec fn player_bytes(e: (PlayerId, Player)) -> Seq<u8> {
    seq![e.0.0] + pos_bytes(e.1.pos) + le(twos(e.1.yaw as int, 4), 4) + seq![e.1.status.tag_of()]
}

/// A crab's 20 bytes.
pub open spec fn crab_bytes(c: Crab) -> Seq<u8> {
    pos_bytes(c.pos) + le(twos(c.yaw as int, 4), 4)
}

/// The players' records one after the other.
pub open spec fn players_bytes(s: Seq<(PlayerId, Player)>) -> Seq<u8>
    decreases s.len(),
{
    if s.len() == 0 {
        Seq::empty()
    } else {
        players_bytes(s.drop_last()) + player_bytes(s.last())
    }
}

/// The crabs' records one after the other.
pub open spec fn crabs_bytes(s: Seq<Crab>) -> Seq<u8>
    decreases s.len(),
{
    if s.len() == 0 {
        Seq::empty()
    } else {
        crabs_bytes(s.drop_last()) + crab_bytes(s.last())
    }
}

/// The roster's seats.
pub open spec fn roster_bytes(s: Seq<PlayerId>) -> Seq<u8> {
    Seq::new(s.len(), |i: int| s[i].0)
}

/// One watermark's 9 bytes.
pub open spec fn watermark_bytes(e: (PlayerId, u64)) -> Seq<u8> {
    seq![e.0.0] + le(e.1 as nat, 8)
}

/// The watermarks' records one after the other.
pub open spec fn watermarks_bytes(s: Seq<(PlayerId, u64)>) -> Seq<u8>
    decreases s.len(),
{
    if s.len() == 0 {
        Seq::empty()
    } else {
        watermarks_bytes(s.drop_last()) + watermark_bytes(s.last())
    }
}

/// A count's four bytes.
pub open spec fn count_bytes(n: nat) -> Seq<u8> {
    le(n as u32 as nat, 4)
}

/// The byte string of a snapshot.
pub open spec fn snapshot_bytes(s: SnapshotView) -> Seq<u8> {
    le(s.tick as nat, 8) + count_bytes(s.players.len()) + players_bytes(s.players) + count_bytes(
        s.crabs.len(),
    ) + crabs_bytes(s.crabs) + pos_bytes(s.extraction) + seq![s.outcome.tag_of()] + count_bytes(
        s.roster.len(),
    ) + roster_bytes(s.roster) + count_bytes(s.input_next.len()) + watermarks_bytes(s.input_next)
}

pub(crate) fn write_pos(out: &mut Vec<u8>, p: Pos)
    ensures
        final(out)@ == old(out)@ + pos_bytes(p),
{
    let ghost start = out@;
    push_i64(out, p.x);
    push_i64(out, p.z);
    assert(out@ =~= start + pos_bytes(p));
}

pub(crate) fn write_player(out: &mut Vec<u8>, id: PlayerId, p: Player)
    ensures
        final(out)@ == old(out)@ + player_bytes((id, p)),
{
    let ghost start = out@;
    out.push(id.0);
    write_pos(out, p.pos);
    push_i32(out, p.yaw);
    out.push(p.status.tag());
    assert(out@ =~= start + player_bytes((id, p)));
}

pub(crate) fn write_players(out: &mut Vec<u8>, players: &PlayerMap<Player>)
    ensures
        final(out)@ == old(out)@ + players_bytes(players@),
{
    let ghost start = out@;
    let mut i: usize = 0;
    assert(start + players_bytes(players@.take(0)) =~= start);
    while i < players.len()
        invariant
            i <= players@.len(),
            out@ == start + players_bytes(players@.take(i as int)),
        decreases players@.len() - i,
    {
        write_player(out, players.key_at(i), *players.value_at(i));
        proof {
            let t = players@.take(i + 1);
            assert(t.drop_last() =~= players@.take(i as int));
            assert(t.last() == players@[i as int]);
            assert(out@ =~= start + players_bytes(t));
        }
        i = i + 1;
    }
    assert(players@.take(i as int) =~= players@);
}

pub(crate) fn write_crabs(out: &mut Vec<u8>, crabs: &[Crab])
    ensures
        final(out)@ == old(out)@ + crabs_bytes(crabs@),
{
    let ghost start = out@;
    let mut i: usize = 0;
    assert(start + crabs_bytes(crabs@.take(0)) =~= start);
    while i < crabs.len()
        invariant
            i <= crabs@.len(),
            out@ == start + crabs_bytes(crabs@.take(i as int)),
        decreases crabs@.len() - i,
    {
        write_pos(out, crabs[i].pos);
        push_i32(out, crabs[i].yaw);
        proof {
            let t = crabs@.take(i + 1);
            assert(t.drop_last() =~= crabs@.take(i as int));
            assert(t.last() == crabs@[i as int]);
            assert(out@ =~= start + crabs_bytes(t));
        }
        i = i + 1;
    }
    assert(crabs@.take(i as int) =~= crabs@);
}

/// The eight bytes of `b` at `at` as a signed number.
pub open spec fn i64_at(b: Seq<u8>, at: int) -> i64 {
    untwos(le_value(b.subrange(at, at + 8)), 8) as i64
}

/// The four bytes of `b` at `at` as a signed number.
pub open spec fn i32_at(b: Seq<u8>, at: int) -> i32 {
    untwos(le_value(b.subrange(at, at + 4)), 4) as i32
}

/// The count at `at`.
pub open spec fn count_at(b: Seq<u8>, at: int) -> nat {
    le_value(b.subrange(at, at + 4))
}

/// The position at `at`.
pub open spec fn pos_at(b: Seq<u8>, at: int) -> Pos {
    Pos { x: i64_at(b, at), z: i64_at(b, at + 8) }
}

/// Read `n` player records from `at` on, adding them to `acc`; a later record of a seat
/// replaces an earlier one.
pub open spec fn players_from(
    b: Seq<u8>,
    at: int,
    n: nat,
    acc: Seq<(PlayerId, Player)>,
) -> Result<Seq<(PlayerId, Player)>, SnapshotDecodeError>
    decreases n,
{
    if n == 0 {
        Ok(acc)
    } else if at + 22 > b.len() {
        Err(SnapshotDecodeError::Truncated)
    } else {
        match PlayerStatus::of_tag(b[at + 21]) {
            None => Err(SnapshotDecodeError::BadTag),
            Some(status) => players_from(
                b,
                at + 22,
                (n - 1) as nat,
                put(
                    acc,
                    PlayerId(b[at]),
                    Player { pos: pos_at(b, at + 1), yaw: i32_at(b, at + 17), status },
                ),
            ),
        }
    }
}

/// The `n` crab records from `at` on.
pub open spec fn crabs_at(b: Seq<u8>, at: int, n: nat) -> Seq<Crab> {
    Seq::new(n, |i: int| Crab { pos: pos_at(b, at + 20 * i), yaw: i32_at(b, at + 20 * i + 16) })
}

/// The `n` roster seats from `at` on.
pub open spec fn roster_seats_at(b: Seq<u8>, at: int, n: nat) -> Seq<PlayerId> {
    Seq::new(n, |i: int| PlayerId(b[at + i]))
}

/// The first `n` watermark records from `at` on; a later record of a seat replaces an
/// earlier one.
pub open spec fn watermarks_at(b: Seq<u8>, at: int, n: nat) -> Seq<(PlayerId, u64)>
    decreases n,
{
    if n == 0 {
        Seq::empty()
    } else {
        let k = at + 9 * (n - 1);
        put(
            watermarks_at(b, at, (n - 1) as nat),
            PlayerId(b[k]),
            le_value(b.subrange(k + 1, k + 9)) as u64,
        )
    }
}

/// Read the part of a snapshot behind the players, which ends at `at`.
pub open spec fn tail_from(
    b: Seq<u8>,
    at: int,
    tick: u64,
    players: Seq<(PlayerId, Player)>,
) -> Result<SnapshotView, SnapshotDecodeError> {
    if at + 4 > b.len() {
        Err(SnapshotDecodeError::Truncated)
    } else {
        let n_crabs = count_at(b, at);
        let ex = at + 4 + 20 * n_crabs;
        let ros = ex + 17;
        if n_crabs == 0 {
            Err(SnapshotDecodeError::NoCrabs)
        } else if ros > b.len() {
            Err(SnapshotDecodeError::Truncated)
        } else if Outcome::of_tag(b[ex + 16]) is None {
            Err(SnapshotDecodeError::BadTag)
        } else if ros + 4 > b.len() {
            Err(SnapshotDecodeError::Truncated)
        } else {
            let n_roster = count_at(b, ros);
            let wat = ros + 4 + n_roster;
            if wat + 4 > b.len() {
                Err(SnapshotDecodeError::Truncated)
            } else {
                let n_marks = count_at(b, wat);
                let end = wat + 4 + 9 * n_marks;
                if end > b.len() {
                    Err(SnapshotDecodeError::Truncated)
                } else if end < b.len() {
                    Err(SnapshotDecodeError::TrailingBytes)
                } else {
                    Ok(
                        SnapshotView {
                            tick,
                            players,
                            crabs: crabs_at(b, at + 4, n_crabs),
                            extraction: pos_at(b, ex),
                            outcome: Outcome::of_tag(b[ex + 16])->0,
                            roster: roster_seats_at(b, ros + 4, n_roster),
                            input_next: watermarks_at(b, wat + 4, n_marks),
                        },
                    )
                }
            }
        }
    }
}

/// What a byte string holds as a snapshot, or why it holds none.
pub open spec fn snapshot_of(b: Seq<u8>) -> Result<SnapshotView, SnapshotDecodeError> {
    if b.len() < 12 {
        Err(SnapshotDecodeError::Truncated)
    } else {
        let n = count_at(b, 8);
        match players_from(b, 12, n, Seq::empty()) {
            Err(e) => Err(e),
            Ok(players) => tail_from(
                b,
                12 + 22 * (n as int),
                le_value(b.subrange(0, 8)) as u64,
                players,
            ),
        }
    }
}

/// A cursor over a byte string.
struct Reader<'a> {
    buf: &'a [u8],
    at: usize,
}

impl<'a> Reader<'a> {
    spec fn wf(&self) -> bool {
        self.at <= self.buf@.len()
    }

    fn new(buf: &'a [u8]) -> (r: Self)
        ensures
            r.wf(),
            r.buf@ == buf@,
            r.at == 0,
    {
        Reader { buf, at: 0 }
    }

    /// The next `n` bytes as an unsigned number.
    fn take(&mut self, n: usize) -> (r: Result<u64, SnapshotDecodeError>)
        requires
            old(self).wf(),
            n <= 8,
        ensures
            final(self).wf(),
            final(self).buf@ == old(self).buf@,
            match r {
                Ok(v) => {
                    &&& old(self).at + n <= old(self).buf@.len()
                    &&& final(self).at == old(self).at + n
                    &&& v == le_value(old(self).buf@.subrange(old(self).at as int, old(self).at + n))
                    &&& v < span(n as nat)
                },
                Err(e) => {
                    &&& old(self).at + n > old(self).buf@.len()
                    &&& e == SnapshotDecodeError::Truncated
                },
            },
    {
        if n > self.buf.len() - self.at {
            return Err(SnapshotDecodeError::Truncated);
        }
        let v: u64 = read_le(self.buf, self.at, n);
        self.at = self.at + n;
        Ok(v)
    }

    fn byte(&mut self) -> (r: Result<u8, SnapshotDecodeError>)
        requires
            old(self).wf(),
        ensures
            final(self).wf(),
            final(self).buf@ == old(self).buf@,
            match r {
                Ok(v) => {
                    &&& old(self).at < old(self).buf@.len()
                    &&& final(self).at == old(self).at + 1
                    &&& v == old(self).buf@[old(self).at as int]
                },
                Err(e) => {
                    &&& old(self).at >= old(self).buf@.len()
                    &&& e == SnapshotDecodeError::Truncated
                },
            },
    {
        if self.at >= self.buf.len() {
            return Err(SnapshotDecodeError::Truncated);
        }
        let v: u8 = self.buf[self.at];
        self.at = self.at + 1;
        Ok(v)
    }

    fn read_pos(&mut self) -> (r: Result<Pos, SnapshotDecodeError>)
        requires
            old(self).wf(),
        ensures
            final(self).wf(),
            final(self).buf@ == old(self).buf@,
            match r {
                Ok(p) => {
                    &&& old(self).at + 16 <= old(self).buf@.len()
                    &&& final(self).at == old(self).at + 16
                    &&& p == pos_at(old(self).buf@, old(self).at as int)
                },
                Err(e) => {
                    &&& old(self).at + 16 > old(self).buf@.len()
                    &&& e == SnapshotDecodeError::Truncated
                },
            },
    {
        let x: u64 = match self.take(8) {
            Ok(v) => v,
            Err(e) => {
                return Err(e);
            },
        };
        let z: u64 = match self.take(8) {
            Ok(v) => v,
            Err(e) => {
                return Err(e);
            },
        };
        Ok(Pos { x: signed_64(x), z: signed_64(z) })
    }

    fn read_i32(&mut self) -> (r: Result<i32, SnapshotDecodeError>)
        requires
            old(self).wf(),
        ensures
            final(self).wf(),
            final(self).buf@ == old(self).buf@,
            match r {
                Ok(v) => {
                    &&& old(self).at + 4 <= old(self).buf@.len()
                    &&& final(self).at == old(self).at + 4
                    &&& v == i32_at(old(self).buf@, old(self).at as int)
                },
                Err(e) => {
                    &&& old(self).at + 4 > old(self).buf@.len()
                    &&& e == SnapshotDecodeError::Truncated
                },
            },
    {
        proof {
            lemma_spans();
        }
        match self.take(4) {
            Ok(v) => Ok(signed_32(v)),
            Err(e) => Err(e),
        }
    }

    fn is_empty(&self) -> (b: bool)
        requires
            self.wf(),
        ensures
            b == (self.at == self.buf@.len()),
    {
        self.at == self.buf.len()
    }

    fn read_player(&mut self) -> (r: Result<(PlayerId, Player), SnapshotDecodeError>)
        requires
            old(self).wf(),
        ensures
            final(self).wf(),
            final(self).buf@ == old(self).buf@,
            ({
                let b = old(self).buf@;
                let at = old(self).at as int;
                match r {
                    Ok(e) => {
                        &&& at + 22 <= b.len()
                        &&& final(self).at == at + 22
                        &&& PlayerStatus::of_tag(b[at + 21]) is Some
                        &&& e.0 == PlayerId(b[at])
                        &&& e.1 == (Player {
                            pos: pos_at(b, at + 1),
                            yaw: i32_at(b, at + 17),
                            status: PlayerStatus::of_tag(b[at + 21])->0,
                        })
                    },
                    Err(e) => {
                        &&& at + 22 > b.len() ==> e == SnapshotDecodeError::Truncated
                        &&& at + 22 <= b.len() ==> PlayerStatus::of_tag(b[at + 21]) is None && e
                            == SnapshotDecodeError::BadTag
                    },
                }
            }),
    {
        let id: u8 = match self.byte() {
            Ok(v) => v,
            Err(e) => {
                return Err(e);
            },
        };
        let pos = match self.read_pos() {
            Ok(v) => v,
            Err(e) => {
                return Err(e);
            },
        };
        let yaw: i32 = match self.read_i32() {
            Ok(v) => v,
            Err(e) => {
                return Err(e);
            },
        };
        let tag: u8 = match self.byte() {
            Ok(v) => v,
            Err(e) => {
                return Err(e);
            },
        };
        match PlayerStatus::from_tag(tag) {
            Some(status) => Ok((PlayerId(id), Player { pos, yaw, status })),
            None => Err(SnapshotDecodeError::BadTag),
        }
    }

    fn read_players(&mut self, n: u64) -> (r: Result<PlayerMap<Player>, SnapshotDecodeError>)
        requires
            old(self).wf(),
        ensures
            final(self).wf(),
            final(self).buf@ == old(self).buf@,
            match r {
                Ok(m) => {
                    &&& m.wf()
                    &&& players_from(old(self).buf@, old(self).at as int, n as nat, Seq::empty()) == Ok::<
                        Seq<(PlayerId, Player)>,
                        SnapshotDecodeError,
                    >(m@)
                    &&& final(self).at == old(self).at + 22 * n
                },
                Err(e) => players_from(
                    old(self).buf@,
                    old(self).at as int,
                    n as nat,
                    Seq::empty(),
                ) == Err::<Seq<(PlayerId, Player)>, SnapshotDecodeError>(e),
            },
    {
        let mut players: PlayerMap<Player> = PlayerMap::new();
        let mut i: u64 = 0;
        let ghost b = self.buf@;
        let ghost start = self.at as int;
        while i < n
            invariant
                i <= n,
                self.wf(),
                self.buf@ == b,
                b == old(self).buf@,
                start == old(self).at,
                self.at == start + 22 * i,
                players.wf(),
                players_from(b, start, n as nat, Seq::empty()) == players_from(
                    b,
                    self.at as int,
                    (n - i) as nat,
                    players@,
                ),
            decreases n - i,
        {
            match self.read_player() {
                Ok((id, p)) => {
                    players.insert(id, p);
                },
                Err(e) => {
                    return Err(e);
                },
            }
            i = i + 1;
        }
        Ok(players)
    }

    fn read_crabs(&mut self, n: u64) -> (r: Result<Vec<Crab>, SnapshotDecodeError>)
        requires
            old(self).wf(),
        ensures
            final(self).wf(),
            final(self).buf@ == old(self).buf@,
            match r {
                Ok(v) => {
                    &&& old(self).at + 20 * n <= old(self).buf@.len()
                    &&& v@ == crabs_at(old(self).buf@, old(self).at as int, n as nat)
                    &&& final(self).at == old(self).at + 20 * n
                },
                Err(e) => {
                    &&& old(self).at + 20 * n > old(self).buf@.len()
                    &&& e == SnapshotDecodeError::Truncated
                },
            },
    {
        let mut crabs: Vec<Crab> = Vec::new();
        let mut i: u64 = 0;
        let ghost b = self.buf@;
        let ghost start = self.at as int;
        while i < n
            invariant
                i <= n,
                self.wf(),
                self.buf@ == b,
                b == old(self).buf@,
                start == old(self).at,
                self.at == start + 20 * i,
                crabs@ == crabs_at(b, start, i as nat),
            decreases n - i,
        {
            let pos = match self.read_pos() {
                Ok(v) => v,
                Err(e) => {
                    return Err(e);
                },
            };
            let yaw: i32 = match self.read_i32() {
                Ok(v) => v,
                Err(e) => {
                    return Err(e);
                },
            };
            crabs.push(Crab { pos, yaw });
            i = i + 1;
            assert(crabs@ =~= crabs_at(b, start, i as nat));
        }
        Ok(crabs)
    }

    fn read_roster(&mut self, n: u64) -> (r: Result<Vec<PlayerId>, SnapshotDecodeError>)
        requires
            old(self).wf(),
        ensures
            final(self).wf(),
            final(self).buf@ == old(self).buf@,
            match r {
                Ok(v) => {
                    &&& old(self).at + n <= old(self).buf@.len()
                    &&& v@ == roster_seats_at(old(self).buf@, old(self).at as int, n as nat)
                    &&& final(self).at == old(self).at + n
                },
                Err(e) => {
                    &&& old(self).at + n > old(self).buf@.len()
                    &&& e == SnapshotDecodeError::Truncated
                },
            },
    {
        let mut ids: Vec<PlayerId> = Vec::new();
        let mut i: u64 = 0;
        let ghost b = self.buf@;
        let ghost start = self.at as int;
        while i < n
            invariant
                i <= n,
                self.wf(),
                self.buf@ == b,
                b == old(self).buf@,
                start == old(self).at,
                self.at == start + i,
                ids@ == roster_seats_at(b, start, i as nat),
            decreases n - i,
        {
            match self.byte() {
                Ok(v) => {
                    ids.push(PlayerId(v));
                },
                Err(e) => {
                    return Err(e);
                },
            }
            i = i + 1;
            assert(ids@ =~= roster_seats_at(b, start, i as nat));
        }
        Ok(ids)
    }

    fn read_watermarks(&mut self, n: u64) -> (r: Result<PlayerMap<u64>, SnapshotDecodeError>)
        requires
            old(self).wf(),
        ensures
            final(self).wf(),
            final(self).buf@ == old(self).buf@,
            match r {
                Ok(m) => {
                    &&& m.wf()
                    &&& old(self).at + 9 * n <= old(self).buf@.len()
                    &&& m@ == watermarks_at(old(self).buf@, old(self).at as int, n as nat)
                    &&& final(self).at == old(self).at + 9 * n
                },
                Err(e) => {
                    &&& old(self).at + 9 * n > old(self).buf@.len()
                    &&& e == SnapshotDecodeError::Truncated
                },
            },
    {
        let mut marks: PlayerMap<u64> = PlayerMap::new();
        let mut i: u64 = 0;
        let ghost b = self.buf@;
        let ghost start = self.at as int;
        while i < n
            invariant
                i <= n,
                self.wf(),
                self.buf@ == b,
                b == old(self).buf@,
                start == old(self).at,
                self.at == start + 9 * i,
                marks.wf(),
                marks@ == watermarks_at(b, start, i as nat),
            decreases n - i,
        {
            let id: u8 = match self.byte() {
                Ok(v) => v,
                Err(e) => {
                    return Err(e);
                },
            };
            let next: u64 = match self.take(8) {
                Ok(v) => v,
                Err(e) => {
                    return Err(e);
                },
            };
            marks.insert(PlayerId(id), next);
            i = i + 1;
        }
        Ok(marks)
    }
}

impl CoreSnapshot {
    /// The maps are in order.
    pub open spec fn wf(&self) -> bool {
        &&& self.players.wf()
        &&& self.input_next.wf()
    }

    pub fn to_bytes(&self) -> (b: Vec<u8>)
        ensures
            b@ == snapshot_bytes(self@),
    {
        let mut out: Vec<u8> = Vec::new();
        push_u64(&mut out, self.tick);
        push_u32(&mut out, self.players.len() as u32);
        write_players(&mut out, &self.players);
        push_u32(&mut out, self.crabs.len() as u32);
        write_crabs(&mut out, self.crabs.as_slice());
        write_pos(&mut out, self.extraction);
        out.push(self.outcome.tag());
        push_u32(&mut out, self.roster.len() as u32);
        let ghost head = out@;
        let mut i: usize = 0;
        assert(head + roster_bytes(self.roster@).take(0) =~= head);
        while i < self.roster.len()
            invariant
                i <= self.roster@.len(),
                out@ == head + roster_bytes(self.roster@).take(i as int),
            decreases self.roster@.len() - i,
        {
            out.push(self.roster[i].0);
            i = i + 1;
            assert(out@ =~= head + roster_bytes(self.roster@).take(i as int));
        }
        assert(roster_bytes(self.roster@).take(i as int) =~= roster_bytes(self.roster@));
        push_u32(&mut out, self.input_next.len() as u32);
        let ghost head2 = out@;
        let mut j: usize = 0;
        assert(head2 + watermarks_bytes(self.input_next@.take(0)) =~= head2);
        while j < self.input_next.len()
            invariant
                j <= self.input_next@.len(),
                out@ == head2 + watermarks_bytes(self.input_next@.take(j as int)),
            decreases self.input_next@.len() - j,
        {
            out.push(self.input_next.key_at(j).0);
            push_u64(&mut out, *self.input_next.value_at(j));
            proof {
                let t = self.input_next@.take(j + 1);
                assert(t.drop_last() =~= self.input_next@.take(j as int));
                assert(t.last() == self.input_next@[j as int]);
                assert(out@ =~= head2 + watermarks_bytes(t));
            }
            j = j + 1;
        }
        assert(self.input_next@.take(j as int) =~= self.input_next@);
        assert(out@ =~= snapshot_bytes(self@));
        out
    }

    pub fn from_bytes(bytes: &[u8]) -> (r: Result<Self, SnapshotDecodeError>)
        ensures
            match r {
                Ok(s) => snapshot_of(bytes@) == Ok::<SnapshotView, SnapshotDecodeError>(s@) && s.wf(),
                Err(e) => snapshot_of(bytes@) == Err::<SnapshotView, SnapshotDecodeError>(e),
            },
    {
        proof {
            lemma_spans();
        }
        let mut r = Reader::new(bytes);
        let tick: u64 = match r.take(8) {
            Ok(v) => v,
            Err(e) => {
                return Err(e);
            },
        };
        let n_players: u64 = match r.take(4) {
            Ok(v) => v,
            Err(e) => {
                return Err(e);
            },
        };
        let players = match r.read_players(n_players) {
            Ok(v) => v,
            Err(e) => {
                return Err(e);
            },
        };
        let ghost at = r.at as int;
        let n_crabs: u64 = match r.take(4) {
            Ok(v) => v,
            Err(e) => {
                return Err(e);
            },
        };
        if n_crabs == 0 {
            return Err(SnapshotDecodeError::NoCrabs);
        }
        let crabs = match r.read_crabs(n_crabs) {
            Ok(v) => v,
            Err(e) => {
                return Err(e);
            },
        };
        let extraction = match r.read_pos() {
            Ok(v) => v,
            Err(e) => {
                return Err(e);
            },
        };
        let tag: u8 = match r.byte() {
            Ok(v) => v,
            Err(e) => {
                return Err(e);
            },
        };
        let outcome = match Outcome::from_tag(tag) {
            Some(v) => v,
            None => {
                return Err(SnapshotDecodeError::BadTag);
            },
        };
        let n_roster: u64 = match r.take(4) {
            Ok(v) => v,
            Err(e) => {
                return Err(e);
            },
        };
        let roster = match r.read_roster(n_roster) {
            Ok(v) => v,
            Err(e) => {
                return Err(e);
            },
        };
        let n_marks: u64 = match r.take(4) {
            Ok(v) => v,
            Err(e) => {
                return Err(e);
            },
        };
        let input_next = match r.read_watermarks(n_marks) {
            Ok(v) => v,
            Err(e) => {
                return Err(e);
            },
        };
        if !r.is_empty() {
            return Err(SnapshotDecodeError::TrailingBytes);
        }
        Ok(CoreSnapshot { tick, players, crabs, extraction, outcome, roster, input_next })
    }
}

/// The part of `b` from `off` on spells `piece`, as far as `b` reaches.
pub open spec fn agrees(b: Seq<u8>, off: int, piece: Seq<u8>) -> bool {
    forall|i: int| 0 <= i < piece.len() && off + i < b.len() ==> b[off + i] == #[trigger] piece[i]
}

proof fn lemma_agrees_parts(b: Seq<u8>, off: int, p: Seq<u8>, q: Seq<u8>)
    requires
        agrees(b, off, p + q),
    ensures
        agrees(b, off, p),
        agrees(b, off + p.len(), q),
{
    assert forall|i: int| 0 <= i < p.len() && off + i < b.len() implies b[off + i]
        == #[trigger] p[i] by {
        assert((p + q)[i] == p[i]);
    }
    assert forall|i: int| 0 <= i < q.len() && off + p.len() + i < b.len() implies b[off + p.len() + i]
        == #[trigger] q[i] by {
        assert((p + q)[p.len() + i] == q[i]);
        assert(b[off + (p.len() + i)] == (p + q)[p.len() + i]);
    }
}

proof fn lemma_agrees_whole(b: Seq<u8>, off: int, piece: Seq<u8>)
    requires
        agrees(b, off, piece),
        0 <= off,
        off + piece.len() <= b.len(),
    ensures
        b.subrange(off, off + piece.len()) == piece,
{
    assert(b.subrange(off, off + piece.len()) =~= piece) by {
        assert forall|i: int| 0 <= i < piece.len() implies b.subrange(off, off + piece.len())[i]
            == piece[i] by {
            assert(b[off + i] == piece[i]);
        }
    }
}

proof fn lemma_count_reads(b: Seq<u8>, off: int, n: nat)
    requires
        agrees(b, off, count_bytes(n)),
        0 <= off,
        n <= u32::MAX,
    ensures
        count_bytes(n).len() == 4,
        off + 4 <= b.len() ==> count_at(b, off) == n,
{
    lemma_spans();
    lemma_le_roundtrip(n, 4);
    if off + 4 <= b.len() {
        lemma_agrees_whole(b, off, count_bytes(n));
    }
}

proof fn lemma_pos_reads(b: Seq<u8>, off: int, p: Pos)
    requires
        agrees(b, off, pos_bytes(p)),
        0 <= off,
    ensures
        pos_bytes(p).len() == 16,
        off + 16 <= b.len() ==> pos_at(b, off) == p,
{
    let x = le(twos(p.x as int, 8), 8);
    let z = le(twos(p.z as int, 8), 8);
    lemma_spans();
    lemma_twos_roundtrip(p.x as int, 8);
    lemma_twos_roundtrip(p.z as int, 8);
    lemma_le_roundtrip(twos(p.x as int, 8), 8);
    lemma_le_roundtrip(twos(p.z as int, 8), 8);
    lemma_agrees_parts(b, off, x, z);
    if off + 16 <= b.len() {
        lemma_agrees_whole(b, off, x);
        lemma_agrees_whole(b, off + 8, z);
    }
}

proof fn lemma_yaw_reads(b: Seq<u8>, off: int, yaw: i32)
    requires
        agrees(b, off, le(twos(yaw as int, 4), 4)),
        0 <= off,
    ensures
        le(twos(yaw as int, 4), 4).len() == 4,
        off + 4 <= b.len() ==> i32_at(b, off) == yaw,
{
    lemma_spans();
    lemma_twos_roundtrip(yaw as int, 4);
    lemma_le_roundtrip(twos(yaw as int, 4), 4);
    if off + 4 <= b.len() {
        lemma_agrees_whole(b, off, le(twos(yaw as int, 4), 4));
    }
}

proof fn lemma_player_reads(b: Seq<u8>, off: int, e: (PlayerId, Player))
    requires
        agrees(b, off, player_bytes(e)),
        0 <= off,
    ensures
        player_bytes(e).len() == 22,
        off + 22 <= b.len() ==> {
            &&& b[off] == e.0.0
            &&& pos_at(b, off + 1) == e.1.pos
            &&& i32_at(b, off + 17) == e.1.yaw
            &&& b[off + 21] == e.1.status.tag_of()
        },
{
    let a = seq![e.0.0];
    let p = pos_bytes(e.1.pos);
    let y = le(twos(e.1.yaw as int, 4), 4);
    let t = seq![e.1.status.tag_of()];
    lemma_agrees_parts(b, off, a + p + y, t);
    lemma_agrees_parts(b, off, a + p, y);
    lemma_agrees_parts(b, off, a, p);
    lemma_pos_reads(b, off + 1, e.1.pos);
    lemma_yaw_reads(b, off + 17, e.1.yaw);
    if off + 22 <= b.len() {
        lemma_agrees_whole(b, off, a);
        lemma_agrees_whole(b, off + 21, t);
        assert(b.subrange(off, off + 1)[0] == b[off]);
        assert(b.subrange(off + 21, off + 22)[0] == b[off + 21]);
    }
}

/// Record `i` of the players' records.
proof fn lemma_players_records(b: Seq<u8>, off: int, s: Seq<(PlayerId, Player)>, i: int)
    requires
        agrees(b, off, players_bytes(s)),
        0 <= off,
        0 <= i < s.len(),
    ensures
        agrees(b, off + 22 * i, player_bytes(s[i])),
    decreases s.len(),
{
    lemma_players_len(s.drop_last());
    lemma_agrees_parts(b, off, players_bytes(s.drop_last()), player_bytes(s.last()));
    if i < s.len() - 1 {
        lemma_players_records(b, off, s.drop_last(), i);
    }
}

pub proof fn lemma_players_len(s: Seq<(PlayerId, Player)>)
    ensures
        players_bytes(s).len() == 22 * s.len(),
    decreases s.len(),
{
    if s.len() > 0 {
        lemma_players_len(s.drop_last());
        lemma_le_len(twos(s.last().1.pos.x as int, 8), 8);
        lemma_le_len(twos(s.last().1.pos.z as int, 8), 8);
        lemma_le_len(twos(s.last().1.yaw as int, 4), 4);
    }
}

proof fn lemma_players_read(b: Seq<u8>, off: int, s: Seq<(PlayerId, Player)>, i: int)
    requires
        agrees(b, off, players_bytes(s)),
        0 <= off,
        0 <= i <= s.len(),
        ascending(s),
    ensures
        players_from(b, off + 22 * i, (s.len() - i) as nat, s.take(i)) == (if off + 22 * s.len()
            <= b.len() || i == s.len() {
            Ok::<Seq<(PlayerId, Player)>, SnapshotDecodeError>(s)
        } else {
            Err::<Seq<(PlayerId, Player)>, SnapshotDecodeError>(SnapshotDecodeError::Truncated)
        }),
    decreases s.len() - i,
{
    if i == s.len() {
        assert(s.take(i) =~= s);
    } else {
        lemma_players_records(b, off, s, i);
        lemma_player_reads(b, off + 22 * i, s[i]);
        if off + 22 * i + 22 <= b.len() {
            assert(put(s.take(i), s[i].0, s[i].1) =~= s.take(i + 1)) by {
                if i > 0 {
                    assert(s.take(i).last() == s[i - 1]);
                    assert(s[i - 1].0.0 < s[i].0.0);
                }
            }
            lemma_players_read(b, off, s, i + 1);
        }
    }
}

pub proof fn lemma_crabs_len(s: Seq<Crab>)
    ensures
        crabs_bytes(s).len() == 20 * s.len(),
    decreases s.len(),
{
    if s.len() > 0 {
        lemma_crabs_len(s.drop_last());
        lemma_le_len(twos(s.last().pos.x as int, 8), 8);
        lemma_le_len(twos(s.last().pos.z as int, 8), 8);
        lemma_le_len(twos(s.last().yaw as int, 4), 4);
    }
}

proof fn lemma_crabs_records(b: Seq<u8>, off: int, s: Seq<Crab>, i: int)
    requires
        agrees(b, off, crabs_bytes(s)),
        0 <= off,
        0 <= i < s.len(),
    ensures
        agrees(b, off + 20 * i, crab_bytes(s[i])),
    decreases s.len(),
{
    lemma_crabs_len(s.drop_last());
    lemma_agrees_parts(b, off, crabs_bytes(s.drop_last()), crab_bytes(s.last()));
    if i < s.len() - 1 {
        lemma_crabs_records(b, off, s.drop_last(), i);
    }
}

proof fn lemma_crabs_read(b: Seq<u8>, off: int, s: Seq<Crab>)
    requires
        agrees(b, off, crabs_bytes(s)),
        0 <= off,
        off + 20 * s.len() <= b.len(),
    ensures
        crabs_at(b, off, s.len()) == s,
{
    assert forall|i: int| 0 <= i < s.len() implies crabs_at(b, off, s.len())[i] == s[i] by {
        lemma_crabs_records(b, off, s, i);
        let p = pos_bytes(s[i].pos);
        let y = le(twos(s[i].yaw as int, 4), 4);
        lemma_agrees_parts(b, off + 20 * i, p, y);
        lemma_pos_reads(b, off + 20 * i, s[i].pos);
        lemma_yaw_reads(b, off + 20 * i + 16, s[i].yaw);
    }
    assert(crabs_at(b, off, s.len()) =~= s);
}

proof fn lemma_watermarks_len(s: Seq<(PlayerId, u64)>)
    ensures
        watermarks_bytes(s).len() == 9 * s.len(),
    decreases s.len(),
{
    if s.len() > 0 {
        lemma_watermarks_len(s.drop_last());
        lemma_le_len(s.last().1 as nat, 8);
    }
}

proof fn lemma_watermarks_read(b: Seq<u8>, off: int, s: Seq<(PlayerId, u64)>)
    requires
        agrees(b, off, watermarks_bytes(s)),
        0 <= off,
        off + 9 * s.len() <= b.len(),
        ascending(s),
    ensures
        watermarks_at(b, off, s.len()) == s,
    decreases s.len(),
{
    if s.len() > 0 {
        let d = s.drop_last();
        let e = s.last();
        let k = off + 9 * d.len();
        lemma_watermarks_len(d);
        lemma_agrees_parts(b, off, watermarks_bytes(d), watermark_bytes(e));
        assert forall|i: int, j: int| 0 <= i < j < d.len() implies (#[trigger] d[i]).0.0 < (
        #[trigger] d[j]).0.0 by {
            assert(s[i].0.0 < s[j].0.0);
        }
        lemma_watermarks_read(b, off, d);
        lemma_agrees_parts(b, k, seq![e.0.0], le(e.1 as nat, 8));
        lemma_spans();
        lemma_le_roundtrip(e.1 as nat, 8);
        lemma_agrees_whole(b, k, seq![e.0.0]);
        assert(b.subrange(k, k + 1)[0] == b[k]);
        lemma_agrees_whole(b, k + 1, le(e.1 as nat, 8));
        if d.len() > 0 {
            assert(s[d.len() - 1].0.0 < s[s.len() - 1].0.0);
        }
        assert(put(d, e.0, e.1) =~= s);
    } else {
        assert(s =~= Seq::empty());
    }
}

/// A snapshot that the wire can carry: maps in order, at least one crab, and counts that
/// fit their fields.
pub open spec fn carriable(s: SnapshotView) -> bool {
    &&& ascending(s.players)
    &&& ascending(s.input_next)
    &&& 1 <= s.crabs.len() <= u32::MAX
    &&& s.roster.len() <= u32::MAX
    &&& s.players.len() <= u32::MAX
    &&& s.input_next.len() <= u32::MAX
}

/// What any string that starts like a snapshot's bytes, or is the start of them, is read as.
proof fn lemma_reads_along(s: SnapshotView, b: Seq<u8>)
    requires
        carriable(s),
        agrees(b, 0, snapshot_bytes(s)),
    ensures
        snapshot_of(b) == (if b.len() < snapshot_bytes(s).len() {
            Err::<SnapshotView, SnapshotDecodeError>(SnapshotDecodeError::Truncated)
        } else if b.len() > snapshot_bytes(s).len() {
            Err::<SnapshotView, SnapshotDecodeError>(SnapshotDecodeError::TrailingBytes)
        } else {
            Ok::<SnapshotView, SnapshotDecodeError>(s)
        }),
{
    let p0 = le(s.tick as nat, 8);
    let p1 = p0 + count_bytes(s.players.len());
    let p2 = p1 + players_bytes(s.players);
    let p3 = p2 + count_bytes(s.crabs.len());
    let p4 = p3 + crabs_bytes(s.crabs);
    let p5 = p4 + pos_bytes(s.extraction);
    let p6 = p5 + seq![s.outcome.tag_of()];
    let p7 = p6 + count_bytes(s.roster.len());
    let p8 = p7 + roster_bytes(s.roster);
    let p9 = p8 + count_bytes(s.input_next.len());
    lemma_agrees_parts(b, 0, p9, watermarks_bytes(s.input_next));
    lemma_agrees_parts(b, 0, p8, count_bytes(s.input_next.len()));
    lemma_agrees_parts(b, 0, p7, roster_bytes(s.roster));
    lemma_agrees_parts(b, 0, p6, count_bytes(s.roster.len()));
    lemma_agrees_parts(b, 0, p5, seq![s.outcome.tag_of()]);
    lemma_agrees_parts(b, 0, p4, pos_bytes(s.extraction));
    lemma_agrees_parts(b, 0, p3, crabs_bytes(s.crabs));
    lemma_agrees_parts(b, 0, p2, count_bytes(s.crabs.len()));
    lemma_agrees_parts(b, 0, p1, players_bytes(s.players));
    lemma_agrees_parts(b, 0, p0, count_bytes(s.players.len()));
    lemma_spans();
    lemma_le_roundtrip(s.tick as nat, 8);
    lemma_players_len(s.players);
    lemma_crabs_len(s.crabs);
    lemma_watermarks_len(s.input_next);
    let n = s.players.len() as int;
    let k = s.crabs.len() as int;
    let at = 12 + 22 * n;
    let ex = at + 4 + 20 * k;
    let ros = ex + 17;
    let wat = ros + 4 + s.roster.len();
    let end = wat + 4 + 9 * s.input_next.len();
    lemma_count_reads(b, 8, s.players.len());
    lemma_count_reads(b, at, s.crabs.len());
    lemma_pos_reads(b, ex, s.extraction);
    lemma_count_reads(b, ros, s.roster.len());
    lemma_count_reads(b, wat, s.input_next.len());
    assert(snapshot_bytes(s).len() == end);
    if b.len() >= 12 {
        lemma_agrees_whole(b, 0, p0);
        lemma_players_read(b, 12, s.players, 0);
        assert(s.players.take(0) =~= Seq::empty());
        if b.len() >= ros {
            lemma_agrees_whole(b, ex + 16, seq![s.outcome.tag_of()]);
            assert(b.subrange(ex + 16, ex + 17)[0] == b[ex + 16]);
            if b.len() == end {
                lemma_crabs_read(b, at + 4, s.crabs);
                assert(roster_seats_at(b, ros + 4, s.roster.len()) =~= s.roster) by {
                    assert forall|i: int| 0 <= i < s.roster.len() implies roster_seats_at(
                        b,
                        ros + 4,
                        s.roster.len(),
                    )[i] == s.roster[i] by {
                        assert(roster_bytes(s.roster)[i] == s.roster[i].0);
                        assert(b[ros + 4 + i] == roster_bytes(s.roster)[i]);
                    }
                }
                lemma_watermarks_read(b, wat + 4, s.input_next);
            }
        }
    }
}

/// What was written is what is read.
pub proof fn lemma_snapshot_roundtrip(s: SnapshotView)
    requires
        carriable(s),
    ensures
        snapshot_of(snapshot_bytes(s)) == Ok::<SnapshotView, SnapshotDecodeError>(s),
{
    lemma_reads_along(s, snapshot_bytes(s));
}

/// Cut short anywhere, a snapshot is refused as truncated.
pub proof fn lemma_truncation_rejected(s: SnapshotView, n: int)
    requires
        carriable(s),
        0 <= n < snapshot_bytes(s).len(),
    ensures
        snapshot_of(snapshot_bytes(s).take(n)) == Err::<SnapshotView, SnapshotDecodeError>(
            SnapshotDecodeError::Truncated,
        ),
{
    lemma_reads_along(s, snapshot_bytes(s).take(n));
}

/// With anything behind it, a snapshot is refused.
pub proof fn lemma_trailing_rejected(s: SnapshotView, tail: Seq<u8>)
    requires
        carriable(s),
        tail.len() > 0,
    ensures
        snapshot_of(snapshot_bytes(s) + tail) == Err::<SnapshotView, SnapshotDecodeError>(
            SnapshotDecodeError::TrailingBytes,
        ),
{
    lemma_reads_along(s, snapshot_bytes(s) + tail);
}

/// The number that `n` bytes from `at` on spell.
pub open spec fn spelled(b: Seq<u8>, at: int, n: nat) -> nat {
    le_value(b.subrange(at, at + n))
}

/// The bytes from `at` on spell `v` in two's complement.
pub open spec fn spells(b: Seq<u8>, at: int, n: nat, v: int) -> bool {
    spelled(b, at, n) == (if v >= 0 {
        v
    } else {
        v + span(n)
    })
}

/// Where the parts of a snapshot's bytes begin.
pub open spec fn crabs_begin(s: SnapshotView) -> int {
    12 + 22 * (s.players.len() as int)
}

pub open spec fn objective_begins(s: SnapshotView) -> int {
    crabs_begin(s) + 4 + 20 * s.crabs.len()
}

pub open spec fn roster_begins(s: SnapshotView) -> int {
    objective_begins(s) + 17
}

pub open spec fn marks_begin(s: SnapshotView) -> int {
    roster_begins(s) + 4 + s.roster.len()
}

proof fn lemma_parts_agree(s: SnapshotView)
    requires
        carriable(s),
    ensures
        ({
            let b = snapshot_bytes(s);
            &&& b.len() == marks_begin(s) + 4 + 9 * s.input_next.len()
            &&& agrees(b, 0, le(s.tick as nat, 8))
            &&& agrees(b, 8, count_bytes(s.players.len()))
            &&& agrees(b, 12, players_bytes(s.players))
            &&& agrees(b, crabs_begin(s), count_bytes(s.crabs.len()))
            &&& agrees(b, crabs_begin(s) + 4, crabs_bytes(s.crabs))
            &&& agrees(b, objective_begins(s), pos_bytes(s.extraction))
            &&& agrees(b, objective_begins(s) + 16, seq![s.outcome.tag_of()])
            &&& agrees(b, roster_begins(s), count_bytes(s.roster.len()))
            &&& agrees(b, roster_begins(s) + 4, roster_bytes(s.roster))
            &&& agrees(b, marks_begin(s), count_bytes(s.input_next.len()))
            &&& agrees(b, marks_begin(s) + 4, watermarks_bytes(s.input_next))
        }),
{
    let b = snapshot_bytes(s);
    let p0 = le(s.tick as nat, 8);
    let p1 = p0 + count_bytes(s.players.len());
    let p2 = p1 + players_bytes(s.players);
    let p3 = p2 + count_bytes(s.crabs.len());
    let p4 = p3 + crabs_bytes(s.crabs);
    let p5 = p4 + pos_bytes(s.extraction);
    let p6 = p5 + seq![s.outcome.tag_of()];
    let p7 = p6 + count_bytes(s.roster.len());
    let p8 = p7 + roster_bytes(s.roster);
    let p9 = p8 + count_bytes(s.input_next.len());
    assert(agrees(b, 0, b));
    lemma_agrees_parts(b, 0, p9, watermarks_bytes(s.input_next));
    lemma_agrees_parts(b, 0, p8, count_bytes(s.input_next.len()));
    lemma_agrees_parts(b, 0, p7, roster_bytes(s.roster));
    lemma_agrees_parts(b, 0, p6, count_bytes(s.roster.len()));
    lemma_agrees_parts(b, 0, p5, seq![s.outcome.tag_of()]);
    lemma_agrees_parts(b, 0, p4, pos_bytes(s.extraction));
    lemma_agrees_parts(b, 0, p3, crabs_bytes(s.crabs));
    lemma_agrees_parts(b, 0, p2, count_bytes(s.crabs.len()));
    lemma_agrees_parts(b, 0, p1, players_bytes(s.players));
    lemma_agrees_parts(b, 0, p0, count_bytes(s.players.len()));
    lemma_le_len(s.tick as nat, 8);
    lemma_le_len(s.players.len() as u32 as nat, 4);
    lemma_le_len(s.crabs.len() as u32 as nat, 4);
    lemma_le_len(s.roster.len() as u32 as nat, 4);
    lemma_le_len(s.input_next.len() as u32 as nat, 4);
    lemma_le_len(twos(s.extraction.x as int, 8), 8);
    lemma_le_len(twos(s.extraction.z as int, 8), 8);
    lemma_players_len(s.players);
    lemma_crabs_len(s.crabs);
    lemma_watermarks_len(s.input_next);
}

/// The parts of a snapshot's bytes and their counts: the tick; the number of players and 22
/// bytes of each; the number of crabs and 20 bytes of each; the objective's x and z; the
/// outcome; the number of the rostered and a byte of each; the number of watermarks and nine
/// bytes of each.
pub proof fn lemma_snapshot_parts(s: SnapshotView)
    requires
        carriable(s),
    ensures
        ({
            let b = snapshot_bytes(s);
            let ex = objective_begins(s);
            &&& b.len() == marks_begin(s) + 4 + 9 * s.input_next.len()
            &&& spelled(b, 0, 8) == s.tick
            &&& spelled(b, 8, 4) == s.players.len()
            &&& spelled(b, crabs_begin(s), 4) == s.crabs.len()
            &&& spelled(b, roster_begins(s), 4) == s.roster.len()
            &&& spelled(b, marks_begin(s), 4) == s.input_next.len()
            &&& spells(b, ex, 8, s.extraction.x as int)
            &&& spells(b, ex + 8, 8, s.extraction.z as int)
            &&& b[ex + 16] == (match s.outcome {
                Outcome::Ongoing => 0u8,
                Outcome::Extracted => 1,
                Outcome::Wiped => 2,
            })
        }),
{
    let b = snapshot_bytes(s);
    let ex = objective_begins(s);
    lemma_parts_agree(s);
    lemma_spans();
    lemma_le_roundtrip(s.tick as nat, 8);
    lemma_agrees_whole(b, 0, le(s.tick as nat, 8));
    lemma_count_reads(b, 8, s.players.len());
    lemma_count_reads(b, crabs_begin(s), s.crabs.len());
    lemma_count_reads(b, roster_begins(s), s.roster.len());
    lemma_count_reads(b, marks_begin(s), s.input_next.len());
    lemma_pos_spelled(b, ex, s.extraction);
    lemma_agrees_whole(b, ex + 16, seq![s.outcome.tag_of()]);
    assert(b.subrange(ex + 16, ex + 17)[0] == b[ex + 16]);
}

/// The 22 bytes of a player: its seat, x, z, heading and status.
pub proof fn lemma_player_bytes(s: SnapshotView, i: int)
    requires
        carriable(s),
        0 <= i < s.players.len(),
    ensures
        ({
            let b = snapshot_bytes(s);
            let at = 12 + 22 * i;
            let e = s.players[i];
            &&& b[at] == e.0.0
            &&& spells(b, at + 1, 8, e.1.pos.x as int)
            &&& spells(b, at + 9, 8, e.1.pos.z as int)
            &&& spells(b, at + 17, 4, e.1.yaw as int)
            &&& b[at + 21] == (match e.1.status {
                PlayerStatus::Alive => 0u8,
                PlayerStatus::Downed => 1,
                PlayerStatus::Extracted => 2,
            })
        }),
{
    let b = snapshot_bytes(s);
    let at = 12 + 22 * i;
    let e = s.players[i];
    lemma_parts_agree(s);
    lemma_players_records(b, 12, s.players, i);
    lemma_player_reads(b, at, e);
    let a = seq![e.0.0];
    let y = le(twos(e.1.yaw as int, 4), 4);
    lemma_agrees_parts(b, at, a + pos_bytes(e.1.pos) + y, seq![e.1.status.tag_of()]);
    lemma_agrees_parts(b, at, a + pos_bytes(e.1.pos), y);
    lemma_agrees_parts(b, at, a, pos_bytes(e.1.pos));
    lemma_le_len(twos(e.1.pos.x as int, 8), 8);
    lemma_le_len(twos(e.1.pos.z as int, 8), 8);
    lemma_pos_spelled(b, at + 1, e.1.pos);
    lemma_yaw_spelled(b, at + 17, e.1.yaw);
}

/// The 20 bytes of a crab: x, z and heading.
pub proof fn lemma_crab_bytes(s: SnapshotView, i: int)
    requires
        carriable(s),
        0 <= i < s.crabs.len(),
    ensures
        ({
            let b = snapshot_bytes(s);
            let at = crabs_begin(s) + 4 + 20 * i;
            &&& spells(b, at, 8, s.crabs[i].pos.x as int)
            &&& spells(b, at + 8, 8, s.crabs[i].pos.z as int)
            &&& spells(b, at + 16, 4, s.crabs[i].yaw as int)
        }),
{
    let b = snapshot_bytes(s);
    let at = crabs_begin(s) + 4 + 20 * i;
    let c = s.crabs[i];
    lemma_parts_agree(s);
    lemma_crabs_records(b, crabs_begin(s) + 4, s.crabs, i);
    lemma_agrees_parts(b, at, pos_bytes(c.pos), le(twos(c.yaw as int, 4), 4));
    lemma_le_len(twos(c.pos.x as int, 8), 8);
    lemma_le_len(twos(c.pos.z as int, 8), 8);
    lemma_pos_spelled(b, at, c.pos);
    lemma_yaw_spelled(b, at + 16, c.yaw);
}

/// The byte of a rostered seat, and the nine bytes of a watermark: its seat and its tick.
pub proof fn lemma_roster_and_mark_bytes(s: SnapshotView, i: int)
    requires
        carriable(s),
    ensures
        ({
            let b = snapshot_bytes(s);
            let at = marks_begin(s) + 4 + 9 * i;
            &&& (0 <= i < s.roster.len() ==> b[roster_begins(s) + 4 + i] == s.roster[i].0)
            &&& (0 <= i < s.input_next.len() ==> b[at] == s.input_next[i].0.0 && spelled(
                b,
                at + 1,
                8,
            ) == s.input_next[i].1)
        }),
{
    let b = snapshot_bytes(s);
    lemma_parts_agree(s);
    if 0 <= i < s.roster.len() {
        assert(roster_bytes(s.roster)[i] == s.roster[i].0);
        assert(b[roster_begins(s) + 4 + i] == roster_bytes(s.roster)[i]);
    }
    if 0 <= i < s.input_next.len() {
        lemma_watermark_spelled(b, marks_begin(s) + 4, s.input_next, i);
    }
}

proof fn lemma_pos_spelled(b: Seq<u8>, off: int, p: Pos)
    requires
        agrees(b, off, pos_bytes(p)),
        0 <= off,
        off + 16 <= b.len(),
    ensures
        spells(b, off, 8, p.x as int),
        spells(b, off + 8, 8, p.z as int),
{
    let x = le(twos(p.x as int, 8), 8);
    let z = le(twos(p.z as int, 8), 8);
    lemma_spans();
    lemma_le_roundtrip(twos(p.x as int, 8), 8);
    lemma_le_roundtrip(twos(p.z as int, 8), 8);
    lemma_agrees_parts(b, off, x, z);
    lemma_agrees_whole(b, off, x);
    lemma_agrees_whole(b, off + 8, z);
}

proof fn lemma_yaw_spelled(b: Seq<u8>, off: int, yaw: i32)
    requires
        agrees(b, off, le(twos(yaw as int, 4), 4)),
        0 <= off,
        off + 4 <= b.len(),
    ensures
        spells(b, off, 4, yaw as int),
{
    lemma_spans();
    lemma_le_roundtrip(twos(yaw as int, 4), 4);
    lemma_agrees_whole(b, off, le(twos(yaw as int, 4), 4));
}

proof fn lemma_watermark_spelled(b: Seq<u8>, off: int, s: Seq<(PlayerId, u64)>, i: int)
    requires
        agrees(b, off, watermarks_bytes(s)),
        0 <= off,
        off + 9 * s.len() <= b.len(),
        0 <= i < s.len(),
    ensures
        b[off + 9 * i] == s[i].0.0,
        spelled(b, off + 9 * i + 1, 8) == s[i].1,
    decreases s.len(),
{
    let d = s.drop_last();
    let e = s.last();
    lemma_watermarks_len(d);
    lemma_agrees_parts(b, off, watermarks_bytes(d), watermark_bytes(e));
    if i < s.len() - 1 {
        lemma_watermark_spelled(b, off, d, i);
    } else {
        let k = off + 9 * i;
        lemma_agrees_parts(b, k, seq![e.0.0], le(e.1 as nat, 8));
        lemma_spans();
        lemma_le_roundtrip(e.1 as nat, 8);
        lemma_agrees_whole(b, k, seq![e.0.0]);
        assert(b.subrange(k, k + 1)[0] == b[k]);
        lemma_agrees_whole(b, k + 1, le(e.1 as nat, 8));
    }
}

} // verus!
