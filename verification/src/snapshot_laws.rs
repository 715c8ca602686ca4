//! There is one encoding of a snapshot: what was read is written the same.

use crate::bytes::{le, le_value, lemma_le_value_bound, lemma_spans, span, twos, untwos};
use crate::player_map::{put, PlayerId};
use crate::sim::entities::{Player, PlayerStatus};
use crate::snapshot::{
    count_at, count_bytes, crab_bytes, crabs_at, crabs_bytes, i32_at, i64_at, player_bytes,
    players_bytes, players_from, pos_at, pos_bytes, roster_bytes, roster_seats_at, snapshot_bytes,
    snapshot_of, watermark_bytes, watermarks_at, watermarks_bytes,
};
use vstd::prelude::*;

verus! {

/// The seats of `n` records of `width` bytes from `at` on ascend.
pub open spec fn seats_ascend(b: Seq<u8>, at: int, width: int, n: nat) -> bool {
    forall|i: int, j: int|
        0 <= i < j < n ==> #[trigger] b[at + width * i] < #[trigger] b[at + width * j]
}

/// Where the crab count of a byte string lies.
pub open spec fn crabs_start(b: Seq<u8>) -> int {
    12 + 22 * (count_at(b, 8) as int)
}

/// Where its roster's count lies.
pub open spec fn roster_start(b: Seq<u8>) -> int {
    crabs_start(b) + 4 + 20 * count_at(b, crabs_start(b)) + 17
}

/// Where the count of its watermarks lies.
pub open spec fn marks_start(b: Seq<u8>) -> int {
    roster_start(b) + 4 + count_at(b, roster_start(b))
}

/// A byte string is spelled by the number that it spells.
proof fn lemma_value_spells(s: Seq<u8>)
    ensures
        le(le_value(s), s.len()) == s,
    decreases s.len(),
{
    if s.len() > 0 {
        let t = s.skip(1);
        lemma_value_spells(t);
        let v = le_value(s);
        assert(v == s[0] as nat + 256 * le_value(t));
        assert(v % 256 == s[0] as nat && v / 256 == le_value(t));
        assert(le(v, s.len()) =~= s);
    } else {
        assert(le(le_value(s), 0) =~= s);
    }
}

/// A signed number is spelled by what it was read from.
proof fn lemma_signed_spells(s: Seq<u8>, v: int)
    requires
        s.len() == 4 || s.len() == 8,
        v == untwos(le_value(s), s.len()),
    ensures
        -(span(s.len()) / 2) <= v < span(s.len()) / 2,
        le(twos(v, s.len()), s.len()) == s,
{
    lemma_spans();
    lemma_le_value_bound(s);
    lemma_value_spells(s);
    assert(twos(v, s.len()) == le_value(s));
}

proof fn lemma_i64_spells(b: Seq<u8>, at: int)
    requires
        0 <= at,
        at + 8 <= b.len(),
    ensures
        le(twos(i64_at(b, at) as int, 8), 8) == b.subrange(at, at + 8),
{
    lemma_spans();
    let s = b.subrange(at, at + 8);
    lemma_signed_spells(s, untwos(le_value(s), 8));
}

proof fn lemma_i32_spells(b: Seq<u8>, at: int)
    requires
        0 <= at,
        at + 4 <= b.len(),
    ensures
        le(twos(i32_at(b, at) as int, 4), 4) == b.subrange(at, at + 4),
{
    lemma_spans();
    let s = b.subrange(at, at + 4);
    lemma_signed_spells(s, untwos(le_value(s), 4));
}

proof fn lemma_count_spells(b: Seq<u8>, at: int)
    requires
        0 <= at,
        at + 4 <= b.len(),
    ensures
        count_bytes(count_at(b, at)) == b.subrange(at, at + 4),
{
    lemma_spans();
    let s = b.subrange(at, at + 4);
    lemma_le_value_bound(s);
    lemma_value_spells(s);
}

proof fn lemma_pos_spells(b: Seq<u8>, at: int)
    requires
        0 <= at,
        at + 16 <= b.len(),
    ensures
        pos_bytes(pos_at(b, at)) == b.subrange(at, at + 16),
{
    lemma_i64_spells(b, at);
    lemma_i64_spells(b, at + 8);
    assert(pos_bytes(pos_at(b, at)) =~= b.subrange(at, at + 16));
}

/// The player record at `at`.
spec fn player_at(b: Seq<u8>, at: int) -> (PlayerId, Player) {
    (
        PlayerId(b[at]),
        Player {
            pos: pos_at(b, at + 1),
            yaw: i32_at(b, at + 17),
            status: PlayerStatus::of_tag(b[at + 21])->0,
        },
    )
}

/// The `n` player records from `at` on.
spec fn players_at(b: Seq<u8>, at: int, n: nat) -> Seq<(PlayerId, Player)> {
    Seq::new(n, |i: int| player_at(b, at + 22 * i))
}

proof fn lemma_player_spells(b: Seq<u8>, at: int)
    requires
        0 <= at,
        at + 22 <= b.len(),
        PlayerStatus::of_tag(b[at + 21]) is Some,
    ensures
        player_bytes(player_at(b, at)) == b.subrange(at, at + 22),
{
    lemma_pos_spells(b, at + 1);
    lemma_i32_spells(b, at + 17);
    assert(player_bytes(player_at(b, at)) =~= b.subrange(at, at + 22));
}

/// Players whose seats ascend are read one after the other.
proof fn lemma_players_in_a_row(
    b: Seq<u8>,
    at: int,
    n: nat,
    acc: Seq<(PlayerId, Player)>,
)
    requires
        0 <= at,
        players_from(b, at, n, acc) is Ok,
        seats_ascend(b, at, 22, n),
        n > 0 && acc.len() > 0 ==> acc.last().0.0 < b[at],
    ensures
        at + 22 * n <= b.len() || n == 0,
        players_from(b, at, n, acc)->Ok_0 == acc + players_at(b, at, n),
        forall|i: int|
            0 <= i < n ==> PlayerStatus::of_tag(#[trigger] b[at + 22 * i + 21]) is Some,
    decreases n,
{
    if n == 0 {
        assert(acc + players_at(b, at, n) =~= acc);
    } else {
        let e = player_at(b, at);
        let m = (n - 1) as nat;
        assert(put(acc, e.0, e.1) == acc.push(e));
        assert(seats_ascend(b, at + 22, 22, m)) by {
            assert forall|i: int, j: int| 0 <= i < j < m implies #[trigger] b[at + 22 + 22 * i]
                < #[trigger] b[at + 22 + 22 * j] by {
                assert(b[at + 22 * (i + 1)] < b[at + 22 * (j + 1)]);
            }
        }
        if m > 0 {
            assert(b[at + 22 * 0] < b[at + 22 * 1]);
        }
        lemma_players_in_a_row(b, at + 22, m, acc.push(e));
        assert(acc.push(e) + players_at(b, at + 22, m) =~= acc + players_at(b, at, n)) by {
            assert forall|i: int| 0 <= i < m implies #[trigger] players_at(b, at + 22, m)[i] == players_at(
                b,
                at,
                n,
            )[i + 1] by {
                assert(at + 22 + 22 * i == at + 22 * (i + 1));
            }
        }
        assert forall|i: int| 0 <= i < n implies PlayerStatus::of_tag(
            #[trigger] b[at + 22 * i + 21],
        ) is Some by {
            if i > 0 {
                assert(b[at + 22 + 22 * (i - 1) + 21] == b[at + 22 * i + 21]);
            }
        }
    }
}

proof fn lemma_players_spell(b: Seq<u8>, at: int, n: nat)
    requires
        0 <= at,
        at + 22 * n <= b.len(),
        forall|i: int|
            0 <= i < n ==> PlayerStatus::of_tag(#[trigger] b[at + 22 * i + 21]) is Some,
    ensures
        players_bytes(players_at(b, at, n)) == b.subrange(at, at + 22 * n),
    decreases n,
{
    let s = players_at(b, at, n);
    if n == 0 {
        assert(players_bytes(s) =~= b.subrange(at, at));
    } else {
        let m = (n - 1) as nat;
        lemma_players_spell(b, at, m);
        assert(s.drop_last() =~= players_at(b, at, m));
        assert(PlayerStatus::of_tag(b[at + 22 * m + 21]) is Some);
        lemma_player_spells(b, at + 22 * m);
        assert(players_bytes(s) =~= b.subrange(at, at + 22 * n));
    }
}

proof fn lemma_crabs_spell(b: Seq<u8>, at: int, n: nat)
    requires
        0 <= at,
        at + 20 * n <= b.len(),
    ensures
        crabs_bytes(crabs_at(b, at, n)) == b.subrange(at, at + 20 * n),
    decreases n,
{
    let s = crabs_at(b, at, n);
    if n == 0 {
        assert(crabs_bytes(s) =~= b.subrange(at, at));
    } else {
        let m = (n - 1) as nat;
        lemma_crabs_spell(b, at, m);
        assert(s.drop_last() =~= crabs_at(b, at, m));
        let k = at + 20 * m;
        lemma_pos_spells(b, k);
        lemma_i32_spells(b, k + 16);
        assert(crab_bytes(s.last()) =~= b.subrange(k, k + 20));
        assert(crabs_bytes(s) =~= b.subrange(at, at + 20 * n));
    }
}

proof fn lemma_marks_spell(b: Seq<u8>, at: int, n: nat)
    requires
        0 <= at,
        at + 9 * n <= b.len(),
        seats_ascend(b, at, 9, n),
    ensures
        watermarks_at(b, at, n).len() == n,
        n > 0 ==> watermarks_at(b, at, n).last().0.0 == b[at + 9 * (n - 1)],
        watermarks_bytes(watermarks_at(b, at, n)) == b.subrange(at, at + 9 * n),
    decreases n,
{
    let s = watermarks_at(b, at, n);
    if n == 0 {
        assert(watermarks_bytes(s) =~= b.subrange(at, at));
    } else {
        let m = (n - 1) as nat;
        assert(seats_ascend(b, at, 9, m));
        lemma_marks_spell(b, at, m);
        let k = at + 9 * m;
        let r = b.subrange(k + 1, k + 9);
        lemma_spans();
        lemma_le_value_bound(r);
        lemma_value_spells(r);
        let e = (PlayerId(b[k]), le_value(r) as u64);
        if m > 0 {
            assert(b[at + 9 * (m - 1)] < b[at + 9 * m]);
        }
        assert(s == watermarks_at(b, at, m).push(e));
        assert(s.drop_last() =~= watermarks_at(b, at, m));
        assert(watermark_bytes(e) =~= b.subrange(k, k + 9));
        assert(watermarks_bytes(s) =~= b.subrange(at, at + 9 * n));
    }
}

/// What a byte string holds as a snapshot is written back as the same bytes, where its
/// players and its watermarks are listed in seat order: a client that adopts a snapshot and
/// ships it on ships the host's exact bytes.
pub proof fn lemma_reading_is_undone_by_writing(b: Seq<u8>)
    requires
        snapshot_of(b) is Ok,
        seats_ascend(b, 12, 22, count_at(b, 8)),
        seats_ascend(b, marks_start(b) + 4, 9, count_at(b, marks_start(b))),
    ensures
        snapshot_bytes(snapshot_of(b)->Ok_0) == b,
{
    let s = snapshot_of(b)->Ok_0;
    let n = count_at(b, 8);
    let at = crabs_start(b);
    let nc = count_at(b, at);
    let ex = at + 4 + 20 * nc;
    let ros = roster_start(b);
    let nr = count_at(b, ros);
    let wat = marks_start(b);
    let nw = count_at(b, wat);
    lemma_players_in_a_row(b, 12, n, Seq::empty());
    assert(Seq::<(PlayerId, Player)>::empty() + players_at(b, 12, n) =~= players_at(b, 12, n));
    assert(s.players == players_at(b, 12, n));
    lemma_spans();
    let head = b.subrange(0, 8);
    lemma_le_value_bound(head);
    lemma_value_spells(head);
    lemma_count_spells(b, 8);
    lemma_players_spell(b, 12, n);
    lemma_count_spells(b, at);
    lemma_crabs_spell(b, at + 4, nc);
    lemma_pos_spells(b, ex);
    lemma_count_spells(b, ros);
    assert(roster_bytes(s.roster) =~= b.subrange(ros + 4, wat)) by {
        assert(s.roster == roster_seats_at(b, ros + 4, nr));
    }
    lemma_count_spells(b, wat);
    lemma_marks_spell(b, wat + 4, nw);
    assert(s.players.len() == n && s.crabs.len() == nc && s.roster.len() == nr
        && s.input_next.len() == nw);
    assert(s.outcome.tag_of() == b[ex + 16]);
    assert(snapshot_bytes(s) =~= b.subrange(0, 8) + b.subrange(8, 12) + b.subrange(12, at)
        + b.subrange(at, at + 4) + b.subrange(at + 4, ex) + b.subrange(ex, ex + 16) + seq![
        b[ex + 16],
    ] + b.subrange(ros, ros + 4) + b.subrange(ros + 4, wat) + b.subrange(wat, wat + 4)
        + b.subrange(wat + 4, b.len() as int));
    lemma_pieces(b, at, ex, ros, wat);
}

/// A byte string is its pieces.
proof fn lemma_pieces(b: Seq<u8>, at: int, ex: int, ros: int, wat: int)
    requires
        12 <= at,
        at + 4 <= ex,
        ex + 17 == ros,
        ros + 4 <= wat,
        wat + 4 <= b.len(),
    ensures
        b.subrange(0, 8) + b.subrange(8, 12) + b.subrange(12, at) + b.subrange(at, at + 4)
            + b.subrange(at + 4, ex) + b.subrange(ex, ex + 16) + seq![b[ex + 16]] + b.subrange(
            ros,
            ros + 4,
        ) + b.subrange(ros + 4, wat) + b.subrange(wat, wat + 4) + b.subrange(
            wat + 4,
            b.len() as int,
        ) == b,
{
    let p1 = b.subrange(0, 8) + b.subrange(8, 12);
    assert(p1 =~= b.subrange(0, 12));
    let p2 = p1 + b.subrange(12, at);
    assert(p2 =~= b.subrange(0, at));
    let p3 = p2 + b.subrange(at, at + 4);
    assert(p3 =~= b.subrange(0, at + 4));
    let p4 = p3 + b.subrange(at + 4, ex);
    assert(p4 =~= b.subrange(0, ex));
    let p5 = p4 + b.subrange(ex, ex + 16);
    assert(p5 =~= b.subrange(0, ex + 16));
    let p6 = p5 + seq![b[ex + 16]];
    assert(p6 =~= b.subrange(0, ros));
    let p7 = p6 + b.subrange(ros, ros + 4);
    assert(p7 =~= b.subrange(0, ros + 4));
    let p8 = p7 + b.subrange(ros + 4, wat);
    assert(p8 =~= b.subrange(0, wat));
    let p9 = p8 + b.subrange(wat, wat + 4);
    assert(p9 =~= b.subrange(0, wat + 4));
    assert(p9 + b.subrange(wat + 4, b.len() as int) =~= b);
}

} // verus!
