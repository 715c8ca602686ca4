//! Shipping confirmed voice notes to the inbox: which files go, in what order, what is said
//! on the wire, and what a sweep reports.
//!
//! One connection per note: `voice/1 <host> <len>` and a newline, then exactly that many
//! bytes; the inbox answers `ok` and a newline once the note is stored, and only then is the
//! local copy deleted. A refused note stays where it is and the sweep goes on; a dead inbox
//! would fail every note alike, so the sweep stops.

use crate::text::{
    chars_le, chars_of, debug_of, debug_text, decimal, lemma_text_le_total,
    lemma_text_le_transitive, push_decimal, push_text, string_of, text_le, texts, trim_end_chars,
    trimmed_end,
};
use vstd::prelude::*;
use vstd::string::*;

verus! {

/// Anything bigger is no voice note.
pub const MAX_WAV_BYTES: u64 = 16_777_216;

/// The longest host tag.
pub const HOST_TAG_MAX: usize = 32;

/// A character that a host tag may hold.
pub open spec fn tag_char(c: char) -> bool {
    ||| '0' <= c && c <= '9'
    ||| 'a' <= c && c <= 'z'
    ||| 'A' <= c && c <= 'Z'
    ||| c == '-'
    ||| c == '_'
}

/// The tag characters of a text, in order.
pub open spec fn tag_chars(t: Seq<char>) -> Seq<char> {
    t.filter(|c: char| tag_char(c))
}

/// The tag of a host name: its tag characters up to the limit, or `unknown`.
pub open spec fn host_tag_of(raw: Seq<char>) -> Seq<char> {
    let clean = tag_chars(raw);
    let cut = if clean.len() > HOST_TAG_MAX {
        clean.take(HOST_TAG_MAX as int)
    } else {
        clean
    };
    if cut.len() == 0 {
        "unknown"@
    } else {
        cut
    }
}

/// Clamp a host name to the alphabet of the header.
pub fn sanitize_host(raw: &str) -> (s: String)
    ensures
        s@ == host_tag_of(raw@),
{
    let v = chars_of(raw);
    let mut out: Vec<char> = Vec::new();
    let mut i: usize = 0;
    let ghost f = |c: char| tag_char(c);
    assert(v@.take(0).filter(f) =~= Seq::<char>::empty()) by {
        reveal(Seq::filter);
    }
    while i < v.len()
        invariant
            i <= v@.len(),
            f == (|c: char| tag_char(c)),
            out@ == (if v@.take(i as int).filter(f).len() > HOST_TAG_MAX {
                v@.take(i as int).filter(f).take(HOST_TAG_MAX as int)
            } else {
                v@.take(i as int).filter(f)
            }),
        decreases v@.len() - i,
    {
        let c: char = v[i];
        proof {
            reveal(Seq::filter);
            assert(v@.take(i + 1).drop_last() =~= v@.take(i as int));
            assert(v@.take(i + 1).last() == c);
        }
        let keep: bool = ('0' <= c && c <= '9') || ('a' <= c && c <= 'z') || ('A' <= c && c <= 'Z')
            || c == '-' || c == '_';
        assert(keep == f(c));
        if keep && out.len() < HOST_TAG_MAX {
            out.push(c);
        }
        i = i + 1;
        assert(out@ =~= (if v@.take(i as int).filter(f).len() > HOST_TAG_MAX {
            v@.take(i as int).filter(f).take(HOST_TAG_MAX as int)
        } else {
            v@.take(i as int).filter(f)
        }));
    }
    assert(v@.take(i as int) =~= v@);
    if out.len() == 0 {
        return String::from_str("unknown");
    }
    string_of(out.as_slice())
}

/// A host tag is safe in the header: never empty, within the limit, and of tag characters
/// only.
pub proof fn lemma_host_tag_is_safe(raw: Seq<char>)
    ensures
        0 < host_tag_of(raw).len() <= HOST_TAG_MAX,
        forall|i: int| 0 <= i < host_tag_of(raw).len() ==> tag_char(#[trigger] host_tag_of(raw)[i]),
{
    let f = |c: char| tag_char(c);
    let clean = tag_chars(raw);
    reveal_strlit("unknown");
    broadcast use vstd::seq_lib::group_filter_ensures;
    assert forall|i: int| 0 <= i < clean.len() implies tag_char(#[trigger] clean[i]) by {
        assert(f(clean[i]));
    }
}

/// A text starts with another.
pub open spec fn starts_with(t: Seq<char>, p: Seq<char>) -> bool {
    t.len() >= p.len() && t.take(p.len() as int) == p
}

/// A text ends with another.
pub open spec fn ends_with(t: Seq<char>, p: Seq<char>) -> bool {
    t.len() >= p.len() && t.skip(t.len() - p.len()) == p
}

/// Confirmed takes only: `voice-*.wav`, never the writer's staging files.
pub open spec fn is_take(name: Seq<char>) -> bool {
    starts_with(name, "voice-"@) && ends_with(name, ".wav"@)
}

/// Whether a file of this name is a take to ship.
pub fn is_pending_take(name: &str) -> (b: bool)
    ensures
        b == is_take(name@),
{
    let v = chars_of(name);
    let head = chars_of("voice-");
    let tail = chars_of(".wav");
    if v.len() < head.len() || v.len() < tail.len() {
        return false;
    }
    let mut i: usize = 0;
    while i < head.len()
        invariant
            i <= head@.len() <= v@.len(),
            v@ == name@,
            head@ == "voice-"@,
            forall|k: int| 0 <= k < i ==> v@[k] == head@[k],
        decreases head@.len() - i,
    {
        if v[i] != head[i] {
            assert(v@.take(head@.len() as int)[i as int] == v@[i as int]);
            return false;
        }
        i = i + 1;
    }
    assert(v@.take(head@.len() as int) =~= head@);
    let off: usize = v.len() - tail.len();
    let mut j: usize = 0;
    while j < tail.len()
        invariant
            j <= tail@.len(),
            v@ == name@,
            tail@ == ".wav"@,
            off + tail@.len() == v@.len(),
            v@.len() == v.len(),
            forall|k: int| 0 <= k < j ==> v@[off + k] == tail@[k],
        decreases tail@.len() - j,
    {
        if v[off + j] != tail[j] {
            assert(v@.skip(off as int)[j as int] == v@[off + j]);
            return false;
        }
        j = j + 1;
    }
    assert(v@.skip(off as int) =~= tail@);
    true
}

/// A decimal digit.
pub open spec fn is_digit(c: char) -> bool {
    '0' <= c && c <= '9'
}

/// Decimal digits, and at least one.
pub open spec fn is_number(t: Seq<char>) -> bool {
    t.len() > 0 && forall|i: int| 0 <= i < t.len() ==> is_digit(#[trigger] t[i])
}

/// The number that decimal digits spell.
pub open spec fn number_of(t: Seq<char>) -> nat
    decreases t.len(),
{
    if t.len() == 0 {
        0
    } else {
        10 * number_of(t.drop_last()) + (t.last() as nat - '0' as nat) as nat
    }
}

/// What a take's name holds between its prefix and its ending.
pub open spec fn stamp_text(name: Seq<char>) -> Seq<char> {
    name.subrange("voice-"@.len() as int, name.len() - ".wav"@.len())
}

/// When a take was saved, if its name is a take's and says so: the decimal number between the
/// prefix and the ending.
pub open spec fn stamp_of(name: Seq<char>) -> Option<nat> {
    if is_take(name) && is_number(stamp_text(name)) {
        Some(number_of(stamp_text(name)))
    } else {
        None
    }
}

/// A name goes before another: stamps compare as numbers, a stamped name goes before one
/// without, and what is left is settled by text.
pub open spec fn older_first(a: Seq<char>, b: Seq<char>) -> bool {
    match (stamp_of(a), stamp_of(b)) {
        (Some(x), Some(y)) => x < y || (x == y && text_le(a, b)),
        (Some(_), None) => true,
        (None, Some(_)) => false,
        (None, None) => text_le(a, b),
    }
}

/// Of two names one goes first.
pub proof fn lemma_older_first_total(a: Seq<char>, b: Seq<char>)
    ensures
        older_first(a, b) || older_first(b, a),
{
    lemma_text_le_total(a, b);
}

pub proof fn lemma_older_first_transitive(a: Seq<char>, b: Seq<char>, c: Seq<char>)
    requires
        older_first(a, b),
        older_first(b, c),
    ensures
        older_first(a, c),
{
    if text_le(a, b) && text_le(b, c) {
        lemma_text_le_transitive(a, b, c);
    }
}

/// A number in base ten is digits, and they spell it.
pub proof fn lemma_decimal_is_read_back(n: nat)
    ensures
        is_number(decimal(n)),
        number_of(decimal(n)) == n,
    decreases n,
{
    let t = decimal(n);
    if n < 10 {
        assert(t.drop_last() =~= Seq::<char>::empty());
        assert(number_of(t.drop_last()) == 0);
    } else {
        lemma_decimal_is_read_back(n / 10);
        assert(t.drop_last() =~= decimal(n / 10));
        assert forall|i: int| 0 <= i < t.len() implies is_digit(#[trigger] t[i]) by {
            if i < t.len() - 1 {
                assert(t[i] == decimal(n / 10)[i]);
            }
        }
    }
}

/// Whether a text is a number.
fn all_digits(t: &[char]) -> (b: bool)
    ensures
        b == is_number(t@),
{
    let mut i: usize = 0;
    while i < t.len()
        invariant
            i <= t@.len(),
            forall|k: int| 0 <= k < i ==> is_digit(#[trigger] t@[k]),
        decreases t@.len() - i,
    {
        if t[i] < '0' || t[i] > '9' {
            return false;
        }
        i = i + 1;
    }
    t.len() > 0
}

/// How two numbers of any length compare.
#[derive(Debug, Clone, Copy, PartialEq, Eq, Structural)]
enum Sides {
    Below,
    Same,
    Above,
}

/// The first `k` places of `t` set flush right in `n` places, zeros in front.
spec fn places(t: Seq<char>, n: int, k: int) -> Seq<char> {
    if k <= n - t.len() {
        Seq::empty()
    } else {
        t.take(k - (n - t.len()))
    }
}

/// The digit at place `k` of `n`.
fn place(t: &[char], n: usize, k: usize) -> (d: u8)
    requires
        is_number(t@),
        t@.len() <= n,
        k < n,
    ensures
        d <= 9,
        number_of(places(t@, n as int, k + 1)) == 10 * number_of(places(t@, n as int, k as int))
            + d,
{
    let pad: usize = n - t.len();
    if k < pad {
        return 0;
    }
    let c: char = t[k - pad];
    proof {
        let p = places(t@, n as int, k + 1);
        assert(is_digit(t@[k - pad]));
        assert(p.len() == k + 1 - pad);
        assert(p.last() == c);
        assert(p.drop_last() =~= places(t@, n as int, k as int));
    }
    (c as u32 - '0' as u32) as u8
}

/// Compare two numbers place by place.
fn number_sides(a: &[char], b: &[char]) -> (r: Sides)
    requires
        is_number(a@),
        is_number(b@),
    ensures
        match r {
            Sides::Below => number_of(a@) < number_of(b@),
            Sides::Same => number_of(a@) == number_of(b@),
            Sides::Above => number_of(a@) > number_of(b@),
        },
{
    let n: usize = if a.len() >= b.len() {
        a.len()
    } else {
        b.len()
    };
    let mut r = Sides::Same;
    let mut k: usize = 0;
    assert(places(a@, n as int, 0) =~= Seq::<char>::empty());
    assert(places(b@, n as int, 0) =~= Seq::<char>::empty());
    while k < n
        invariant
            is_number(a@),
            is_number(b@),
            a@.len() <= n,
            b@.len() <= n,
            k <= n,
            match r {
                Sides::Below => number_of(places(a@, n as int, k as int)) < number_of(
                    places(b@, n as int, k as int),
                ),
                Sides::Same => number_of(places(a@, n as int, k as int)) == number_of(
                    places(b@, n as int, k as int),
                ),
                Sides::Above => number_of(places(a@, n as int, k as int)) > number_of(
                    places(b@, n as int, k as int),
                ),
            },
        decreases n - k,
    {
        let x: u8 = place(a, n, k);
        let y: u8 = place(b, n, k);
        if r == Sides::Same {
            if x < y {
                r = Sides::Below;
            } else if x > y {
                r = Sides::Above;
            }
        }
        k = k + 1;
    }
    assert(places(a@, n as int, n as int) =~= a@);
    assert(places(b@, n as int, n as int) =~= b@);
    r
}

/// The stamp's digits, if the name has a stamp.
fn stamp_digits(name: &str) -> (r: Option<Vec<char>>)
    ensures
        match r {
            Some(v) => is_number(v@) && stamp_of(name@) == Some(number_of(v@)),
            None => stamp_of(name@) is None,
        },
{
    if !is_pending_take(name) {
        return None;
    }
    proof {
        reveal_strlit("voice-");
        reveal_strlit(".wav");
    }
    let v = chars_of(name);
    let ghost mid = stamp_text(name@);
    if v.len() < 10 {
        proof {
            lemma_take_is_long_enough(name@);
        }
        return None;
    }
    let end: usize = v.len() - 4;
    let mut d: Vec<char> = Vec::new();
    let mut i: usize = 6;
    while i < end
        invariant
            v@ == name@,
            v@.len() == v.len(),
            end + 4 == v@.len(),
            6 <= i <= end,
            d@ == v@.subrange(6, i as int),
        decreases end - i,
    {
        d.push(v[i]);
        i = i + 1;
        assert(d@ =~= v@.subrange(6, i as int));
    }
    assert(d@ =~= mid);
    if all_digits(d.as_slice()) {
        Some(d)
    } else {
        None
    }
}

/// The prefix and the ending of a take's name do not overlap.
proof fn lemma_take_is_long_enough(name: Seq<char>)
    requires
        is_take(name),
    ensures
        name.len() >= 10,
{
    reveal_strlit("voice-");
    reveal_strlit(".wav");
    let h = name.take("voice-"@.len() as int);
    let t = name.skip(name.len() - ".wav"@.len());
    assert(h[5] == '-' && h[4] == 'e' && h[3] == 'c' && h[2] == 'i');
    assert(name[5] == h[5] && name[4] == h[4] && name[3] == h[3] && name[2] == h[2]);
    assert(t[0] == '.');
    assert(t[0] == name[name.len() - 4]);
}

/// Whether one name goes before another.
fn goes_first(a: &str, b: &str) -> (r: bool)
    ensures
        r == older_first(a@, b@),
{
    let va = chars_of(a);
    let vb = chars_of(b);
    match (stamp_digits(a), stamp_digits(b)) {
        (Some(x), Some(y)) => match number_sides(x.as_slice(), y.as_slice()) {
            Sides::Below => true,
            Sides::Same => chars_le(va.as_slice(), vb.as_slice()),
            Sides::Above => false,
        },
        (Some(_), None) => true,
        (None, Some(_)) => false,
        (None, None) => chars_le(va.as_slice(), vb.as_slice()),
    }
}

/// Names in the order they go in.
pub open spec fn oldest_first(t: Seq<Seq<char>>) -> bool {
    forall|i: int, j: int| 0 <= i < j < t.len() ==> older_first(#[trigger] t[i], #[trigger] t[j])
}

/// Where a name goes among names in order.
fn insert_by_age(out: &mut Vec<String>, name: String)
    requires
        oldest_first(texts(old(out)@)),
    ensures
        oldest_first(texts(final(out)@)),
        texts(final(out)@).to_multiset() == texts(old(out)@).to_multiset().insert(name@),
        final(out)@.len() == old(out)@.len() + 1,
{
    let ghost before = texts(out@);
    let mut at: usize = out.len();
    let mut placed: bool = false;
    while at > 0 && !placed
        invariant
            at <= out@.len(),
            texts(out@) == before,
            oldest_first(before),
            forall|k: int| at <= k < before.len() ==> older_first(name@, #[trigger] before[k]),
            placed ==> at > 0 && older_first(before[at - 1], name@),
        decreases at + (if placed {
                0int
            } else {
                1int
            }),
    {
        let ghost prev = out@[at - 1]@;
        assert(before[at - 1] == prev);
        if goes_first(out[at - 1].as_str(), name.as_str()) {
            placed = true;
        } else {
            proof {
                lemma_older_first_total(prev, name@);
            }
            at = at - 1;
            assert forall|k: int| at <= k < before.len() implies older_first(
                name@,
                #[trigger] before[k],
            ) by {
                if k == at {
                    assert(before[k] == prev);
                }
            }
        }
    }
    let ghost nm = name@;
    out.insert(at, name);
    proof {
        let after = texts(out@);
        assert(after =~= before.insert(at as int, nm));
        vstd::seq_lib::to_multiset_insert(before, at as int, nm);
        assert forall|i: int, j: int| 0 <= i < j < after.len() implies older_first(
            #[trigger] after[i],
            #[trigger] after[j],
        ) by {
            let i0 = if i < at {
                i
            } else {
                i - 1
            };
            let j0 = if j < at {
                j
            } else {
                j - 1
            };
            if i == at {
                assert(after[j] == before[j0]);
            } else if j == at {
                assert(after[i] == before[i0]);
                if i0 < at - 1 {
                    assert(older_first(before[i0], before[at - 1]));
                    lemma_older_first_transitive(before[i0], before[at - 1], nm);
                }
            } else {
                assert(older_first(before[i0], before[j0]));
            }
        }
    }
}

/// The takes among a directory's file names, oldest first.
pub fn pending_takes(files: Vec<String>) -> (r: Vec<String>)
    ensures
        forall|i: int, j: int|
            0 <= i < j < r@.len() ==> older_first((#[trigger] r@[i])@, (#[trigger] r@[j])@),
        texts(r@).to_multiset() == texts(files@).filter(|n: Seq<char>| is_take(n)).to_multiset(),
{
    let ghost f = |n: Seq<char>| is_take(n);
    let ghost all = texts(files@);
    let mut out: Vec<String> = Vec::new();
    let mut i: usize = 0;
    proof {
        assert(all.take(0).filter(f) =~= Seq::<Seq<char>>::empty()) by {
            reveal(Seq::filter);
        }
        assert(texts(out@) =~= all.take(0).filter(f));
    }
    while i < files.len()
        invariant
            i <= files@.len(),
            all == texts(files@),
            f == (|n: Seq<char>| is_take(n)),
            oldest_first(texts(out@)),
            texts(out@).to_multiset() == all.take(i as int).filter(f).to_multiset(),
        decreases files@.len() - i,
    {
        proof {
            reveal(Seq::filter);
            assert(all.take(i + 1).drop_last() =~= all.take(i as int));
            assert(all.take(i + 1).last() == files@[i as int]@);
            all.take(i as int).filter(f).to_multiset_ensures();
        }
        if is_pending_take(files[i].as_str()) {
            insert_by_age(&mut out, files[i].clone());
        }
        i = i + 1;
    }
    assert(all.take(i as int) =~= all);
    proof {
        assert forall|i: int, j: int| 0 <= i < j < out@.len() implies older_first(
            (#[trigger] out@[i])@,
            (#[trigger] out@[j])@,
        ) by {
            assert(older_first(texts(out@)[i], texts(out@)[j]));
        }
    }
    out
}

/// Where the inbox is unless another place is set.
pub const DEFAULT_ENDPOINT: &'static str = "127.0.0.1:4319";

/// The inbox to dial, given the value of `RL_VOICE_ENDPOINT`.
pub fn endpoint(set: Option<&str>) -> (s: String)
    ensures
        s@ == (match set {
            Some(e) => e@,
            None => DEFAULT_ENDPOINT@,
        }),
{
    match set {
        Some(e) => String::from_str(e),
        None => String::from_str(DEFAULT_ENDPOINT),
    }
}

/// Who sends, given the values of `DECK_ID` and `HOSTNAME`: the first that is set.
pub fn host_tag(deck_id: Option<&str>, hostname: Option<&str>) -> (s: String)
    ensures
        s@ == host_tag_of(
            match deck_id {
                Some(d) => d@,
                None => match hostname {
                    Some(h) => h@,
                    None => Seq::empty(),
                },
            },
        ),
{
    match deck_id {
        Some(d) => sanitize_host(d),
        None => match hostname {
            Some(h) => sanitize_host(h),
            None => {
                proof {
                    reveal_strlit("");
                    assert(""@ =~= Seq::<char>::empty());
                }
                sanitize_host("")
            },
        },
    }
}

/// The line that announces a note.
pub open spec fn header_text(host: Seq<char>, len: nat) -> Seq<char> {
    "voice/1 "@ + host + " "@ + decimal(len) + "\n"@
}

pub fn note_header(host: &str, len: u64) -> (s: String)
    ensures
        s@ == header_text(host@, len as nat),
{
    let mut out = String::new();
    push_text(&mut out, "voice/1 ");
    push_text(&mut out, host);
    push_text(&mut out, " ");
    push_decimal(&mut out, len);
    push_text(&mut out, "\n");
    assert(out@ =~= header_text(host@, len as nat));
    out
}

/// Why a note is too long to ship.
pub open spec fn over_cap_text(len: u64) -> Seq<char> {
    decimal(len as nat) + " bytes exceeds the "@ + decimal(MAX_WAV_BYTES as nat) + " note cap"@
}

/// Whether a file of this length is a note; if not, why not.
pub fn check_note_len(len: u64) -> (r: Result<(), String>)
    ensures
        r is Ok <==> len <= MAX_WAV_BYTES,
        r matches Err(e) ==> e@ == over_cap_text(len),
{
    if len > MAX_WAV_BYTES {
        let mut out = String::new();
        push_decimal(&mut out, len);
        push_text(&mut out, " bytes exceeds the ");
        push_decimal(&mut out, MAX_WAV_BYTES);
        push_text(&mut out, " note cap");
        assert(out@ =~= over_cap_text(len));
        return Err(out);
    }
    Ok(())
}

/// What the inbox's reply says: stored, or refused and how.
pub fn check_reply(reply: &str) -> (r: Result<(), String>)
    ensures
        r is Ok <==> trimmed_end(reply@) == "ok"@,
        r matches Err(e) ==> e@ == "inbox refused the note: "@ + debug_of(reply@),
{
    let mut v = chars_of(reply);
    trim_end_chars(&mut v);
    proof {
        reveal_strlit("ok");
    }
    if v.len() == 2 && v[0] == 'o' && v[1] == 'k' {
        assert(v@ =~= "ok"@);
        return Ok(());
    }
    let mut out = String::new();
    push_text(&mut out, "inbox refused the note: ");
    let q = debug_text(reply);
    push_text(&mut out, q.as_str());
    assert(out@ =~= "inbox refused the note: "@ + debug_of(reply@));
    Err(out)
}

/// What became of one note.
#[derive(Debug, Clone, PartialEq, Eq)]
pub enum NoteOutcome {
    Delivered,
    /// This note cannot go; the ones behind it can.
    Rejected(String),
    /// The inbox cannot be reached; no note can go.
    Transport(String),
}

/// What a sweep reports.
#[derive(Debug, Clone, PartialEq, Eq)]
pub struct Report {
    pub sent: usize,
    /// The last failure, if any.
    pub error: Option<String>,
}

/// What a report holds.
pub struct ReportView {
    pub sent: nat,
    pub error: Option<Seq<char>>,
}

impl View for Report {
    type V = ReportView;

    open spec fn view(&self) -> ReportView {
        ReportView {
            sent: self.sent as nat,
            error: match self.error {
                Some(e) => Some(e@),
                None => None,
            },
        }
    }
}

impl Default for Report {
    fn default() -> (r: Self)
        ensures
            r@ == (ReportView { sent: 0, error: None }),
    {
        Report { sent: 0, error: None }
    }
}

/// The report with one more note's outcome in it.
pub open spec fn reported(r: ReportView, o: NoteOutcome) -> ReportView {
    match o {
        NoteOutcome::Delivered => ReportView { sent: r.sent + 1, ..r },
        NoteOutcome::Rejected(e) => ReportView { error: Some(e@), ..r },
        NoteOutcome::Transport(e) => ReportView { error: Some(e@), ..r },
    }
}

/// The report of a sweep that met these outcomes in turn: it ends with the first that the
/// inbox could not be reached for.
pub open spec fn sweep_report(outcomes: Seq<NoteOutcome>) -> ReportView
    decreases outcomes.len(),
{
    if outcomes.len() == 0 {
        ReportView { sent: 0, error: None }
    } else {
        reported(sweep_report(outcomes.drop_last()), outcomes.last())
    }
}

impl Report {
    /// Take one note's outcome in. Tells whether the sweep goes on.
    pub fn note(&mut self, o: NoteOutcome) -> (go_on: bool)
        requires
            old(self).sent < usize::MAX,
        ensures
            final(self)@ == reported(old(self)@, o),
            go_on == !(o is Transport),
    {
        match o {
            NoteOutcome::Delivered => {
                self.sent = self.sent + 1;
                true
            },
            NoteOutcome::Rejected(e) => {
                self.error = Some(e);
                true
            },
            NoteOutcome::Transport(e) => {
                self.error = Some(e);
                false
            },
        }
    }
}

/// A rejected note wedges nothing: what was sent before and after it is counted alike.
pub proof fn lemma_rejection_does_not_wedge(outcomes: Seq<NoteOutcome>)
    ensures
        sweep_report(outcomes).sent == outcomes.filter(
            |o: NoteOutcome| o is Delivered,
        ).len(),
        sweep_report(outcomes).error is None <==> forall|i: int|
            0 <= i < outcomes.len() ==> (#[trigger] outcomes[i]) is Delivered,
    decreases outcomes.len(),
{
    reveal(Seq::filter);
    if outcomes.len() > 0 {
        let d = outcomes.drop_last();
        lemma_rejection_does_not_wedge(d);
        if sweep_report(outcomes).error is None {
            assert forall|i: int| 0 <= i < outcomes.len() implies (#[trigger] outcomes[i])
                is Delivered by {
                if i < d.len() {
                    assert(d[i] is Delivered);
                }
            }
        } else if sweep_report(d).error is Some {
            let i = choose|i: int| 0 <= i < d.len() && !((#[trigger] d[i]) is Delivered);
            assert(!(outcomes[i] is Delivered));
        } else {
            assert(!(outcomes[outcomes.len() - 1] is Delivered));
        }
    }
}

/// One sweep at a time: two could race the same note into a double delivery.
#[derive(Debug)]
pub struct SweepGate {
    busy: bool,
}

impl View for SweepGate {
    type V = bool;

    closed spec fn view(&self) -> bool {
        self.busy
    }
}

/// Held for the duration of one sweep.
#[derive(Debug)]
pub struct SweepSlot {
    held: bool,
}

impl SweepGate {
    /// Nobody sweeps.
    pub fn new() -> (g: Self)
        ensures
            !g@,
    {
        SweepGate { busy: false }
    }

    /// The sweep that held the slot is over.
    pub fn end_sweep(&mut self, slot: SweepSlot)
        ensures
            !final(self)@,
    {
        self.busy = false;
    }
}

/// `None` while another sweep is running.
pub fn try_begin_sweep(gate: &mut SweepGate) -> (r: Option<SweepSlot>)
    ensures
        r is Some <==> !old(gate)@,
        final(gate)@,
{
    if gate.busy {
        None
    } else {
        gate.busy = true;
        Some(SweepSlot { held: true })
    }
}

/// A tag that is safe already, and neither empty nor too long, is kept as it is. No other is
/// longer than the limit but the name given to a host without one, and what is left of a tag
/// begins with its first safe character.
pub proof fn lemma_safe_tag_is_kept(raw: Seq<char>)
    ensures
        (forall|i: int| 0 <= i < raw.len() ==> tag_char(#[trigger] raw[i])) ==> tag_chars(raw) == raw,
        (forall|i: int| 0 <= i < raw.len() ==> tag_char(#[trigger] raw[i])) && 0 < raw.len()
            <= HOST_TAG_MAX ==> host_tag_of(raw) == raw,
        host_tag_of(raw).len() <= HOST_TAG_MAX || host_tag_of(raw) == "unknown"@,
        tag_chars(raw).len() > 0 ==> host_tag_of(raw)[0] == tag_chars(raw)[0],
    decreases raw.len(),
{
    reveal(Seq::filter);
    if raw.len() > 0 {
        let d = raw.drop_last();
        lemma_safe_tag_is_kept(d);
        if forall|i: int| 0 <= i < raw.len() ==> tag_char(#[trigger] raw[i]) {
            assert forall|i: int| 0 <= i < d.len() implies tag_char(#[trigger] d[i]) by {
                assert(tag_char(raw[i]));
            }
            assert(tag_char(raw[raw.len() - 1]));
            assert(d.push(raw.last()) =~= raw);
        }
    }
}

/// What a sweep reports as its error is the last thing that went wrong.
pub proof fn lemma_last_error_is_reported(outcomes: Seq<NoteOutcome>, o: NoteOutcome)
    ensures
        ({
            let r = sweep_report(outcomes.push(o));
            let before = sweep_report(outcomes);
            &&& (o is Delivered ==> r.error == before.error && r.sent == before.sent + 1)
            &&& (!(o is Delivered) ==> r.sent == before.sent)
            &&& (o matches NoteOutcome::Rejected(e) ==> r.error == Some(e@))
            &&& (o matches NoteOutcome::Transport(e) ==> r.error == Some(e@))
        }),
{
    assert(outcomes.push(o).drop_last() =~= outcomes);
}

/// The take with the lower stamp goes first, and one without a stamp goes last.
pub proof fn lemma_lower_stamp_goes_first(a: Seq<char>, b: Seq<char>)
    ensures
        stamp_of(a) matches Some(x) ==> (stamp_of(b) matches Some(y) ==> (x < y ==> older_first(a, b)
            && !older_first(b, a))),
        stamp_of(a) is Some && stamp_of(b) is None ==> older_first(a, b) && !older_first(b, a),
{
}

} // verus!
