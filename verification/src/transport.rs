//! Links between peers: who dials, which of two crossed connections stays, how many strangers
//! may hang on, and the frames on a link.

use crate::bytes::{le, le_value, lemma_le_roundtrip, lemma_spans, push_all, push_u32};
use crate::telemetry::{hex_prefix, hex_text};
use crate::text::{decimal, fixed_digits, push_decimal, push_fixed, push_text};
use vstd::prelude::*;
use vstd::string::*;

verus! {

/// The name of the game on the local network.
pub const SERVICE_NAME: &'static str = "bddap-rl-game";

/// The byte that opens a stream.
pub const HELLO: u8 = 0xA5;

/// Frames that wait for a slow peer; one more and its link is dropped.
pub const OUT_QUEUE_FRAMES: usize = 256;

/// An endpoint's id is below another's.
pub open spec fn id_lt(a: Seq<u8>, b: Seq<u8>) -> bool
    decreases a.len(),
{
    if b.len() == 0 {
        false
    } else if a.len() == 0 {
        true
    } else if a[0] == b[0] {
        id_lt(a.skip(1), b.skip(1))
    } else {
        a[0] < b[0]
    }
}

pub proof fn lemma_id_total(a: Seq<u8>, b: Seq<u8>)
    ensures
        id_lt(a, b) || a == b || id_lt(b, a),
        !(id_lt(a, b) && id_lt(b, a)),
        a == b ==> !id_lt(a, b),
    decreases a.len(),
{
    if a.len() == 0 || b.len() == 0 {
        if a.len() == b.len() {
            assert(a =~= b);
        }
    } else if a[0] == b[0] {
        lemma_id_total(a.skip(1), b.skip(1));
        if a.skip(1) == b.skip(1) {
            assert(a =~= seq![a[0]] + a.skip(1));
            assert(b =~= seq![b[0]] + b.skip(1));
        }
    }
}

proof fn lemma_id_transitive(a: Seq<u8>, b: Seq<u8>, c: Seq<u8>)
    requires
        id_lt(a, b),
        id_lt(b, c),
    ensures
        id_lt(a, c),
    decreases a.len(),
{
    if a.len() > 0 && a[0] == b[0] && b[0] == c[0] {
        lemma_id_transitive(a.skip(1), b.skip(1), c.skip(1));
    }
}

/// Whether an id is below another.
pub fn id_before(a: &[u8; 32], b: &[u8; 32]) -> (r: bool)
    ensures
        r == id_lt(a@, b@),
{
    let mut i: usize = 0;
    assert(a@.skip(0) =~= a@);
    assert(b@.skip(0) =~= b@);
    while i < 32 && a[i] == b[i]
        invariant
            i <= 32,
            a@.len() == 32,
            b@.len() == 32,
            id_lt(a@, b@) == id_lt(a@.skip(i as int), b@.skip(i as int)),
        decreases 32 - i,
    {
        proof {
            assert(a@.skip(i as int).skip(1) =~= a@.skip(i + 1));
            assert(b@.skip(i as int).skip(1) =~= b@.skip(i + 1));
        }
        i = i + 1;
    }
    if i == 32 {
        false
    } else {
        a[i] < b[i]
    }
}

fn same_id(a: &[u8; 32], b: &[u8; 32]) -> (r: bool)
    ensures
        r == (a@ == b@),
{
    let mut i: usize = 0;
    while i < 32
        invariant
            i <= 32,
            a@.len() == 32,
            b@.len() == 32,
            forall|k: int| 0 <= k < i ==> a@[k] == b@[k],
        decreases 32 - i,
    {
        if a[i] != b[i] {
            return false;
        }
        i = i + 1;
    }
    assert(a@ =~= b@);
    true
}

/// The stream of a connection is opened by the side with the lower id, whoever dialed.
pub fn opens_stream(me: &[u8; 32], peer: &[u8; 32]) -> (b: bool)
    ensures
        b == id_lt(me@, peer@),
{
    id_before(me, peer)
}

/// Of two different peers exactly one opens the stream.
pub proof fn lemma_one_side_opens(a: Seq<u8>, b: Seq<u8>)
    requires
        a != b,
    ensures
        id_lt(a, b) != id_lt(b, a),
{
    lemma_id_total(a, b);
}

/// A peer that was discovered is dialed by the side with the lower id, unless there is a link
/// already.
pub fn should_dial(me: &[u8; 32], peer: &[u8; 32], linked: bool) -> (b: bool)
    ensures
        b == (id_lt(me@, peer@) && !linked),
{
    id_before(me, peer) && !linked
}

/// A link: who dialed its connection, and the number of that connection.
#[derive(Debug, Clone, Copy, PartialEq, Eq)]
pub struct PeerLink {
    pub peer: [u8; 32],
    pub dialer: [u8; 32],
    pub conn: u64,
}

/// A link by value.
pub struct LinkView {
    pub peer: Seq<u8>,
    pub dialer: Seq<u8>,
    pub conn: u64,
}

/// Links by value.
pub open spec fn link_views(s: Seq<PeerLink>) -> Seq<LinkView> {
    Seq::new(
        s.len(),
        |i: int| LinkView { peer: s[i].peer@, dialer: s[i].dialer@, conn: s[i].conn },
    )
}

/// At most one link to a peer, in the order of their ids.
pub open spec fn links_ordered(s: Seq<LinkView>) -> bool {
    forall|i: int, j: int|
        0 <= i < j < s.len() ==> id_lt((#[trigger] s[i]).peer, (#[trigger] s[j]).peer)
}

/// There is a link to a peer.
pub open spec fn is_linked(s: Seq<LinkView>, peer: Seq<u8>) -> bool {
    exists|i: int| 0 <= i < s.len() && (#[trigger] s[i]).peer == peer
}

/// The link to a peer.
pub open spec fn link_to(s: Seq<LinkView>, peer: Seq<u8>) -> Option<LinkView> {
    if is_linked(s, peer) {
        Some(s[choose|i: int| 0 <= i < s.len() && (#[trigger] s[i]).peer == peer])
    } else {
        None
    }
}

proof fn lemma_link_at(s: Seq<LinkView>, i: int)
    requires
        links_ordered(s),
        0 <= i < s.len(),
    ensures
        link_to(s, s[i].peer) == Some(s[i]),
{
    let p = s[i].peer;
    assert(is_linked(s, p));
    let j = choose|j: int| 0 <= j < s.len() && (#[trigger] s[j]).peer == p;
    lemma_id_total(p, p);
    if i < j {
        assert(id_lt(s[i].peer, s[j].peer));
    }
    if j < i {
        assert(id_lt(s[j].peer, s[i].peer));
    }
}

/// What becomes of a connection that came up.
#[derive(Debug, Clone, Copy, PartialEq, Eq, Structural)]
pub enum Wired {
    /// Too many strangers: it is closed.
    Refused,
    /// The other connection to this peer stays: it is closed.
    Duplicate,
    /// It is the link now; a connection that it takes the place of is closed.
    Linked { closed: Option<u64> },
}

/// Which of two connections to a peer stays: that with the lower dialer; of two by one
/// dialer, the newer.
pub open spec fn stays(old_dialer: Seq<u8>, new_dialer: Seq<u8>) -> bool {
    id_lt(old_dialer, new_dialer)
}

/// What becomes of a connection, given the link to its peer, if any, and the number of links.
pub open spec fn wiring(
    link: Option<LinkView>,
    count: nat,
    capacity: nat,
    mine: bool,
    dialer: Seq<u8>,
) -> Wired {
    match link {
        Some(l) => if stays(l.dialer, dialer) {
            Wired::Duplicate
        } else {
            Wired::Linked { closed: Some(l.conn) }
        },
        None => if !mine && count >= capacity {
            Wired::Refused
        } else {
            Wired::Linked { closed: None }
        },
    }
}

/// The links of a session.
#[derive(Debug)]
pub struct LinkTable {
    links: Vec<PeerLink>,
}

impl View for LinkTable {
    type V = Seq<LinkView>;

    closed spec fn view(&self) -> Seq<LinkView> {
        link_views(self.links@)
    }
}

impl LinkTable {
    /// At most one link to a peer, in order.
    pub open spec fn wf(&self) -> bool {
        links_ordered(self@)
    }

    /// No links.
    pub fn new() -> (t: Self)
        ensures
            t.wf(),
            t@.len() == 0,
    {
        LinkTable { links: Vec::new() }
    }

    /// How many links there are.
    pub fn len(&self) -> (n: usize)
        ensures
            n == self@.len(),
    {
        self.links.len()
    }

    /// The first place whose peer is not below `peer`.
    fn place(&self, peer: &[u8; 32]) -> (i: usize)
        requires
            self.wf(),
        ensures
            i <= self@.len(),
            forall|k: int| 0 <= k < i ==> id_lt((#[trigger] self@[k]).peer, peer@),
            forall|k: int|
                i <= k < self@.len() ==> (#[trigger] self@[k]).peer == peer@ || id_lt(
                    peer@,
                    self@[k].peer,
                ),
    {
        let mut i: usize = 0;
        while i < self.links.len() && id_before(&self.links[i].peer, peer)
            invariant
                i <= self.links@.len(),
                forall|k: int| 0 <= k < i ==> id_lt((#[trigger] self@[k]).peer, peer@),
            decreases self.links@.len() - i,
        {
            assert(self@[i as int].peer == self.links@[i as int].peer@);
            i = i + 1;
        }
        proof {
            if i < self.links@.len() {
                assert(self@[i as int].peer == self.links@[i as int].peer@);
                lemma_id_total(self@[i as int].peer, peer@);
            }
            assert forall|k: int| i <= k < self@.len() implies (#[trigger] self@[k]).peer == peer@
                || id_lt(peer@, self@[k].peer) by {
                if k > i {
                    assert(id_lt(self@[i as int].peer, self@[k].peer));
                    if self@[i as int].peer != peer@ {
                        lemma_id_transitive(peer@, self@[i as int].peer, self@[k].peer);
                    }
                }
            }
        }
        i
    }

    /// The place of a peer's link.
    fn find(&self, peer: &[u8; 32]) -> (r: Option<usize>)
        requires
            self.wf(),
        ensures
            match r {
                Some(i) => i < self@.len() && self@[i as int].peer == peer@,
                None => !is_linked(self@, peer@),
            },
    {
        let i: usize = self.place(peer);
        if i < self.links.len() && same_id(&self.links[i].peer, peer) {
            assert(self@[i as int].peer == self.links@[i as int].peer@);
            return Some(i);
        }
        proof {
            if is_linked(self@, peer@) {
                let k = choose|k: int| 0 <= k < self@.len() && (#[trigger] self@[k]).peer == peer@;
                lemma_id_total(peer@, peer@);
                if k > i {
                    assert(id_lt(self@[i as int].peer, self@[k].peer));
                    lemma_id_total(self@[i as int].peer, peer@);
                    assert(self@[i as int].peer == self.links@[i as int].peer@);
                } else if k == i {
                    assert(self@[i as int].peer == self.links@[i as int].peer@);
                }
                assert(false);
            }
        }
        None
    }

    /// Whether there is a link to a peer.
    pub fn contains(&self, peer: &[u8; 32]) -> (b: bool)
        requires
            self.wf(),
        ensures
            b == is_linked(self@, peer@),
    {
        self.find(peer).is_some()
    }

    /// The peers that there are links to, in the order of their ids.
    pub fn connected_peers(&self) -> (v: Vec<[u8; 32]>)
        ensures
            v@.len() == self@.len(),
            forall|i: int| 0 <= i < v@.len() ==> (#[trigger] v@[i])@ == self@[i].peer,
    {
        let mut out: Vec<[u8; 32]> = Vec::new();
        let mut i: usize = 0;
        while i < self.links.len()
            invariant
                i <= self.links@.len(),
                out@.len() == i,
                forall|k: int| 0 <= k < i ==> (#[trigger] out@[k])@ == self@[k].peer,
            decreases self.links@.len() - i,
        {
            out.push(self.links[i].peer);
            i = i + 1;
        }
        out
    }

    /// A connection came up. An inbound one from a stranger is refused at capacity; ours
    /// never is, nor one from a peer that is linked already.
    pub fn wire_connection(
        &mut self,
        me: &[u8; 32],
        peer: &[u8; 32],
        dialed_by_me: bool,
        conn: u64,
        capacity: usize,
    ) -> (w: Wired)
        requires
            old(self).wf(),
        ensures
            final(self).wf(),
            ({
                let dialer = if dialed_by_me {
                    me@
                } else {
                    peer@
                };
                &&& w == wiring(
                    link_to(old(self)@, peer@),
                    old(self)@.len(),
                    capacity as nat,
                    dialed_by_me,
                    dialer,
                )
                &&& w is Linked ==> link_to(final(self)@, peer@) == Some(
                    LinkView { peer: peer@, dialer, conn },
                )
                &&& !(w is Linked) ==> final(self)@ == old(self)@
                &&& forall|p: Seq<u8>|
                    p != peer@ ==> #[trigger] link_to(final(self)@, p) == link_to(old(self)@, p)
                &&& final(self)@.len() == old(self)@.len() + (if w is Linked && !is_linked(
                    old(self)@,
                    peer@,
                ) {
                    1int
                } else {
                    0int
                })
            }),
    {
        let ghost before = self@;
        let dialer: [u8; 32] = if dialed_by_me {
            *me
        } else {
            *peer
        };
        let fresh = PeerLink { peer: *peer, dialer, conn };
        let ghost fv = LinkView { peer: peer@, dialer: dialer@, conn };
        match self.find(peer) {
            Some(i) => {
                proof {
                    lemma_link_at(before, i as int);
                }
                if id_before(&self.links[i].dialer, &dialer) {
                    return Wired::Duplicate;
                }
                let closed: u64 = self.links[i].conn;
                self.links.set(i, fresh);
                proof {
                    let after = self@;
                    assert(after =~= before.update(i as int, fv));
                    lemma_update(before, i as int, fv);
                    lemma_link_at(after, i as int);
                }
                Wired::Linked { closed: Some(closed) }
            },
            None => {
                if !dialed_by_me && self.links.len() >= capacity {
                    return Wired::Refused;
                }
                let i: usize = self.place(peer);
                self.links.insert(i, fresh);
                proof {
                    let after = self@;
                    assert(after =~= before.insert(i as int, fv));
                    assert forall|k: int| i <= k < before.len() implies id_lt(
                        peer@,
                        (#[trigger] before[k]).peer,
                    ) by {
                        assert(before[k].peer != peer@);
                    }
                    lemma_insert(before, i as int, fv);
                    lemma_link_at(after, i as int);
                }
                Wired::Linked { closed: None }
            },
        }
    }

    /// A connection failed: its link goes, unless another connection has taken its place.
    /// Tells whether the connection is to be closed.
    pub fn drop_if_same(&mut self, peer: &[u8; 32], conn: u64) -> (dropped: bool)
        requires
            old(self).wf(),
        ensures
            final(self).wf(),
            dropped == (link_to(old(self)@, peer@) matches Some(l) && l.conn == conn),
            dropped ==> !is_linked(final(self)@, peer@),
            !dropped ==> final(self)@ == old(self)@,
            forall|p: Seq<u8>|
                p != peer@ ==> #[trigger] link_to(final(self)@, p) == link_to(old(self)@, p),
    {
        let ghost before = self@;
        match self.find(peer) {
            Some(i) => {
                proof {
                    lemma_link_at(before, i as int);
                }
                if self.links[i].conn != conn {
                    return false;
                }
                self.links.remove(i);
                proof {
                    assert(self@ =~= before.remove(i as int));
                    lemma_remove(before, i as int);
                }
                true
            },
            None => false,
        }
    }

    /// Drop a peer's link now. Returns the connection to close.
    pub fn disconnect(&mut self, peer: &[u8; 32]) -> (r: Option<u64>)
        requires
            old(self).wf(),
        ensures
            final(self).wf(),
            r == (match link_to(old(self)@, peer@) {
                Some(l) => Some(l.conn),
                None => None,
            }),
            !is_linked(final(self)@, peer@),
            forall|p: Seq<u8>|
                p != peer@ ==> #[trigger] link_to(final(self)@, p) == link_to(old(self)@, p),
    {
        let ghost before = self@;
        match self.find(peer) {
            Some(i) => {
                proof {
                    lemma_link_at(before, i as int);
                }
                let conn: u64 = self.links[i].conn;
                self.links.remove(i);
                proof {
                    assert(self@ =~= before.remove(i as int));
                    lemma_remove(before, i as int);
                }
                Some(conn)
            },
            None => None,
        }
    }
}

proof fn lemma_update(s: Seq<LinkView>, i: int, v: LinkView)
    requires
        links_ordered(s),
        0 <= i < s.len(),
        v.peer == s[i].peer,
    ensures
        links_ordered(s.update(i, v)),
        forall|p: Seq<u8>| p != v.peer ==> #[trigger] link_to(s.update(i, v), p) == link_to(s, p),
{
    let t = s.update(i, v);
    assert forall|a: int, b: int| 0 <= a < b < t.len() implies id_lt(
        (#[trigger] t[a]).peer,
        (#[trigger] t[b]).peer,
    ) by {
        assert(id_lt(s[a].peer, s[b].peer));
    }
    assert forall|p: Seq<u8>| p != v.peer implies #[trigger] link_to(t, p) == link_to(s, p) by {
        if is_linked(s, p) {
            let k = choose|k: int| 0 <= k < s.len() && (#[trigger] s[k]).peer == p;
            assert(t[k] == s[k]);
            lemma_link_at(s, k);
            lemma_link_at(t, k);
        } else if is_linked(t, p) {
            let k = choose|k: int| 0 <= k < t.len() && (#[trigger] t[k]).peer == p;
            assert(s[k].peer == p);
        }
    }
}

proof fn lemma_insert(s: Seq<LinkView>, i: int, v: LinkView)
    requires
        links_ordered(s),
        0 <= i <= s.len(),
        forall|k: int| 0 <= k < i ==> id_lt((#[trigger] s[k]).peer, v.peer),
        forall|k: int| i <= k < s.len() ==> id_lt(v.peer, (#[trigger] s[k]).peer),
    ensures
        links_ordered(s.insert(i, v)),
        forall|p: Seq<u8>| p != v.peer ==> #[trigger] link_to(s.insert(i, v), p) == link_to(s, p),
{
    let t = s.insert(i, v);
    assert forall|a: int, b: int| 0 <= a < b < t.len() implies id_lt(
        (#[trigger] t[a]).peer,
        (#[trigger] t[b]).peer,
    ) by {
        let a0 = if a < i {
            a
        } else {
            a - 1
        };
        let b0 = if b < i {
            b
        } else {
            b - 1
        };
        if a == i {
            assert(t[b] == s[b0]);
        } else if b == i {
            assert(t[a] == s[a0]);
        } else {
            assert(id_lt(s[a0].peer, s[b0].peer));
        }
    }
    assert forall|p: Seq<u8>| p != v.peer implies #[trigger] link_to(t, p) == link_to(s, p) by {
        if is_linked(s, p) {
            let k = choose|k: int| 0 <= k < s.len() && (#[trigger] s[k]).peer == p;
            let m = if k < i {
                k
            } else {
                k + 1
            };
            assert(t[m] == s[k]);
            lemma_link_at(s, k);
            lemma_link_at(t, m);
        } else if is_linked(t, p) {
            let k = choose|k: int| 0 <= k < t.len() && (#[trigger] t[k]).peer == p;
            let m = if k < i {
                k
            } else {
                k - 1
            };
            assert(s[m] == t[k]);
        }
    }
}

proof fn lemma_remove(s: Seq<LinkView>, i: int)
    requires
        links_ordered(s),
        0 <= i < s.len(),
    ensures
        links_ordered(s.remove(i)),
        !is_linked(s.remove(i), s[i].peer),
        forall|p: Seq<u8>| p != s[i].peer ==> #[trigger] link_to(s.remove(i), p) == link_to(s, p),
{
    let t = s.remove(i);
    assert forall|a: int, b: int| 0 <= a < b < t.len() implies id_lt(
        (#[trigger] t[a]).peer,
        (#[trigger] t[b]).peer,
    ) by {
        let a0 = if a < i {
            a
        } else {
            a + 1
        };
        let b0 = if b < i {
            b
        } else {
            b + 1
        };
        assert(id_lt(s[a0].peer, s[b0].peer));
    }
    if is_linked(t, s[i].peer) {
        let k = choose|k: int| 0 <= k < t.len() && (#[trigger] t[k]).peer == s[i].peer;
        lemma_id_total(s[i].peer, s[i].peer);
        if k < i {
            assert(id_lt(s[k].peer, s[i].peer));
        } else {
            assert(id_lt(s[i].peer, s[k + 1].peer));
        }
        assert(false);
    }
    assert forall|p: Seq<u8>| p != s[i].peer implies #[trigger] link_to(t, p) == link_to(s, p) by {
        if is_linked(s, p) {
            let k = choose|k: int| 0 <= k < s.len() && (#[trigger] s[k]).peer == p;
            let m = if k < i {
                k
            } else {
                k - 1
            };
            assert(t[m] == s[k]);
            lemma_link_at(s, k);
            lemma_link_at(t, m);
        } else if is_linked(t, p) {
            let k = choose|k: int| 0 <= k < t.len() && (#[trigger] t[k]).peer == p;
            let m = if k < i {
                k
            } else {
                k + 1
            };
            assert(s[m] == t[k]);
        }
    }
}

/// The link to a peer once a connection came up, at any count of links.
pub open spec fn link_after(
    link: Option<LinkView>,
    fresh: LinkView,
    count: nat,
    capacity: nat,
    mine: bool,
) -> Option<LinkView> {
    if wiring(link, count, capacity, mine, fresh.dialer) is Linked {
        Some(fresh)
    } else {
        link
    }
}

/// Two peers that dial each other at once end up on one connection: on either side, and
/// whichever comes up first, the one that the lower id dialed stays.
pub proof fn lemma_crossed_dials_converge(
    me: Seq<u8>,
    peer: Seq<u8>,
    mine: u64,
    theirs: u64,
    count: nat,
    capacity: nat,
)
    requires
        me != peer,
        count < capacity,
    ensures
        ({
            let ours = LinkView { peer, dialer: me, conn: mine };
            let inbound = LinkView { peer, dialer: peer, conn: theirs };
            let lower = if id_lt(me, peer) {
                ours
            } else {
                inbound
            };
            &&& link_after(
                link_after(None, ours, count, capacity, true),
                inbound,
                count + 1,
                capacity,
                false,
            ) == Some(lower)
            &&& link_after(
                link_after(None, inbound, count, capacity, false),
                ours,
                count + 1,
                capacity,
                true,
            ) == Some(lower)
        }),
{
    lemma_id_total(me, peer);
    lemma_id_total(me, me);
    lemma_id_total(peer, peer);
}

/// Inbound connections alone never take the links beyond capacity.
pub proof fn lemma_inbound_is_bounded(
    link: Option<LinkView>,
    count: nat,
    capacity: nat,
    dialer: Seq<u8>,
)
    requires
        count <= capacity,
    ensures
        wiring(link, count, capacity, false, dialer) is Linked && link is None ==> count + 1
            <= capacity,
        link is Some ==> !(wiring(link, count, capacity, false, dialer) is Refused),
        !(wiring(link, count, capacity, true, dialer) is Refused),
{
}

/// An id cut down to its first five bytes, for people to read.
pub fn short_id(id: &[u8; 32]) -> (s: String)
    ensures
        s@ == hex_text(id@.take(5)),
{
    hex_prefix(id, 5)
}

/// A byte in hexadecimal, without leading noughts.
pub open spec fn hex_byte(b: u8) -> Seq<char> {
    "0x"@ + if b < 16 {
        fixed_digits(b as nat, 16, 1)
    } else {
        fixed_digits(b as nat, 16, 2)
    }
}

/// Whether the first byte of a stream opens it; if not, what is wrong.
pub fn check_hello(b: u8) -> (r: Result<(), String>)
    ensures
        r is Ok <==> b == HELLO,
        r matches Err(e) ==> e@ == "bad stream-open byte "@ + hex_byte(b),
{
    if b == HELLO {
        return Ok(());
    }
    let mut out = String::new();
    push_text(&mut out, "bad stream-open byte ");
    push_text(&mut out, "0x");
    if b < 16 {
        push_fixed(&mut out, b as u64, 16, 1);
    } else {
        push_fixed(&mut out, b as u64, 16, 2);
    }
    assert(out@ =~= "bad stream-open byte "@ + hex_byte(b));
    Err(out)
}

/// Whether a frame of this length may follow; if not, what is wrong.
pub fn check_frame_len(len: u32, cap: u32) -> (r: Result<(), String>)
    ensures
        r is Ok <==> 1 <= len <= cap,
        r matches Err(e) ==> e@ == (if len < 1 {
            "frame length "@ + decimal(len as nat) + " has no room for a kind byte"@
        } else {
            "frame length "@ + decimal(len as nat) + " exceeds cap"@
        }),
{
    if 1 <= len && len <= cap {
        return Ok(());
    }
    let mut out = String::new();
    push_text(&mut out, "frame length ");
    push_decimal(&mut out, len as u64);
    if len < 1 {
        push_text(&mut out, " has no room for a kind byte");
        assert(out@ =~= "frame length "@ + decimal(len as nat) + " has no room for a kind byte"@);
    } else {
        push_text(&mut out, " exceeds cap");
        assert(out@ =~= "frame length "@ + decimal(len as nat) + " exceeds cap"@);
    }
    Err(out)
}

/// A frame on a stream: its length, its kind and its body.
pub open spec fn frame_of(kind: u8, body: Seq<u8>) -> Seq<u8> {
    le(1 + body.len(), 4) + seq![kind] + body
}

/// Write a frame.
pub fn frame_bytes(kind: u8, body: &[u8]) -> (out: Vec<u8>)
    requires
        body@.len() < u32::MAX,
    ensures
        out@ == frame_of(kind, body@),
{
    let mut out: Vec<u8> = Vec::new();
    let n: u32 = body.len() as u32;
    push_u32(&mut out, 1 + n);
    out.push(kind);
    push_all(&mut out, body);
    assert(out@ =~= frame_of(kind, body@));
    out
}

/// What is written of a frame tells its length, and the kind and the body follow.
pub proof fn lemma_frame_reads_back(kind: u8, body: Seq<u8>)
    requires
        body.len() < u32::MAX,
    ensures
        ({
            let f = frame_of(kind, body);
            &&& le_value(f.take(4)) == 1 + body.len()
            &&& f.len() == 4 + le_value(f.take(4))
            &&& f[4] == kind
            &&& f.skip(5) == body
        }),
{
    lemma_spans();
    lemma_le_roundtrip(1 + body.len(), 4);
    let f = frame_of(kind, body);
    assert(f.take(4) =~= le(1 + body.len(), 4));
    assert(f.skip(5) =~= body);
}

/// Whether a state frame fits: one that every receiver would reject is not sent.
pub fn state_frame_fits(len: usize, cap: usize) -> (b: bool)
    ensures
        b == (len <= cap),
{
    len <= cap
}

/// Of two ids the one with the lower byte where they first differ comes first; a part of another
/// from its start on comes before it.
pub proof fn lemma_first_difference_decides(a: Seq<u8>, b: Seq<u8>, k: int)
    requires
        0 <= k <= a.len(),
        k <= b.len(),
        a.take(k) == b.take(k),
    ensures
        k < a.len() && k < b.len() && a[k] != b[k] ==> (id_lt(a, b) <==> a[k] < b[k]),
        k == a.len() && k < b.len() ==> id_lt(a, b),
        k == b.len() && k < a.len() ==> !id_lt(a, b),
    decreases a.len(),
{
    if k > 0 {
        assert(a[0] == a.take(k)[0] && b[0] == b.take(k)[0]);
        assert(a.skip(1).take(k - 1) =~= a.take(k).skip(1));
        assert(b.skip(1).take(k - 1) =~= b.take(k).skip(1));
        lemma_first_difference_decides(a.skip(1), b.skip(1), k - 1);
    }
}

/// A connection is turned away only if it came in, is of a peer that has none, and there is no
/// room; one that takes another's place closes it, which it does unless the other's dialer
/// comes first.
pub proof fn lemma_wiring_closes_what_it_replaces(
    link: Option<LinkView>,
    count: nat,
    capacity: nat,
    mine: bool,
    dialer: Seq<u8>,
)
    ensures
        ({
            let w = wiring(link, count, capacity, mine, dialer);
            &&& (w is Refused <==> link is None && !mine && count >= capacity)
            &&& (w is Duplicate <==> link is Some && id_lt(link->0.dialer, dialer))
            &&& (w matches Wired::Linked { closed } ==> closed == (match link {
                Some(l) => Some(l.conn),
                None => None,
            }))
        }),
{
}

/// The bytes of a frame: four that spell the length of the rest, the kind, and the body.
pub proof fn lemma_frame_layout(kind: u8, body: Seq<u8>)
    requires
        body.len() < u32::MAX,
    ensures
        ({
            let f = frame_of(kind, body);
            &&& f.len() == 5 + body.len()
            &&& le_value(f.take(4)) + 4 == f.len()
            &&& f[4] == kind
            &&& f.skip(5) == body
        }),
{
    lemma_spans();
    lemma_le_roundtrip(1 + body.len(), 4);
    let f = frame_of(kind, body);
    assert(f.take(4) =~= le(1 + body.len(), 4));
    assert(f.skip(5) =~= body);
}

} // verus!
