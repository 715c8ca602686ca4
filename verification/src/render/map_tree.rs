//! The tree that played codes span: one place for each, and for each step on the way to it.

use crate::render::codes::{ascending, copy_code, rank, same_code, ChordDir, CodeSet};
use vstd::prelude::*;
use vstd::set_lib::*;

verus! {

/// The four children of a node, where it has them.
#[derive(Debug, Clone, Copy, PartialEq, Eq, Structural)]
pub struct Children {
    pub up: Option<usize>,
    pub down: Option<usize>,
    pub left: Option<usize>,
    pub right: Option<usize>,
}

impl Children {
    /// The child in a direction.
    pub open spec fn child(self, d: ChordDir) -> Option<usize> {
        match d {
            ChordDir::Up => self.up,
            ChordDir::Down => self.down,
            ChordDir::Left => self.left,
            ChordDir::Right => self.right,
        }
    }

    /// The same with another child in one direction.
    pub open spec fn with(self, d: ChordDir, c: Option<usize>) -> Children {
        match d {
            ChordDir::Up => Children { up: c, ..self },
            ChordDir::Down => Children { down: c, ..self },
            ChordDir::Left => Children { left: c, ..self },
            ChordDir::Right => Children { right: c, ..self },
        }
    }

    /// The child in a direction.
    pub fn get(self, d: ChordDir) -> (c: Option<usize>)
        ensures
            c == self.child(d),
    {
        match d {
            ChordDir::Up => self.up,
            ChordDir::Down => self.down,
            ChordDir::Left => self.left,
            ChordDir::Right => self.right,
        }
    }

    fn put(self, d: ChordDir, c: Option<usize>) -> (r: Children)
        ensures
            r == self.with(d, c),
    {
        match d {
            ChordDir::Up => Children { up: c, ..self },
            ChordDir::Down => Children { down: c, ..self },
            ChordDir::Left => Children { left: c, ..self },
            ChordDir::Right => Children { right: c, ..self },
        }
    }
}

/// A registered chord.
#[derive(Debug)]
pub struct ChordEntry {
    pub code: Vec<ChordDir>,
    pub label: String,
}

/// The first registered chord with a code.
pub open spec fn is_entry(reg: Seq<ChordEntry>, code: Seq<ChordDir>, r: Option<usize>) -> bool {
    match r {
        Some(i) => {
            &&& i < reg.len()
            &&& reg[i as int].code@ == code
            &&& forall|k: int| 0 <= k < i ==> (#[trigger] reg[k]).code@ != code
        },
        None => forall|k: int| 0 <= k < reg.len() ==> (#[trigger] reg[k]).code@ != code,
    }
}

fn entry(reg: &[ChordEntry], code: &[ChordDir]) -> (r: Option<usize>)
    ensures
        is_entry(reg@, code@, r),
{
    let mut i: usize = 0;
    while i < reg.len()
        invariant
            i <= reg@.len(),
            forall|k: int| 0 <= k < i ==> (#[trigger] reg@[k]).code@ != code@,
        decreases reg@.len() - i,
    {
        if same_code(reg[i].code.as_slice(), code) {
            return Some(i);
        }
        i = i + 1;
    }
    None
}

/// A place on the map.
#[derive(Debug)]
pub struct MapNode {
    pub code: Vec<ChordDir>,
    pub children: Children,
    /// The registered chord with this code, once it is discovered.
    pub command: Option<usize>,
    /// On the entered path only.
    pub provisional: bool,
    /// Discovered places at or below this one.
    pub weight: usize,
}

/// The discovered codes with all their prefixes, and the path being entered.
#[derive(Debug)]
pub struct MapTree {
    pub nodes: Vec<MapNode>,
}

/// The codes of the places, in order.
pub open spec fn places(nodes: Seq<MapNode>) -> Seq<Seq<ChordDir>> {
    Seq::new(nodes.len(), |i: int| nodes[i].code@)
}

/// A list of places with a code's prefixes appended where they were missing, shortest first.
pub open spec fn grown(ps: Seq<Seq<ChordDir>>, code: Seq<ChordDir>) -> Seq<Seq<ChordDir>>
    decreases code.len(),
{
    if code.len() == 0 {
        ps
    } else {
        let g = grown(ps, code.drop_last());
        if g.contains(code) {
            g
        } else {
            g.push(code)
        }
    }
}

/// The same for several codes in turn.
pub open spec fn grown_all(
    ps: Seq<Seq<ChordDir>>,
    codes: Seq<Seq<ChordDir>>,
) -> Seq<Seq<ChordDir>>
    decreases codes.len(),
{
    if codes.len() == 0 {
        ps
    } else {
        grown(grown_all(ps, codes.drop_last()), codes.last())
    }
}

/// The map before anything is on it.
pub open spec fn root_only() -> Seq<Seq<ChordDir>> {
    seq![Seq::empty()]
}

/// One code begins another.
pub open spec fn prefix(a: Seq<ChordDir>, b: Seq<ChordDir>) -> bool {
    a.len() <= b.len() && b.take(a.len() as int) == a
}

/// The root is the empty code, no code occurs twice, each place but the root comes after
/// the one that it continues, and a child link goes to the place whose code goes on in that
/// direction, and is there whenever that place is.
pub open spec fn linked(nodes: Seq<MapNode>) -> bool {
    &&& nodes.len() > 0
    &&& nodes[0].code@.len() == 0
    &&& forall|i: int, j: int|
        0 <= i < nodes.len() && 0 <= j < nodes.len() && (#[trigger] nodes[i]).code@ == (
        #[trigger] nodes[j]).code@ ==> i == j
    &&& forall|i: int, d: ChordDir|
        0 <= i < nodes.len() ==> match (#[trigger] nodes[i].children.child(d)) {
            Some(c) => i < c < nodes.len() && nodes[c as int].code@ == nodes[i].code@.push(d),
            None => !places(nodes).contains(nodes[i].code@.push(d)),
        }
    &&& forall|j: int| 0 < j < nodes.len() ==> has_parent(nodes, j)
}

/// A place that continues an earlier one.
pub open spec fn has_parent(nodes: Seq<MapNode>, j: int) -> bool {
    &&& nodes[j].code@.len() > 0
    &&& exists|i: int|
        0 <= i < j && (#[trigger] nodes[i]).code@ == nodes[j].code@.drop_last()
}

/// What sets places apart other than their links.
pub open spec fn same_marks(a: MapNode, b: MapNode) -> bool {
    &&& a.code@ == b.code@
    &&& a.command == b.command
    &&& a.provisional == b.provisional
    &&& a.weight == b.weight
}

/// A place without any marks.
pub open spec fn unmarked(n: MapNode) -> bool {
    n.command is None && n.provisional && n.weight == 0
}

proof fn lemma_prefix_present(nodes: Seq<MapNode>, code: Seq<ChordDir>, k: int)
    requires
        linked(nodes),
        places(nodes).contains(code),
        0 <= k <= code.len(),
    ensures
        places(nodes).contains(code.take(k)),
    decreases code.len(),
{
    if k == code.len() {
        assert(code.take(k) =~= code);
    } else {
        let j = choose|j: int| 0 <= j < places(nodes).len() && places(nodes)[j] == code;
        assert(nodes[j].code@ == code);
        if j == 0 {
            assert(false);
        }
        assert(has_parent(nodes, j));
        let i = choose|i: int|
            0 <= i < j && (#[trigger] nodes[i]).code@ == nodes[j].code@.drop_last();
        assert(places(nodes)[i] == code.drop_last());
        lemma_prefix_present(nodes, code.drop_last(), k);
        assert(code.drop_last().take(k) =~= code.take(k));
    }
}

proof fn lemma_grown_keeps(ps: Seq<Seq<ChordDir>>, code: Seq<ChordDir>)
    ensures
        ps.len() <= grown(ps, code).len(),
        forall|i: int| 0 <= i < ps.len() ==> grown(ps, code)[i] == ps[i],
    decreases code.len(),
{
    if code.len() > 0 {
        lemma_grown_keeps(ps, code.drop_last());
    }
}

impl MapTree {
    /// The tree is consistent.
    pub open spec fn wf(&self) -> bool {
        linked(self.nodes@)
    }

    /// The root alone.
    fn bare() -> (t: Self)
        ensures
            t.wf(),
            places(t.nodes@) == root_only(),
            t.nodes@.len() == 1,
            unmarked(t.nodes@[0]),
    {
        let mut nodes: Vec<MapNode> = Vec::new();
        nodes.push(
            MapNode {
                code: Vec::new(),
                children: Children { up: None, down: None, left: None, right: None },
                command: None,
                provisional: true,
                weight: 0,
            },
        );
        proof {
            assert(places(nodes@) =~= root_only());
            assert forall|i: int, d: ChordDir|
                0 <= i < nodes@.len() implies match (#[trigger] nodes@[i].children.child(d)) {
                Some(c) => i < c < nodes@.len() && nodes@[c as int].code@ == nodes@[i].code@.push(
                    d,
                ),
                None => !places(nodes@).contains(nodes@[i].code@.push(d)),
            } by {
                if places(nodes@).contains(nodes@[i].code@.push(d)) {
                    let k = choose|k: int|
                        0 <= k < places(nodes@).len() && places(nodes@)[k]
                            == nodes@[i].code@.push(d);
                    assert(places(nodes@)[k].len() == 0);
                }
            }
        }
        MapTree { nodes }
    }

    /// Add a child where there is none.
    fn add_child(&mut self, at: usize, d: ChordDir) -> (c: usize)
        requires
            old(self).wf(),
            at < old(self).nodes@.len(),
            old(self).nodes@[at as int].children.child(d) is None,
        ensures
            final(self).wf(),
            c == old(self).nodes@.len(),
            places(final(self).nodes@) == places(old(self).nodes@).push(
                old(self).nodes@[at as int].code@.push(d),
            ),
            final(self).nodes@.len() == c + 1,
            forall|i: int|
                0 <= i < c ==> same_marks(#[trigger] final(self).nodes@[i], old(self).nodes@[i]),
            unmarked(final(self).nodes@[c as int]),
    {
        let ghost before = self.nodes@;
        let mut code = copy_code(self.nodes[at].code.as_slice());
        code.push(d);
        let c: usize = self.nodes.len();
        self.nodes.push(
            MapNode {
                code,
                children: Children { up: None, down: None, left: None, right: None },
                command: None,
                provisional: true,
                weight: 0,
            },
        );
        let kids: Children = self.nodes[at].children.put(d, Some(c));
        self.nodes[at].children = kids;
        proof {
            let after = self.nodes@;
            let fresh = before[at as int].code@.push(d);
            assert(places(after) =~= places(before).push(fresh));
            assert forall|i: int, j: int|
                0 <= i < after.len() && 0 <= j < after.len() && (#[trigger] after[i]).code@ == (
                #[trigger] after[j]).code@ implies i == j by {
                assert(!places(before).contains(fresh));
                if i != j {
                    let k = if i == c {
                        j
                    } else {
                        i
                    };
                    if i == c || j == c {
                        assert(places(before)[k] == fresh);
                    } else {
                        assert(before[i].code@ == before[j].code@);
                    }
                }
            }
            assert forall|i: int, e: ChordDir|
                0 <= i < after.len() implies match (#[trigger] after[i].children.child(e)) {
                Some(x) => i < x < after.len() && after[x as int].code@ == after[i].code@.push(e),
                None => !places(after).contains(after[i].code@.push(e)),
            } by {
                if i == c {
                    let long = fresh.push(e);
                    if places(after).contains(long) {
                        let k = choose|k: int|
                            0 <= k < places(after).len() && places(after)[k] == long;
                        assert(k < c);
                        assert(places(before)[k] == long);
                        lemma_prefix_present(before, long, fresh.len() as int);
                        assert(long.take(fresh.len() as int) =~= fresh);
                    }
                } else if i == at && e == d {
                } else {
                    assert(after[i].children.child(e) == before[i].children.child(e));
                    assert(after[i].code@ == before[i].code@);
                    let want = before[i].code@.push(e);
                    if before[i].children.child(e) is None && places(after).contains(want) {
                        let k = choose|k: int|
                            0 <= k < places(after).len() && places(after)[k] == want;
                        if k < c {
                            assert(places(before)[k] == want);
                        } else {
                            assert(want == fresh);
                            assert(want.last() == e && fresh.last() == d);
                            assert(want.drop_last() =~= before[i].code@);
                            assert(fresh.drop_last() =~= before[at as int].code@);
                            assert(i == at);
                        }
                    }
                }
            }
            assert forall|j: int| 0 < j < after.len() implies has_parent(after, j) by {
                if j == c {
                    assert(fresh.drop_last() =~= after[at as int].code@);
                } else {
                    assert(has_parent(before, j));
                    let i = choose|i: int|
                        0 <= i < j && (#[trigger] before[i]).code@ == before[j].code@.drop_last();
                    assert(after[i].code@ == before[i].code@);
                }
            }
        }
        c
    }

    /// Put a code and all its prefixes on the map. Returns its place.
    pub fn insert_path(&mut self, code: &[ChordDir]) -> (at: usize)
        requires
            old(self).wf(),
        ensures
            final(self).wf(),
            places(final(self).nodes@) == grown(places(old(self).nodes@), code@),
            at < final(self).nodes@.len(),
            final(self).nodes@[at as int].code@ == code@,
            forall|i: int|
                0 <= i < old(self).nodes@.len() ==> same_marks(
                    #[trigger] final(self).nodes@[i],
                    old(self).nodes@[i],
                ),
            forall|i: int|
                old(self).nodes@.len() <= i < final(self).nodes@.len() ==> unmarked(
                    #[trigger] final(self).nodes@[i],
                ),
    {
        let mut at: usize = 0;
        let mut k: usize = 0;
        let ghost before = self.nodes@;
        assert(code@.take(0) =~= Seq::empty());
        while k < code.len()
            invariant
                k <= code@.len(),
                self.wf(),
                before == old(self).nodes@,
                before.len() <= self.nodes@.len(),
                places(self.nodes@) == grown(places(before), code@.take(k as int)),
                at < self.nodes@.len(),
                self.nodes@[at as int].code@ == code@.take(k as int),
                forall|i: int|
                    0 <= i < before.len() ==> same_marks(#[trigger] self.nodes@[i], before[i]),
                forall|i: int|
                    before.len() <= i < self.nodes@.len() ==> unmarked(#[trigger] self.nodes@[i]),
            decreases code@.len() - k,
        {
            let d: ChordDir = code[k];
            let ghost now = self.nodes@;
            proof {
                assert(code@.take(k + 1).drop_last() =~= code@.take(k as int));
                assert(code@.take(k as int).push(d) =~= code@.take(k + 1));
            }
            match self.nodes[at].children.get(d) {
                Some(c) => {
                    assert(places(now)[c as int] == code@.take(k + 1));
                    at = c;
                },
                None => {
                    at = self.add_child(at, d);
                    assert(places(self.nodes@)[at as int] == code@.take(k + 1));
                    assert forall|i: int| 0 <= i < before.len() implies same_marks(
                        #[trigger] self.nodes@[i],
                        before[i],
                    ) by {
                        assert(same_marks(now[i], before[i]));
                    }
                    assert forall|i: int| before.len() <= i < self.nodes@.len() implies unmarked(
                        #[trigger] self.nodes@[i],
                    ) by {
                        if i < now.len() {
                            assert(unmarked(now[i]));
                        }
                    }
                },
            }
            k = k + 1;
        }
        assert(code@.take(k as int) =~= code@);
        at
    }

    /// The place of a code, if it is on the map.
    pub fn index_of(&self, code: &[ChordDir]) -> (r: Option<usize>)
        requires
            self.wf(),
        ensures
            match r {
                Some(i) => i < self.nodes@.len() && self.nodes@[i as int].code@ == code@,
                None => !places(self.nodes@).contains(code@),
            },
    {
        let mut at: usize = 0;
        let mut k: usize = 0;
        assert(code@.take(0) =~= Seq::empty());
        while k < code.len()
            invariant
                k <= code@.len(),
                self.wf(),
                at < self.nodes@.len(),
                self.nodes@[at as int].code@ == code@.take(k as int),
            decreases code@.len() - k,
        {
            let d: ChordDir = code[k];
            assert(code@.take(k as int).push(d) =~= code@.take(k + 1));
            match self.nodes[at].children.get(d) {
                Some(c) => {
                    at = c;
                },
                None => {
                    proof {
                        if places(self.nodes@).contains(code@) {
                            lemma_prefix_present(self.nodes@, code@, k + 1);
                        }
                    }
                    return None;
                },
            }
            k = k + 1;
        }
        assert(code@.take(k as int) =~= code@);
        Some(at)
    }

    /// The place that another continues; the root continues none.
    pub fn parent_of(&self, n: usize) -> (r: Option<usize>)
        requires
            self.wf(),
            n < self.nodes@.len(),
        ensures
            match r {
                Some(p) => {
                    &&& p < n
                    &&& self.nodes@[n as int].code@.len() > 0
                    &&& self.nodes@[p as int].code@ == self.nodes@[n as int].code@.drop_last()
                    &&& self.nodes@[p as int].children.child(self.nodes@[n as int].code@.last())
                        == Some(n)
                },
                None => n == 0,
            },
    {
        if self.nodes[n].code.len() == 0 {
            proof {
                assert(self.nodes@[n as int].code@ =~= self.nodes@[0].code@);
            }
            return None;
        }
        let mut stem = copy_code(self.nodes[n].code.as_slice());
        stem.pop();
        let ghost code = self.nodes@[n as int].code@;
        let r = self.index_of(stem.as_slice());
        proof {
            assert(stem@ =~= code.drop_last());
            if n == 0 {
                assert(false);
            }
            assert(has_parent(self.nodes@, n as int));
            let i = choose|i: int|
                0 <= i < n && (#[trigger] self.nodes@[i]).code@
                    == self.nodes@[n as int].code@.drop_last();
            assert(places(self.nodes@)[i] == stem@);
            let p = r->0;
            assert(p == i);
            assert(self.nodes@[i].code@.push(code.last()) =~= code);
            assert(places(self.nodes@)[n as int] == code);
            match self.nodes@[i].children.child(code.last()) {
                Some(c) => {
                    assert(self.nodes@[c as int].code@ == code);
                },
                None => {
                    assert(places(self.nodes@).contains(code));
                },
            }
        }
        r
    }
}
/// Some discovered code goes through a place.
pub open spec fn on_a_path(codes: Seq<Seq<ChordDir>>, code: Seq<ChordDir>) -> bool {
    exists|i: int| 0 <= i < codes.len() && prefix(code, #[trigger] codes[i])
}

/// The discovered places at or below one.
pub open spec fn discovered_below(nodes: Seq<MapNode>, i: int) -> Set<int> {
    set_int_range(0, nodes.len() as int).filter(
        |j: int| prefix(nodes[i].code@, nodes[j].code@) && !nodes[j].provisional,
    )
}

/// A tree of discovered codes and an entered path: the places are the prefixes of those
/// codes, then those of the path; a place is discovered if a discovered code goes through
/// it; a command stands at a discovered code only; a weight counts the discovered places at
/// or below.
pub open spec fn is_map(
    nodes: Seq<MapNode>,
    codes: Seq<Seq<ChordDir>>,
    entered: Seq<ChordDir>,
    reg: Seq<ChordEntry>,
) -> bool {
    &&& linked(nodes)
    &&& places(nodes) == grown(grown_all(root_only(), codes), entered)
    &&& forall|i: int|
        0 <= i < nodes.len() ==> {
            &&& (#[trigger] nodes[i]).provisional == !on_a_path(codes, nodes[i].code@)
            &&& if codes.contains(nodes[i].code@) {
                is_entry(reg, nodes[i].code@, nodes[i].command)
            } else {
                nodes[i].command is None
            }
            &&& nodes[i].weight == discovered_below(nodes, i).len()
        }
}

/// Only marks changed.
pub open spec fn same_links(a: Seq<MapNode>, b: Seq<MapNode>) -> bool {
    &&& a.len() == b.len()
    &&& forall|i: int|
        0 <= i < a.len() ==> (#[trigger] a[i]).code@ == b[i].code@ && a[i].children
            == b[i].children
}

proof fn lemma_same_links(a: Seq<MapNode>, b: Seq<MapNode>)
    requires
        linked(b),
        same_links(a, b),
    ensures
        linked(a),
        places(a) == places(b),
{
    assert(places(a) =~= places(b));
    assert forall|i: int, d: ChordDir| 0 <= i < a.len() implies match (
    #[trigger] a[i].children.child(d)) {
        Some(c) => i < c < a.len() && a[c as int].code@ == a[i].code@.push(d),
        None => !places(a).contains(a[i].code@.push(d)),
    } by {
        assert(a[i].children == b[i].children);
        assert(b[i].children.child(d) == a[i].children.child(d));
    }
    assert forall|i: int, j: int|
        0 <= i < a.len() && 0 <= j < a.len() && (#[trigger] a[i]).code@ == (
        #[trigger] a[j]).code@ implies i == j by {
        assert(b[i].code@ == b[j].code@);
    }
    assert forall|j: int| 0 < j < a.len() implies has_parent(a, j) by {
        assert(has_parent(b, j));
        assert(a[j].code@ == b[j].code@);
        let i = choose|i: int|
            0 <= i < j && (#[trigger] b[i]).code@ == b[j].code@.drop_last();
        assert(a[i].code@ == b[i].code@);
    }
    assert(a[0].code@ == b[0].code@);
}

proof fn lemma_grown_within(ps: Seq<Seq<ChordDir>>, code: Seq<ChordDir>, c: Seq<ChordDir>)
    ensures
        grown(ps, code).contains(c) <==> (ps.contains(c) || (c.len() > 0 && prefix(c, code))),
    decreases code.len(),
{
    if code.len() == 0 {
    } else {
        let stem = code.drop_last();
        let g = grown(ps, stem);
        lemma_grown_within(ps, stem, c);
        assert(prefix(c, code) <==> (c == code || prefix(c, stem))) by {
            if prefix(c, code) && c.len() < code.len() {
                assert(stem.take(c.len() as int) =~= code.take(c.len() as int));
            }
            if prefix(c, code) && c.len() == code.len() {
                assert(code.take(c.len() as int) =~= code);
            }
            if c == code {
                assert(code.take(c.len() as int) =~= code);
            }
            if prefix(c, stem) {
                assert(stem.take(c.len() as int) =~= code.take(c.len() as int));
            }
        }
        if !g.contains(code) {
            let h = g.push(code);
            assert(h[h.len() - 1] == code);
            if g.contains(c) {
                let k = choose|k: int| 0 <= k < g.len() && g[k] == c;
                assert(h[k] == c);
            }
            if h.contains(c) {
                let k = choose|k: int| 0 <= k < h.len() && h[k] == c;
                if k < g.len() {
                    assert(g[k] == c);
                }
            }
        }
    }
}

impl MapTree {
    fn mark_path(&mut self, code: &[ChordDir])
        requires
            old(self).wf(),
            places(old(self).nodes@).contains(code@),
        ensures
            final(self).wf(),
            same_links(final(self).nodes@, old(self).nodes@),
            forall|i: int|
                0 <= i < old(self).nodes@.len() ==> {
                    &&& (#[trigger] final(self).nodes@[i]).command == old(self).nodes@[i].command
                    &&& final(self).nodes@[i].weight == old(self).nodes@[i].weight
                    &&& final(self).nodes@[i].provisional == (old(self).nodes@[i].provisional
                        && !prefix(old(self).nodes@[i].code@, code@))
                },
    {
        let ghost before = self.nodes@;
        let mut at: usize = 0;
        let mut k: usize = 0;
        self.nodes[0].provisional = false;
        proof {
            assert(code@.take(0) =~= Seq::empty());
            assert(before[0].code@ =~= Seq::empty());
            lemma_same_links(self.nodes@, before);
            assert forall|i: int| 0 <= i < before.len() implies (
            #[trigger] self.nodes@[i]).provisional == (before[i].provisional && !(
            before[i].code@.len() <= 0 && prefix(before[i].code@, code@))) by {
                if before[i].code@.len() == 0 {
                    assert(before[i].code@ == before[0].code@);
                    assert(i == 0);
                    assert(code@.take(0) == before[0].code@);
                }
            }
        }
        while k < code.len()
            invariant
                k <= code@.len(),
                self.wf(),
                linked(before),
                same_links(self.nodes@, before),
                places(before).contains(code@),
                at < self.nodes@.len(),
                self.nodes@[at as int].code@ == code@.take(k as int),
                forall|i: int|
                    0 <= i < before.len() ==> {
                        &&& (#[trigger] self.nodes@[i]).command == before[i].command
                        &&& self.nodes@[i].weight == before[i].weight
                        &&& self.nodes@[i].provisional == (before[i].provisional && !(
                        before[i].code@.len() <= k && prefix(before[i].code@, code@)))
                    },
            decreases code@.len() - k,
        {
            let d: ChordDir = code[k];
            proof {
                assert(code@.take(k as int).push(d) =~= code@.take(k + 1));
                lemma_prefix_present(before, code@, k + 1);
                lemma_same_links(self.nodes@, before);
                assert(self.nodes@[at as int].children.child(d) is Some);
            }
            let ghost now = self.nodes@;
            if let Some(c) = self.nodes[at].children.get(d) {
                self.nodes[c].provisional = false;
                proof {
                    lemma_same_links(self.nodes@, before);
                    assert(self.nodes@[c as int].code@ == code@.take(k + 1));
                    assert forall|i: int| 0 <= i < before.len() implies {
                        &&& (#[trigger] self.nodes@[i]).command == before[i].command
                        &&& self.nodes@[i].weight == before[i].weight
                        &&& self.nodes@[i].provisional == (before[i].provisional && !(
                        before[i].code@.len() <= k + 1 && prefix(before[i].code@, code@)))
                    } by {
                        assert(now[i].command == before[i].command);
                        assert(self.nodes@[i].code@ == before[i].code@);
                        if i != c {
                            assert(self.nodes@[i] == now[i]);
                            if before[i].code@.len() == k + 1 && prefix(before[i].code@, code@) {
                                assert(self.nodes@[i].code@ == self.nodes@[c as int].code@);
                            }
                        } else {
                            assert(code@.take(k + 1) == before[c as int].code@);
                        }
                    }
                }
                at = c;
            }
            k = k + 1;
        }
        proof {
            assert forall|i: int| 0 <= i < before.len() implies (
            #[trigger] self.nodes@[i]).provisional == (before[i].provisional && !prefix(
                before[i].code@,
                code@,
            )) by {
                assert(self.nodes@[i].command == before[i].command);
            }
        }
    }
}
/// The discovered places below a child, if there is one.
pub open spec fn below_child(nodes: Seq<MapNode>, i: int, d: ChordDir) -> Set<int> {
    match nodes[i].children.child(d) {
        Some(c) => discovered_below(nodes, c as int),
        None => Set::empty(),
    }
}

/// A place itself, if it is discovered.
pub open spec fn itself(nodes: Seq<MapNode>, i: int) -> Set<int> {
    if nodes[i].provisional {
        Set::empty()
    } else {
        set![i]
    }
}

proof fn lemma_below_finite(nodes: Seq<MapNode>, i: int)
    ensures
        discovered_below(nodes, i).finite(),
        discovered_below(nodes, i).len() <= nodes.len(),
{
    let f = |j: int| prefix(nodes[i].code@, nodes[j].code@) && !nodes[j].provisional;
    lemma_int_range(0, nodes.len() as int);
    set_int_range(0, nodes.len() as int).lemma_len_filter(f);
}

proof fn lemma_below_child(nodes: Seq<MapNode>, i: int, d: ChordDir, j: int)
    requires
        linked(nodes),
        0 <= i < nodes.len(),
    ensures
        below_child(nodes, i, d).finite(),
        below_child(nodes, i, d).contains(j) <==> {
            &&& 0 <= j < nodes.len()
            &&& !nodes[j].provisional
            &&& prefix(nodes[i].code@, nodes[j].code@)
            &&& nodes[j].code@.len() > nodes[i].code@.len()
            &&& nodes[j].code@[nodes[i].code@.len() as int] == d
        },
{
    let ci = nodes[i].code@;
    let n = ci.len() as int;
    match nodes[i].children.child(d) {
        Some(c) => {
            lemma_below_finite(nodes, c as int);
            assert(nodes[c as int].code@ == ci.push(d));
        },
        None => {},
    }
    if 0 <= j < nodes.len() {
        let cj = nodes[j].code@;
        assert(prefix(ci.push(d), cj) <==> (prefix(ci, cj) && cj.len() > n && cj[n] == d)) by {
            if prefix(ci.push(d), cj) {
                assert(cj.take(n + 1)[n] == d);
                assert(cj.take(n + 1).take(n) =~= cj.take(n));
                assert(ci.push(d).take(n) =~= ci);
            }
            if prefix(ci, cj) && cj.len() > n && cj[n] == d {
                assert(cj.take(n + 1) =~= ci.push(d));
            }
        }
        if prefix(ci, cj) && cj.len() > n && cj[n] == d && nodes[i].children.child(d) is None {
            assert(places(nodes)[j] == cj);
            lemma_prefix_present(nodes, cj, n + 1);
            assert(cj.take(n + 1) == ci.push(d));
            assert(false);
        }
    }
}

/// A place's discovered places are itself and, apart from one another, those below each of
/// its children.
proof fn lemma_below_splits(nodes: Seq<MapNode>, i: int)
    requires
        linked(nodes),
        0 <= i < nodes.len(),
    ensures
        discovered_below(nodes, i).len() == itself(nodes, i).len() + below_child(
            nodes,
            i,
            ChordDir::Up,
        ).len() + below_child(nodes, i, ChordDir::Down).len() + below_child(
            nodes,
            i,
            ChordDir::Left,
        ).len() + below_child(nodes, i, ChordDir::Right).len(),
{
    let o = itself(nodes, i);
    let u = below_child(nodes, i, ChordDir::Up);
    let w = below_child(nodes, i, ChordDir::Down);
    let l = below_child(nodes, i, ChordDir::Left);
    let r = below_child(nodes, i, ChordDir::Right);
    let all = discovered_below(nodes, i);
    let ci = nodes[i].code@;
    lemma_below_child(nodes, i, ChordDir::Up, 0);
    lemma_below_child(nodes, i, ChordDir::Down, 0);
    lemma_below_child(nodes, i, ChordDir::Left, 0);
    lemma_below_child(nodes, i, ChordDir::Right, 0);
    assert forall|j: int|
        true implies {
        &&& all.contains(j) <==> (o.contains(j) || u.contains(j) || w.contains(j) || l.contains(j)
            || r.contains(j))
        &&& !(o.contains(j) && (u.contains(j) || w.contains(j) || l.contains(j) || r.contains(j)))
        &&& !(u.contains(j) && (w.contains(j) || l.contains(j) || r.contains(j)))
        &&& !(w.contains(j) && (l.contains(j) || r.contains(j)))
        &&& !(l.contains(j) && r.contains(j))
    } by {
        lemma_below_child(nodes, i, ChordDir::Up, j);
        lemma_below_child(nodes, i, ChordDir::Down, j);
        lemma_below_child(nodes, i, ChordDir::Left, j);
        lemma_below_child(nodes, i, ChordDir::Right, j);
        assert(prefix(ci, ci)) by {
            assert(ci.take(ci.len() as int) =~= ci);
        }
        if 0 <= j < nodes.len() && prefix(ci, nodes[j].code@) {
            let cj = nodes[j].code@;
            if cj.len() == ci.len() {
                assert(cj.take(ci.len() as int) =~= cj);
                assert(nodes[i].code@ == nodes[j].code@);
                assert(i == j);
            } else {
                let d = cj[ci.len() as int];
                assert(d == ChordDir::Up || d == ChordDir::Down || d == ChordDir::Left || d
                    == ChordDir::Right);
            }
        }
    }
    assert(all =~= o + (u + (w + (l + r))));
    lemma_set_disjoint_lens(l, r);
    lemma_set_disjoint_lens(w, l + r);
    lemma_set_disjoint_lens(u, w + (l + r));
    lemma_set_disjoint_lens(o, u + (w + (l + r)));
    assert(l.disjoint(r));
    assert(w.disjoint(l + r));
    assert(u.disjoint(w + (l + r)));
    assert(o.disjoint(u + (w + (l + r))));
}

proof fn lemma_below_same(a: Seq<MapNode>, b: Seq<MapNode>, i: int)
    requires
        same_links(a, b),
        0 <= i < a.len(),
        forall|k: int| 0 <= k < a.len() ==> (#[trigger] a[k]).provisional == b[k].provisional,
    ensures
        discovered_below(a, i) == discovered_below(b, i),
{
    assert(discovered_below(a, i) =~= discovered_below(b, i)) by {
        assert(a[i].code@ == b[i].code@);
        assert forall|j: int| 0 <= j < a.len() implies (prefix(a[i].code@, a[j].code@)
            && !a[j].provisional) == (prefix(b[i].code@, b[j].code@) && !b[j].provisional) by {
            assert(a[j].code@ == b[j].code@);
        }
    }
}

impl MapTree {
    fn child_weight(&self, i: usize, d: ChordDir) -> (w: usize)
        requires
            self.wf(),
            i < self.nodes@.len(),
            forall|k: int|
                i < k < self.nodes@.len() ==> (#[trigger] self.nodes@[k]).weight
                    == discovered_below(self.nodes@, k).len(),
        ensures
            w == below_child(self.nodes@, i as int, d).len(),
    {
        let child = self.nodes[i].children.get(d);
        assert(self.nodes@[i as int].children.child(d) == child);
        match child {
            Some(c) => self.nodes[c].weight,
            None => 0,
        }
    }

    /// Weigh every place, the last first: a child comes after its parent.
    fn weigh(&mut self)
        requires
            old(self).wf(),
        ensures
            final(self).wf(),
            same_links(final(self).nodes@, old(self).nodes@),
            forall|i: int|
                0 <= i < old(self).nodes@.len() ==> {
                    &&& (#[trigger] final(self).nodes@[i]).command == old(self).nodes@[i].command
                    &&& final(self).nodes@[i].provisional == old(self).nodes@[i].provisional
                    &&& final(self).nodes@[i].weight == discovered_below(
                        final(self).nodes@,
                        i,
                    ).len()
                },
    {
        let ghost before = self.nodes@;
        let mut i: usize = self.nodes.len();
        while i > 0
            invariant
                i <= self.nodes@.len(),
                self.wf(),
                linked(before),
                same_links(self.nodes@, before),
                forall|k: int|
                    0 <= k < before.len() ==> {
                        &&& (#[trigger] self.nodes@[k]).command == before[k].command
                        &&& self.nodes@[k].provisional == before[k].provisional
                    },
                forall|k: int|
                    i <= k < self.nodes@.len() ==> (#[trigger] self.nodes@[k]).weight
                        == discovered_below(self.nodes@, k).len(),
            decreases i,
        {
            i = i - 1;
            let ghost now = self.nodes@;
            let up: usize = self.child_weight(i, ChordDir::Up);
            let down: usize = self.child_weight(i, ChordDir::Down);
            let left: usize = self.child_weight(i, ChordDir::Left);
            let right: usize = self.child_weight(i, ChordDir::Right);
            let own: usize = if self.nodes[i].provisional {
                0
            } else {
                1
            };
            proof {
                lemma_below_splits(now, i as int);
                lemma_below_finite(now, i as int);
                assert(itself(now, i as int).len() == own);
                assert(self.nodes@.len() == self.nodes.len());
            }
            self.nodes[i].weight = own + up + down + left + right;
            proof {
                assert(same_links(self.nodes@, now));
                lemma_same_links(self.nodes@, now);
                assert forall|k: int| i <= k < self.nodes@.len() implies (
                #[trigger] self.nodes@[k]).weight == discovered_below(self.nodes@, k).len() by {
                    lemma_below_same(self.nodes@, now, k);
                    if k > i {
                        assert(self.nodes@[k] == now[k]);
                    }
                }
                assert forall|k: int| 0 <= k < before.len() implies {
                    &&& (#[trigger] self.nodes@[k]).command == before[k].command
                    &&& self.nodes@[k].provisional == before[k].provisional
                } by {
                    assert(now[k].command == before[k].command);
                }
            }
        }
    }
}
/// Commands stand where the discovered codes end, and nowhere else.
spec fn commands_stand(
    nodes: Seq<MapNode>,
    codes: Seq<Seq<ChordDir>>,
    reg: Seq<ChordEntry>,
) -> bool {
    forall|i: int|
        0 <= i < nodes.len() ==> if codes.contains((#[trigger] nodes[i]).code@) {
            is_entry(reg, nodes[i].code@, nodes[i].command)
        } else {
            nodes[i].command is None
        }
}

proof fn lemma_grown_contains(ps: Seq<Seq<ChordDir>>, code: Seq<ChordDir>, c: Seq<ChordDir>)
    requires
        ps.contains(c),
    ensures
        grown(ps, code).contains(c),
{
    lemma_grown_keeps(ps, code);
    let k = choose|k: int| 0 <= k < ps.len() && ps[k] == c;
    assert(grown(ps, code)[k] == c);
}

impl MapTree {
    /// The map of the discovered codes while `entered` is being entered. `reg` names the
    /// commands.
    pub fn build(discovered: &CodeSet, entered: &[ChordDir], reg: &[ChordEntry]) -> (t: Self)
        requires
            discovered.wf(),
        ensures
            is_map(t.nodes@, discovered@, entered@, reg@),
    {
        let mut t = MapTree::bare();
        let ghost codes = discovered@;
        let mut i: usize = 0;
        assert(codes.take(0) =~= Seq::empty());
        assert forall|c: Seq<ChordDir>| !codes.take(0).contains(c) by {}
        while i < discovered.len()
            invariant
                i <= codes.len(),
                codes == discovered@,
                ascending(codes),
                t.wf(),
                places(t.nodes@) == grown_all(root_only(), codes.take(i as int)),
                forall|k: int| 0 <= k < i ==> places(t.nodes@).contains(#[trigger] codes[k]),
                forall|k: int| 0 <= k < t.nodes@.len() ==> (#[trigger] t.nodes@[k]).provisional,
                commands_stand(t.nodes@, codes.take(i as int), reg@),
            decreases codes.len() - i,
        {
            let code = discovered.at(i);
            let ghost before = t.nodes@;
            let leaf: usize = t.insert_path(code);
            let ghost mid = t.nodes@;
            let e: Option<usize> = entry(reg, code);
            t.nodes[leaf].command = e;
            proof {
                assert(codes.take(i + 1).drop_last() =~= codes.take(i as int));
                assert(codes.take(i + 1).last() == code@);
                assert(same_links(t.nodes@, mid));
                lemma_same_links(t.nodes@, mid);
                assert forall|k: int| 0 <= k < i + 1 implies places(t.nodes@).contains(
                    #[trigger] codes[k],
                ) by {
                    if k < i {
                        lemma_grown_contains(places(before), code@, codes[k]);
                    } else {
                        assert(places(t.nodes@)[leaf as int] == code@);
                    }
                }
                assert forall|k: int| 0 <= k < t.nodes@.len() implies (
                #[trigger] t.nodes@[k]).provisional by {
                    if k < before.len() {
                        assert(same_marks(mid[k], before[k]));
                        assert(before[k].provisional);
                    } else {
                        assert(unmarked(mid[k]));
                    }
                }
                let done = codes.take(i as int);
                let more = codes.take(i + 1);
                assert forall|k: int| 0 <= k < t.nodes@.len() implies if more.contains(
                    (#[trigger] t.nodes@[k]).code@,
                ) {
                    is_entry(reg@, t.nodes@[k].code@, t.nodes@[k].command)
                } else {
                    t.nodes@[k].command is None
                } by {
                    let ck = t.nodes@[k].code@;
                    assert(mid[k].code@ == ck);
                    if k == leaf {
                        assert(more[i as int] == ck);
                    } else {
                        assert(ck != code@) by {
                            assert(mid[leaf as int].code@ == code@);
                        }
                        assert(more.contains(ck) <==> done.contains(ck)) by {
                            if more.contains(ck) {
                                let x = choose|x: int| 0 <= x < more.len() && more[x] == ck;
                                assert(done[x] == ck);
                            }
                            if done.contains(ck) {
                                let x = choose|x: int| 0 <= x < done.len() && done[x] == ck;
                                assert(more[x] == ck);
                            }
                        }
                        if k < before.len() {
                            assert(same_marks(mid[k], before[k]));
                            assert(before[k].code@ == ck);
                        } else {
                            assert(unmarked(mid[k]));
                            if done.contains(ck) {
                                let x = choose|x: int| 0 <= x < done.len() && done[x] == ck;
                                assert(codes[x] == ck);
                                assert(places(before).contains(ck));
                                let y = choose|y: int|
                                    0 <= y < places(before).len() && places(before)[y] == ck;
                                lemma_grown_keeps(places(before), code@);
                                assert(places(mid)[y] == ck);
                                assert(mid[y].code@ == mid[k].code@);
                            }
                        }
                    }
                }
            }
            i = i + 1;
        }
        assert(codes.take(i as int) =~= codes);
        let mut j: usize = 0;
        proof {
            assert forall|k: int| 0 <= k < t.nodes@.len() implies !on_a_path(
                codes.take(0),
                (#[trigger] t.nodes@[k]).code@,
            ) by {}
        }
        while j < discovered.len()
            invariant
                j <= codes.len(),
                codes == discovered@,
                t.wf(),
                places(t.nodes@) == grown_all(root_only(), codes),
                forall|k: int|
                    0 <= k < codes.len() ==> places(t.nodes@).contains(#[trigger] codes[k]),
                forall|k: int|
                    0 <= k < t.nodes@.len() ==> (#[trigger] t.nodes@[k]).provisional
                        == !on_a_path(codes.take(j as int), t.nodes@[k].code@),
                commands_stand(t.nodes@, codes, reg@),
            decreases codes.len() - j,
        {
            let code = discovered.at(j);
            let ghost before = t.nodes@;
            t.mark_path(code);
            proof {
                lemma_same_links(t.nodes@, before);
                let a = codes.take(j as int);
                let b = codes.take(j + 1);
                assert forall|k: int| 0 <= k < t.nodes@.len() implies (
                #[trigger] t.nodes@[k]).provisional == !on_a_path(b, t.nodes@[k].code@) by {
                    let ck = before[k].code@;
                    assert(t.nodes@[k].code@ == ck);
                    assert(before[k].provisional == !on_a_path(a, ck));
                    if on_a_path(b, ck) {
                        let x = choose|x: int| 0 <= x < b.len() && prefix(ck, #[trigger] b[x]);
                        if x < j {
                            assert(prefix(ck, a[x]));
                        } else {
                            assert(b[x] == code@);
                        }
                    }
                    if on_a_path(a, ck) {
                        let x = choose|x: int| 0 <= x < a.len() && prefix(ck, #[trigger] a[x]);
                        assert(prefix(ck, b[x]));
                    }
                    if prefix(ck, code@) {
                        assert(prefix(ck, b[j as int]));
                    }
                }
                assert forall|k: int| 0 <= k < t.nodes@.len() implies if codes.contains(
                    (#[trigger] t.nodes@[k]).code@,
                ) {
                    is_entry(reg@, t.nodes@[k].code@, t.nodes@[k].command)
                } else {
                    t.nodes@[k].command is None
                } by {
                    assert(t.nodes@[k].code@ == before[k].code@);
                    assert(t.nodes@[k].command == before[k].command);
                }
            }
            j = j + 1;
        }
        assert(codes.take(j as int) =~= codes);
        let ghost before = t.nodes@;
        t.insert_path(entered);
        let ghost mid = t.nodes@;
        t.weigh();
        proof {
            lemma_same_links(t.nodes@, mid);
            assert forall|k: int| 0 <= k < t.nodes@.len() implies {
                &&& (#[trigger] t.nodes@[k]).provisional == !on_a_path(codes, t.nodes@[k].code@)
                &&& if codes.contains(t.nodes@[k].code@) {
                    is_entry(reg@, t.nodes@[k].code@, t.nodes@[k].command)
                } else {
                    t.nodes@[k].command is None
                }
            } by {
                let ck = mid[k].code@;
                assert(t.nodes@[k].code@ == ck);
                assert(t.nodes@[k].command == mid[k].command);
                if k < before.len() {
                    assert(same_marks(mid[k], before[k]));
                    assert(before[k].code@ == ck);
                } else {
                    assert(unmarked(mid[k]));
                    if on_a_path(codes, ck) || codes.contains(ck) {
                        if codes.contains(ck) {
                            let x = choose|x: int| 0 <= x < codes.len() && codes[x] == ck;
                            assert(ck.take(ck.len() as int) =~= ck);
                            assert(prefix(ck, codes[x]));
                        }
                        let x = choose|x: int|
                            0 <= x < codes.len() && prefix(ck, #[trigger] codes[x]);
                        lemma_prefix_present(before, codes[x], ck.len() as int);
                        let y = choose|y: int|
                            0 <= y < places(before).len() && places(before)[y] == ck;
                        lemma_grown_keeps(places(before), entered@);
                        assert(places(mid)[y] == ck);
                        assert(mid[y].code@ == mid[k].code@);
                        assert(false);
                    }
                }
            }
        }
        t
    }

    /// What each direction of a fork counts for, and all of them together: a child counts
    /// its weight and at least one, an empty direction nothing.
    pub fn fork_shares(&self, n: usize) -> (r: ([usize; 4], u128))
        requires
            self.wf(),
            n < self.nodes@.len(),
        ensures
            forall|d: ChordDir| r.0@[#[trigger] rank(d)] == share(self.nodes@, n as int, d),
            r.1 == share(self.nodes@, n as int, ChordDir::Up) + share(
                self.nodes@,
                n as int,
                ChordDir::Down,
            ) + share(self.nodes@, n as int, ChordDir::Left) + share(
                self.nodes@,
                n as int,
                ChordDir::Right,
            ),
    {
        let up: usize = self.share_of(n, ChordDir::Up);
        let down: usize = self.share_of(n, ChordDir::Down);
        let left: usize = self.share_of(n, ChordDir::Left);
        let right: usize = self.share_of(n, ChordDir::Right);
        let total: u128 = up as u128 + down as u128 + left as u128 + right as u128;
        ([up, down, left, right], total)
    }

    fn share_of(&self, n: usize, d: ChordDir) -> (w: usize)
        requires
            self.wf(),
            n < self.nodes@.len(),
        ensures
            w == share(self.nodes@, n as int, d),
    {
        let child = self.nodes[n].children.get(d);
        assert(self.nodes@[n as int].children.child(d) == child);
        match child {
            Some(c) => {
                let w: usize = self.nodes[c].weight;
                if w > 1 {
                    w
                } else {
                    1
                }
            },
            None => 0,
        }
    }
}

/// What a direction of a fork counts for.
pub open spec fn share(nodes: Seq<MapNode>, n: int, d: ChordDir) -> usize {
    match nodes[n].children.child(d) {
        Some(c) => if nodes[c as int].weight > 1 {
            nodes[c as int].weight
        } else {
            1
        },
        None => 0,
    }
}

/// The map shows what was played, what leads there, and the path being entered: no more.
pub proof fn lemma_map_has_no_teasers(
    nodes: Seq<MapNode>,
    codes: Seq<Seq<ChordDir>>,
    entered: Seq<ChordDir>,
    reg: Seq<ChordEntry>,
    c: Seq<ChordDir>,
)
    requires
        is_map(nodes, codes, entered, reg),
    ensures
        places(nodes).contains(c) <==> (c.len() == 0 || on_a_path(codes, c) || prefix(c, entered)),
{
    lemma_grown_within(grown_all(root_only(), codes), entered, c);
    lemma_grown_all_within(codes, c);
    if c.len() == 0 {
        assert(c =~= Seq::empty());
    }
}

proof fn lemma_grown_all_within(codes: Seq<Seq<ChordDir>>, c: Seq<ChordDir>)
    ensures
        grown_all(root_only(), codes).contains(c) <==> (c.len() == 0 || on_a_path(codes, c)),
    decreases codes.len(),
{
    if codes.len() == 0 {
        assert(root_only()[0] == Seq::<ChordDir>::empty());
        if c.len() == 0 {
            assert(c =~= root_only()[0]);
        }
    } else {
        let d = codes.drop_last();
        lemma_grown_all_within(d, c);
        lemma_grown_within(grown_all(root_only(), d), codes.last(), c);
        if on_a_path(d, c) {
            let i = choose|i: int| 0 <= i < d.len() && prefix(c, #[trigger] d[i]);
            assert(prefix(c, codes[i]));
        }
        if on_a_path(codes, c) {
            let i = choose|i: int| 0 <= i < codes.len() && prefix(c, #[trigger] codes[i]);
            if i < d.len() {
                assert(prefix(c, d[i]));
            }
        }
        if c.len() > 0 && prefix(c, codes.last()) {
            assert(prefix(c, codes[codes.len() - 1]));
        }
    }
}

/// A branch that is there has a share, as large as what was discovered along it where that is
/// more than one place; one that is not has none.
pub proof fn lemma_shares_follow_discovery(nodes: Seq<MapNode>, n: int, d: ChordDir)
    ensures
        nodes[n].children.child(d) is None <==> share(nodes, n, d) == 0,
        nodes[n].children.child(d) matches Some(c) ==> {
            &&& share(nodes, n, d) >= nodes[c as int].weight
            &&& share(nodes, n, d) == nodes[c as int].weight || share(nodes, n, d) == 1
        },
{
}

} // verus!
