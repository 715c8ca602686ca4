//! The map of played codes: which are on it, what is drawn of them, and when it is on screen.

use crate::render::codes::{
    ascending, code_of, codes_in_text, codes_text, copy_code, holds_code, lemma_save_reloads,
    on_some_line, same_code, save_text, ChordDir, CodeSet,
};
pub use crate::render::map_tree::{ChordEntry, Children, MapNode, MapTree};
use crate::text::lines;
use vstd::prelude::*;

verus! {

/// How long a fresh code's mark blooms, in nanoseconds on screen.
pub const BLOOM_NANOS: u64 = 1_200_000_000;

/// What became of reading the save file.
#[derive(Debug)]
pub enum SaveRead {
    /// There is no save file to keep.
    Unkept,
    /// A fresh save.
    Absent,
    Text(String),
    /// It may hold codes that could not be read.
    Unreadable,
}

/// The codes that were played, and those that the session shares.
#[derive(Debug)]
pub struct DiscoveredCodes {
    codes: CodeSet,
    remote: CodeSet,
    kept: bool,
}

impl DiscoveredCodes {
    /// The codes that this player played, in order.
    pub closed spec fn local(&self) -> Seq<Seq<ChordDir>> {
        self.codes@
    }

    /// The codes that the session shares, in order.
    pub closed spec fn shared(&self) -> Seq<Seq<ChordDir>> {
        self.remote@
    }

    /// Whether there is a save file to write.
    pub closed spec fn is_kept(&self) -> bool {
        self.kept
    }

    /// Both lists are in order, and the empty code was not played.
    pub open spec fn wf(&self) -> bool {
        &&& ascending(self.local())
        &&& ascending(self.shared())
        &&& !self.local().contains(Seq::empty())
    }

    /// Take up what the save file held. Where it could not be read nothing is written over
    /// it.
    pub fn load(read: &SaveRead) -> (d: Self)
        ensures
            d.wf(),
            d.shared().len() == 0,
            d.is_kept() == (read is Absent || read is Text),
            match read {
                SaveRead::Text(t) => forall|c: Seq<ChordDir>|
                    d.local().contains(c) <==> on_some_line(lines(t@), c),
                _ => d.local().len() == 0,
            },
    {
        match read {
            SaveRead::Text(t) => {
                let codes = codes_in_text(t.as_str());
                proof {
                    if on_some_line(lines(t@), Seq::empty()) {
                        let i = choose|i: int|
                            0 <= i < lines(t@).len() && holds_code(
                                #[trigger] lines(t@)[i],
                                Seq::empty(),
                            );
                        assert(code_of(lines(t@)[i])->0.len() == 0);
                    }
                }
                DiscoveredCodes { codes, remote: CodeSet::new(), kept: true }
            },
            SaveRead::Absent => {
                DiscoveredCodes { codes: CodeSet::new(), remote: CodeSet::new(), kept: true }
            },
            SaveRead::Unkept => {
                DiscoveredCodes { codes: CodeSet::new(), remote: CodeSet::new(), kept: false }
            },
            SaveRead::Unreadable => {
                DiscoveredCodes { codes: CodeSet::new(), remote: CodeSet::new(), kept: false }
            },
        }
    }

    /// Adopt the session's set, whole.
    pub fn set_remote(&mut self, remote: CodeSet)
        requires
            old(self).wf(),
            remote.wf(),
        ensures
            final(self).wf(),
            final(self).shared() == remote@,
            final(self).local() == old(self).local(),
            final(self).is_kept() == old(self).is_kept(),
    {
        self.remote = remote;
    }

    /// What the map shows: both sets.
    pub fn visible(&self) -> (s: CodeSet)
        requires
            self.wf(),
        ensures
            s.wf(),
            forall|c: Seq<ChordDir>|
                s@.contains(c) <==> (self.local().contains(c) || self.shared().contains(c)),
    {
        let mut s = CodeSet::new();
        s.insert_all(&self.codes);
        let ghost mine = s@;
        assert(forall|c: Seq<ChordDir>| mine.contains(c) <==> self.local().contains(c));
        s.insert_all(&self.remote);
        assert forall|c: Seq<ChordDir>|
            s@.contains(c) <==> (self.local().contains(c) || self.shared().contains(c)) by {
            assert(mine.contains(c) <==> self.codes@.contains(c));
            assert(self.remote@.contains(c) == self.shared().contains(c));
            assert(s@.contains(c) <==> (mine.contains(c) || self.remote@.contains(c)));
        }
        s
    }

    /// Record a played code. Tells whether it is a discovery: the empty code never is.
    pub fn insert(&mut self, code: &[ChordDir]) -> (fresh: bool)
        requires
            old(self).wf(),
        ensures
            final(self).wf(),
            fresh == (code@.len() > 0 && !old(self).local().contains(code@)),
            !fresh ==> final(self).local() == old(self).local(),
            fresh ==> forall|c: Seq<ChordDir>|
                final(self).local().contains(c) <==> (old(self).local().contains(c) || c
                    == code@),
            final(self).shared() == old(self).shared(),
            final(self).is_kept() == old(self).is_kept(),
    {
        if code.len() == 0 {
            return false;
        }
        self.codes.insert(code)
    }

    /// The codes that this player played.
    pub fn codes(&self) -> (s: &CodeSet)
        ensures
            s@ == self.local(),
    {
        &self.codes
    }

    /// The save file to write, where one is kept: this player's codes and no others.
    pub fn save(&self) -> (r: Option<String>)
        ensures
            r is Some <==> self.is_kept(),
            r matches Some(t) ==> t@ == save_text(self.local()),
    {
        if self.kept {
            Some(codes_text(&self.codes))
        } else {
            None
        }
    }
}

/// What is saved is what the next session finds.
pub proof fn lemma_discoveries_persist(before: DiscoveredCodes, after: DiscoveredCodes)
    requires
        before.wf(),
        after.wf(),
        forall|c: Seq<ChordDir>|
            after.local().contains(c) <==> on_some_line(lines(save_text(before.local())), c),
    ensures
        after.local() == before.local(),
{
    lemma_save_reloads(before.local(), after.local());
}

/// The color of a direction.
pub open spec fn dir_rgb(d: ChordDir) -> (u8, u8, u8) {
    match d {
        ChordDir::Up => (79, 195, 247),
        ChordDir::Down => (255, 183, 77),
        ChordDir::Left => (186, 104, 250),
        ChordDir::Right => (129, 199, 132),
    }
}

/// A code's family color: that of its first press.
pub open spec fn family_rgb(code: Seq<ChordDir>) -> (u8, u8, u8) {
    if code.len() == 0 {
        (150, 158, 172)
    } else {
        dir_rgb(code[0])
    }
}

pub fn dir_color(d: ChordDir) -> (c: (u8, u8, u8))
    ensures
        c == dir_rgb(d),
{
    match d {
        ChordDir::Up => (79, 195, 247),
        ChordDir::Down => (255, 183, 77),
        ChordDir::Left => (186, 104, 250),
        ChordDir::Right => (129, 199, 132),
    }
}

pub fn family_color(code: &[ChordDir]) -> (c: (u8, u8, u8))
    ensures
        c == family_rgb(code@),
{
    if code.len() == 0 {
        (150, 158, 172)
    } else {
        dir_color(code[0])
    }
}

/// What is drawn at a place.
#[derive(Debug, Clone, Copy, PartialEq, Eq)]
pub struct Marks {
    /// The color of its ring.
    pub ring: (u8, u8, u8),
    /// The command that it is a room for.
    pub room: Option<usize>,
    /// The path being entered ends here.
    pub focus: bool,
    /// It was just discovered.
    pub bloom: bool,
    /// Directions that are shown as open: up, down, left, right.
    pub seeds: (bool, bool, bool, bool),
}

/// What is drawn at a place: an undiscovered one is gray and no room, and shows no open
/// directions.
pub open spec fn marks_of(
    nodes: Seq<MapNode>,
    i: int,
    focus: int,
    bloom: Option<Seq<ChordDir>>,
) -> Marks {
    let n = nodes[i];
    Marks {
        ring: if n.provisional {
            (150, 155, 165)
        } else {
            family_rgb(n.code@)
        },
        room: if n.provisional {
            None
        } else {
            n.command
        },
        focus: i == focus,
        bloom: bloom == Some(n.code@),
        seeds: (
            !n.provisional && n.children.up is None,
            !n.provisional && n.children.down is None,
            !n.provisional && n.children.left is None,
            !n.provisional && n.children.right is None,
        ),
    }
}

/// The bloom of a code that was just discovered.
#[derive(Debug)]
pub struct Bloom {
    pub code: Vec<ChordDir>,
    /// How long it has been on screen.
    pub age_nanos: u64,
}

/// The state of the map from frame to frame.
#[derive(Debug)]
pub struct ChordMapState {
    pub open: bool,
    pub focus: Vec<ChordDir>,
    pub bloom: Option<Bloom>,
}

/// What the state holds.
pub struct MapStateView {
    pub open: bool,
    pub focus: Seq<ChordDir>,
    pub bloom: Option<(Seq<ChordDir>, u64)>,
}

impl View for ChordMapState {
    type V = MapStateView;

    open spec fn view(&self) -> MapStateView {
        MapStateView {
            open: self.open,
            focus: self.focus@,
            bloom: match self.bloom {
                Some(b) => Some((b.code@, b.age_nanos)),
                None => None,
            },
        }
    }
}

/// What the chord reader says in a frame.
#[derive(Debug)]
pub struct ChordFrame {
    /// A code was resolved, and whether it was accepted.
    pub resolution: Option<(Vec<ChordDir>, bool)>,
    /// The path entered so far.
    pub entered: Option<Vec<ChordDir>>,
    /// The modifier is held.
    pub capturing: bool,
    pub delta_nanos: u64,
}

/// What a frame does with the map.
#[derive(Debug, Clone, Copy, PartialEq, Eq, Structural)]
pub struct MapFrame {
    /// A code was discovered: save.
    pub discovered: bool,
    pub shown: bool,
    /// The map was shut: the view starts from the root.
    pub opened: bool,
}

/// The code that was resolved in a frame.
pub open spec fn resolved(f: ChordFrame) -> Seq<ChordDir> {
    match f.resolution {
        Some((code, accepted)) => code@,
        None => Seq::empty(),
    }
}

/// A bloom after some time on screen; spent, it is gone.
pub open spec fn aged(b: Option<(Seq<ChordDir>, u64)>, nanos: u64) -> Option<(
    Seq<ChordDir>,
    u64,
)> {
    match b {
        Some((code, age)) => if age + nanos >= BLOOM_NANOS {
            None
        } else {
            Some((code, (age + nanos) as u64))
        },
        None => None,
    }
}

/// The state after a frame.
pub open spec fn framed(
    s: MapStateView,
    f: ChordFrame,
    discovered: bool,
) -> MapStateView {
    let bloom = if discovered {
        Some((resolved(f), 0u64))
    } else {
        s.bloom
    };
    MapStateView {
        open: f.capturing,
        focus: match f.entered {
            Some(e) => e@,
            None => s.focus,
        },
        bloom: if f.capturing {
            aged(bloom, f.delta_nanos)
        } else {
            bloom
        },
    }
}

/// A frame discovers a code: it was accepted, is not empty and was not played before.
pub open spec fn discovers(d: DiscoveredCodes, f: ChordFrame) -> bool {
    f.resolution matches Some((code, accepted)) && accepted && code@.len() > 0
        && !d.local().contains(code@)
}

impl ChordMapState {
    /// The map is shut.
    pub fn new() -> (s: Self)
        ensures
            s@ == (MapStateView { open: false, focus: Seq::empty(), bloom: None }),
    {
        let s = ChordMapState { open: false, focus: Vec::new(), bloom: None };
        assert(s.focus@ =~= Seq::empty());
        s
    }

    /// One frame: record a played code, follow the path being entered, and show the map
    /// exactly while the modifier is held. A bloom ages only while it can be seen.
    pub fn frame(&mut self, discovered: &mut DiscoveredCodes, f: &ChordFrame) -> (r: MapFrame)
        requires
            old(discovered).wf(),
        ensures
            final(discovered).wf(),
            r.discovered == discovers(*old(discovered), *f),
            !r.discovered ==> final(discovered).local() == old(discovered).local(),
            r.discovered ==> forall|c: Seq<ChordDir>|
                final(discovered).local().contains(c) <==> (old(discovered).local().contains(c)
                    || c == resolved(*f)),
            final(discovered).shared() == old(discovered).shared(),
            final(discovered).is_kept() == old(discovered).is_kept(),
            final(self)@ == framed(old(self)@, *f, r.discovered),
            r.shown == f.capturing,
            r.opened == (f.capturing && !old(self)@.open),
    {
        let was_open: bool = self.open;
        let mut fresh: bool = false;
        match &f.resolution {
            Some((code, accepted)) => {
                if *accepted {
                    fresh = discovered.insert(code.as_slice());
                }
                if fresh {
                    let own = copy_code(code.as_slice());
                    self.bloom = Some(Bloom { code: own, age_nanos: 0 });
                }
            },
            None => {},
        }
        if let Some(e) = &f.entered {
            self.focus = copy_code(e.as_slice());
        }
        self.open = f.capturing;
        if f.capturing {
            let spent: bool = match &self.bloom {
                Some(b) => b.age_nanos >= BLOOM_NANOS || f.delta_nanos >= BLOOM_NANOS
                    - b.age_nanos,
                None => false,
            };
            if spent {
                self.bloom = None;
            } else if self.bloom.is_some() {
                let b = self.bloom.take();
                if let Some(bl) = b {
                    self.bloom = Some(
                        Bloom { code: bl.code, age_nanos: bl.age_nanos + f.delta_nanos },
                    );
                }
            }
        }
        MapFrame { discovered: fresh, shown: f.capturing, opened: f.capturing && !was_open }
    }

    /// What is drawn at a place while `focus` is where the entered path ends.
    pub fn marks(&self, tree: &MapTree, i: usize, focus: usize) -> (m: Marks)
        requires
            i < tree.nodes@.len(),
        ensures
            m == marks_of(
                tree.nodes@,
                i as int,
                focus as int,
                match self@.bloom {
                    Some((c, a)) => Some(c),
                    None => None,
                },
            ),
    {
        let n = &tree.nodes[i];
        let bloom: bool = match &self.bloom {
            Some(b) => same_code(b.code.as_slice(), n.code.as_slice()),
            None => false,
        };
        let known: bool = !n.provisional;
        Marks {
            ring: if known {
                family_color(n.code.as_slice())
            } else {
                (150, 155, 165)
            },
            room: if known {
                n.command
            } else {
                None
            },
            focus: i == focus,
            bloom,
            seeds: (
                known && n.children.up.is_none(),
                known && n.children.down.is_none(),
                known && n.children.left.is_none(),
                known && n.children.right.is_none(),
            ),
        }
    }
}

/// The map is gone the frame the hold ends, and a bloom that nobody saw waits unaged.
pub proof fn lemma_map_shuts_at_once(s: MapStateView, f: ChordFrame, discovered: bool)
    requires
        !f.capturing,
    ensures
        !framed(s, f, discovered).open,
        !discovered ==> framed(s, f, discovered).bloom == s.bloom,
        discovered ==> framed(s, f, discovered).bloom == Some((resolved(f), 0u64)),
{
}

/// A discovered place shows its command, the color of its first press, and the directions in
/// which nothing follows; one only entered shows none of them, and is gray whatever its code.
pub proof fn lemma_marks_of_a_place(
    nodes: Seq<MapNode>,
    i: int,
    j: int,
    focus: int,
    bloom: Option<Seq<ChordDir>>,
)
    ensures
        ({
            let m = marks_of(nodes, i, focus, bloom);
            let o = marks_of(nodes, j, focus, bloom);
            let open = |d: ChordDir| !nodes[i].provisional && nodes[i].children.child(d) is None;
            &&& m.seeds == (
                open(ChordDir::Up),
                open(ChordDir::Down),
                open(ChordDir::Left),
                open(ChordDir::Right),
            )
            &&& m.room is Some <==> !nodes[i].provisional && nodes[i].command is Some
            &&& m.room is Some ==> m.room == nodes[i].command
            &&& m.focus <==> i == focus
            &&& m.bloom <==> (bloom matches Some(c) && c == nodes[i].code@)
            &&& nodes[i].provisional && nodes[j].provisional ==> m.ring == o.ring
            &&& !nodes[i].provisional && !nodes[j].provisional && nodes[i].code@.len() > 0
                && nodes[j].code@.len() > 0 ==> (m.ring == o.ring <==> nodes[i].code@[0]
                == nodes[j].code@[0])
        }),
{
}

} // verus!
