//! Chord codes, the save they live in, and the map drawn of them.

use net::render::chord_map::{
    dir_color, family_color, ChordEntry, ChordFrame, ChordMapState, DiscoveredCodes, MapTree,
    SaveRead, BLOOM_NANOS,
};
use net::render::codes::ChordDir::{Down as D, Left as L, Right as R, Up as U};
use net::render::codes::{
    bad_lines, code_from_str, code_to_str, codes_in_text, codes_text, dir_at, dir_index, ChordDir,
    CodeSet,
};

const DIRS: [ChordDir; 4] = [U, D, L, R];

fn set(codes: &[&[ChordDir]]) -> CodeSet {
    let mut s = CodeSet::new();
    for c in codes {
        s.insert(c);
    }
    s
}

fn listed(s: &CodeSet) -> Vec<Vec<ChordDir>> {
    (0..s.len()).map(|i| s.at(i).to_vec()).collect()
}

fn registry() -> Vec<ChordEntry> {
    vec![
        ChordEntry { code: vec![U, L], label: String::from("Enter plane") },
        ChordEntry { code: vec![U, R], label: String::from("Enter ship") },
    ]
}

#[test]
fn code_serialization_round_trips() {
    let code = vec![U, U, D, D, L, R];
    assert_eq!(code_to_str(&code), "UUDDLR");
    assert_eq!(code_from_str("UUDDLR"), Some(code));
    assert_eq!(code_from_str("UX"), None);
}

#[test]
fn dirs_table_matches_dir_index() {
    for d in DIRS {
        assert_eq!(DIRS[dir_index(d)], d);
        assert_eq!(dir_at(dir_index(d)), d);
    }
}

#[test]
fn empty_code_is_not_a_discovery() {
    let mut codes = DiscoveredCodes::load(&SaveRead::Unkept);
    assert!(!codes.insert(&[]));
    assert_eq!(codes.codes().len(), 0);
}

#[test]
fn discovered_set_persists_and_reloads() {
    let mut fresh = DiscoveredCodes::load(&SaveRead::Absent);
    assert_eq!(fresh.codes().len(), 0, "absent file = fresh save");
    assert!(fresh.insert(&[D, L, U]));
    assert!(!fresh.insert(&[D, L, U]), "re-playing is not a discovery");
    assert!(fresh.insert(&[L]));
    let saved = fresh.save().expect("a kept save is written");
    let reloaded = DiscoveredCodes::load(&SaveRead::Text(saved));
    assert_eq!(listed(reloaded.codes()), listed(fresh.codes()));
}

#[test]
fn remote_codes_render_but_never_persist() {
    let mut codes = DiscoveredCodes::load(&SaveRead::Unkept);
    assert!(codes.insert(&[U, L]));
    codes.set_remote(set(&[&[D, D], &[U, L]]));
    assert_eq!(listed(&codes.visible()), listed(&set(&[&[U, L], &[D, D]])));
    assert_eq!(listed(codes.codes()), listed(&set(&[&[U, L]])), "save is local plays only");
    codes.set_remote(CodeSet::new());
    assert_eq!(listed(&codes.visible()), listed(&set(&[&[U, L]])));
}

#[test]
fn tree_is_discovered_plus_entered_only() {
    let reg = registry();
    let tree = MapTree::build(&set(&[&[U, L], &[D, D]]), &[D, R], &reg);
    // Root, U, UL, D, DD, DR, and no other registry code.
    assert_eq!(tree.nodes.len(), 6);
    let ul = tree.index_of(&[U, L]).unwrap();
    assert_eq!(tree.nodes[ul].command.map(|i| reg[i].label.as_str()), Some("Enter plane"));
    assert!(!tree.nodes[ul].provisional);
    let dr = tree.index_of(&[D, R]).unwrap();
    assert!(tree.nodes[dr].provisional, "entered-but-unplayed is tentative");
    assert_eq!(tree.nodes[dr].command, None, "an undiscovered junction shows no command");
    assert!(tree.index_of(&[U, R]).is_none(), "no teaser branches");
}

#[test]
fn a_save_that_cannot_be_read_is_left_alone() {
    let mut codes = DiscoveredCodes::load(&SaveRead::Unreadable);
    assert!(codes.insert(&[U]));
    assert_eq!(codes.save(), None, "nothing is written over a save that could not be read");
    let mut unkept = DiscoveredCodes::load(&SaveRead::Unkept);
    assert!(unkept.insert(&[U]));
    assert_eq!(unkept.save(), None);
}

#[test]
fn bad_lines_are_told_and_skipped() {
    let text = "UL\nnope\n\n  DD  \nU?\n";
    assert_eq!(listed(&codes_in_text(text)), vec![vec![U, L], vec![D, D]]);
    assert_eq!(bad_lines(text), vec!["nope", "U?"]);
}

#[test]
fn a_set_is_ordered_whatever_came_first() {
    let a = set(&[&[R], &[U], &[L, U], &[L]]);
    let b = set(&[&[L], &[L, U], &[R], &[U], &[U]]);
    assert_eq!(listed(&a), listed(&b));
    assert_eq!(listed(&a), vec![vec![U], vec![L], vec![L, U], vec![R]]);
    assert_eq!(codes_text(&a), "U\nL\nLU\nR\n");
    assert_eq!(listed(&codes_in_text(&codes_text(&a))), listed(&a));
    assert!(a.contains(&[L, U]) && !a.contains(&[U, L]));
}

#[test]
fn paths_name_their_rooms() {
    let tree = MapTree::build(&set(&[&[U, L, R]]), &[], &registry());
    let deep = tree.index_of(&[U, L, R]).unwrap();
    let mid = tree.index_of(&[U, L]).unwrap();
    assert_eq!(tree.parent_of(deep), Some(mid));
    assert_eq!(tree.nodes[mid].children.get(R), Some(deep));
    assert_eq!(tree.nodes[mid].children.get(U), None);
    let root = tree.index_of(&[]).unwrap();
    assert_eq!(tree.parent_of(root), None);
    assert_eq!(tree.nodes[mid].command, None, "a junction on the way is no discovery");
}

#[test]
fn colors_are_by_direction_and_family() {
    assert_eq!(dir_color(U), family_color(&[U, D]));
    assert_ne!(dir_color(U), dir_color(D));
    assert_ne!(dir_color(L), dir_color(R));
}

#[test]
fn a_played_chord_is_discovered_and_blooms() {
    let mut codes = DiscoveredCodes::load(&SaveRead::Absent);
    let mut map = ChordMapState::new();
    let frame = |resolution, capturing, delta_nanos| ChordFrame {
        resolution,
        entered: None,
        capturing,
        delta_nanos,
    };
    let shown = map.frame(
        &mut codes,
        &ChordFrame { resolution: None, entered: Some(vec![U]), capturing: true, delta_nanos: 0 },
    );
    assert!(shown.shown && shown.opened && !shown.discovered);
    assert_eq!(map.focus, vec![U]);
    let played = map.frame(&mut codes, &frame(Some((vec![U, L], true)), false, 0));
    assert!(played.discovered);
    assert!(codes.codes().contains(&[U, L]));
    let after = map.frame(&mut codes, &frame(None, false, BLOOM_NANOS));
    assert!(!after.discovered);
}
