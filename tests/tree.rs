use std::collections::HashSet;

use tree_browser::commands::{apply, Action, Command, Keypress};
use tree_browser::flat_tree::{LineType, Tree};
use tree_browser::keys::{make_key, width_for};
use tree_browser::tree_build::{build, listing_is_well_formed, Entry};

fn entry(name: &str, is_dir: bool, depth: usize) -> Entry {
    Entry { name: name.to_string(), is_dir, depth }
}

fn flat_files(n: usize) -> Vec<Entry> {
    (0..n).map(|i| entry(&format!("file{:03}", i), false, 0)).collect()
}

fn nested() -> Vec<Entry> {
    vec![
        entry("a", true, 0),
        entry("x", false, 1),
        entry("y", true, 1),
        entry("z", false, 2),
        entry("b", false, 0),
    ]
}

#[test]
fn pruning_keeps_budget() {
    let tree = build(&flat_files(100), 5);
    assert_eq!(tree.lines.len(), 5);
    assert_eq!(tree.lines[4].content, LineType::Pruning(96));
    assert_eq!(tree.lines[4].key, "");
    for i in 0..4 {
        assert_eq!(tree.lines[i].content, LineType::File(format!("file{:03}", i)));
    }
    assert_eq!(tree.selection, 0);
}

#[test]
fn budget_one_is_only_marker() {
    let tree = build(&flat_files(3), 1);
    assert_eq!(tree.lines.len(), 1);
    assert_eq!(tree.lines[0].content, LineType::Pruning(3));
}

#[test]
fn exact_fit_has_no_marker() {
    let tree = build(&flat_files(5), 5);
    assert_eq!(tree.lines.len(), 5);
    assert!(tree.lines.iter().all(|l| !matches!(l.content, LineType::Pruning(_))));
}

#[test]
fn zero_budget_is_empty() {
    let tree = build(&flat_files(3), 0);
    assert_eq!(tree.lines.len(), 0);
}

#[test]
fn marker_sits_at_depth_of_first_left_out() {
    let tree = build(&nested(), 4);
    assert_eq!(tree.lines.len(), 4);
    assert_eq!(tree.lines[3].content, LineType::Pruning(2));
    assert_eq!(tree.lines[3].depth, 2);
}

#[test]
fn empty_root() {
    let mut tree = build(&Vec::new(), 10);
    assert_eq!(tree.lines.len(), 0);
    assert_eq!(tree.key(), "");
    tree.move_selection(3);
    tree.move_selection(-3);
    assert_eq!(tree.selection, 0);
    assert_eq!(tree.key(), "");
}

#[test]
fn keys_are_distinct() {
    for n in [1usize, 26, 27, 676, 677, 700] {
        let tree = build(&flat_files(n), n);
        let keys: HashSet<String> = tree.lines.iter().map(|l| l.key.clone()).collect();
        assert_eq!(keys.len(), n);
        assert!(tree.lines.iter().all(|l| !l.key.is_empty()));
    }
}

#[test]
fn key_scheme_values() {
    assert_eq!(width_for(0), 1);
    assert_eq!(width_for(26), 1);
    assert_eq!(width_for(27), 2);
    assert_eq!(width_for(676), 2);
    assert_eq!(width_for(677), 3);
    assert_eq!(make_key(0, 1), "a");
    assert_eq!(make_key(25, 1), "z");
    assert_eq!(make_key(26, 2), "ba");
    assert_eq!(make_key(27, 3), "abb");
    let tree = build(&flat_files(27), 30);
    assert_eq!(tree.lines[0].key, "aa");
    assert_eq!(tree.lines[26].key, "ba");
    let small = build(&flat_files(3), 30);
    assert_eq!(small.lines[2].key, "c");
}

#[test]
fn select_round_trip() {
    let mut tree = build(&nested(), 10);
    for i in 0..tree.lines.len() {
        let key = tree.lines[i].key.clone();
        assert!(tree.try_select(&key));
        assert_eq!(tree.selection, i);
        assert_eq!(tree.key(), key);
    }
}

#[test]
fn unknown_key_resets() {
    let mut tree = build(&nested(), 10);
    tree.move_selection(3);
    assert_eq!(tree.selection, 3);
    assert!(!tree.try_select("zzzz-not-a-real-key"));
    assert_eq!(tree.selection, 0);
}

#[test]
fn marker_is_not_selectable() {
    let mut tree = build(&flat_files(10), 3);
    tree.move_selection(1);
    assert!(!tree.try_select(""));
    assert_eq!(tree.selection, 0);
}

#[test]
fn clamping() {
    let mut tree = build(&nested(), 10);
    tree.move_selection(2);
    tree.move_selection(-1000);
    assert_eq!(tree.selection, 0);
    tree.move_selection(1000);
    assert_eq!(tree.selection, 4);
    tree.move_selection(-1);
    assert_eq!(tree.selection, 3);
    tree.move_selection(1);
    tree.move_selection(1);
    assert_eq!(tree.selection, 4);
    assert_eq!(tree.key(), "e");
}

#[test]
fn selection_stays_in_bounds() {
    let mut tree = build(&flat_files(7), 7);
    for d in [3, -9, 20, 1, -2, i32::MIN, i32::MAX, 0, -1] {
        tree.move_selection(d);
        assert!(tree.selection < tree.lines.len());
    }
}

#[test]
fn preorder_depths() {
    let tree = build(&nested(), 10);
    let depths: Vec<usize> = tree.lines.iter().map(|l| l.depth).collect();
    assert_eq!(depths, vec![0, 1, 1, 2, 0]);
    assert_eq!(tree.lines[0].content, LineType::Dir("a".to_string()));
    assert_eq!(tree.lines[2].content, LineType::Dir("y".to_string()));
    // the subtree of line 0 is lines 1..4, all deeper
    assert!(tree.lines[1..4].iter().all(|l| l.depth > 0));
}

#[test]
fn branch_flags() {
    let tree = build(&nested(), 10);
    assert_eq!(tree.lines[0].left_branchs, Vec::<bool>::new());
    assert_eq!(tree.lines[1].left_branchs, vec![true]);
    assert_eq!(tree.lines[2].left_branchs, vec![true]);
    assert_eq!(tree.lines[3].left_branchs, vec![false, true]);
    assert!(tree.has_branch(2, 0));
    assert!(!tree.has_branch(3, 0));
    assert!(tree.has_branch(3, 1));
    assert!(!tree.has_branch(4, 0));
    assert!(!tree.has_branch(5, 0));
}

#[test]
fn listing_validation() {
    assert!(listing_is_well_formed(&nested()));
    assert!(listing_is_well_formed(&Vec::new()));
    assert!(!listing_is_well_formed(&vec![entry("a", true, 1)]));
    assert!(!listing_is_well_formed(&vec![entry("a", false, 0), entry("b", false, 1)]));
    assert!(!listing_is_well_formed(&vec![entry("a", true, 0), entry("b", false, 2)]));
}

#[test]
fn typing_builds_a_key() {
    let mut cmd = Command::new();
    assert_eq!(cmd.action, Action::Unparsed);
    cmd.add_key(Keypress::Char('a'));
    cmd.add_key(Keypress::Char('b'));
    assert_eq!(cmd.raw, "ab");
    assert_eq!(cmd.action, Action::Select("ab".to_string()));
    cmd.add_key(Keypress::Backspace);
    assert_eq!(cmd.raw, "a");
    assert_eq!(cmd.action, Action::Select("a".to_string()));
    cmd.add_key(Keypress::Backspace);
    assert_eq!(cmd.raw, "");
    assert_eq!(cmd.action, Action::Unparsed);
    cmd.add_key(Keypress::Down);
    assert_eq!(cmd.action, Action::MoveSelection(1));
    cmd.add_key(Keypress::Up);
    assert_eq!(cmd.action, Action::MoveSelection(-1));
    cmd.add_key(Keypress::Escape);
    assert_eq!(cmd.action, Action::Quit);
}

#[test]
fn apply_moves_selects_and_quits() {
    let mut tree: Tree = build(&nested(), 10);
    let mut cmd = Command::new();
    cmd.add_key(Keypress::Down);
    assert!(apply(&mut cmd, &mut tree));
    assert_eq!(tree.selection, 1);
    assert_eq!(cmd.raw, "b");
    cmd.add_key(Keypress::Char('d'));
    assert_eq!(cmd.raw, "d");
    assert!(apply(&mut cmd, &mut tree));
    assert_eq!(tree.selection, 3);
    cmd.add_key(Keypress::Char('q'));
    assert!(apply(&mut cmd, &mut tree));
    assert_eq!(tree.selection, 0);
    cmd.add_key(Keypress::Escape);
    assert!(!apply(&mut cmd, &mut tree));
    assert_eq!(tree.selection, 0);
}
