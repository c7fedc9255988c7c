use tree_browser::tree_build::{build, entry_precedes, listing_is_well_formed, sort_siblings, Entry};
use tree_browser::walk::Walk;
use tree_browser::flat_tree::LineType;

fn child(name: &str, is_dir: bool) -> Entry {
    Entry { name: name.to_string(), is_dir, depth: 7 }
}

fn names(v: &[Entry]) -> Vec<String> {
    v.iter().map(|e| e.name.clone()).collect()
}

#[test]
fn directories_come_first_then_names() {
    assert!(entry_precedes(&child("zeta", true), &child("alpha", false)));
    assert!(!entry_precedes(&child("alpha", false), &child("zeta", true)));
    assert!(entry_precedes(&child("abc", false), &child("abd", false)));
    assert!(entry_precedes(&child("ab", false), &child("abc", false)));
    assert!(!entry_precedes(&child("abc", false), &child("ab", false)));
    assert!(!entry_precedes(&child("same", false), &child("same", false)));
    assert!(entry_precedes(&child("B", false), &child("a", false)));
}

#[test]
fn sorting_siblings() {
    let v = vec![
        child("b.txt", false),
        child("src", true),
        child("a.txt", false),
        child("docs", true),
        child("a.txt", false),
    ];
    let sorted = sort_siblings(v);
    assert_eq!(names(&sorted), vec!["docs", "src", "a.txt", "a.txt", "b.txt"]);
    assert!(sort_siblings(Vec::new()).is_empty());
}

#[test]
fn walk_in_preorder() {
    let mut walk = Walk::new();
    assert!(walk.wants_children());
    walk.push_children(vec![child("z", false), child("d", true), child("a", false)]);
    assert!(!walk.wants_children());
    let first = walk.advance().unwrap();
    assert_eq!((first.name.as_str(), first.depth), ("d", 0));
    assert!(walk.wants_children());
    walk.push_children(vec![child("y", false), child("x", false)]);
    let mut seen = vec![];
    while let Some(e) = walk.advance() {
        assert!(!e.is_dir);
        seen.push((e.name, e.depth));
    }
    assert_eq!(
        seen,
        vec![("x".to_string(), 1), ("y".to_string(), 1), ("a".to_string(), 0), ("z".to_string(), 0)]
    );
    assert_eq!(names(&walk.listing), vec!["d", "x", "y", "a", "z"]);
    assert!(listing_is_well_formed(&walk.listing));
    assert!(walk.advance().is_none());

    let tree = build(&walk.listing, 10);
    assert_eq!(tree.lines[0].content, LineType::Dir("d".to_string()));
    assert_eq!(tree.lines[1].depth, 1);
    assert!(tree.has_branch(1, 0));
    assert!(tree.has_branch(2, 0));
    assert!(!tree.has_branch(3, 0));
}

#[test]
fn walk_of_empty_root() {
    let mut walk = Walk::new();
    walk.push_children(Vec::new());
    assert!(walk.advance().is_none());
    assert!(walk.listing.is_empty());
    let tree = build(&walk.listing, 10);
    assert!(tree.lines.is_empty());
    assert_eq!(tree.key(), "");
}

#[test]
fn directory_skipped_without_children() {
    let mut walk = Walk::new();
    walk.push_children(vec![child("d", true), child("e", true)]);
    assert_eq!(walk.advance().unwrap().name, "d");
    assert_eq!(walk.advance().unwrap().name, "e");
    walk.push_children(vec![child("f", false)]);
    let f = walk.advance().unwrap();
    assert_eq!((f.name.as_str(), f.depth), ("f", 1));
    assert!(walk.advance().is_none());
    assert!(listing_is_well_formed(&walk.listing));
}
