use pathfilter::PathFilter;
use pathwalker::{Entry, EntryFilter, EntryKind, PathWalker, Step, Walk};
use std::collections::BTreeMap;
use std::collections::BTreeSet;

type Tree = BTreeMap<String, Vec<(String, EntryKind, EntryKind)>>;

fn file(name: &str) -> (String, EntryKind, EntryKind) {
    (name.to_string(), EntryKind::File, EntryKind::File)
}

fn dir(name: &str) -> (String, EntryKind, EntryKind) {
    (name.to_string(), EntryKind::Directory, EntryKind::Directory)
}

fn link(name: &str, target: EntryKind) -> (String, EntryKind, EntryKind) {
    (name.to_string(), EntryKind::Symlink, target)
}

/// root/{a.txt, sub/{b.txt, nested/c.txt}}
fn sample_tree() -> Tree {
    let mut t = Tree::new();
    t.insert("root".to_string(), vec![file("a.txt"), dir("sub")]);
    t.insert("root/sub".to_string(), vec![file("b.txt"), dir("nested")]);
    t.insert("root/sub/nested".to_string(), vec![file("c.txt")]);
    t
}

/// Runs a walk to its end over an in-memory tree; a directory missing from
/// the tree cannot be listed and yields no child.
fn run(mut w: Walk, tree: &Tree) -> Vec<Entry> {
    let mut out = Vec::new();
    loop {
        match w.step() {
            Step::Yield(e) => out.push(e),
            Step::List(d) => {
                if let Some(children) = tree.get(&d) {
                    for (name, kind, target) in children {
                        w.handle_entry(Entry::new(format!("{}/{}", d, name), *kind, *target));
                    }
                }
            }
            Step::Done => break,
        }
    }
    out
}

fn paths(entries: &[Entry]) -> Vec<String> {
    entries.iter().map(|e| e.path.clone()).collect()
}

fn path_set(entries: &[Entry]) -> BTreeSet<String> {
    paths(entries).into_iter().collect()
}

fn set(items: &[&str]) -> BTreeSet<String> {
    items.iter().map(|s| s.to_string()).collect()
}

#[test]
fn unfiltered_walk_produces_every_entry() {
    let out = run(PathWalker::new("root".to_string()).walk(), &sample_tree());
    assert_eq!(
        path_set(&out),
        set(&["root/a.txt", "root/sub", "root/sub/b.txt", "root/sub/nested", "root/sub/nested/c.txt"])
    );
    assert_eq!(out.len(), 5);
}

#[test]
fn no_entry_is_produced_twice() {
    let out = run(PathWalker::new("root".to_string()).walk(), &sample_tree());
    assert_eq!(path_set(&out).len(), out.len());
}

#[test]
fn subtree_is_finished_before_earlier_queued_directories() {
    let mut t = Tree::new();
    t.insert("r".to_string(), vec![dir("x"), dir("y")]);
    t.insert("r/x".to_string(), vec![file("x1")]);
    t.insert("r/y".to_string(), vec![dir("z"), file("y1")]);
    t.insert("r/y/z".to_string(), vec![file("z1")]);
    let out = paths(&run(PathWalker::new("r".to_string()).walk(), &t));
    // y was queued after x, so all of y's descendants come before x1.
    let pos = |p: &str| out.iter().position(|q| q == p).unwrap();
    assert!(pos("r/y/y1") < pos("r/x/x1"));
    assert!(pos("r/y/z/z1") < pos("r/x/x1"));
    // Entries of one listing come out last in, first out.
    assert_eq!(out[0], "r/y");
    assert_eq!(out[1], "r/x");
}

#[test]
fn depth_ceiling_counts_queued_directories_over_the_whole_walk() {
    let w = PathWalker::new("root".to_string()).with_max_depth(Some(1)).walk();
    let out = run(w, &sample_tree());
    // Only sub is queued; nested is surfaced but never listed.
    assert_eq!(
        path_set(&out),
        set(&["root/a.txt", "root/sub", "root/sub/b.txt", "root/sub/nested"])
    );
}

#[test]
fn depth_ceiling_of_zero_lists_only_the_root() {
    let w = PathWalker::new("root".to_string()).with_max_depth(Some(0)).walk();
    assert_eq!(path_set(&run(w, &sample_tree())), set(&["root/a.txt", "root/sub"]));
}

#[test]
fn depth_ceiling_can_be_removed() {
    let w = PathWalker::new("root".to_string()).with_max_depth(Some(0)).with_max_depth(None).walk();
    assert_eq!(run(w, &sample_tree()).len(), 5);
}

#[test]
fn files_only_hides_directories_but_walks_them() {
    let w = PathWalker::new("root".to_string()).files_only().walk();
    let out = run(w, &sample_tree());
    assert!(out.iter().all(|e| e.kind != EntryKind::Directory));
    assert_eq!(path_set(&out), set(&["root/a.txt", "root/sub/b.txt", "root/sub/nested/c.txt"]));
}

#[test]
fn directories_only_hides_everything_else() {
    let mut t = sample_tree();
    t.get_mut("root").unwrap().push(("pipe".to_string(), EntryKind::Other, EntryKind::Other));
    let w = PathWalker::new("root".to_string()).directories_only().walk();
    let out = run(w, &t);
    assert!(out.iter().all(|e| e.kind == EntryKind::Directory));
    assert_eq!(path_set(&out), set(&["root/sub", "root/sub/nested"]));
}

#[test]
fn both_entry_filters_hide_everything() {
    let w = PathWalker::new("root".to_string()).files_only().directories_only().walk();
    assert!(run(w, &sample_tree()).is_empty());
}

#[test]
fn path_filter_prunes_a_directory_and_everything_below() {
    let mut t = sample_tree();
    t.get_mut("root").unwrap().push(dir("cache.tmp"));
    t.insert("root/cache.tmp".to_string(), vec![file("junk.bin"), dir("deep")]);
    t.insert("root/cache.tmp/deep".to_string(), vec![file("more.bin")]);
    let w = PathWalker::new("root".to_string()).with_filter(PathFilter::new_extension(".tmp")).walk();
    let out = path_set(&run(w, &t));
    assert!(out.iter().all(|p| !p.starts_with("root/cache.tmp")));
    assert_eq!(out.len(), 5);
}

#[test]
fn path_filter_hides_matching_files() {
    let w = PathWalker::new("root".to_string()).with_filter(PathFilter::new_extension(".txt")).walk();
    assert_eq!(path_set(&run(w, &sample_tree())), set(&["root/sub", "root/sub/nested"]));
}

#[test]
fn several_path_filters_combine_by_or() {
    let mut t = sample_tree();
    t.get_mut("root").unwrap().push(file("main.rs"));
    t.get_mut("root").unwrap().push(file("keep.md"));
    let w = PathWalker::new("root".to_string())
        .with_filters(vec![PathFilter::new_extension(".txt"), PathFilter::new_extension("rs")])
        .walk();
    assert_eq!(path_set(&run(w, &t)), set(&["root/sub", "root/sub/nested", "root/keep.md"]));
}

#[test]
fn symlinks_are_dropped_unless_followed() {
    let mut t = sample_tree();
    t.get_mut("root").unwrap().push(link("to_sub", EntryKind::Directory));
    t.get_mut("root").unwrap().push(link("to_file", EntryKind::File));
    t.insert("root/to_sub".to_string(), vec![file("via.txt")]);
    let out = run(PathWalker::new("root".to_string()).walk(), &t);
    assert!(out.iter().all(|e| e.kind != EntryKind::Symlink));
    assert_eq!(out.len(), 5);
}

#[test]
fn followed_symlinks_act_as_their_target() {
    let mut t = sample_tree();
    t.get_mut("root").unwrap().push(link("to_sub", EntryKind::Directory));
    t.get_mut("root").unwrap().push(link("to_file", EntryKind::File));
    t.insert("root/to_sub".to_string(), vec![file("via.txt")]);
    let w = PathWalker::new("root".to_string()).follow_symlinks().walk();
    let out = path_set(&run(w, &t));
    assert!(out.contains("root/to_sub"));
    assert!(out.contains("root/to_file"));
    assert!(out.contains("root/to_sub/via.txt"));
    assert_eq!(out.len(), 8);
    let w = PathWalker::new("root".to_string()).follow_symlinks().files_only().walk();
    let out = path_set(&run(w, &t));
    assert!(!out.contains("root/to_sub"));
    assert!(out.contains("root/to_file"));
    assert!(out.contains("root/to_sub/via.txt"));
}

#[test]
fn unlistable_root_gives_an_empty_walk() {
    let mut w = PathWalker::new("missing".to_string()).walk();
    match w.step() {
        Step::List(d) => assert_eq!(d, "missing"),
        _ => panic!("the root is listed first"),
    }
    assert!(matches!(w.step(), Step::Done));
    assert!(matches!(w.step(), Step::Done));
    assert!(run(PathWalker::new("missing".to_string()).walk(), &sample_tree()).is_empty());
}

#[test]
fn empty_root_gives_an_empty_walk() {
    let mut t = Tree::new();
    t.insert("root".to_string(), vec![]);
    assert!(run(PathWalker::new("root".to_string()).walk(), &t).is_empty());
}

#[test]
fn two_fresh_walks_give_the_same_set() {
    let first = path_set(&run(PathWalker::new("root".to_string()).walk(), &sample_tree()));
    let second = path_set(&run(PathWalker::new("root".to_string()).walk(), &sample_tree()));
    assert_eq!(first, second);
}

#[test]
fn default_walks_the_current_directory() {
    let mut w = PathWalker::default().walk();
    match w.step() {
        Step::List(d) => assert_eq!(d, "."),
        _ => panic!("the root is listed first"),
    }
}

#[test]
fn take_in_entry_follows_the_given_path_decision() {
    let mut w = PathWalker::new("root".to_string()).walk();
    assert!(matches!(w.step(), Step::List(_)));
    w.take_in_entry(Entry::new("root/x".to_string(), EntryKind::Directory, EntryKind::Directory), true);
    assert!(matches!(w.step(), Step::Done));
    let mut w = PathWalker::new("root".to_string()).walk();
    assert!(matches!(w.step(), Step::List(_)));
    w.take_in_entry(Entry::new("root/x".to_string(), EntryKind::Directory, EntryKind::Directory), false);
    match w.step() {
        Step::Yield(e) => assert_eq!(e.path, "root/x"),
        _ => panic!("the directory is surfaced"),
    }
    match w.step() {
        Step::List(d) => assert_eq!(d, "root/x"),
        _ => panic!("the directory is queued"),
    }
}

#[test]
fn entry_filter_ignores_by_kind() {
    assert!(EntryFilter::FileOnly.ignores(EntryKind::Directory));
    assert!(EntryFilter::FileOnly.ignores(EntryKind::Symlink));
    assert!(!EntryFilter::FileOnly.ignores(EntryKind::File));
    assert!(!EntryFilter::FileOnly.ignores(EntryKind::Other));
    assert!(!EntryFilter::DirectoryOnly.ignores(EntryKind::Directory));
    assert!(EntryFilter::DirectoryOnly.ignores(EntryKind::File));
    assert!(EntryFilter::DirectoryOnly.ignores(EntryKind::Other));
}

#[test]
fn depth_ceiling_makes_the_set_depend_on_listing_order() {
    let mut first = Tree::new();
    first.insert("r".to_string(), vec![dir("x"), dir("y")]);
    first.insert("r/x".to_string(), vec![file("in_x")]);
    first.insert("r/y".to_string(), vec![file("in_y")]);
    let mut second = first.clone();
    second.insert("r".to_string(), vec![dir("y"), dir("x")]);
    let walk = || PathWalker::new("r".to_string()).with_max_depth(Some(1)).walk();
    assert_eq!(path_set(&run(walk(), &first)), set(&["r/x", "r/y", "r/x/in_x"]));
    assert_eq!(path_set(&run(walk(), &second)), set(&["r/x", "r/y", "r/y/in_y"]));
}

#[test]
fn listing_order_does_not_change_the_set_without_a_ceiling() {
    let mut reordered = Tree::new();
    reordered.insert("root".to_string(), vec![dir("sub"), file("a.txt")]);
    reordered.insert("root/sub".to_string(), vec![dir("nested"), file("b.txt")]);
    reordered.insert("root/sub/nested".to_string(), vec![file("c.txt")]);
    let first = path_set(&run(PathWalker::new("root".to_string()).walk(), &sample_tree()));
    let second = path_set(&run(PathWalker::new("root".to_string()).walk(), &reordered));
    assert_eq!(first, second);
}

#[test]
fn path_filter_order_does_not_change_the_output() {
    let mut t = sample_tree();
    t.get_mut("root").unwrap().push(file("main.rs"));
    let one = PathWalker::new("root".to_string())
        .with_filters(vec![PathFilter::new_extension("txt"), PathFilter::new_extension("rs")])
        .walk();
    let other = PathWalker::new("root".to_string())
        .with_filter(PathFilter::new_extension("rs"))
        .with_filter(PathFilter::new_extension("txt"))
        .walk();
    assert_eq!(path_set(&run(one, &t)), path_set(&run(other, &t)));
    assert_eq!(path_set(&run(PathWalker::new("root".to_string()).with_filters(vec![]).walk(), &t)).len(), 6);
}
