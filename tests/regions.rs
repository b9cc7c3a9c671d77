use executable_visualizer::region::{FileNode, SectionType};
use executable_visualizer::resolve::resolve_overlaps;
use executable_visualizer::tree::build_tree;

fn node(name: &str, start: u64, end: u64) -> FileNode {
    FileNode {
        name: name.to_string(),
        bytes_start: start,
        bytes_end: end,
        ram_bytes_start: 0,
        ram_bytes_end: 0,
        file_bytes_start: start,
        file_bytes_end: end,
        ty: SectionType::SectionContent,
        notes: vec![],
        children: vec![],
    }
}

fn names(nodes: &[FileNode]) -> Vec<&str> {
    nodes.iter().map(|n| n.name.as_str()).collect()
}

#[test]
fn len_is_end_minus_start() {
    assert_eq!(node("a", 10, 25).len(), 15);
    assert_eq!(node("a", 7, 7).len(), 0);
}

#[test]
fn touching_ranges_do_not_overlap() {
    let a = node("a", 0, 10);
    let b = node("b", 10, 20);
    assert!(!a.overlaps(&b));
    assert!(!b.overlaps(&a));
}

#[test]
fn overlap_test_is_strict() {
    let outer = node("outer", 100, 200);
    let inner = node("inner", 150, 160);
    assert!(inner.overlaps(&outer));
    assert!(!outer.overlaps(&inner));
    assert!(!outer.overlaps(&node("same", 100, 200)));
    assert!(node("tail", 150, 250).overlaps(&outer));
}

#[test]
fn resolver_nests_contained_ranges() {
    let out = resolve_overlaps(vec![node("outer", 100, 200), node("inner", 150, 160)]);
    assert_eq!(names(&out), vec!["outer"]);
    assert_eq!(names(&out[0].children), vec!["inner"]);
}

#[test]
fn resolver_makes_the_longer_the_parent() {
    let out = resolve_overlaps(vec![node("short", 5, 15), node("long", 0, 20)]);
    assert_eq!(names(&out), vec!["long"]);
    assert_eq!(names(&out[0].children), vec!["short"]);
}

#[test]
fn resolver_breaks_ties_by_position() {
    let out = resolve_overlaps(vec![node("first", 0, 10), node("second", 5, 15)]);
    assert_eq!(names(&out), vec!["first"]);
    assert_eq!(names(&out[0].children), vec!["second"]);
}

#[test]
fn resolver_leaves_disjoint_ranges_alone() {
    let out = resolve_overlaps(vec![node("b", 10, 20), node("a", 0, 10), node("c", 30, 40)]);
    assert_eq!(names(&out), vec!["b", "a", "c"]);
}

#[test]
fn resolver_rescans_after_each_merge() {
    let out = resolve_overlaps(vec![
        node("c", 12, 15),
        node("b", 10, 20),
        node("a", 0, 100),
        node("d", 90, 95),
    ]);
    assert_eq!(names(&out), vec!["a"]);
    assert_eq!(names(&out[0].children), vec!["b", "d"]);
    assert_eq!(names(&out[0].children[0].children), vec!["c"]);
}

#[test]
fn tree_sorts_every_level_by_start() {
    let root = node("root", 0, 100);
    let tree = build_tree(root, vec![node("z", 50, 60), node("outer", 10, 40), node("y", 20, 25), node("x", 12, 14)]);
    assert_eq!(names(&tree.children), vec!["outer", "z"]);
    assert_eq!(names(&tree.children[0].children), vec!["x", "y"]);
    assert_eq!((tree.bytes_start, tree.bytes_end), (0, 100));
}

#[test]
fn sort_is_stable() {
    let mut root = node("root", 0, 100);
    root.children = vec![node("b", 5, 6), node("a", 1, 2), node("c", 5, 9)];
    root.sort();
    assert_eq!(names(&root.children), vec!["a", "b", "c"]);
}


#[test]
fn resolver_appends_each_adopted_region() {
    let out = resolve_overlaps(vec![node("a", 100, 200), node("b", 110, 130), node("c", 112, 120)]);
    assert_eq!(names(&out), vec!["a"]);
    assert_eq!(names(&out[0].children), vec!["b", "c"]);
    assert!(out[0].children[0].children.is_empty());
}

#[test]
fn identical_ranges_stay_side_by_side() {
    let out = resolve_overlaps(vec![node("a", 10, 20), node("b", 10, 20)]);
    assert_eq!(names(&out), vec!["a", "b"]);
}
