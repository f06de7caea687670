use dirtree::model::{Node, NodeKind};
use dirtree::view::{build_visible_list, toggle_by_index};
use dirtree::App;

fn file(name: &str, size: u64) -> Node {
    Node::file(name.as_bytes().to_vec(), size)
}

fn dir(name: &str, children: Vec<Node>) -> Node {
    Node::directory(name.as_bytes().to_vec(), children).unwrap()
}

fn is_dir(n: &Node) -> bool {
    matches!(n.kind(), NodeKind::Directory(_))
}

fn children(n: &Node) -> &Vec<Node> {
    match n.kind() {
        NodeKind::Directory(dp) => dp.children(),
        NodeKind::File => panic!("file node has no children"),
    }
}

/// The fixture of the concrete scenario: root holds directory `a`
/// (empty), directory `b` (one file `f` of 2048 bytes) and file `c`
/// (10 bytes).
fn fixture() -> Node {
    let a = dir("a", vec![]);
    let b = dir("b", vec![file("f", 2048)]);
    let c = file("c", 10);
    dir("root", vec![c, b, a])
}

#[test]
fn file_node_basics() {
    let f = file("c", 10);
    assert_eq!(f.size(), 10);
    assert_eq!(f.path(), &b"c".to_vec());
    assert!(!is_dir(&f));
}

#[test]
fn directory_sizes_aggregate_at_every_level() {
    let root = fixture();
    assert_eq!(root.size(), 2058);
    let kids = children(&root);
    // a is empty, b holds 2048 bytes, c is 10 bytes.
    assert_eq!(kids.len(), 3);
    let mut sum: u64 = 0;
    for k in kids.iter() {
        sum += k.size();
    }
    assert_eq!(root.size(), sum);
    for k in kids.iter() {
        if is_dir(k) {
            let mut inner: u64 = 0;
            for g in children(k).iter() {
                inner += g.size();
            }
            assert_eq!(k.size(), inner);
        }
    }
}

#[test]
fn siblings_sorted_directories_first_then_paths() {
    let root = dir(
        "root",
        vec![
            file("zz", 1),
            file("aa", 2),
            dir("q", vec![]),
            dir("b", vec![]),
            file("mm", 3),
        ],
    );
    let kids = children(&root);
    let mut seen_file = false;
    for k in kids.iter() {
        if is_dir(k) {
            assert!(!seen_file, "a directory appeared after a file");
        } else {
            seen_file = true;
        }
    }
    for w in kids.windows(2) {
        if is_dir(&w[0]) == is_dir(&w[1]) {
            assert!(w[0].path() <= w[1].path());
        }
    }
    assert_eq!(kids[0].path(), &b"b".to_vec());
    assert_eq!(kids[1].path(), &b"q".to_vec());
    assert_eq!(kids[2].path(), &b"aa".to_vec());
    assert_eq!(kids[3].path(), &b"mm".to_vec());
    assert_eq!(kids[4].path(), &b"zz".to_vec());
}

#[test]
fn collapsed_root_yields_single_row() {
    let root = fixture();
    let items = build_visible_list(&root);
    assert_eq!(items.len(), 1);
    assert_eq!(items[0].depth, 0);
    assert_eq!(items[0].index, Some(0));
}

#[test]
fn expanded_root_with_collapsed_subdirs_yields_one_row_per_child() {
    let mut root = fixture();
    root.toggle();
    let items = build_visible_list(&root);
    assert_eq!(items.len(), 1 + 3);
}

#[test]
fn concrete_scenario_rows_and_ordinals() {
    let mut root = fixture();
    root.toggle();
    let items = build_visible_list(&root);
    assert_eq!(items.len(), 4);
    assert_eq!(items[0].node.path(), &b"root".to_vec());
    assert_eq!(items[0].index, Some(0));
    assert_eq!(items[0].depth, 0);
    assert_eq!(items[1].node.path(), &b"a".to_vec());
    assert_eq!(items[1].index, Some(1));
    assert_eq!(items[1].depth, 1);
    assert_eq!(items[2].node.path(), &b"b".to_vec());
    assert_eq!(items[2].index, Some(2));
    assert_eq!(items[2].depth, 1);
    assert_eq!(items[3].node.path(), &b"c".to_vec());
    assert_eq!(items[3].index, None);
    assert_eq!(items[3].depth, 1);

    assert!(toggle_by_index(&mut root, 2));

    let items = build_visible_list(&root);
    assert_eq!(items.len(), 5);
    assert_eq!(items[0].node.path(), &b"root".to_vec());
    assert_eq!(items[1].node.path(), &b"a".to_vec());
    assert_eq!(items[2].node.path(), &b"b".to_vec());
    assert_eq!(items[3].node.path(), &b"f".to_vec());
    assert_eq!(items[3].index, None);
    assert_eq!(items[3].depth, 2);
    assert_eq!(items[4].node.path(), &b"c".to_vec());
    assert_eq!(items[4].index, None);
}

#[test]
fn rebuilding_without_toggle_is_identical() {
    let mut root = fixture();
    root.toggle();
    assert!(toggle_by_index(&mut root, 2));
    let first: Vec<(Option<usize>, Vec<u8>, usize)> = build_visible_list(&root)
        .iter()
        .map(|i| (i.index, i.node.path().clone(), i.depth))
        .collect();
    let second: Vec<(Option<usize>, Vec<u8>, usize)> = build_visible_list(&root)
        .iter()
        .map(|i| (i.index, i.node.path().clone(), i.depth))
        .collect();
    assert_eq!(first, second);
}

#[test]
fn toggling_twice_restores_the_tree() {
    let mut root = fixture();
    root.toggle();
    let before: Vec<(Option<usize>, Vec<u8>, usize)> = build_visible_list(&root)
        .iter()
        .map(|i| (i.index, i.node.path().clone(), i.depth))
        .collect();
    assert!(toggle_by_index(&mut root, 2));
    assert!(toggle_by_index(&mut root, 2));
    let after: Vec<(Option<usize>, Vec<u8>, usize)> = build_visible_list(&root)
        .iter()
        .map(|i| (i.index, i.node.path().clone(), i.depth))
        .collect();
    assert_eq!(before, after);
}

#[test]
fn out_of_range_ordinal_changes_nothing() {
    let mut root = fixture();
    root.toggle();
    let before: Vec<(Option<usize>, Vec<u8>, usize)> = build_visible_list(&root)
        .iter()
        .map(|i| (i.index, i.node.path().clone(), i.depth))
        .collect();
    assert!(!toggle_by_index(&mut root, 99));
    let after: Vec<(Option<usize>, Vec<u8>, usize)> = build_visible_list(&root)
        .iter()
        .map(|i| (i.index, i.node.path().clone(), i.depth))
        .collect();
    assert_eq!(before, after);
}

#[test]
fn collapsed_interior_ordinals_are_not_assigned() {
    // With b collapsed, only three directories are visible; ordinal 3
    // (which would name a directory inside b if it were expanded) finds
    // nothing.
    let mut root = dir("root", vec![dir("b", vec![dir("inner", vec![])]), dir("a", vec![])]);
    root.toggle();
    let items = build_visible_list(&root);
    assert_eq!(items.len(), 3);
    assert!(!toggle_by_index(&mut root, 3));
    assert!(toggle_by_index(&mut root, 2));
}

#[test]
fn nested_expansion_survives_ancestor_collapse() {
    let mut root = fixture();
    root.toggle();
    // Expand b (ordinal 2), collapse root (ordinal 0), re-expand root:
    // b must still be expanded.
    assert!(toggle_by_index(&mut root, 2));
    assert!(toggle_by_index(&mut root, 0));
    let items = build_visible_list(&root);
    assert_eq!(items.len(), 1);
    assert!(toggle_by_index(&mut root, 0));
    let items = build_visible_list(&root);
    assert_eq!(items.len(), 5);
}

#[test]
fn toggle_on_file_root_finds_nothing() {
    let mut f = file("c", 10);
    assert!(!toggle_by_index(&mut f, 0));
    let items = build_visible_list(&f);
    assert_eq!(items.len(), 1);
    assert_eq!(items[0].index, None);
}

#[test]
fn directory_size_overflow_is_refused() {
    let a = file("a", u64::MAX);
    let b = file("b", 1);
    assert!(Node::directory(b"root".to_vec(), vec![a, b]).is_none());
    let c = file("c", u64::MAX);
    let d = Node::directory(b"root".to_vec(), vec![c]).unwrap();
    assert_eq!(d.size(), u64::MAX);
}

#[test]
fn app_wraps_the_scanned_root() {
    let app = App::new(fixture());
    assert_eq!(app.node.size(), 2058);
}
