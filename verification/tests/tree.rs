use orrient::pathing::pack::MarkerPath;
use orrient::pathing::tree::TreeBuilder;

#[derive(Clone, Copy, Debug, PartialEq, Eq)]
struct Node(usize);

#[test]
fn find() {
    let mut builder = TreeBuilder::new();
    let n_0 = &builder.insert(Node(0));
    let n_1 = &builder.insert(Node(1));
    let n_2 = &builder.insert(Node(2));
    builder.up();
    let n_3 = &builder.insert(Node(3));
    let n_4 = &builder.insert(Node(4));

    let n_10 = &builder.insert_root(Node(10));
    let n_11 = &builder.insert(Node(11));
    let _n_12 = &builder.insert(Node(12));
    builder.up();
    let n_13 = &builder.insert(Node(13));
    let n_14 = &builder.insert(Node(14));

    let tree = builder.build();

    assert!(tree.find(&[*n_0, *n_2]).is_none());
    assert!(tree.find(&[*n_0, *n_3]).is_none());
    assert!(tree.find(&[*n_0, *n_4]).is_none());

    assert_eq!(tree.find(&[*n_0, *n_1]).unwrap().1 .0, 1);
    assert_eq!(tree.find(&[*n_0, *n_1, *n_2]).unwrap().1 .0, 2);
    assert_eq!(tree.find(&[*n_0, *n_1, *n_3]).unwrap().1 .0, 3);
    assert_eq!(tree.find(&[*n_0, *n_1, *n_3, *n_4]).unwrap().1 .0, 4);

    assert!(tree.find(&[*n_10, *n_2]).is_none());
    assert_eq!(tree.find(&[*n_10, *n_11, *n_13, *n_14]).unwrap().1 .0, 14);
}

#[test]
fn roots() {
    let mut builder = TreeBuilder::new();
    let n_0 = &builder.insert(Node(0));
    let _n_1 = &builder.insert(Node(1));
    assert_eq!(builder.trees.roots, vec![*n_0]);

    builder.up();
    builder.up();
    let n_2 = &builder.insert(Node(2));
    assert_eq!(builder.trees.roots, vec![*n_0, *n_2]);

    let n_3 = &builder.insert_root(Node(3));
    let tree = builder.build();
    assert_eq!(tree.roots, vec![*n_0, *n_2, *n_3]);
}

#[test]
fn test_recurse() {
    let mut builder = TreeBuilder::new();
    let _n_0 = builder.insert(Node(0));
    let n_1 = builder.insert(Node(1));
    let n_2 = builder.insert(Node(2));
    builder.up();
    let n_3 = builder.insert(Node(3));
    let n_4 = builder.insert(Node(4));
    let tree = builder.build();

    let mut iter = tree.recurse(n_1).into_iter();
    assert_eq!(iter.next(), Some((n_1, &Node(1))));
    assert_eq!(iter.next(), Some((n_3, &Node(3))));
    assert_eq!(iter.next(), Some((n_2, &Node(2))));
    assert_eq!(iter.next(), Some((n_4, &Node(4))));
}

#[test]
fn find_edge_cases() {
    let mut builder = TreeBuilder::new();
    let a = builder.insert(Node(7));
    let tree = builder.build();
    assert!(tree.find(&[]).is_none());
    assert_eq!(tree.find(&[a]), Some((a, &Node(7))));
    assert!(tree.find(&[a + 1]).is_none());
    assert_eq!(tree.get(a), Some(&Node(7)));
    assert_eq!(tree.get(5), None);
}

#[test]
fn path_to_climbs_to_the_root() {
    let mut builder = TreeBuilder::new();
    let a = builder.insert(Node(0));
    let b = builder.insert(Node(1));
    let c = builder.insert(Node(2));
    assert_eq!(builder.path(), MarkerPath(vec![a, b, c]));
    let tree = builder.build();
    assert_eq!(tree.path_to(c), vec![c, b, a]);
    assert_eq!(tree.path_to(a), vec![a]);
    assert_eq!(tree.path_to(99), vec![99]);
}

#[test]
fn children_most_recent_first() {
    let mut builder = TreeBuilder::new();
    let a = builder.insert(Node(0));
    let b = builder.insert(Node(1));
    builder.up();
    let c = builder.insert(Node(2));
    let tree = builder.build();
    assert_eq!(tree.children(a), vec![(c, &Node(2)), (b, &Node(1))]);
    assert!(tree.children(c).is_empty());
    assert!(tree.children(42).is_empty());
}

#[test]
fn merge_moves_children_and_renumbers() {
    let mut builder = TreeBuilder::new();
    let a = builder.insert(Node(0));
    builder.new_root();
    let b = builder.insert(Node(1));
    let c = builder.insert(Node(2));
    let mut tree = builder.build();
    assert_eq!(tree.roots, vec![a, b]);
    tree.merge(a, b);
    assert_eq!(tree.roots, vec![a]);
    // The last node (c) took b's index.
    assert_eq!(tree.get(b), Some(&Node(2)));
    assert_eq!(tree.get(c), None);
    assert_eq!(tree.children(a), vec![(b, &Node(2))]);
    assert_eq!(tree.path_to(b), vec![b, a]);
}

#[test]
fn the_builder_path_leads_to_the_current_parent() {
    let mut builder = TreeBuilder::new();
    let n_0 = builder.insert(Node(0));
    let n_1 = builder.insert(Node(1));
    builder.insert(Node(2));
    builder.up();
    let n_3 = builder.insert(Node(3));
    let path = builder.path();
    assert_eq!(path.0, vec![n_0, n_1, n_3]);
    let tree = builder.build();
    assert_eq!(tree.find(&path.0), Some((n_3, &Node(3))));
}

#[test]
fn the_path_to_a_node_read_from_the_top_finds_it() {
    let mut builder = TreeBuilder::new();
    builder.insert(Node(0));
    builder.insert(Node(1));
    builder.up();
    let c = builder.insert(Node(2));
    let d = builder.insert(Node(3));
    let tree = builder.build();
    for n in [c, d] {
        let mut path = tree.path_to(n);
        path.reverse();
        assert_eq!(tree.find(&path).map(|(i, _)| i), Some(n));
    }
}

#[test]
fn find_mut_changes_the_item_found() {
    let mut builder = TreeBuilder::new();
    let a = builder.insert(Node(0));
    let b = builder.insert(Node(1));
    let mut tree = builder.build();
    {
        let (n, item) = tree.find_mut(&[a, b]).unwrap();
        assert_eq!(n, b);
        item.0 = 42;
    }
    assert_eq!(tree.find(&[a, b]), Some((b, &Node(42))));
    assert_eq!(tree.get(a), Some(&Node(0)));
    assert!(tree.find_mut(&[b, a]).is_none());
}

#[test]
fn new_root_leaves_only_the_most_recent_parent() {
    let mut builder = TreeBuilder::new();
    let a = builder.insert(Node(0));
    let b = builder.insert(Node(1));
    builder.new_root();
    assert_eq!(builder.path(), MarkerPath(vec![a]));
    let c = builder.insert(Node(2));
    assert_eq!(builder.path(), MarkerPath(vec![a, c]));
    builder.new_root();
    builder.new_root();
    builder.new_root();
    assert_eq!(builder.path(), MarkerPath(vec![]));
    let tree = builder.build();
    assert_eq!(tree.roots, vec![a]);
    assert_eq!(tree.path_to(c), vec![c, a]);
    assert_eq!(tree.path_to(b), vec![b, a]);
}
