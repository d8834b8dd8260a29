use mdhtml::tree::{Tree, TreeIndex};

fn make_tree() -> Tree<&'static str> {
    let mut tree: Tree<&str> = Tree::new("a");
    tree.add_node(&"a", "b");
    tree.add_node(&"a", "c");
    tree.add_node(&"a", "d");
    tree.add_node(&"b", "e");
    tree.add_node(&"c", "f");
    tree.add_node(&"c", "g");
    tree
}

fn collect_bfs(tree: &Tree<&'static str>) -> Vec<&'static str> {
    let mut out = Vec::new();
    let mut it = tree.iter_bfs();
    while let Some(v) = it.next() {
        out.push(*v);
    }
    out
}

fn collect_dfs(tree: &Tree<&'static str>) -> Vec<&'static str> {
    let mut out = Vec::new();
    let mut it = tree.iter_dfs();
    while let Some(v) = it.next() {
        out.push(*v);
    }
    out
}

#[test]
fn initialization() {
    let tree: Tree<&str> = make_tree();
    let vals = ["a", "b", "c", "d", "e", "f", "g"];

    assert_eq!(tree.len(), 7);

    let tree_values_in_order: Vec<&str> =
        (0..7).map(|index| *tree.get(TreeIndex::Arena(index)).unwrap()).collect();
    assert_eq!(tree_values_in_order, vals);
}

#[test]
fn bfs_iteration() {
    let tree: Tree<&str> = make_tree();
    let vals = ["a", "b", "c", "d", "e", "f", "g"];
    let collected: Vec<&str> = collect_bfs(&tree);
    assert_eq!(collected, vals);
}

#[test]
fn dfs_iteration() {
    let tree: Tree<&str> = make_tree();
    let vals = ["a", "b", "e", "c", "f", "g", "d"];
    let collected: Vec<&str> = collect_dfs(&tree);
    assert_eq!(collected, vals);
}

#[test]
fn mutation() {
    let mut tree: Tree<&str> = make_tree();
    let vals_bfs = ["a", "b", "c", "d", "e", "f", "g", "h"];
    let vals_dfs = ["a", "b", "e", "c", "f", "g", "h", "d"];
    assert_eq!(tree.add_node(&"g", "h").unwrap().raw_idx, 7);
    let collected_bfs: Vec<&str> = collect_bfs(&tree);
    assert_eq!(collected_bfs, vals_bfs);

    let collected_dfs: Vec<&str> = collect_dfs(&tree);
    assert_eq!(collected_dfs, vals_dfs);
}

#[test]
fn add_by_index_out_of_range_leaves_tree_unchanged() {
    let mut tree: Tree<&str> = make_tree();
    assert!(tree.add_node_by_index(TreeIndex::Arena(7), "x").is_none());
    assert!(tree.add_node_by_index(TreeIndex::Bfs(7), "x").is_none());
    assert!(tree.add_node_by_index(TreeIndex::Dfs(0), "x").is_none());
    assert_eq!(tree.len(), 7);
    assert_eq!(collect_bfs(&tree), ["a", "b", "c", "d", "e", "f", "g"]);
    assert_eq!(collect_dfs(&tree), ["a", "b", "e", "c", "f", "g", "d"]);
}

#[test]
fn add_by_index_reports_position() {
    let mut tree: Tree<&str> = make_tree();
    let pos = tree.add_node_by_index(TreeIndex::Arena(2), "h").unwrap();
    assert_eq!(pos.raw_idx, 7);
    assert_eq!(pos.depth, 2);
    assert_eq!(pos.siblings, 3);
    assert_eq!(pos.parent_raw_idx, 2);
    let pos = tree.add_node_by_index(TreeIndex::Bfs(4), "i").unwrap();
    assert_eq!(pos.parent_raw_idx, 4);
    assert_eq!(pos.depth, 3);
    assert_eq!(collect_dfs(&tree), ["a", "b", "e", "i", "c", "f", "g", "h", "d"]);
}

#[test]
fn get_by_bfs_and_dfs_position() {
    let tree: Tree<&str> = make_tree();
    assert_eq!(tree.get(TreeIndex::Bfs(0)), Some(&"a"));
    assert_eq!(tree.get(TreeIndex::Bfs(4)), Some(&"e"));
    assert_eq!(tree.get(TreeIndex::Bfs(7)), None);
    assert_eq!(tree.get(TreeIndex::Dfs(1)), None);
    assert_eq!(tree.get(TreeIndex::Arena(9)), None);
    let node = tree.get_node(TreeIndex::Arena(2)).unwrap();
    assert_eq!(node.children, vec![5, 6]);
    assert_eq!(node.level, 1);
}

#[test]
fn get_mut_changes_one_payload() {
    let mut tree: Tree<&str> = make_tree();
    *tree.get_mut(TreeIndex::Bfs(3)).unwrap() = "z";
    assert!(tree.get_mut(TreeIndex::Dfs(3)).is_none());
    assert_eq!(collect_bfs(&tree), ["a", "b", "c", "z", "e", "f", "g"]);
    let node = tree.get_mut_node(TreeIndex::Arena(1)).unwrap();
    node.val = "y";
    assert_eq!(collect_dfs(&tree), ["a", "y", "e", "c", "f", "g", "z"]);
}

#[test]
fn node_iterators_give_levels() {
    let tree: Tree<&str> = make_tree();
    let mut levels = Vec::new();
    let mut it = tree.nodes_dfs();
    while let Some(n) = it.next() {
        levels.push((n.val, n.level));
    }
    assert_eq!(levels, vec![("a", 0), ("b", 1), ("e", 2), ("c", 1), ("f", 2), ("g", 2), ("d", 1)]);
    let mut order = Vec::new();
    let mut it = tree.nodes_bfs();
    while let Some(n) = it.next() {
        order.push(n.idx);
    }
    assert_eq!(order, vec![0, 1, 2, 3, 4, 5, 6]);
}

#[test]
fn add_node_without_match() {
    let mut tree: Tree<&str> = make_tree();
    assert!(tree.add_node(&"q", "x").is_none());
    assert_eq!(tree.len(), 7);
}

#[test]
fn traversals_restart_from_the_root() {
    let tree: Tree<&str> = make_tree();
    let mut first = tree.iter_dfs();
    assert_eq!(first.next(), Some(&"a"));
    assert_eq!(first.next(), Some(&"b"));
    assert_eq!(collect_dfs(&tree), ["a", "b", "e", "c", "f", "g", "d"]);
    assert_eq!(first.next(), Some(&"e"));
    let mut it = tree.iter_bfs();
    let mut n = 0;
    while it.next().is_some() {
        n += 1;
    }
    assert_eq!(n, 7);
    assert_eq!(it.next(), None);
}
