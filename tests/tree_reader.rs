use mdhtml::tree_reader::{TestNode, TestTree};

#[test]
fn test_tree() {
    let root: TestNode = TestNode {
        val: "a",
        children: vec![
            TestNode { val: "b", children: vec![TestNode { val: "e", children: vec![] }] },
            TestNode {
                val: "c",
                children: vec![TestNode { val: "f", children: vec![] }, TestNode { val: "g", children: vec![] }],
            },
            TestNode { val: "d", children: vec![] },
        ],
    };
    let tree: TestTree = TestTree::new(root);
    let mut bfs = Vec::new();
    let mut it = tree.bfs_iter();
    while let Some(n) = it.next() {
        bfs.push(n.val);
    }
    let mut dfs = Vec::new();
    let mut it = tree.dfs_iter();
    while let Some(n) = it.next() {
        dfs.push(n.val);
    }
    assert!(["a", "b", "c", "d", "e", "f", "g"].iter().eq(bfs.iter()));
    assert!(["a", "b", "e", "c", "f", "g", "d"].iter().eq(dfs.iter()));
}

fn sample() -> TestTree {
    TestTree::new(TestNode {
        val: "a",
        children: vec![
            TestNode { val: "b", children: vec![TestNode { val: "e", children: vec![] }] },
            TestNode { val: "c", children: vec![] },
        ],
    })
}

#[test]
fn get_mut_node_finds_a_child_of_the_root() {
    let mut tree = sample();
    let found = tree.get_mut_node("b").unwrap();
    found.children.pop();
    assert!(tree.get_mut_node("e").is_none());
    assert!(tree.get_mut_node("a").is_none());
    let mut vals = Vec::new();
    let mut it = tree.dfs_iter();
    while let Some(n) = it.next() {
        vals.push(n.val);
    }
    assert_eq!(vals, vec!["a", "b", "c"]);
}

#[test]
fn leaves_are_the_children() {
    let mut tree = sample();
    let names: Vec<&str> = tree.root().leaves().iter().map(|n| n.val).collect();
    assert_eq!(names, vec!["b", "c"]);
    tree.root_mut().leaves_mut()[1].val = "z";
    assert_eq!(tree.root.children[1].val, "z");
}
