use mdhtml::tree_test::{do_tree2, TestNode, TestTree};

#[test]
fn test_main() {
    let tree: TestNode = TestNode {
        val: String::from("a"),
        children: vec![
            TestNode { val: String::from("b"), children: vec![TestNode { val: String::from("e"), children: vec![] }] },
            TestNode {
                val: String::from("c"),
                children: vec![
                    TestNode { val: String::from("f"), children: vec![] },
                    TestNode { val: String::from("g"), children: vec![] },
                ],
            },
            TestNode { val: String::from("d"), children: vec![] },
        ],
    };
    let _ = tree;
    let built = mdhtml::tree_test::test_tree();
    assert_eq!(built.root.val, "a");
}

#[test]
fn first_two_children() {
    let built = mdhtml::tree_test::test_tree();
    let (x, y) = do_tree2(&built);
    assert_eq!(x.unwrap().val, "b");
    assert_eq!(y.unwrap().val, "c");
    let leaf = TestTree::new(TestNode { val: String::from("z"), children: vec![] });
    let (x, y) = do_tree2(&leaf);
    assert!(x.is_none() && y.is_none());
}
