use vstd::prelude::*;

verus! {

/// A node that owns its children directly.
pub struct TestNode {
    pub val: String,
    pub children: Vec<TestNode>,
}

/// A tree of owned nodes.
pub struct TestTree {
    pub root: TestNode,
}

/// Hands out, in order, the nodes queued when it was made.
pub struct TreeIter<'a> {
    queue: Vec<&'a TestNode>,
    pos: usize,
}

impl<'a> TreeIter<'a> {
    /// The nodes not yet handed out.
    pub closed spec fn remaining(&self) -> Seq<TestNode> {
        if self.pos <= self.queue@.len() {
            self.queue@.subrange(self.pos as int, self.queue@.len() as int).map_values(
                |r: &TestNode| *r,
            )
        } else {
            Seq::empty()
        }
    }

    pub fn new(queue: Vec<&'a TestNode>) -> (r: Self)
        ensures
            r.remaining() == queue@.map_values(|n: &TestNode| *n),
    {
        let r = TreeIter { queue, pos: 0 };
        assert(r.queue@.subrange(0, r.queue@.len() as int) =~= r.queue@);
        assert(r.remaining() =~= queue@.map_values(|n: &TestNode| *n));
        r
    }

    pub fn next(&mut self) -> (r: Option<&'a TestNode>)
        ensures
            old(self).remaining().len() == 0 ==> r is None && final(self).remaining().len() == 0,
            old(self).remaining().len() > 0 ==> (r matches Some(n) && *n == old(
                self,
            ).remaining()[0] && final(self).remaining() == old(self).remaining().drop_first()),
    {
        if self.pos >= self.queue.len() {
            return None;
        }
        let n = self.queue[self.pos];
        let ghost before = self.remaining();
        self.pos = self.pos + 1;
        assert(self.remaining() =~= before.drop_first());
        Some(n)
    }
}

impl TestTree {
    pub fn new(root: TestNode) -> (r: Self)
        ensures
            r.root == root,
    {
        TestTree { root }
    }

    pub fn root(&self) -> (r: &TestNode)
        ensures
            *r == self.root,
    {
        &self.root
    }

    /// Iterates over the root's children, left to right.
    pub fn bfs_iter(&self) -> (r: TreeIter<'_>)
        ensures
            r.remaining() == self.root.children@,
    {
        let mut queue: Vec<&TestNode> = Vec::new();
        let leaves = &self.root.children;
        let mut i: usize = 0;
        while i < leaves.len()
            invariant
                i <= leaves@.len(),
                leaves == &self.root.children,
                queue@.len() == i,
                queue@.map_values(|n: &TestNode| *n) == leaves@.subrange(0, i as int),
            decreases leaves.len() - i,
        {
            let ghost before = queue@;
            let leaf = &leaves[i];
            queue.push(leaf);
            assert(queue@ == before.push(leaf));
            assert(*leaf == leaves@[i as int]);
            assert forall|j: int| 0 <= j <= i implies queue@.map_values(|n: &TestNode| *n)[j]
                == leaves@[j] by {
                if j < i {
                    assert(before.map_values(|n: &TestNode| *n)[j] == leaves@.subrange(0, i as int)[j]);
                    assert(queue@[j] == before[j]);
                }
            }
            i = i + 1;
            assert(queue@.map_values(|n: &TestNode| *n) =~= leaves@.subrange(0, i as int));
        }
        assert(leaves@.subrange(0, i as int) =~= leaves@);
        TreeIter::new(queue)
    }
}

/// Takes the first two nodes that a tree's iterator hands out.
pub fn do_tree2(tree: &TestTree) -> (r: (Option<&TestNode>, Option<&TestNode>))
    ensures
        tree.root.children@.len() > 0 ==> (r.0 matches Some(x) && *x == tree.root.children@[0]),
        tree.root.children@.len() > 1 ==> (r.1 matches Some(y) && *y == tree.root.children@[1]),
        tree.root.children@.len() == 0 ==> r.0 is None,
        tree.root.children@.len() <= 1 ==> r.1 is None,
{
    let mut i = tree.bfs_iter();
    let x = i.next();
    let y = i.next();
    (x, y)
}

/// Builds the tree a → {b → {e}, c → {f, g}, d} and walks its first two nodes.
pub fn test_tree() -> (r: TestTree)
    ensures
        r.root.val@ == "a"@,
        r.root.children@.len() == 3,
{
    let e = TestNode { val: "e".to_owned(), children: Vec::new() };
    let f = TestNode { val: "f".to_owned(), children: Vec::new() };
    let g = TestNode { val: "g".to_owned(), children: Vec::new() };
    let b = TestNode { val: "b".to_owned(), children: vec![e] };
    let c = TestNode { val: "c".to_owned(), children: vec![f, g] };
    let d = TestNode { val: "d".to_owned(), children: Vec::new() };
    let root = TestNode { val: "a".to_owned(), children: vec![b, c, d] };
    let tree = TestTree::new(root);
    let _ = do_tree2(&tree);
    tree
}

impl TestNode {
    /// The node's children, left to right.
    pub fn leaves(&self) -> (r: &[TestNode])
        ensures
            r@ == self.children@,
    {
        self.children.as_slice()
    }
}

} // verus!
