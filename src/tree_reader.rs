use vstd::prelude::*;

verus! {

/// A node that owns its children directly.
pub struct TestNode {
    pub val: &'static str,
    pub children: Vec<TestNode>,
}

/// A tree of owned nodes.
pub struct TestTree {
    pub root: TestNode,
}

/// The values of a subtree in depth-first pre-order, left to right.
pub open spec fn preorder(n: TestNode) -> Seq<&'static str>
    decreases n, n.children@.len() + 1,
{
    seq![n.val] + preorder_from(n, 0)
}

/// The pre-order values of the subtrees of `n`'s children from the `i`-th on.
pub open spec fn preorder_from(n: TestNode, i: int) -> Seq<&'static str>
    decreases n, n.children@.len() - i,
{
    if i < 0 || i >= n.children@.len() {
        Seq::empty()
    } else {
        preorder(n.children@[i]) + preorder_from(n, i + 1)
    }
}

/// The values met by a breadth-first walk from `queue`, at most `fuel` of them.
pub open spec fn level_order(queue: Seq<TestNode>, fuel: nat) -> Seq<&'static str>
    decreases fuel,
{
    if fuel == 0 || queue.len() == 0 {
        Seq::empty()
    } else {
        seq![queue[0].val] + level_order(queue.drop_first() + queue[0].children@, (fuel - 1) as nat)
    }
}

pub open spec fn derefs(s: Seq<&TestNode>) -> Seq<TestNode> {
    s.map_values(|r: &TestNode| *r)
}

pub open spec fn values(s: Seq<&TestNode>) -> Seq<&'static str> {
    s.map_values(|r: &TestNode| r.val)
}

/// Hands out, in order, the nodes of a finished traversal.
pub struct TreeIter<'a> {
    visited: Vec<&'a TestNode>,
    pos: usize,
}

impl<'a> TreeIter<'a> {
    /// The values of the nodes not yet handed out.
    pub closed spec fn remaining(&self) -> Seq<&'static str> {
        if self.pos <= self.visited@.len() {
            values(self.visited@.subrange(self.pos as int, self.visited@.len() as int))
        } else {
            Seq::empty()
        }
    }

    pub fn new(visited: Vec<&'a TestNode>) -> (r: Self)
        ensures
            r.remaining() == values(visited@),
    {
        let r = TreeIter { visited, pos: 0 };
        assert(r.visited@.subrange(0, r.visited@.len() as int) =~= r.visited@);
        r
    }

    pub fn next(&mut self) -> (r: Option<&'a TestNode>)
        ensures
            old(self).remaining().len() == 0 ==> r is None && final(self).remaining().len() == 0,
            old(self).remaining().len() > 0 ==> (r matches Some(n) && n.val == old(
                self,
            ).remaining()[0] && final(self).remaining() == old(self).remaining().drop_first()),
    {
        if self.pos >= self.visited.len() {
            return None;
        }
        let n = self.visited[self.pos];
        let ghost before = self.remaining();
        self.pos = self.pos + 1;
        assert(self.remaining() =~= before.drop_first());
        Some(n)
    }
}

/// Appends the subtree of `n` in pre-order.
fn push_preorder<'a>(n: &'a TestNode, out: &mut Vec<&'a TestNode>)
    ensures
        values(final(out)@) == values(old(out)@) + preorder(*n),
    decreases n,
{
    let ghost start = values(out@);
    out.push(n);
    assert(values(out@) =~= start + seq![n.val]);
    let mut i: usize = 0;
    while i < n.children.len()
        invariant
            i <= n.children@.len(),
            values(out@) + preorder_from(*n, i as int) == start + preorder(*n),
        decreases n.children@.len() - i,
    {
        let ghost mid = values(out@);
        let c = &n.children[i];
        assert(decreases_to!(n => *c));
        push_preorder(c, out);
        assert(preorder_from(*n, i as int) == preorder(*c) + preorder_from(*n, i + 1));
        assert(values(out@) + preorder_from(*n, i + 1) =~= mid + preorder_from(*n, i as int));
        i = i + 1;
    }
    assert(preorder_from(*n, i as int) =~= Seq::empty());
    assert(values(out@) =~= start + preorder(*n));
}

impl TestTree {
    pub fn new(root: TestNode) -> (r: Self)
        ensures
            r.root == root,
    {
        TestTree { root }
    }

    pub fn root(&self) -> (r: &TestNode)
        ensures
            *r == self.root,
    {
        &self.root
    }

    pub fn root_mut(&mut self) -> (r: &mut TestNode)
        ensures
            *r == old(self).root,
            final(self).root == *final(r),
    {
        &mut self.root
    }

    /// All nodes in depth-first pre-order, left to right.
    pub fn dfs_iter(&self) -> (r: TreeIter<'_>)
        ensures
            r.remaining() == preorder(self.root),
    {
        let mut out: Vec<&TestNode> = Vec::new();
        push_preorder(&self.root, &mut out);
        assert(values(out@) =~= preorder(self.root));
        TreeIter::new(out)
    }

    /// All nodes in breadth-first order.
    pub fn bfs_iter(&self) -> (r: TreeIter<'_>)
        ensures
            r.remaining() == level_order(seq![self.root], preorder(self.root).len()),
    {
        let mut all: Vec<&TestNode> = Vec::new();
        push_preorder(&self.root, &mut all);
        let ghost fuel0 = all@.len();
        assert(values(all@).len() == preorder(self.root).len());
        let mut fuel = all.len();
        let mut queue: std::collections::VecDeque<&TestNode> = std::collections::VecDeque::new();
        queue.push_back(&self.root);
        let mut out: Vec<&TestNode> = Vec::new();
        let ghost target = level_order(seq![self.root], fuel0 as nat);
        assert(derefs(queue@) =~= seq![self.root]);
        loop
            invariant
                values(out@) + level_order(derefs(queue@), fuel as nat)
                    == target,
            ensures
                values(out@) == target,
            decreases fuel,
        {
            let ghost q = derefs(queue@);
            if fuel == 0 {
                assert(values(out@) =~= target);
                break;
            }
            match queue.pop_front() {
                None => {
                    assert(q =~= Seq::<TestNode>::empty());
                    assert(values(out@) =~= target);
                    break;
                },
                Some(n) => {
                    let ghost before = values(out@);
                    out.push(n);
                    assert(values(out@) =~= before.push(n.val));
                    let mut j: usize = 0;
                    let ghost rest = derefs(queue@);
                    assert(rest =~= q.drop_first());
                    while j < n.children.len()
                        invariant
                            j <= n.children@.len(),
                            queue@.len() == rest.len() + j,
                            derefs(queue@) == rest + n.children@.subrange(
                                0,
                                j as int,
                            ),
                        decreases n.children@.len() - j,
                    {
                        let ghost qb = queue@;
                        let c = &n.children[j];
                        queue.push_back(c);
                        assert(queue@ == qb.push(c));
                        assert(*c == n.children@[j as int]);
                        assert forall|m: int| 0 <= m < queue@.len() implies #[trigger] derefs(queue@)[m] == (rest + n.children@.subrange(0, j + 1))[m] by {
                            if m < qb.len() {
                                assert(derefs(qb)[m] == (rest
                                    + n.children@.subrange(0, j as int))[m]);
                            }
                        }
                        j = j + 1;
                        assert(derefs(queue@) =~= rest
                            + n.children@.subrange(0, j as int));
                    }
                    assert(n.children@.subrange(0, j as int) =~= n.children@);
                    fuel = fuel - 1;
                    assert(values(out@) + level_order(
                        derefs(queue@),
                        fuel as nat,
                    ) =~= target);
                },
            }
        }
        TreeIter::new(out)
    }
}

/// Whether two strings hold the same characters.
fn same_text(a: &str, b: &str) -> (r: bool)
    ensures
        r == (a@ == b@),
{
    let n = a.unicode_len();
    if n != b.unicode_len() {
        return false;
    }
    let mut i: usize = 0;
    while i < n
        invariant
            n == a@.len() == b@.len(),
            i <= n,
            forall|k: int| 0 <= k < i ==> a@[k] == b@[k],
        decreases n - i,
    {
        if a.get_char(i) != b.get_char(i) {
            return false;
        }
        i = i + 1;
    }
    assert(a@ =~= b@);
    true
}

impl TestNode {
    /// The node's children, left to right.
    pub fn leaves(&self) -> (r: &[TestNode])
        ensures
            r@ == self.children@,
    {
        self.children.as_slice()
    }

    /// The node's children, left to right, for writing.
    pub fn leaves_mut(&mut self) -> (r: &mut [TestNode])
        ensures
            r@ == old(self).children@,
            final(r)@ == final(self).children@,
            final(self).val == old(self).val,
    {
        self.children.as_mut_slice()
    }
}

impl TestTree {
    /// The first child of the root whose value is `value`, for writing.
    pub fn get_mut_node(&mut self, value: &str) -> (r: Option<&mut TestNode>)
        ensures
            match r {
                Some(n) => exists|i: int|
                    0 <= i < old(self).root.children@.len() && old(self).root.children@[i].val@
                        == value@ && *n == old(self).root.children@[i] && (forall|k: int|
                        0 <= k < i ==> old(self).root.children@[k].val@ != value@)
                        && final(self).root.val == old(self).root.val
                        && final(self).root.children@ == old(self).root.children@.update(i, *final(n)),
                None => (forall|k: int|
                    0 <= k < old(self).root.children@.len() ==> old(self).root.children@[k].val@
                        != value@) && *final(self) == *old(self),
            },
    {
        let mut i: usize = 0;
        while i < self.root.children.len()
            invariant
                i <= self.root.children@.len(),
                *self == *old(self),
                forall|k: int| 0 <= k < i ==> self.root.children@[k].val@ != value@,
            decreases self.root.children@.len() - i,
        {
            if same_text(self.root.children[i].val, value) {
                return Some(&mut self.root.children[i]);
            }
            i = i + 1;
        }
        None
    }
}

} // verus!
