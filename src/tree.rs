use std::collections::VecDeque;
use vstd::prelude::*;
use vstd::set_lib::{lemma_int_range, lemma_len_subset, set_int_range};
use vstd::std_specs::cmp::PartialEqSpec;

verus! {

/// One entry of the arena: a payload, the arena indices of its children in
/// insertion order, its depth below the root, and its own arena index.
#[derive(Debug)]
pub struct Node<T> {
    pub val: T,
    pub children: Vec<usize>,
    pub level: usize,
    pub idx: usize,
}

/// Where a newly added node landed in the tree.
#[derive(Debug)]
pub struct NodePosition {
    pub depth: usize,
    pub siblings: usize,
    pub raw_idx: usize,
    pub parent_raw_idx: usize,
}

/// An ordered tree stored in one growable table; index 0 is the root.
pub struct Tree<T> {
    nodes: Vec<Node<T>>,
    parents: Ghost<Seq<int>>,
}

/// The three ways of naming a node: its arena index, its position in
/// breadth-first order, or its position in depth-first order (unsupported).
#[derive(Clone, Copy, Debug)]
pub enum TreeIndex {
    Arena(usize),
    Dfs(usize),
    Bfs(usize),
}

/// The work queue after visiting the node at the front of `queue`: breadth-first
/// appends the node's children at the back, depth-first puts them at the front
/// so that they come out left to right.
pub open spec fn advance(lists: Seq<Seq<usize>>, queue: Seq<usize>, dfs: bool) -> Seq<usize>
    recommends
        queue.len() > 0,
{
    let i = queue[0] as int;
    let kids = if 0 <= i < lists.len() {
        lists[i]
    } else {
        Seq::empty()
    };
    if dfs {
        kids + queue.drop_first()
    } else {
        queue.drop_first() + kids
    }
}

/// The arena indices that a traversal starting from `queue` visits, in order,
/// taking at most `fuel` steps and stopping at an index outside the arena.
/// `lists[i]` holds the children of node `i`.
pub open spec fn walk(lists: Seq<Seq<usize>>, queue: Seq<usize>, dfs: bool, fuel: nat) -> Seq<
    usize,
>
    decreases fuel,
{
    if fuel == 0 || queue.len() == 0 || queue[0] >= lists.len() {
        Seq::empty()
    } else {
        seq![queue[0]] + walk(lists, advance(lists, queue, dfs), dfs, (fuel - 1) as nat)
    }
}

/// The child list of each node, in arena order.
pub open spec fn child_lists<T>(nodes: Seq<Node<T>>) -> Seq<Seq<usize>> {
    nodes.map_values(|n: Node<T>| n.children@)
}

/// Every index that a walk visits lies inside the arena, and a walk takes
/// at most `fuel` steps.
pub proof fn lemma_walk_bounds(nodes: Seq<Seq<usize>>, queue: Seq<usize>, dfs: bool, fuel: nat)
    ensures
        walk(nodes, queue, dfs, fuel).len() <= fuel,
        forall|k: int|
            0 <= k < walk(nodes, queue, dfs, fuel).len() ==> #[trigger] walk(
                nodes,
                queue,
                dfs,
                fuel,
            )[k] < nodes.len(),
    decreases fuel,
{
    if !(fuel == 0 || queue.len() == 0 || queue[0] >= nodes.len()) {
        lemma_walk_bounds(nodes, advance(nodes, queue, dfs), dfs, (fuel - 1) as nat);
    }
}

/// Some entry of `s` is `j`.
#[verifier::opaque]
pub open spec fn includes(s: Seq<usize>, j: int) -> bool {
    exists|m: int| 0 <= m < s.len() && s[m] as int == j
}

proof fn lemma_includes_at(s: Seq<usize>, m: int)
    requires
        0 <= m < s.len(),
    ensures
        includes(s, s[m] as int),
{
    reveal(includes);
}

proof fn lemma_includes_witness(s: Seq<usize>, j: int) -> (m: int)
    requires
        includes(s, j),
    ensures
        0 <= m < s.len(),
        s[m] as int == j,
{
    reveal(includes);
    choose|m: int| 0 <= m < s.len() && s[m] as int == j
}

proof fn lemma_includes_empty(j: int)
    ensures
        !includes(Seq::<usize>::empty(), j),
{
    reveal(includes);
}

/// `lists` (the child lists of `lists.len()` nodes) and `parents` describe one
/// tree rooted at 0: every other node has a parent earlier in the arena whose
/// list holds it, every listed child names its list's owner as parent and lies
/// later in the arena, and each list is increasing.
pub open spec fn tree_shape(lists: Seq<Seq<usize>>, parents: Seq<int>) -> bool {
    let n = lists.len();
    &&& parents.len() == n
    &&& forall|j: int|
        1 <= j < n ==> {
            let p = #[trigger] parents[j];
            0 <= p < j && includes(lists[p], j)
        }
    &&& forall|i: int, m: int|
        0 <= i < n && 0 <= m < lists[i].len() ==> {
            let c = #[trigger] lists[i][m] as int;
            i < c < n && parents[c] == i
        }
    &&& forall|i: int, a: int, b: int|
        0 <= i < n && 0 <= a < b < lists[i].len() ==> #[trigger] lists[i][a] < #[trigger] lists[i][b]
}

/// Node `j` has been seen or is waiting exactly when it is the root or its
/// parent has been seen.
pub open spec fn reached(seen: Set<int>, queue: Seq<usize>, parents: Seq<int>, j: int) -> bool {
    (seen.contains(j) || includes(queue, j)) <==> (j == 0 || seen.contains(parents[j]))
}

/// Midway through a walk: `seen` holds the nodes visited, `queue` the nodes
/// waiting, and a node has been seen or is waiting exactly when it is the root
/// or its parent has been seen.
pub open spec fn walk_state(lists: Seq<Seq<usize>>, parents: Seq<int>, seen: Set<int>, queue: Seq<usize>) -> bool {
    let n = lists.len();
    &&& seen.finite()
    &&& forall|x: int| #[trigger] seen.contains(x) ==> 0 <= x < n
    &&& queue.no_duplicates()
    &&& forall|m: int|
        0 <= m < queue.len() ==> (#[trigger] queue[m] as int) < n && !seen.contains(queue[m] as int)
    &&& forall|j: int|
        0 <= j < n ==> #[trigger] reached(seen, queue, parents, j)
}

proof fn lemma_all_seen(lists: Seq<Seq<usize>>, parents: Seq<int>, seen: Set<int>, j: int)
    requires
        tree_shape(lists, parents),
        walk_state(lists, parents, seen, Seq::empty()),
        0 <= j < lists.len(),
    ensures
        seen.contains(j),
    decreases j,
{
    lemma_includes_empty(j);
    assert(reached(seen, Seq::<usize>::empty(), parents, j));
    if j > 0 {
        lemma_all_seen(lists, parents, seen, parents[j]);
    }
}

proof fn lemma_state_at(lists: Seq<Seq<usize>>, parents: Seq<int>, seen: Set<int>, queue: Seq<usize>, j: int)
    requires
        walk_state(lists, parents, seen, queue),
        0 <= j < lists.len(),
    ensures
        reached(seen, queue, parents, j),
{
}

proof fn lemma_state_intro(lists: Seq<Seq<usize>>, parents: Seq<int>, seen: Set<int>, queue: Seq<usize>)
    requires
        seen.finite(),
        forall|x: int| #[trigger] seen.contains(x) ==> 0 <= x < lists.len(),
        queue.no_duplicates(),
        forall|m: int|
            0 <= m < queue.len() ==> (#[trigger] queue[m] as int) < lists.len() && !seen.contains(
                queue[m] as int,
            ),
        forall|j: int|
            0 <= j < lists.len() ==> #[trigger] reached(seen, queue, parents, j),
    ensures
        walk_state(lists, parents, seen, queue),
{
    let n = lists.len();
    assert(forall|x: int| #[trigger] seen.contains(x) ==> 0 <= x < n);
    assert(forall|m: int|
        0 <= m < queue.len() ==> (#[trigger] queue[m] as int) < n && !seen.contains(queue[m] as int));
    assert(forall|j: int|
        0 <= j < n ==> #[trigger] reached(seen, queue, parents, j));
}

/// Visiting the first waiting node keeps the walk state: it moves to the seen
/// nodes and its children start waiting.
#[verifier::rlimit(80)]
proof fn lemma_state_step(lists: Seq<Seq<usize>>, parents: Seq<int>, seen: Set<int>, queue: Seq<usize>, dfs: bool)
    requires
        tree_shape(lists, parents),
        walk_state(lists, parents, seen, queue),
        queue.len() > 0,
    ensures
        walk_state(lists, parents, seen.insert(queue[0] as int), advance(lists, queue, dfs)),
{
    let n = lists.len();
    let q = queue[0];
    assert((q as int) < n && !seen.contains(q as int));
    assert forall|j: int| 0 <= j < n implies #[trigger] reached(seen, queue, parents, j) by {
        lemma_state_at(lists, parents, seen, queue, j);
    }
    let kids = lists[q as int];
    let rest = queue.drop_first();
    let next = advance(lists, queue, dfs);
    let seen2 = seen.insert(q as int);
    assert forall|m: int| 0 <= m < kids.len() implies parents[#[trigger] kids[m] as int] == q as int
        && (q as int) < (kids[m] as int) < n by {}
    assert forall|m: int| 0 <= m < kids.len() implies !seen.contains(#[trigger] kids[m] as int)
        && !includes(queue, kids[m] as int) by {
        let c = kids[m] as int;
        lemma_state_at(lists, parents, seen, queue, c);
        assert(c != 0 && !seen.contains(parents[c]));
    }
    assert(kids.no_duplicates()) by {
        assert forall|a: int, b: int| 0 <= a < kids.len() && 0 <= b < kids.len() && a != b implies kids[a]
            != kids[b] by {
            if a < b {
                assert(kids[a] < kids[b]);
            } else {
                assert(kids[b] < kids[a]);
            }
        }
    }
    assert(next =~= if dfs { kids + rest } else { rest + kids });
    assert forall|m: int| 0 <= m < next.len() implies (#[trigger] next[m] as int) < n && !seen2.contains(
        next[m] as int,
    ) by {
        if dfs {
            if m < kids.len() {
                assert(next[m] == kids[m]);
            } else {
                assert(next[m] == queue[m - kids.len() + 1]);
            }
        } else {
            if m < rest.len() {
                assert(next[m] == queue[m + 1]);
            } else {
                assert(next[m] == kids[m - rest.len()]);
            }
        }
    }
    assert(next.no_duplicates()) by {
        assert forall|a: int, b: int| 0 <= a < next.len() && 0 <= b < next.len() && a != b implies next[a]
            != next[b] by {
            let ka = if dfs { a < kids.len() } else { a >= rest.len() };
            let kb = if dfs { b < kids.len() } else { b >= rest.len() };
            let ia = if dfs { if ka { a } else { a - kids.len() + 1 } } else { if ka { a - rest.len() } else { a + 1 } };
            let ib = if dfs { if kb { b } else { b - kids.len() + 1 } } else { if kb { b - rest.len() } else { b + 1 } };
            let xa = if ka { kids[ia] } else { queue[ia] };
            let xb = if kb { kids[ib] } else { queue[ib] };
            assert(next[a] == xa);
            assert(next[b] == xb);
            if ka && !kb {
                lemma_includes_at(queue, ib);
                assert(!includes(queue, kids[ia] as int));
            } else if kb && !ka {
                lemma_includes_at(queue, ia);
                assert(!includes(queue, kids[ib] as int));
            } else if !ka && !kb {
                assert(queue[ia] != queue[ib]);
            } else {
                assert(kids[ia] != kids[ib]);
            }
        }
    }
    lemma_includes_at(queue, 0);
    assert forall|j: int| 0 <= j < n implies #[trigger] reached(seen2, next, parents, j) by {
        lemma_state_at(lists, parents, seen, queue, j);
        // A child of `q` is waiting now.
        if includes(kids, j) {
            let m = lemma_includes_witness(kids, j);
            if dfs {
                assert(next[m] as int == j);
                lemma_includes_at(next, m);
            } else {
                assert(next[m + rest.len()] as int == j);
                lemma_includes_at(next, m + rest.len());
            }
        }
        // Whatever waited besides `q` still waits.
        if includes(queue, j) && j != q as int {
            let m = lemma_includes_witness(queue, j);
            assert(m != 0);
            if dfs {
                assert(next[m - 1 + kids.len()] as int == j);
                lemma_includes_at(next, m - 1 + kids.len());
            } else {
                assert(next[m - 1] as int == j);
                lemma_includes_at(next, m - 1);
            }
        }
        // Whatever waits now was a child of `q` or waited before.
        if includes(next, j) {
            let m = lemma_includes_witness(next, j);
            if dfs {
                if m < kids.len() {
                    assert(kids[m] as int == j);
                    lemma_includes_at(kids, m);
                } else {
                    assert(queue[m - kids.len() + 1] as int == j);
                    lemma_includes_at(queue, m - kids.len() + 1);
                }
            } else {
                if m < rest.len() {
                    assert(queue[m + 1] as int == j);
                    lemma_includes_at(queue, m + 1);
                } else {
                    assert(kids[m - rest.len()] as int == j);
                    lemma_includes_at(kids, m - rest.len());
                }
            }
        }
        if includes(kids, j) {
            let m = lemma_includes_witness(kids, j);
            assert(parents[kids[m] as int] == q as int);
        }
        if j >= 1 && parents[j] == q as int {
            assert(includes(lists[parents[j]], j));
            assert(includes(kids, j));
        }
    }
    lemma_state_intro(lists, parents, seen2, next);
}

proof fn lemma_walk_covers(
    lists: Seq<Seq<usize>>,
    parents: Seq<int>,
    seen: Set<int>,
    queue: Seq<usize>,
    dfs: bool,
    fuel: nat,
)
    requires
        tree_shape(lists, parents),
        walk_state(lists, parents, seen, queue),
        fuel + seen.len() >= lists.len(),
    ensures
        ({
            let w = walk(lists, queue, dfs, fuel);
            &&& w.no_duplicates()
            &&& forall|m: int| 0 <= m < w.len() ==> !seen.contains(#[trigger] w[m] as int)
            &&& forall|j: int| 0 <= j < lists.len() ==> seen.contains(j) || includes(w, j)
        }),
    decreases fuel,
{
    let n = lists.len();
    let w = walk(lists, queue, dfs, fuel);
    if queue.len() == 0 {
        assert(queue =~= Seq::<usize>::empty());
        assert forall|j: int| 0 <= j < n implies seen.contains(j) || includes(w, j) by {
            lemma_all_seen(lists, parents, seen, j);
        }
    } else {
        let q = queue[0];
        assert((q as int) < n && !seen.contains(q as int));
        if fuel == 0 {
            let others = set_int_range(0, n as int).remove(q as int);
            lemma_int_range(0, n as int);
            assert(seen.subset_of(others));
            lemma_len_subset(seen, others);
            assert(false);
        }
        let next = advance(lists, queue, dfs);
        let seen2 = seen.insert(q as int);
        lemma_state_step(lists, parents, seen, queue, dfs);
        lemma_walk_covers(lists, parents, seen2, next, dfs, (fuel - 1) as nat);
        let w2 = walk(lists, next, dfs, (fuel - 1) as nat);
        assert(w == seq![q] + w2);
        assert(w.no_duplicates()) by {
            assert forall|a: int, b: int| 0 <= a < w.len() && 0 <= b < w.len() && a != b implies w[a] != w[b] by {
                if a == 0 {
                    assert(w[b] == w2[b - 1]);
                    assert(!seen2.contains(w2[b - 1] as int));
                } else if b == 0 {
                    assert(w[a] == w2[a - 1]);
                    assert(!seen2.contains(w2[a - 1] as int));
                } else {
                    assert(w[a] == w2[a - 1]);
                    assert(w[b] == w2[b - 1]);
                }
            }
        }
        assert forall|m: int| 0 <= m < w.len() implies !seen.contains(#[trigger] w[m] as int) by {
            if m > 0 {
                assert(w[m] == w2[m - 1]);
                assert(!seen2.contains(w2[m - 1] as int));
            }
        }
        assert forall|j: int| 0 <= j < n implies seen.contains(j) || includes(w, j) by {
            if j == q as int {
                assert(w[0] == q);
                lemma_includes_at(w, 0);
            } else if !seen.contains(j) {
                assert(seen2.contains(j) || includes(w2, j));
                let m = lemma_includes_witness(w2, j);
                assert(w[m + 1] == w2[m]);
                lemma_includes_at(w, m + 1);
            }
        }
    }
}

/// A walk from the root of a tree, with as many steps as there are nodes,
/// visits every node exactly once.
pub proof fn lemma_walk_visits_each_once(lists: Seq<Seq<usize>>, parents: Seq<int>, dfs: bool)
    requires
        tree_shape(lists, parents),
        lists.len() >= 1,
    ensures
        ({
            let w = walk(lists, seq![0usize], dfs, lists.len());
            &&& w.no_duplicates()
            &&& w.len() == lists.len()
            &&& forall|j: int| 0 <= j < lists.len() ==> #[trigger] includes(w, j)
        }),
{
    let n = lists.len();
    let q0 = seq![0usize];
    lemma_includes_at(q0, 0);
    assert forall|j: int| 0 <= j < n implies #[trigger] reached(Set::<int>::empty(), q0, parents, j) by {
        if j != 0 && includes(q0, j) {
            let m = lemma_includes_witness(q0, j);
        }
    }
    assert(q0.no_duplicates());
    lemma_walk_covers(lists, parents, Set::empty(), q0, dfs, n);
    lemma_walk_bounds(lists, q0, dfs, n);
    let w = walk(lists, q0, dfs, n);
    let wi = w.map_values(|x: usize| x as int);
    assert(set_int_range(0, n as int).subset_of(wi.to_set())) by {
        assert forall|j: int| set_int_range(0, n as int).contains(j) implies wi.to_set().contains(j) by {
            assert(includes(w, j));
            let m = lemma_includes_witness(w, j);
            assert(wi[m] == j);
        }
    }
    lemma_int_range(0, n as int);
    wi.lemma_cardinality_of_set();
    lemma_len_subset(set_int_range(0, n as int), wi.to_set());
    assert(wi.no_duplicates()) by {
        assert forall|a: int, b: int| 0 <= a < wi.len() && 0 <= b < wi.len() && a != b implies wi[a] != wi[b] by {
            assert(w[a] != w[b]);
        }
    }
}

/// The traversal engine shared by breadth-first and depth-first iteration: a
/// work queue of arena indices, the insertion policy, and a bound on the steps.
pub struct Walker {
    dfs: bool,
    idx_queue: VecDeque<usize>,
    fuel: usize,
}

impl Walker {
    pub closed spec fn pending<T>(&self, nodes: Seq<Node<T>>) -> Seq<usize> {
        walk(child_lists(nodes), self.idx_queue@, self.dfs, self.fuel as nat)
    }

    pub closed spec fn is_dfs(&self) -> bool {
        self.dfs
    }

    fn start(dfs: bool, n: usize) -> (r: Walker)
        ensures
            r.idx_queue@ == seq![0usize],
            r.dfs == dfs,
            r.fuel == n,
    {
        let mut idx_queue: VecDeque<usize> = VecDeque::new();
        idx_queue.push_back(0);
        Walker { dfs, idx_queue, fuel: n }
    }

    /// Visits the next node: pops the front of the queue and enqueues its children.
    fn step<T>(&mut self, nodes: &Vec<Node<T>>) -> (r: Option<usize>)
        ensures
            final(self).dfs == old(self).dfs,
            old(self).pending(nodes@).len() == 0 ==> r is None && final(self).pending(
                nodes@,
            ).len() == 0,
            old(self).pending(nodes@).len() > 0 ==> r == Some(old(self).pending(nodes@)[0])
                && final(self).pending(nodes@) == old(self).pending(nodes@).drop_first(),
    {
        proof {
            let q = self.idx_queue@;
            if self.fuel > 0 && q.len() > 0 && q[0] < nodes@.len() {
                let rest = walk(child_lists(nodes@), advance(child_lists(nodes@), q, self.dfs), self.dfs, (self.fuel - 1) as nat);
                assert(self.pending(nodes@) == seq![q[0]] + rest);
                assert((seq![q[0]] + rest).drop_first() =~= rest);
            }
        }
        if self.fuel == 0 {
            return None;
        }
        match self.idx_queue.pop_front() {
            None => None,
            Some(n_i) => {
                if n_i >= nodes.len() {
                    self.fuel = 0;
                    return None;
                }
                let ghost rest = self.idx_queue@;
                let fuel = self.fuel;
                let dfs = self.dfs;
                let found = &nodes[n_i].children;
                if self.dfs {
                    let mut j: usize = found.len();
                    while j > 0
                        invariant
                            j <= found.len(),
                            self.fuel == fuel,
                            self.dfs == dfs,
                            self.idx_queue@ == found@.subrange(j as int, found.len() as int)
                                + rest,
                        decreases j,
                    {
                        j = j - 1;
                        self.idx_queue.push_front(found[j]);
                        assert(self.idx_queue@ =~= found@.subrange(j as int, found.len() as int)
                            + rest);
                    }
                    assert(found@.subrange(0, found.len() as int) =~= found@);
                } else {
                    let mut j: usize = 0;
                    while j < found.len()
                        invariant
                            j <= found.len(),
                            self.fuel == fuel,
                            self.dfs == dfs,
                            self.idx_queue@ == rest + found@.subrange(0, j as int),
                        decreases found.len() - j,
                    {
                        self.idx_queue.push_back(found[j]);
                        j = j + 1;
                        assert(self.idx_queue@ =~= rest + found@.subrange(0, j as int));
                    }
                    assert(found@.subrange(0, found.len() as int) =~= found@);
                }
                self.fuel = fuel - 1;
                Some(n_i)
            },
        }
    }
}

/// A traversal that hands out node payloads.
pub struct TreeIter<'a, T> {
    walker: Walker,
    arena: &'a Vec<Node<T>>,
}

/// A traversal that hands out whole nodes.
pub struct TreeNodeIter<'a, T> {
    walker: Walker,
    arena: &'a Vec<Node<T>>,
}

impl<'a, T> TreeIter<'a, T> {
    /// The arena indices still to be visited, in order.
    pub closed spec fn remaining(&self) -> Seq<usize> {
        self.walker.pending(self.arena@)
    }

    pub closed spec fn arena(&self) -> Seq<Node<T>> {
        self.arena@
    }

    pub fn next(&mut self) -> (r: Option<&'a T>)
        ensures
            final(self).arena() == old(self).arena(),
            old(self).remaining().len() == 0 ==> r is None && final(self).remaining().len()
                == 0,
            old(self).remaining().len() > 0 ==> r == Some(
                &old(self).arena()[old(self).remaining()[0] as int].val,
            ) && final(self).remaining() == old(self).remaining().drop_first(),
    {
        let arena = self.arena;
        match self.walker.step(arena) {
            Some(i) => Some(&arena[i].val),
            None => None,
        }
    }
}

impl<'a, T> TreeNodeIter<'a, T> {
    /// The arena indices still to be visited, in order.
    pub closed spec fn remaining(&self) -> Seq<usize> {
        self.walker.pending(self.arena@)
    }

    pub closed spec fn arena(&self) -> Seq<Node<T>> {
        self.arena@
    }

    pub fn next(&mut self) -> (r: Option<&'a Node<T>>)
        ensures
            final(self).arena() == old(self).arena(),
            old(self).remaining().len() == 0 ==> r is None && final(self).remaining().len()
                == 0,
            old(self).remaining().len() > 0 ==> r == Some(
                &old(self).arena()[old(self).remaining()[0] as int],
            ) && final(self).remaining() == old(self).remaining().drop_first(),
    {
        let arena = self.arena;
        match self.walker.step(arena) {
            Some(i) => Some(&arena[i]),
            None => None,
        }
    }
}

impl<T> Tree<T> {
    /// The arena, in index order.
    pub closed spec fn nodes(&self) -> Seq<Node<T>> {
        self.nodes@
    }

    /// The parent of each node but the root.
    pub closed spec fn parents(&self) -> Seq<int> {
        self.parents@
    }

    /// The nodes form one tree rooted at index 0, every node knows its own
    /// index, the root is at depth 0, each child lies later in the arena than
    /// its parent, one level deeper, and a node has fewer children than there
    /// are later nodes.
    pub open spec fn wf(&self) -> bool {
        let n = self.nodes();
        &&& self.parents().len() == n.len()
        &&& forall|j: int|
            1 <= j < n.len() ==> {
                let p = #[trigger] self.parents()[j];
                0 <= p < j && includes(n[p].children@, j)
            }
        &&& forall|i: int, a: int, b: int|
            0 <= i < n.len() && 0 <= a < b < n[i].children.len() ==> #[trigger] n[i].children@[a]
                < #[trigger] n[i].children@[b]
        &&& n.len() >= 1
        &&& n[0].level == 0
        &&& forall|i: int| 0 <= i < n.len() ==> #[trigger] n[i].idx == i
        &&& forall|i: int| 0 <= i < n.len() ==> #[trigger] n[i].level <= i
        &&& forall|i: int| 0 <= i < n.len() ==> #[trigger] n[i].children.len() + i < n.len()
        &&& forall|i: int, j: int|
            0 <= i < n.len() && 0 <= j < n[i].children.len() ==> {
                let c = #[trigger] n[i].children@[j] as int;
                &&& i < c < n.len()
                &&& n[c].level == n[i].level + 1
                &&& self.parents()[c] == i
            }
    }

    /// The child lists and parents of a well-formed tree have the shape of a tree.
    pub proof fn lemma_shape(&self)
        requires
            self.wf(),
        ensures
            tree_shape(child_lists(self.nodes()), self.parents()),
    {
        let n = self.nodes();
        let l = child_lists(n);
        assert forall|i: int| 0 <= i < n.len() implies #[trigger] l[i] == n[i].children@ by {}
        assert forall|j: int| 1 <= j < l.len() implies {
            let p = #[trigger] self.parents()[j];
            0 <= p < j && includes(l[p], j)
        } by {
            let p = self.parents()[j];
            assert(l[p] == n[p].children@);
        }
        assert forall|i: int, m: int| 0 <= i < l.len() && 0 <= m < l[i].len() implies {
            let c = #[trigger] l[i][m] as int;
            i < c < l.len() && self.parents()[c] == i
        } by {
            assert(l[i] == n[i].children@);
            assert(l[i][m] == n[i].children@[m]);
        }
        assert forall|i: int, a: int, b: int|
            0 <= i < l.len() && 0 <= a < b < l[i].len() implies #[trigger] l[i][a] < #[trigger] l[i][b] by {
            assert(l[i] == n[i].children@);
            assert(n[i].children@[a] < n[i].children@[b]);
        }
    }

    /// In a well-formed tree the breadth-first order and the depth-first order
    /// each list every arena index exactly once.
    pub proof fn lemma_orders_visit_each_node_once(&self)
        requires
            self.wf(),
        ensures
            self.bfs_order().len() == self.nodes().len(),
            self.bfs_order().no_duplicates(),
            forall|j: int| 0 <= j < self.nodes().len() ==> #[trigger] includes(self.bfs_order(), j),
            self.dfs_order().len() == self.nodes().len(),
            self.dfs_order().no_duplicates(),
            forall|j: int| 0 <= j < self.nodes().len() ==> #[trigger] includes(self.dfs_order(), j),
    {
        self.lemma_shape();
        lemma_walk_visits_each_once(child_lists(self.nodes()), self.parents(), false);
        lemma_walk_visits_each_once(child_lists(self.nodes()), self.parents(), true);
    }

    /// Arena indices in breadth-first order.
    pub open spec fn bfs_order(&self) -> Seq<usize> {
        walk(child_lists(self.nodes()), seq![0usize], false, self.nodes().len())
    }

    /// Arena indices in depth-first (pre-order, left to right) order.
    pub open spec fn dfs_order(&self) -> Seq<usize> {
        walk(child_lists(self.nodes()), seq![0usize], true, self.nodes().len())
    }

    /// The arena index that `index` names, if any.
    pub open spec fn locate(&self, index: TreeIndex) -> Option<int> {
        match index {
            TreeIndex::Arena(i) => if i < self.nodes().len() {
                Some(i as int)
            } else {
                None
            },
            TreeIndex::Bfs(i) => if i < self.bfs_order().len() {
                Some(self.bfs_order()[i as int] as int)
            } else {
                None
            },
            TreeIndex::Dfs(_) => None,
        }
    }

    pub fn new(root: T) -> (r: Self)
        ensures
            r.wf(),
            r.nodes().len() == 1,
            r.nodes()[0].val == root,
            r.nodes()[0].children@.len() == 0,
            r.nodes()[0].level == 0,
    {
        let mut nodes: Vec<Node<T>> = Vec::new();
        nodes.push(Node { val: root, children: Vec::new(), level: 0, idx: 0 });
        let ghost parents = seq![0int];
        let r = Tree { nodes, parents: Ghost(parents) };
        assert(child_lists(r.nodes())[0] =~= Seq::<usize>::empty());
        r
    }

    /// Number of nodes in the arena.
    pub fn len(&self) -> (r: usize)
        ensures
            r == self.nodes().len(),
    {
        self.nodes.len()
    }

    pub fn iter_bfs(&self) -> (r: TreeIter<'_, T>)
        ensures
            r.arena() == self.nodes(),
            r.remaining() == self.bfs_order(),
    {
        TreeIter { walker: Walker::start(false, self.nodes.len()), arena: &self.nodes }
    }

    pub fn iter_dfs(&self) -> (r: TreeIter<'_, T>)
        ensures
            r.arena() == self.nodes(),
            r.remaining() == self.dfs_order(),
    {
        TreeIter { walker: Walker::start(true, self.nodes.len()), arena: &self.nodes }
    }

    pub fn nodes_bfs(&self) -> (r: TreeNodeIter<'_, T>)
        ensures
            r.arena() == self.nodes(),
            r.remaining() == self.bfs_order(),
    {
        TreeNodeIter { walker: Walker::start(false, self.nodes.len()), arena: &self.nodes }
    }

    pub fn nodes_dfs(&self) -> (r: TreeNodeIter<'_, T>)
        ensures
            r.arena() == self.nodes(),
            r.remaining() == self.dfs_order(),
    {
        TreeNodeIter { walker: Walker::start(true, self.nodes.len()), arena: &self.nodes }
    }

    /// The arena index of the node at position `bfs_i` in breadth-first order.
    fn bfs_position(&self, bfs_i: usize) -> (r: Option<usize>)
        ensures
            r == (if bfs_i < self.bfs_order().len() {
                Some(self.bfs_order()[bfs_i as int])
            } else {
                None
            }),
    {
        let mut walker = Walker::start(false, self.nodes.len());
        let mut i_count: usize = 0;
        loop
            invariant
                i_count <= bfs_i,
                i_count <= self.bfs_order().len(),
                !walker.is_dfs(),
                walker.pending(self.nodes@) == self.bfs_order().subrange(
                    i_count as int,
                    self.bfs_order().len() as int,
                ),
            decreases walker.pending(self.nodes@).len(),
        {
            let ghost before = walker.pending(self.nodes@);
            match walker.step(&self.nodes) {
                None => {
                    return None;
                },
                Some(n_i) => {
                    if i_count == bfs_i {
                        return Some(n_i);
                    }
                    assert(before.drop_first() =~= self.bfs_order().subrange(
                        i_count + 1,
                        self.bfs_order().len() as int,
                    ));
                    i_count = i_count + 1;
                },
            }
        }
    }

    /// The arena index named by `index`, if there is such a node.
    fn find_index(&self, index: TreeIndex) -> (r: Option<usize>)
        ensures
            r matches Some(k) ==> self.locate(index) == Some(k as int),
            r is None ==> self.locate(index) is None,
    {
        match index {
            TreeIndex::Bfs(bfs_i) => self.bfs_position(bfs_i),
            TreeIndex::Arena(raw_i) => if raw_i < self.nodes.len() {
                Some(raw_i)
            } else {
                None
            },
            TreeIndex::Dfs(_) => None,
        }
    }

    pub fn get_node(&self, index: TreeIndex) -> (r: Option<&Node<T>>)
        ensures
            match self.locate(index) {
                Some(k) => r == Some(&self.nodes()[k]),
                None => r is None,
            },
    {
        proof {
            lemma_walk_bounds(child_lists(self.nodes()), seq![0usize], false, self.nodes().len());
        }
        match self.find_index(index) {
            Some(k) => Some(&self.nodes[k]),
            None => None,
        }
    }

    pub fn get(&self, index: TreeIndex) -> (r: Option<&T>)
        ensures
            match self.locate(index) {
                Some(k) => r == Some(&self.nodes()[k].val),
                None => r is None,
            },
    {
        match self.get_node(index) {
            Some(node) => Some(&node.val),
            None => None,
        }
    }
}


/// `after` is `before` with a new last node holding `val` attached as the last
/// child of the node at arena index `k`.
pub open spec fn child_appended<T>(before: Seq<Node<T>>, after: Seq<Node<T>>, k: int, val: T) -> bool {
    let n = before.len() as int;
    &&& 0 <= k < n
    &&& after.len() == n + 1
    &&& forall|i: int| 0 <= i < n && i != k ==> #[trigger] after[i] == before[i]
    &&& after[k].val == before[k].val
    &&& after[k].level == before[k].level
    &&& after[k].idx == before[k].idx
    &&& after[k].children@ == before[k].children@.push(n as usize)
    &&& after[n].val == val
    &&& after[n].children@.len() == 0
    &&& after[n].level == before[k].level + 1
    &&& after[n].idx == n
}

impl<T> Tree<T> {
    /// The node named by `index`, for writing. Its children and level are open
    /// to the caller too, so the tree is no longer known to be well formed.
    pub fn get_mut_node(&mut self, index: TreeIndex) -> (r: Option<&mut Node<T>>)
        ensures
            match old(self).locate(index) {
                Some(k) => r matches Some(n) && *n == old(self).nodes()[k] && final(self).nodes()
                    == old(self).nodes().update(k, *final(n)),
                None => r is None && final(self).nodes() == old(self).nodes(),
            },
    {
        proof {
            lemma_walk_bounds(child_lists(self.nodes()), seq![0usize], false, self.nodes().len());
        }
        match self.find_index(index) {
            Some(k) => Some(&mut self.nodes[k]),
            None => None,
        }
    }

    pub fn get_mut(&mut self, index: TreeIndex) -> (r: Option<&mut T>)
        requires
            old(self).wf(),
        ensures
            final(self).wf(),
            match old(self).locate(index) {
                Some(k) => r matches Some(v) && *v == old(self).nodes()[k].val && final(self).nodes()
                    == old(self).nodes().update(k, Node { val: *final(v), ..old(self).nodes()[k] }),
                None => r is None && final(self).nodes() == old(self).nodes(),
            },
    {
        proof {
            lemma_walk_bounds(child_lists(self.nodes()), seq![0usize], false, self.nodes().len());
        }
        match self.find_index(index) {
            Some(k) => Some(&mut self.nodes[k].val),
            None => None,
        }
    }

    /// Attaches `val` as the last child of the node at arena index `k`.
    fn push_child(&mut self, k: usize, val: T) -> (r: NodePosition)
        requires
            old(self).wf(),
            k < old(self).nodes().len(),
        ensures
            final(self).wf(),
            child_appended(old(self).nodes(), final(self).nodes(), k as int, val),
            r.raw_idx == old(self).nodes().len(),
            r.depth == old(self).nodes()[k as int].level + 1,
            r.siblings == old(self).nodes()[k as int].children@.len() + 1,
            r.parent_raw_idx == k,
    {
        let n_i = self.nodes.len();
        let ghost before = self.nodes@;
        let p_level = self.nodes[k].level;
        let p_children = self.nodes[k].children.len();
        let p_idx = self.nodes[k].idx;
        self.nodes[k].children.push(n_i);
        self.nodes.push(Node { val, children: Vec::new(), level: p_level + 1, idx: n_i });
        let ghost old_parents = self.parents@;
        let ghost new_parents = old_parents.push(k as int);
        self.parents = Ghost(new_parents);
        proof {
            let after = self.nodes@;
            assert forall|i: int| 0 <= i < after.len() && i != k && i < before.len() implies after[i].children@
                == before[i].children@ by {
                assert(after[i] == before[i]);
            }
            assert(after[k as int].children@ == before[k as int].children@.push(n_i));
            assert(after[n_i as int].children@ =~= Seq::<usize>::empty());
            assert forall|j: int| 1 <= j < after.len() implies {
                let p = #[trigger] self.parents@[j];
                0 <= p < j && includes(after[p].children@, j)
            } by {
                if j < before.len() {
                    let p = old_parents[j];
                    assert(includes(before[p].children@, j));
                    let w = lemma_includes_witness(before[p].children@, j);
                    if p == k {
                        assert(after[p].children@[w] as int == j);
                        lemma_includes_at(after[p].children@, w);
                    } else {
                        assert(after[p].children@ == before[p].children@);
                    }
                } else {
                    assert(after[k as int].children@[before[k as int].children@.len() as int] == n_i);
                    lemma_includes_at(after[k as int].children@, before[k as int].children@.len() as int);
                }
            }
            assert forall|i: int, m: int| 0 <= i < after.len() && 0 <= m < after[i].children@.len() implies {
                let c = #[trigger] after[i].children@[m] as int;
                i < c < after.len() && self.parents@[c] == i
            } by {
                if i == k && m == before[i].children@.len() {
                } else {
                    assert(after[i].children@[m] == before[i].children@[m]);
                }
            }
            assert forall|i: int, a: int, b: int|
                0 <= i < after.len() && 0 <= a < b < after[i].children@.len() implies #[trigger] after[i].children@[a]
                < #[trigger] after[i].children@[b] by {
                if i == k && b == before[i].children@.len() {
                    assert(after[i].children@[a] == before[i].children@[a]);
                } else if i < before.len() {
                    assert(after[i].children@[a] == before[i].children@[a]);
                    assert(after[i].children@[b] == before[i].children@[b]);
                }
            }
            assert forall|i: int, j: int|
                0 <= i < after.len() && 0 <= j < after[i].children.len() implies {
                    let c = #[trigger] after[i].children@[j] as int;
                    &&& i < c < after.len()
                    &&& after[c].level == after[i].level + 1
                    &&& self.parents@[c] == i
                } by {
                if i == k && j == before[i].children.len() {
                } else {
                    assert(after[i].children@[j] == before[i].children@[j]);
                }
            }
            assert forall|i: int| 0 <= i < after.len() implies #[trigger] after[i].children.len()
                + i < after.len() by {
                if i < before.len() {
                    assert(before[i].children.len() + i < before.len());
                }
            }
            assert forall|i: int| 0 <= i < after.len() implies #[trigger] after[i].level <= i by {
                if i < before.len() {
                    assert(before[i].level <= i);
                }
            }
            assert forall|i: int| 0 <= i < after.len() implies #[trigger] after[i].idx == i by {
                if i < before.len() {
                    assert(before[i].idx == i);
                }
            }
        }
        NodePosition { depth: p_level + 1, siblings: p_children + 1, raw_idx: n_i, parent_raw_idx: p_idx }
    }

    pub fn add_node_by_index(&mut self, parent_index: TreeIndex, val: T) -> (r: Option<
        NodePosition,
    >)
        requires
            old(self).wf(),
        ensures
            final(self).wf(),
            (parent_index matches TreeIndex::Arena(i) && i >= old(self).nodes().len()) ==> r is None
                && final(self).nodes() == old(self).nodes(),
            match old(self).locate(parent_index) {
                None => r is None && final(self).nodes() == old(self).nodes(),
                Some(k) => r matches Some(p) && child_appended(
                    old(self).nodes(),
                    final(self).nodes(),
                    k,
                    val,
                ) && p.raw_idx == old(self).nodes().len() && p.depth == old(self).nodes()[k].level
                    + 1 && p.siblings == old(self).nodes()[k].children@.len() + 1
                    && p.parent_raw_idx == k,
            },
    {
        match self.find_index(parent_index) {
            Some(k) => {
                proof {
                    lemma_walk_bounds(child_lists(self.nodes()), seq![0usize], false, self.nodes().len());
                }
                Some(self.push_child(k, val))
            },
            None => None,
        }
    }
}

impl<T: PartialEq> Tree<T> {
    /// The arena index of the first node, in breadth-first order, whose payload
    /// equals `comp`.
    fn find_index_of(&self, comp: &T) -> (r: Option<usize>)
        requires
            self.wf(),
        ensures
            T::obeys_eq_spec() ==> match r {
                Some(k) => exists|p: int|
                    0 <= p < self.bfs_order().len() && self.bfs_order()[p] == k
                        && self.nodes()[k as int].val.eq_spec(comp) && forall|q: int|
                        0 <= q < p ==> !(#[trigger] self.nodes()[self.bfs_order()[q] as int]).val.eq_spec(
                            comp,
                        ),
                None => forall|p: int|
                    0 <= p < self.bfs_order().len() ==> !(#[trigger] self.nodes()[self.bfs_order()[p] as int]).val.eq_spec(
                        comp,
                    ),
            },
            r matches Some(k) ==> k < self.nodes().len(),
    {
        proof {
            lemma_walk_bounds(child_lists(self.nodes()), seq![0usize], false, self.nodes().len());
        }
        let mut walker = Walker::start(false, self.nodes.len());
        let ghost mut seen: int = 0;
        loop
            invariant
                0 <= seen <= self.bfs_order().len(),
                !walker.is_dfs(),
                walker.pending(self.nodes@) == self.bfs_order().subrange(
                    seen,
                    self.bfs_order().len() as int,
                ),
                forall|p: int|
                    0 <= p < self.bfs_order().len() ==> #[trigger] self.bfs_order()[p] < self.nodes().len(),
                T::obeys_eq_spec() ==> forall|q: int|
                    0 <= q < seen ==> !(#[trigger] self.nodes()[self.bfs_order()[q] as int]).val.eq_spec(
                        comp,
                    ),
            decreases walker.pending(self.nodes@).len(),
        {
            let ghost before = walker.pending(self.nodes@);
            match walker.step(&self.nodes) {
                None => {
                    return None;
                },
                Some(n_i) => {
                    assert(n_i == self.bfs_order()[seen]);
                    if self.nodes[n_i].val.eq(comp) {
                        return Some(n_i);
                    }
                    assert(before.drop_first() =~= self.bfs_order().subrange(
                        seen + 1,
                        self.bfs_order().len() as int,
                    ));
                    proof {
                        seen = seen + 1;
                    }
                },
            }
        }
    }

    /// Attaches `val` as the last child of the first node, in breadth-first
    /// order, whose payload equals `parent`.
    pub fn add_node(&mut self, parent: &T, val: T) -> (r: Option<NodePosition>)
        requires
            old(self).wf(),
        ensures
            final(self).wf(),
            r is None ==> final(self).nodes() == old(self).nodes(),
            T::obeys_eq_spec() ==> (r is None <==> forall|p: int|
                0 <= p < old(self).bfs_order().len() ==> !(#[trigger] old(self).nodes()[old(
                    self,
                ).bfs_order()[p] as int]).val.eq_spec(parent)),
            r matches Some(pos) ==> {
                let k = pos.parent_raw_idx as int;
                &&& child_appended(old(self).nodes(), final(self).nodes(), k, val)
                &&& pos.raw_idx == old(self).nodes().len()
                &&& pos.depth == old(self).nodes()[k].level + 1
                &&& pos.siblings == old(self).nodes()[k].children@.len() + 1
                &&& T::obeys_eq_spec() ==> exists|p: int|
                    0 <= p < old(self).bfs_order().len() && old(self).bfs_order()[p] == k
                        && old(self).nodes()[k].val.eq_spec(parent) && forall|q: int|
                        0 <= q < p ==> !(#[trigger] old(self).nodes()[old(
                            self,
                        ).bfs_order()[q] as int]).val.eq_spec(parent)
            },
    {
        match self.find_index_of(parent) {
            Some(k) => Some(self.push_child(k, val)),
            None => None,
        }
    }
}

} // verus!
