use vstd::prelude::*;
use std::collections::VecDeque;
use crate::tree::{Node, Tree, child_positions, arena_is_tree, reaches_root};
use crate::edges::{Edge, is_endpoint, forms_tree};

verus! {

/// The order in which a traversal visits nodes.
#[derive(Debug, Clone, Copy, PartialEq, Eq, Structural)]
pub enum TraversalKind {
    /// Level order: children are queued at the back.
    Bfs,
    /// Depth first: children are pushed one by one at the front, so that
    /// the children of a node are visited last-listed first.
    Dfs,
}

/// The work queue after taking its front node and queuing that node's
/// children as `kind` says.
pub open spec fn step_queue(nodes: Seq<Node>, kind: TraversalKind, q: Seq<usize>) -> Seq<usize> {
    let ch = child_positions(nodes, q[0] as int);
    match kind {
        TraversalKind::Bfs => q.drop_first() + ch,
        TraversalKind::Dfs => ch.reverse() + q.drop_first(),
    }
}

/// The positions produced by at most `k` pulls from the work queue `q`.
pub open spec fn produced(nodes: Seq<Node>, kind: TraversalKind, q: Seq<usize>, k: nat) -> Seq<usize>
    decreases k,
{
    if k == 0 || q.len() == 0 {
        Seq::empty()
    } else {
        seq![q[0]] + produced(nodes, kind, step_queue(nodes, kind, q), (k - 1) as nat)
    }
}

/// The work queue left after at most `k` pulls from `q`.
pub open spec fn queue_after(nodes: Seq<Node>, kind: TraversalKind, q: Seq<usize>, k: nat) -> Seq<usize>
    decreases k,
{
    if k == 0 || q.len() == 0 {
        q
    } else {
        queue_after(nodes, kind, step_queue(nodes, kind, q), (k - 1) as nat)
    }
}

/// The positions that a traversal of `t` produces, one per node.
pub open spec fn order(t: Tree, kind: TraversalKind) -> Seq<usize> {
    produced(t.spec_nodes(), kind, seq![t.spec_root() as usize], t.spec_len())
}

/// Distinct positions below `n` number at most `n`.
proof fn lemma_distinct_below(s: Seq<usize>, n: nat)
    requires
        s.no_duplicates(),
        forall|i: int| 0 <= i < s.len() ==> s[i] < n,
    ensures
        s.len() <= n,
    decreases n,
{
    if n == 0 {
        if s.len() > 0 {
            assert(s[0] < 0);
        }
    } else if exists|k: int| 0 <= k < s.len() && s[k] == n - 1 {
        let k = choose|k: int| 0 <= k < s.len() && s[k] == n - 1;
        let t = s.subrange(0, k) + s.subrange(k + 1, s.len() as int);
        assert forall|i: int| 0 <= i < t.len() implies t[i] == if i < k { s[i] } else { s[i + 1] } by {}
        assert forall|i: int, j: int| 0 <= i < j < t.len() implies t[i] != t[j] by {
            if i < k && j >= k {
                assert(s[i] != s[j + 1]);
            } else if i >= k {
                assert(s[i + 1] != s[j + 1]);
            } else {
                assert(s[i] != s[j]);
            }
        }
        assert forall|i: int| 0 <= i < t.len() implies t[i] < (n - 1) as nat by {
            if i < k {
                assert(s[i] != s[k]);
            } else {
                assert(s[i + 1] != s[k]);
            }
        }
        lemma_distinct_below(t, (n - 1) as nat);
    } else {
        lemma_distinct_below(s, (n - 1) as nat);
    }
}

/// An element of a concatenation lies in one of its parts.
proof fn lemma_contains_concat(a: Seq<usize>, b: Seq<usize>, x: usize)
    ensures
        (a + b).contains(x) <==> a.contains(x) || b.contains(x),
{
    if a.contains(x) {
        let i = choose|i: int| 0 <= i < a.len() && a[i] == x;
        assert((a + b)[i] == x);
    }
    if b.contains(x) {
        let i = choose|i: int| 0 <= i < b.len() && b[i] == x;
        assert((a + b)[a.len() + i] == x);
    }
    if (a + b).contains(x) {
        let i = choose|i: int| 0 <= i < (a + b).len() && (a + b)[i] == x;
        if i < a.len() {
            assert(a[i] == x);
        } else {
            assert(b[i - a.len()] == x);
        }
    }
}

/// Reversing keeps the elements and their distinctness.
proof fn lemma_reverse_facts(s: Seq<usize>)
    ensures
        s.reverse().len() == s.len(),
        forall|i: int| 0 <= i < s.len() ==> #[trigger] s.reverse()[i] == s[s.len() - 1 - i],
        forall|x: usize| #[trigger] s.reverse().contains(x) <==> s.contains(x),
        s.no_duplicates() ==> s.reverse().no_duplicates(),
{
    let r = s.reverse();
    assert forall|x: usize| #[trigger] r.contains(x) <==> s.contains(x) by {
        if r.contains(x) {
            let i = choose|i: int| 0 <= i < r.len() && r[i] == x;
            assert(s[s.len() - 1 - i] == x);
        }
        if s.contains(x) {
            let i = choose|i: int| 0 <= i < s.len() && s[i] == x;
            assert(r[s.len() - 1 - i] == x);
        }
    }
}

/// The traversal state invariant: `visited` and the queue `q` hold distinct
/// positions of the arena, and a node is in one of them exactly when it is
/// the root or its parent has been visited.
spec fn frontier_ok(nodes: Seq<Node>, root: int, visited: Seq<usize>, q: Seq<usize>) -> bool {
    &&& (visited + q).no_duplicates()
    &&& forall|i: int| 0 <= i < (visited + q).len() ==> #[trigger] (visited + q)[i] < nodes.len()
    &&& forall|j: int| #![trigger nodes[j].parent]
        0 <= j < nodes.len() ==> ((visited + q).contains(j as usize) <==> (j == root || (nodes[j].parent is Some
            && visited.contains(nodes[j].parent->0))))
}

/// Taking the front node of the queue and queuing its children keeps the
/// traversal invariant.
#[verifier::rlimit(60)]
proof fn lemma_frontier_step(
    nodes: Seq<Node>,
    root: int,
    bound: nat,
    kind: TraversalKind,
    visited: Seq<usize>,
    q: Seq<usize>,
)
    requires
        arena_is_tree(nodes, root, bound),
        frontier_ok(nodes, root, visited, q),
        q.len() > 0,
    ensures
        frontier_ok(nodes, root, visited.push(q[0]), step_queue(nodes, kind, q)),
{
    let n = q[0];
    let rest = q.drop_first();
    let ch = child_positions(nodes, n as int);
    let all = visited + q;
    let v2 = visited.push(n);
    let vl = visited.len() as int;
    assert(v2 + rest =~= all);
    assert(all[vl] == n);
    assert(n < nodes.len());
    lemma_reverse_facts(ch);
    assert(ch.no_duplicates());
    assert forall|k: int| 0 <= k < ch.len() implies #[trigger] ch[k] < nodes.len() && nodes[ch[k] as int].parent == Some(n)
        by {}
    assert(!visited.contains(n)) by {
        if visited.contains(n) {
            let i = choose|i: int| 0 <= i < visited.len() && visited[i] == n;
            assert(all[i] == n);
        }
    }
    assert forall|x: usize| #[trigger] ch.contains(x) implies !all.contains(x) by {
        let k = choose|k: int| 0 <= k < ch.len() && ch[k] == x;
        assert(nodes[x as int].parent == Some(n));
        assert(x as int != root);
    }
    assert forall|i: int, j: int| 0 <= i < rest.len() && 0 <= j < ch.len() implies rest[i] != ch[j] by {
        assert(all[vl + 1 + i] == rest[i]);
        assert(ch.contains(ch[j]));
    }
    assert(rest.no_duplicates()) by {
        assert forall|i: int, j: int| 0 <= i < j < rest.len() implies rest[i] != rest[j] by {
            assert(all[vl + 1 + i] == rest[i]);
            assert(all[vl + 1 + j] == rest[j]);
        }
    }
    assert(v2.no_duplicates()) by {
        assert forall|i: int, j: int| 0 <= i < j < v2.len() implies v2[i] != v2[j] by {
            assert(all[i] == v2[i]);
            assert(all[j] == v2[j]);
        }
    }
    let m = step_queue(nodes, kind, q);
    match kind {
        TraversalKind::Bfs => {
            assert(m == rest + ch);
            vstd::seq_lib::lemma_no_dup_in_concat(rest, ch);
        },
        TraversalKind::Dfs => {
            assert(m == ch.reverse() + rest);
            assert forall|i: int, j: int| 0 <= i < ch.reverse().len() && 0 <= j < rest.len() implies ch.reverse()[i] != rest[j] by {
                assert(ch.reverse()[i] == ch[ch.len() - 1 - i]);
            }
            vstd::seq_lib::lemma_no_dup_in_concat(ch.reverse(), rest);
        },
    }
    assert forall|x: usize| #[trigger] m.contains(x) <==> rest.contains(x) || ch.contains(x) by {
        match kind {
            TraversalKind::Bfs => lemma_contains_concat(rest, ch, x),
            TraversalKind::Dfs => lemma_contains_concat(ch.reverse(), rest, x),
        }
    }
    assert forall|i: int, j: int| 0 <= i < v2.len() && 0 <= j < m.len() implies v2[i] != m[j] by {
        assert(all[i] == v2[i]);
        assert(m.contains(m[j]));
        if rest.contains(m[j]) {
            let k = choose|k: int| 0 <= k < rest.len() && rest[k] == m[j];
            assert(all[vl + 1 + k] == m[j]);
        } else {
            assert(all.contains(v2[i]));
        }
    }
    vstd::seq_lib::lemma_no_dup_in_concat(v2, m);
    let nw = v2 + m;
    assert forall|i: int| 0 <= i < nw.len() implies #[trigger] nw[i] < nodes.len() by {
        if i < v2.len() {
            assert(all[i] == nw[i]);
        } else {
            assert(m.contains(nw[i]));
            if rest.contains(nw[i]) {
                let k = choose|k: int| 0 <= k < rest.len() && rest[k] == nw[i];
                assert(all[vl + 1 + k] == nw[i]);
            } else {
                let k = choose|k: int| 0 <= k < ch.len() && ch[k] == nw[i];
            }
        }
    }
    assert forall|j: int| #![trigger nodes[j].parent]
        0 <= j < nodes.len() implies (nw.contains(j as usize) <==> (j == root || (nodes[j].parent is Some
            && v2.contains(nodes[j].parent->0)))) by {
        lemma_contains_concat(v2, m, j as usize);
        lemma_contains_concat(v2, rest, j as usize);
        assert(ch.contains(j as usize) <==> nodes[j].parent == Some(n)) by {
            if ch.contains(j as usize) {
                let k = choose|k: int| 0 <= k < ch.len() && ch[k] == j as usize;
            }
        }
        if nodes[j].parent is Some {
            let p = nodes[j].parent->0;
            assert(v2.contains(p) <==> visited.contains(p) || p == n) by {
                if v2.contains(p) {
                    let k = choose|k: int| 0 <= k < v2.len() && v2[k] == p;
                    if k < vl {
                        assert(visited[k] == p);
                    }
                }
                if visited.contains(p) {
                    let k = choose|k: int| 0 <= k < visited.len() && visited[k] == p;
                    assert(v2[k] == p);
                }
                if p == n {
                    assert(v2[vl] == p);
                }
            }
        }
    }
}

/// With an empty queue, every node that reaches the root within `f` steps
/// has been visited.
proof fn lemma_closed_reach(nodes: Seq<Node>, root: int, bound: nat, visited: Seq<usize>, j: int, f: nat)
    requires
        arena_is_tree(nodes, root, bound),
        frontier_ok(nodes, root, visited, Seq::empty()),
        0 <= j < nodes.len(),
        reaches_root(nodes, j, f),
    ensures
        visited.contains(j as usize),
    decreases f,
{
    assert(visited + Seq::<usize>::empty() =~= visited);
    if let Some(p) = nodes[j].parent {
        lemma_closed_reach(nodes, root, bound, visited, p as int, (f - 1) as nat);
    }
}

/// Pulling until the queue is empty visits every node once, and the queue
/// is empty once as many nodes as the arena holds have been visited.
proof fn lemma_run(
    nodes: Seq<Node>,
    root: int,
    bound: nat,
    kind: TraversalKind,
    visited: Seq<usize>,
    q: Seq<usize>,
    k: nat,
)
    requires
        arena_is_tree(nodes, root, bound),
        frontier_ok(nodes, root, visited, q),
        visited.len() + k >= nodes.len(),
    ensures
        (visited + produced(nodes, kind, q, k)).no_duplicates(),
        forall|j: int| 0 <= j < nodes.len() ==> #[trigger] (visited + produced(nodes, kind, q, k)).contains(j as usize),
        forall|i: int| 0 <= i < (visited + produced(nodes, kind, q, k)).len() ==>
            #[trigger] (visited + produced(nodes, kind, q, k))[i] < nodes.len(),
        queue_after(nodes, kind, q, k).len() == 0,
    decreases k,
{
    if q.len() == 0 {
        assert(visited + q =~= visited);
        assert(visited + produced(nodes, kind, q, k) =~= visited);
        assert forall|j: int| 0 <= j < nodes.len() implies #[trigger] visited.contains(j as usize) by {
            assert(q =~= Seq::<usize>::empty());
            lemma_closed_reach(nodes, root, bound, visited, j, bound);
        }
    } else if k == 0 {
        lemma_distinct_below(visited + q, nodes.len());
    } else {
        lemma_frontier_step(nodes, root, bound, kind, visited, q);
        let q2 = step_queue(nodes, kind, q);
        lemma_run(nodes, root, bound, kind, visited.push(q[0]), q2, (k - 1) as nat);
        assert(visited + produced(nodes, kind, q, k) =~= visited.push(q[0]) + produced(nodes, kind, q2, (k - 1) as nat));
    }
}

/// The traversal invariant holds at the start, with only the root queued.
proof fn lemma_frontier_start(nodes: Seq<Node>, root: int, bound: nat)
    requires
        arena_is_tree(nodes, root, bound),
        nodes.len() <= usize::MAX,
    ensures
        frontier_ok(nodes, root, Seq::empty(), seq![root as usize]),
{
    let q = seq![root as usize];
    assert(Seq::<usize>::empty() + q =~= q);
    assert forall|j: int| #![trigger nodes[j].parent] 0 <= j < nodes.len() implies (q.contains(j as usize) <==> (j == root || (
        nodes[j].parent is Some && Seq::<usize>::empty().contains(nodes[j].parent->0)))) by {
        if j == root {
            assert(q[0] == j as usize);
        }
    }
}

/// A traversal, breadth-first or depth-first, of a well-formed tree visits
/// every node exactly once, and its work queue is empty after that.
pub proof fn lemma_traversal_visits_each_node_once(t: Tree, kind: TraversalKind)
    requires
        t.wf(),
    ensures
        order(t, kind).no_duplicates(),
        forall|j: int| 0 <= j < t.spec_len() ==> #[trigger] order(t, kind).contains(j as usize),
        forall|i: int| 0 <= i < order(t, kind).len() ==> #[trigger] order(t, kind)[i] < t.spec_len(),
        queue_after(t.spec_nodes(), kind, seq![t.spec_root() as usize], t.spec_len()).len() == 0,
{
    t.lemma_wf_shape();
    let nodes = t.spec_nodes();
    let root = t.spec_root();
    lemma_frontier_start(nodes, root, t.spec_bound());
    lemma_run(nodes, root, t.spec_bound(), kind, Seq::empty(), seq![root as usize], t.spec_len());
    assert(Seq::<usize>::empty() + order(t, kind) =~= order(t, kind));
}

/// Fewer pulls produce a prefix of what more pulls produce, and nothing
/// more comes once the queue is empty.
proof fn lemma_produced_prefix(nodes: Seq<Node>, kind: TraversalKind, q: Seq<usize>, k: nat, m: nat)
    requires
        k <= m,
    ensures
        produced(nodes, kind, q, k).len() <= produced(nodes, kind, q, m).len(),
        produced(nodes, kind, q, k) =~= produced(nodes, kind, q, m).take(produced(nodes, kind, q, k).len() as int),
        queue_after(nodes, kind, q, k).len() == 0 ==> produced(nodes, kind, q, m) == produced(nodes, kind, q, k),
    decreases k,
{
    if k > 0 && q.len() > 0 {
        lemma_produced_prefix(nodes, kind, step_queue(nodes, kind, q), (k - 1) as nat, (m - 1) as nat);
    } else if q.len() == 0 {
    } else {
        assert(produced(nodes, kind, q, k) =~= Seq::<usize>::empty());
    }
}

/// Traversing an unmodified tree again yields the same sequence: any number
/// of pulls from a fresh traversal yields a prefix of `order(t, kind)`, and
/// once that whole sequence has come out, further pulls yield nothing.
pub proof fn lemma_traversal_repeatable(t: Tree, kind: TraversalKind, pulls: nat)
    requires
        t.wf(),
    ensures
        produced(t.spec_nodes(), kind, seq![t.spec_root() as usize], pulls) == order(t, kind).take(
            produced(t.spec_nodes(), kind, seq![t.spec_root() as usize], pulls).len() as int,
        ),
        pulls >= t.spec_len() ==> produced(t.spec_nodes(), kind, seq![t.spec_root() as usize], pulls) == order(t, kind),
{
    let nodes = t.spec_nodes();
    let q = seq![t.spec_root() as usize];
    lemma_traversal_visits_each_node_once(t, kind);
    if pulls <= t.spec_len() {
        lemma_produced_prefix(nodes, kind, q, pulls, t.spec_len());
    } else {
        lemma_produced_prefix(nodes, kind, q, t.spec_len(), pulls);
        assert(order(t, kind).take(order(t, kind).len() as int) =~= order(t, kind));
    }
}

/// One more pull from a non-empty queue produces its front position.
proof fn lemma_produced_extend(nodes: Seq<Node>, kind: TraversalKind, q: Seq<usize>, k: nat)
    requires
        queue_after(nodes, kind, q, k).len() > 0,
    ensures
        produced(nodes, kind, q, k + 1) == produced(nodes, kind, q, k).push(queue_after(nodes, kind, q, k)[0]),
        queue_after(nodes, kind, q, k + 1) == step_queue(nodes, kind, queue_after(nodes, kind, q, k)),
    decreases k,
{
    if k == 0 {
        assert(queue_after(nodes, kind, step_queue(nodes, kind, q), 0) == step_queue(nodes, kind, q));
        assert(produced(nodes, kind, step_queue(nodes, kind, q), 0) =~= Seq::<usize>::empty());
        assert(produced(nodes, kind, q, 1) =~= seq![q[0]]);
        assert(produced(nodes, kind, q, 0).push(q[0]) =~= seq![q[0]]);
    } else {
        assert(q.len() > 0);
        let q2 = step_queue(nodes, kind, q);
        lemma_produced_extend(nodes, kind, q2, (k - 1) as nat);
        assert(produced(nodes, kind, q, k + 1) =~= seq![q[0]] + produced(nodes, kind, q2, k));
        assert(produced(nodes, kind, q, k) =~= seq![q[0]] + produced(nodes, kind, q2, (k - 1) as nat));
        assert(queue_after(nodes, kind, q, k) == queue_after(nodes, kind, q2, (k - 1) as nat));
        assert(queue_after(nodes, kind, q, k + 1) == queue_after(nodes, kind, q2, k));
        assert(produced(nodes, kind, q, k + 1) =~= produced(nodes, kind, q, k).push(queue_after(nodes, kind, q, k)[0]));
    }
}

/// A lazy traversal of a tree: a work queue of arena positions, seeded with
/// the root, from which each pull takes the front node and queues its
/// children. It borrows the tree, so the tree cannot be mutated while a
/// traversal is alive; dropping it early needs no cleanup.
pub struct TreeIterator<'a> {
    tree: &'a Tree,
    visit_list: VecDeque<usize>,
    kind: TraversalKind,
}

impl<'a> TreeIterator<'a> {
    /// The tree being traversed.
    pub closed spec fn spec_tree(&self) -> Tree {
        *self.tree
    }

    /// The positions still queued, front first.
    pub closed spec fn spec_queue(&self) -> Seq<usize> {
        self.visit_list@
    }

    /// The order of this traversal.
    pub closed spec fn spec_kind(&self) -> TraversalKind {
        self.kind
    }

    /// The tree is well formed and the queue holds positions of its nodes.
    pub open spec fn valid(&self) -> bool {
        &&& self.spec_tree().wf()
        &&& forall|i: int| 0 <= i < self.spec_queue().len() ==> #[trigger] self.spec_queue()[i] < self.spec_tree().spec_len()
    }

    /// A traversal of `tree` in the given order, with only the root queued.
    pub fn new(tree: &'a Tree, kind: TraversalKind) -> (it: TreeIterator<'a>)
        requires
            tree.wf(),
        ensures
            it.valid(),
            it.spec_tree() == *tree,
            it.spec_kind() == kind,
            it.spec_queue() == seq![tree.spec_root() as usize],
    {
        proof {
            tree.lemma_wf_shape();
        }
        let mut visit_list: VecDeque<usize> = VecDeque::new();
        visit_list.push_back(tree.root());
        proof {
            assert(visit_list@ =~= seq![tree.spec_root() as usize]);
        }
        TreeIterator { tree, visit_list, kind }
    }

    /// Takes the front position of the queue, if any, and queues the
    /// children of that node: at the back for `Bfs`, one by one at the front
    /// for `Dfs`.
    pub fn next_position(&mut self) -> (r: Option<usize>)
        requires
            old(self).valid(),
        ensures
            final(self).valid(),
            final(self).spec_tree() == old(self).spec_tree(),
            final(self).spec_kind() == old(self).spec_kind(),
            old(self).spec_queue().len() == 0 ==> r is None && final(self).spec_queue() == old(self).spec_queue(),
            old(self).spec_queue().len() > 0 ==> r == Some(old(self).spec_queue()[0]) && final(self).spec_queue()
                == step_queue(old(self).spec_tree().spec_nodes(), old(self).spec_kind(), old(self).spec_queue()),
    {
        let tree: &'a Tree = self.tree;
        proof {
            tree.lemma_wf_shape();
        }
        match self.visit_list.pop_front() {
            None => None,
            Some(n) => {
                let ghost q0 = old(self).visit_list@;
                let ghost rest = self.visit_list@;
                let ghost nodes = tree.spec_nodes();
                let ghost ch = child_positions(nodes, n as int);
                proof {
                    assert(q0[0] == n);
                    assert(rest =~= q0.drop_first());
                }
                let node = tree.node(n);
                let mut k: usize = 0;
                while k < node.children.len()
                    invariant
                        self.tree == tree,
                        self.kind == old(self).kind,
                        tree.wf(),
                        n < nodes.len(),
                        nodes == tree.spec_nodes(),
                        *node == nodes[n as int],
                        ch == child_positions(nodes, n as int),
                        k <= ch.len(),
                        self.kind == TraversalKind::Bfs ==> self.visit_list@ == rest + ch.take(k as int),
                        self.kind == TraversalKind::Dfs ==> self.visit_list@ == ch.take(k as int).reverse() + rest,
                    decreases ch.len() - k,
                {
                    let c = node.children[k].destination;
                    let ghost before = ch.take(k as int);
                    proof {
                        assert(ch[k as int] == c);
                        assert(ch.take(k as int + 1) =~= before.push(c));
                    }
                    match self.kind {
                        TraversalKind::Bfs => {
                            self.visit_list.push_back(c);
                            proof {
                                assert(self.visit_list@ =~= rest + ch.take(k as int + 1));
                            }
                        },
                        TraversalKind::Dfs => {
                            self.visit_list.push_front(c);
                            proof {
                                lemma_reverse_facts(before);
                                lemma_reverse_facts(before.push(c));
                                assert(before.push(c).reverse() =~= seq![c] + before.reverse());
                                assert(self.visit_list@ =~= ch.take(k as int + 1).reverse() + rest);
                            }
                        },
                    }
                    k = k + 1;
                }
                proof {
                    assert(ch.take(ch.len() as int) =~= ch);
                    let q1 = self.visit_list@;
                    assert(q1 == step_queue(nodes, self.kind, q0));
                    lemma_reverse_facts(ch);
                    assert forall|i: int| 0 <= i < q1.len() implies #[trigger] q1[i] < nodes.len() by {
                        match self.kind {
                            TraversalKind::Bfs => {
                                if i < rest.len() {
                                    assert(q1[i] == q0[i + 1]);
                                } else {
                                    assert(q1[i] == ch[i - rest.len()]);
                                }
                            },
                            TraversalKind::Dfs => {
                                if i < ch.len() {
                                    assert(q1[i] == ch[ch.len() - 1 - i]);
                                } else {
                                    assert(q1[i] == q0[i - ch.len() + 1]);
                                }
                            },
                        }
                    }
                }
                Some(n)
            },
        }
    }

    /// Takes the next node of the traversal, as `next_position` does.
    pub fn next(&mut self) -> (r: Option<&'a Node>)
        requires
            old(self).valid(),
        ensures
            final(self).valid(),
            final(self).spec_tree() == old(self).spec_tree(),
            final(self).spec_kind() == old(self).spec_kind(),
            old(self).spec_queue().len() == 0 ==> r is None && final(self).spec_queue() == old(self).spec_queue(),
            old(self).spec_queue().len() > 0 ==> {
                &&& r is Some
                &&& *r->0 == old(self).spec_tree().spec_nodes()[old(self).spec_queue()[0] as int]
                &&& final(self).spec_queue() == step_queue(
                    old(self).spec_tree().spec_nodes(),
                    old(self).spec_kind(),
                    old(self).spec_queue(),
                )
            },
    {
        let tree: &'a Tree = self.tree;
        match self.next_position() {
            None => None,
            Some(p) => Some(tree.node(p)),
        }
    }
}

impl Tree {
    /// A breadth-first traversal, starting at the root.
    pub fn iter_bfs(&self) -> (it: TreeIterator<'_>)
        requires
            self.wf(),
        ensures
            it.valid(),
            it.spec_tree() == *self,
            it.spec_kind() == TraversalKind::Bfs,
            it.spec_queue() == seq![self.spec_root() as usize],
    {
        TreeIterator::new(self, TraversalKind::Bfs)
    }

    /// A depth-first traversal, starting at the root.
    pub fn iter_dfs(&self) -> (it: TreeIterator<'_>)
        requires
            self.wf(),
        ensures
            it.valid(),
            it.spec_tree() == *self,
            it.spec_kind() == TraversalKind::Dfs,
            it.spec_queue() == seq![self.spec_root() as usize],
    {
        TreeIterator::new(self, TraversalKind::Dfs)
    }

    /// The arena positions of all nodes, in the order a traversal of the
    /// given kind visits them.
    pub fn visit_order(&self, kind: TraversalKind) -> (r: Vec<usize>)
        requires
            self.wf(),
        ensures
            r@ == order(*self, kind),
    {
        proof {
            self.lemma_wf_shape();
        }
        let ghost nodes = self.spec_nodes();
        let ghost q0 = seq![self.spec_root() as usize];
        let mut it = TreeIterator::new(self, kind);
        let mut out: Vec<usize> = Vec::new();
        proof {
            lemma_frontier_start(nodes, self.spec_root(), self.spec_bound());
            assert(produced(nodes, kind, q0, 0) =~= Seq::<usize>::empty());
        }
        loop
            invariant
                self.wf(),
                nodes == self.spec_nodes(),
                q0 == seq![self.spec_root() as usize],
                arena_is_tree(nodes, self.spec_root(), self.spec_bound()),
                it.valid(),
                it.spec_tree() == *self,
                it.spec_kind() == kind,
                out@.len() <= nodes.len(),
                out@ == produced(nodes, kind, q0, out@.len()),
                it.spec_queue() == queue_after(nodes, kind, q0, out@.len()),
                frontier_ok(nodes, self.spec_root(), out@, it.spec_queue()),
            ensures
                out@ == order(*self, kind),
            decreases nodes.len() - out@.len(),
        {
            let ghost k = out@.len();
            let ghost q = it.spec_queue();
            match it.next_position() {
                None => {
                    proof {
                        assert(q.len() == 0);
                        lemma_produced_prefix(nodes, kind, q0, k, nodes.len());
                    }
                    break;
                },
                Some(p) => {
                    proof {
                        lemma_produced_extend(nodes, kind, q0, k);
                        lemma_frontier_step(nodes, self.spec_root(), self.spec_bound(), kind, out@, q);
                        lemma_distinct_below(out@ + q, nodes.len());
                    }
                    out.push(p);
                    proof {
                        let q1 = it.spec_queue();
                        if q1.len() > 0 {
                            lemma_distinct_below(out@ + q1, nodes.len());
                        }
                    }
                },
            }
        }
        out
    }

    /// The ids of all nodes, in the order a traversal of the given kind
    /// visits them.
    pub fn visit_ids(&self, kind: TraversalKind) -> (r: Vec<u64>)
        requires
            self.wf(),
        ensures
            r@ == order(*self, kind).map_values(|p: usize| self.spec_nodes()[p as int].id),
    {
        let positions = self.visit_order(kind);
        proof {
            lemma_traversal_visits_each_node_once(*self, kind);
        }
        let mut ids: Vec<u64> = Vec::new();
        let mut i: usize = 0;
        while i < positions.len()
            invariant
                i <= positions@.len(),
                positions@ == order(*self, kind),
                forall|j: int| 0 <= j < positions@.len() ==> #[trigger] positions@[j] < self.spec_len(),
                ids@ == positions@.take(i as int).map_values(|p: usize| self.spec_nodes()[p as int].id),
            decreases positions@.len() - i,
        {
            let p = positions[i];
            ids.push(self.node(p).id);
            proof {
                assert(positions@.take(i as int + 1) =~= positions@.take(i as int).push(p));
                assert(ids@ =~= positions@.take(i as int + 1).map_values(|p: usize| self.spec_nodes()[p as int].id));
            }
            i = i + 1;
        }
        proof {
            assert(positions@.take(positions@.len() as int) =~= positions@);
        }
        ids
    }
}

/// The ids that a traversal of `t` produces, in order.
pub open spec fn order_ids(t: Tree, kind: TraversalKind) -> Seq<u64> {
    order(t, kind).map_values(|p: usize| t.spec_nodes()[p as int].id)
}

/// A tree built from an edge list that forms a tree is traversed, in either
/// order, by producing each endpoint id of the list exactly once.
pub proof fn lemma_edge_list_traversal(edges: Seq<Edge>, t: Tree, kind: TraversalKind)
    requires
        forms_tree(edges),
        t.wf(),
        t.describes(edges),
    ensures
        order_ids(t, kind).no_duplicates(),
        forall|v: u64| #[trigger] order_ids(t, kind).contains(v) <==> is_endpoint(edges, v),
{
    lemma_traversal_visits_each_node_once(t, kind);
    t.lemma_wf_shape();
    let o = order(t, kind);
    let ids = order_ids(t, kind);
    let nodes = t.spec_nodes();
    assert forall|i: int, j: int| 0 <= i < j < ids.len() implies ids[i] != ids[j] by {
        assert(o[i] != o[j]);
        assert(o[i] < nodes.len() && o[j] < nodes.len());
        if o[i] < o[j] {
            assert(nodes[o[i] as int].id != nodes[o[j] as int].id);
        } else {
            assert(nodes[o[j] as int].id != nodes[o[i] as int].id);
        }
    }
    assert forall|v: u64| #[trigger] ids.contains(v) <==> is_endpoint(edges, v) by {
        if ids.contains(v) {
            let i = choose|i: int| 0 <= i < ids.len() && ids[i] == v;
            assert(o[i] < nodes.len());
            assert(t.spec_nodes()[o[i] as int].id == v);
            assert(t.contains_id(v));
        }
        if is_endpoint(edges, v) {
            assert(t.contains_id(v));
            let p = choose|p: int| 0 <= p < t.spec_len() && #[trigger] t.spec_nodes()[p].id == v;
            assert(o.contains(p as usize));
            let i = choose|i: int| 0 <= i < o.len() && o[i] == p as usize;
            assert(ids[i] == v);
        }
    }
}

} // verus!
