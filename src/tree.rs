use vstd::prelude::*;
use std::collections::HashMap;
use crate::error::TreeError;
use crate::edges::{
    Edge, all_reach_root, edge_reaches_root, forms_tree, has_no_root, has_several_roots, incoming, is_destination,
    is_edge_root, is_endpoint, leaves, outgoing, shares_destination,
};

verus! {

broadcast use vstd::std_specs::hash::group_hash_axioms;

/// A weighted edge owned by its source node; `destination` is the arena
/// position of the child node.
#[derive(Debug, Clone, Copy, PartialEq, Eq, Structural)]
pub struct Branch {
    pub weight: u64,
    pub destination: usize,
}

/// A vertex of the tree: its id, the arena position of its parent (none for
/// the root) and its outgoing branches in insertion order.
#[derive(Debug)]
pub struct Node {
    pub id: u64,
    pub parent: Option<usize>,
    pub children: Vec<Branch>,
}

impl PartialEq for Node {
    /// Nodes compare by id alone.
    fn eq(&self, other: &Node) -> (r: bool) {
        self.id == other.id
    }
}

impl vstd::std_specs::cmp::PartialEqSpecImpl for Node {
    open spec fn obeys_eq_spec() -> bool {
        true
    }

    open spec fn eq_spec(&self, other: &Node) -> bool {
        self.id == other.id
    }
}

/// The arena positions of the children of node `i`, in stored order.
pub open spec fn child_positions(nodes: Seq<Node>, i: int) -> Seq<usize> {
    nodes[i].children@.map_values(|b: Branch| b.destination)
}

/// The (child id, weight) pairs of the branches of node `i`, in stored order.
pub open spec fn branch_pairs(nodes: Seq<Node>, i: int) -> Seq<(u64, u64)> {
    nodes[i].children@.map_values(|b: Branch| (nodes[b.destination as int].id, b.weight))
}

/// Following parent links from position `i`, a node without parent is met
/// within `fuel` steps.
pub open spec fn reaches_root(nodes: Seq<Node>, i: int, fuel: nat) -> bool
    decreases fuel,
{
    match nodes[i].parent {
        None => true,
        Some(p) => fuel > 0 && reaches_root(nodes, p as int, (fuel - 1) as nat),
    }
}

/// Child lists and parent links describe the same edges: each child of `i`
/// has `i` as parent, no child is listed twice, and each node with a parent
/// is listed among that parent's children.
pub open spec fn links_agree(nodes: Seq<Node>) -> bool {
    &&& forall|i: int, k: int| #![trigger child_positions(nodes, i)[k]]
        0 <= i < nodes.len() && 0 <= k < child_positions(nodes, i).len() ==> {
            &&& child_positions(nodes, i)[k] < nodes.len()
            &&& nodes[child_positions(nodes, i)[k] as int].parent == Some(i as usize)
        }
    &&& forall|i: int| 0 <= i < nodes.len() ==> (#[trigger] child_positions(nodes, i)).no_duplicates()
    &&& forall|j: int| #![trigger nodes[j].parent]
        0 <= j < nodes.len() && nodes[j].parent is Some ==> child_positions(nodes, nodes[j].parent->0 as int).contains(j as usize)
}

/// The shape of a rooted tree laid out in an arena: one parent-less root,
/// every other node with a parent in the arena, child lists that agree with
/// the parent links, distinct ids, and no cycles (every node reaches the root
/// within `bound` parent steps).
pub open spec fn arena_is_tree(nodes: Seq<Node>, root: int, bound: nat) -> bool {
    &&& 0 <= root < nodes.len()
    &&& nodes[root].parent is None
    &&& forall|i: int| #![trigger nodes[i].parent]
        0 <= i < nodes.len() && i != root ==> nodes[i].parent is Some && nodes[i].parent->0 < nodes.len()
    &&& forall|i: int, j: int| 0 <= i < j < nodes.len() ==> #[trigger] nodes[i].id != #[trigger] nodes[j].id
    &&& links_agree(nodes)
    &&& forall|i: int| 0 <= i < nodes.len() ==> #[trigger] reaches_root(nodes, i, bound)
}

/// `index` maps each id in the arena to its position, and nothing else.
pub open spec fn index_matches(nodes: Seq<Node>, index: Map<u64, usize>) -> bool {
    &&& forall|i: int| 0 <= i < nodes.len() ==> #[trigger] index.contains_key(nodes[i].id) && index[nodes[i].id] == i
    &&& forall|k: u64| #[trigger] index.contains_key(k) ==> index[k] < nodes.len() && nodes[index[k] as int].id == k
}

/// Allowing more steps keeps a node's path to the root.
proof fn lemma_reaches_root_mono(nodes: Seq<Node>, i: int, f: nat, g: nat)
    requires
        reaches_root(nodes, i, f),
        f <= g,
    ensures
        reaches_root(nodes, i, g),
    decreases f,
{
    if let Some(p) = nodes[i].parent {
        lemma_reaches_root_mono(nodes, p as int, (f - 1) as nat, (g - 1) as nat);
    }
}

/// Paths to the root only see parent links, and those stay within the
/// first `old.len()` positions.
proof fn lemma_reaches_root_frame(old: Seq<Node>, new: Seq<Node>, i: int, f: nat)
    requires
        old.len() <= new.len(),
        0 <= i < old.len(),
        forall|j: int| #![trigger old[j].parent] 0 <= j < old.len() ==> new[j].parent == old[j].parent,
        forall|j: int| #![trigger old[j].parent]
            0 <= j < old.len() && old[j].parent is Some ==> old[j].parent->0 < old.len(),
    ensures
        reaches_root(new, i, f) == reaches_root(old, i, f),
    decreases f,
{
    assert(new[i].parent == old[i].parent);
    if let Some(p) = old[i].parent {
        if f > 0 {
            lemma_reaches_root_frame(old, new, p as int, (f - 1) as nat);
        }
    }
}

/// A rooted tree: an arena of nodes, the position of the root, and an index
/// from id to position used for lookups.
pub struct Tree {
    nodes: Vec<Node>,
    root: usize,
    index: HashMap<u64, usize>,
    bound: Ghost<nat>,
}

impl Tree {
    /// The nodes, in arena order.
    pub closed spec fn spec_nodes(&self) -> Seq<Node> {
        self.nodes@
    }

    /// The arena position of the root.
    pub closed spec fn spec_root(&self) -> int {
        self.root as int
    }

    /// A number of parent steps within which every node reaches the root.
    pub closed spec fn spec_bound(&self) -> nat {
        self.bound@
    }

    /// The internal invariant: a well-shaped tree with an index in sync.
    pub closed spec fn wf(&self) -> bool {
        &&& arena_is_tree(self.nodes@, self.root as int, self.bound@)
        &&& index_matches(self.nodes@, self.index@)
        &&& self.nodes@.len() <= usize::MAX
    }

    /// The number of nodes.
    pub open spec fn spec_len(&self) -> nat {
        self.spec_nodes().len()
    }

    /// Some node of the tree has id `k`.
    pub open spec fn contains_id(&self, k: u64) -> bool {
        exists|i: int| 0 <= i < self.spec_len() && #[trigger] self.spec_nodes()[i].id == k
    }

    /// The arena position of the node with id `k`.
    pub open spec fn position_of(&self, k: u64) -> int {
        choose|i: int| 0 <= i < self.spec_len() && #[trigger] self.spec_nodes()[i].id == k
    }

    /// The id of the root.
    pub open spec fn spec_root_id(&self) -> u64 {
        self.spec_nodes()[self.spec_root()].id
    }

    /// A well-formed tree has the shape of a rooted tree.
    pub proof fn lemma_wf_shape(&self)
        requires
            self.wf(),
        ensures
            arena_is_tree(self.spec_nodes(), self.spec_root(), self.spec_bound()),
            0 <= self.spec_root() < self.spec_len() <= usize::MAX,
    {
    }

    /// The number of nodes.
    pub fn len(&self) -> (n: usize)
        ensures
            n == self.spec_len(),
    {
        self.nodes.len()
    }

    /// The arena position of the root.
    pub fn root(&self) -> (r: usize)
        ensures
            r == self.spec_root(),
    {
        self.root
    }

    /// The node at arena position `i`.
    pub fn node(&self, i: usize) -> (n: &Node)
        requires
            i < self.spec_len(),
        ensures
            *n == self.spec_nodes()[i as int],
    {
        &self.nodes[i]
    }

    /// The id of the root.
    pub fn root_id(&self) -> (k: u64)
        requires
            self.wf(),
        ensures
            k == self.spec_root_id(),
    {
        self.nodes[self.root].id
    }

    /// The weight of the branch that leads from its parent to the node at
    /// position `i`; none for the root.
    pub fn weight_to_parent(&self, i: usize) -> (r: Option<u64>)
        requires
            self.wf(),
            i < self.spec_len(),
        ensures
            r is None <==> self.spec_nodes()[i as int].parent is None,
            r matches Some(w) ==> self.spec_nodes()[self.spec_nodes()[i as int].parent->0 as int].children@.contains(
                Branch { weight: w, destination: i },
            ),
    {
        match self.nodes[i].parent {
            None => None,
            Some(p) => {
                let ghost ch = child_positions(self.nodes@, p as int);
                proof {
                    assert(ch.contains(i));
                }
                let parent = &self.nodes[p];
                let mut k: usize = 0;
                while k < parent.children.len()
                    invariant
                        i < self.nodes@.len(),
                        p < self.nodes@.len(),
                        self.nodes@[i as int].parent == Some(p),
                        *parent == self.nodes@[p as int],
                        ch == child_positions(self.nodes@, p as int),
                        ch.contains(i),
                        k <= ch.len(),
                        forall|j: int| 0 <= j < k ==> ch[j] != i,
                    decreases ch.len() - k,
                {
                    let b = parent.children[k];
                    if b.destination == i {
                        proof {
                            assert(parent.children@[k as int] == Branch { weight: b.weight, destination: i });
                        }
                        return Some(b.weight);
                    }
                    k = k + 1;
                }
                proof {
                    let j = choose|j: int| 0 <= j < ch.len() && ch[j] == i;
                    assert(ch[j] != i);
                }
                None
            },
        }
    }

    /// Whether some node has id `k`.
    pub fn contains(&self, k: u64) -> (b: bool)
        requires
            self.wf(),
        ensures
            b == self.contains_id(k),
    {
        let b = self.index.contains_key(&k);
        proof {
            if self.contains_id(k) {
                let i = self.position_of(k);
                assert(self.index@.contains_key(self.nodes@[i].id));
            }
        }
        b
    }

    /// A tree holding only a root with id `root_id`.
    pub fn new(root_id: u64) -> (t: Tree)
        ensures
            t.wf(),
            t.spec_len() == 1,
            t.spec_root() == 0,
            t.spec_nodes()[0].id == root_id,
            t.spec_nodes()[0].parent is None,
            t.spec_nodes()[0].children@.len() == 0,
    {
        let mut nodes: Vec<Node> = Vec::new();
        nodes.push(Node { id: root_id, parent: None, children: Vec::new() });
        let mut index: HashMap<u64, usize> = HashMap::new();
        index.insert(root_id, 0);
        let t = Tree { nodes, root: 0, index, bound: Ghost(0) };
        proof {
            assert(child_positions(t.nodes@, 0) =~= Seq::<usize>::empty());
            assert(reaches_root(t.nodes@, 0, 0));
        }
        t
    }
    /// Attaches a new node with id `child_id` under the node with id
    /// `parent_id`, through a branch of the given weight appended after the
    /// parent's existing branches.
    pub fn add_child(&mut self, parent_id: u64, child_id: u64, weight: u64) -> (r: Result<(), TreeError>)
        requires
            old(self).wf(),
        ensures
            final(self).wf(),
            !old(self).contains_id(parent_id) ==> r == Err::<(), TreeError>(TreeError::UnknownParent)
                && *final(self) == *old(self),
            old(self).contains_id(parent_id) && old(self).contains_id(child_id) ==> r == Err::<(), TreeError>(
                TreeError::DuplicateId,
            ) && *final(self) == *old(self),
            old(self).contains_id(parent_id) && !old(self).contains_id(child_id) ==> {
                let p = old(self).position_of(parent_id);
                let n = old(self).spec_len() as int;
                &&& r is Ok
                &&& final(self).spec_len() == n + 1
                &&& final(self).spec_root() == old(self).spec_root()
                &&& final(self).spec_nodes()[n].id == child_id
                &&& final(self).spec_nodes()[n].parent == Some(p as usize)
                &&& final(self).spec_nodes()[n].children@.len() == 0
                &&& final(self).spec_nodes()[p].id == parent_id
                &&& final(self).spec_nodes()[p].parent == old(self).spec_nodes()[p].parent
                &&& final(self).spec_nodes()[p].children@ == old(self).spec_nodes()[p].children@.push(
                    Branch { weight, destination: n as usize },
                )
                &&& forall|i: int| 0 <= i < n && i != p ==> #[trigger] final(self).spec_nodes()[i] == old(self).spec_nodes()[i]
            },
    {
        let p = match self.index.get(&parent_id) {
            Some(p) => *p,
            None => {
                proof {
                    if self.contains_id(parent_id) {
                        let i = self.position_of(parent_id);
                        assert(self.index@.contains_key(self.nodes@[i].id));
                    }
                }
                return Err(TreeError::UnknownParent);
            },
        };
        if self.index.contains_key(&child_id) {
            assert(self.nodes@[self.index@[child_id] as int].id == child_id);
            return Err(TreeError::DuplicateId);
        }
        let ghost old_nodes = self.nodes@;
        let ghost b = self.bound@;
        proof {
            assert(old_nodes[p as int].id == parent_id);
            if self.contains_id(child_id) {
                let i = self.position_of(child_id);
                assert(self.index@.contains_key(self.nodes@[i].id));
            }
            assert(self.position_of(parent_id) == p as int);
        }
        let n = self.nodes.len();
        self.nodes[p].children.push(Branch { weight, destination: n });
        self.nodes.push(Node { id: child_id, parent: Some(p), children: Vec::new() });
        self.index.insert(child_id, n);
        self.bound = Ghost(b + 1);
        proof {
            let nodes = self.nodes@;
            assert forall|i: int| 0 <= i < n && i != p implies nodes[i] == old_nodes[i] by {}
            assert forall|i: int| 0 <= i < n && i != p implies child_positions(nodes, i) == child_positions(old_nodes, i) by {}
            assert(child_positions(nodes, p as int) =~= child_positions(old_nodes, p as int).push(n));
            assert(child_positions(nodes, n as int) =~= Seq::<usize>::empty());
            assert forall|j: int| #![trigger old_nodes[j].parent] 0 <= j < old_nodes.len() implies nodes[j].parent == old_nodes[j].parent by {}
            assert forall|i: int| 0 <= i < nodes.len() implies #[trigger] reaches_root(nodes, i, b + 1) by {
                if i < n {
                    lemma_reaches_root_frame(old_nodes, nodes, i, b);
                    lemma_reaches_root_mono(nodes, i, b, b + 1);
                } else {
                    lemma_reaches_root_frame(old_nodes, nodes, p as int, b);
                }
            }
            assert forall|i: int| 0 <= i < nodes.len() implies (#[trigger] child_positions(nodes, i)).no_duplicates() by {
                if i == p {
                    assert forall|k: int| 0 <= k < child_positions(old_nodes, i).len() implies
                        child_positions(old_nodes, i)[k] != n by {}
                }
            }
            assert forall|j: int| #![trigger nodes[j].parent]
                0 <= j < nodes.len() && nodes[j].parent is Some implies
                child_positions(nodes, nodes[j].parent->0 as int).contains(j as usize) by {
                if j < n {
                    let q = nodes[j].parent->0 as int;
                    assert(child_positions(old_nodes, q).contains(j as usize));
                    if q == p {
                        let k = choose|k: int| 0 <= k < child_positions(old_nodes, q).len() && child_positions(old_nodes, q)[k] == j as usize;
                        assert(child_positions(nodes, q)[k] == j as usize);
                    }
                } else {
                    assert(child_positions(nodes, p as int)[child_positions(nodes, p as int).len() - 1] == n);
                }
            }
            assert(index_matches(nodes, self.index@));
            assert(self.nodes.len() == nodes.len());
        }
        Ok(())
    }
}

/// Every node id of the arena, looked up in `index`, gives back its position.
proof fn lemma_index_ids_unique(nodes: Seq<Node>, index: Map<u64, usize>)
    requires
        index_matches(nodes, index),
    ensures
        forall|i: int, j: int| 0 <= i < j < nodes.len() ==> #[trigger] nodes[i].id != #[trigger] nodes[j].id,
{
    assert forall|i: int, j: int| 0 <= i < j < nodes.len() implies #[trigger] nodes[i].id != #[trigger] nodes[j].id by {
        assert(index.contains_key(nodes[i].id));
        assert(index.contains_key(nodes[j].id));
    }
}

/// An arena whose parent links follow the incoming edges of an edge list
/// reaches its root exactly when the edge list does.
proof fn lemma_reaches_root_agrees(nodes: Seq<Node>, edges: Seq<Edge>, a: int, f: nat)
    requires
        !shares_destination(edges),
        0 <= a < nodes.len(),
        forall|b: int| #![trigger nodes[b].parent]
            0 <= b < nodes.len() ==> (nodes[b].parent is None <==> !is_destination(edges, nodes[b].id)),
        forall|b: int| #![trigger nodes[b].parent]
            0 <= b < nodes.len() && nodes[b].parent is Some ==> {
                &&& nodes[b].parent->0 < nodes.len()
                &&& nodes[nodes[b].parent->0 as int].id == edges[incoming(edges, nodes[b].id)].source
            },
    ensures
        reaches_root(nodes, a, f) == edge_reaches_root(edges, nodes[a].id, f),
    decreases f,
{
    if let Some(p) = nodes[a].parent {
        if f > 0 {
            lemma_reaches_root_agrees(nodes, edges, p as int, (f - 1) as nat);
        }
    }
}

/// Adds a parent-less, childless node with id `id` unless one is there;
/// returns its position.
fn intern(nodes: &mut Vec<Node>, index: &mut HashMap<u64, usize>, id: u64) -> (pos: usize)
    requires
        index_matches(old(nodes)@, old(index)@),
    ensures
        index_matches(final(nodes)@, final(index)@),
        final(index)@ == old(index)@.insert(id, pos),
        pos < final(nodes)@.len(),
        final(nodes)@[pos as int].id == id,
        old(nodes)@.len() <= final(nodes)@.len() <= old(nodes)@.len() + 1,
        forall|i: int| 0 <= i < old(nodes)@.len() ==> #[trigger] final(nodes)@[i] == old(nodes)@[i],
        final(nodes)@.len() == old(nodes)@.len() + 1 ==> {
            &&& pos == old(nodes)@.len()
            &&& final(nodes)@[pos as int].parent is None
            &&& final(nodes)@[pos as int].children@.len() == 0
        },
{
    match index.get(&id) {
        Some(p) => {
            let p = *p;
            proof {
                assert(index@.insert(id, p) =~= index@);
            }
            p
        },
        None => {
            let n = nodes.len();
            nodes.push(Node { id, parent: None, children: Vec::new() });
            index.insert(id, n);
            proof {
                let ns = nodes@;
                let ix = index@;
                assert forall|i: int| 0 <= i < ns.len() implies #[trigger] ix.contains_key(ns[i].id) && ix[ns[i].id] == i by {
                    if i < n {
                        assert(old(index)@.contains_key(old(nodes)@[i].id));
                    }
                }
            }
            n
        },
    }
}

/// One fresh node per distinct endpoint of `edges`, with an index over them.
fn materialize(edges: &[Edge]) -> (res: (Vec<Node>, HashMap<u64, usize>))
    ensures
        index_matches(res.0@, res.1@),
        forall|a: int| #![trigger res.0@[a]]
            0 <= a < res.0@.len() ==> {
                &&& res.0@[a].parent is None
                &&& res.0@[a].children@.len() == 0
                &&& is_endpoint(edges@, res.0@[a].id)
            },
        forall|k: int| #![trigger edges@[k]]
            0 <= k < edges@.len() ==> res.1@.contains_key(edges@[k].source) && res.1@.contains_key(edges@[k].destination),
{
    let mut nodes: Vec<Node> = Vec::new();
    let mut index: HashMap<u64, usize> = HashMap::new();
    let mut i: usize = 0;
    while i < edges.len()
        invariant
            i <= edges@.len(),
            index_matches(nodes@, index@),
            forall|a: int| #![trigger nodes@[a]]
                0 <= a < nodes@.len() ==> {
                    &&& nodes@[a].parent is None
                    &&& nodes@[a].children@.len() == 0
                    &&& is_endpoint(edges@, nodes@[a].id)
                },
            forall|k: int| #![trigger edges@[k]]
                0 <= k < i ==> index@.contains_key(edges@[k].source) && index@.contains_key(edges@[k].destination),
        decreases edges@.len() - i,
    {
        let e = edges[i];
        let ghost before = nodes@;
        let _ = intern(&mut nodes, &mut index, e.source);
        let ghost middle = nodes@;
        let _ = intern(&mut nodes, &mut index, e.destination);
        proof {
            assert(edges@[i as int] == e);
            assert forall|a: int| #![trigger nodes@[a]] 0 <= a < nodes@.len() implies {
                &&& nodes@[a].parent is None
                &&& nodes@[a].children@.len() == 0
                &&& is_endpoint(edges@, nodes@[a].id)
            } by {
                if a < before.len() {
                    assert(middle[a] == before[a]);
                } else if a < middle.len() {
                    assert(nodes@[a] == middle[a]);
                    assert(edges@[i as int].source == middle[a].id);
                } else {
                    assert(edges@[i as int].destination == nodes@[a].id);
                }
            }
        }
        i = i + 1;
    }
    (nodes, index)
}

/// Follows parent links from `start` for at most `fuel` steps and reports
/// whether a parent-less node was met.
fn reaches_root_within(nodes: &Vec<Node>, start: usize, fuel: usize) -> (b: bool)
    requires
        start < nodes@.len(),
        forall|j: int| #![trigger nodes@[j].parent]
            0 <= j < nodes@.len() && nodes@[j].parent is Some ==> nodes@[j].parent->0 < nodes@.len(),
    ensures
        b == reaches_root(nodes@, start as int, fuel as nat),
{
    let mut cur = start;
    let mut left = fuel;
    loop
        invariant
            cur < nodes@.len(),
            left <= fuel,
            forall|j: int| #![trigger nodes@[j].parent]
                0 <= j < nodes@.len() && nodes@[j].parent is Some ==> nodes@[j].parent->0 < nodes@.len(),
            reaches_root(nodes@, start as int, fuel as nat) == reaches_root(nodes@, cur as int, left as nat),
        decreases left,
    {
        match nodes[cur].parent {
            None => {
                return true;
            },
            Some(p) => {
                if left == 0 {
                    return false;
                }
                cur = p;
                left = left - 1;
            },
        }
    }
}

impl Tree {
    /// The tree describes `edges`: its ids are the endpoints, its root is the
    /// endpoint without incoming edge, each edge is a branch from the
    /// source's node to the destination's node, and each node's branches
    /// follow the order of its outgoing edges in the list.
    pub open spec fn describes(&self, edges: Seq<Edge>) -> bool {
        &&& forall|v: u64| #[trigger] self.contains_id(v) <==> is_endpoint(edges, v)
        &&& is_edge_root(edges, self.spec_root_id())
        &&& forall|i: int| #![trigger self.spec_nodes()[i].children]
            0 <= i < self.spec_len() ==> branch_pairs(self.spec_nodes(), i) == outgoing(edges, self.spec_nodes()[i].id)
        &&& forall|k: int| #![trigger edges[k]]
            0 <= k < edges.len() ==> {
                let s = self.position_of(edges[k].source);
                let d = self.position_of(edges[k].destination);
                &&& self.contains_id(edges[k].source)
                &&& self.contains_id(edges[k].destination)
                &&& self.spec_nodes()[d].parent == Some(s as usize)
                &&& self.spec_nodes()[s].children@.contains(
                    Branch { weight: edges[k].weight, destination: d as usize },
                )
            }
    }
}

/// The position that `index` gives to `k`.
fn lookup(index: &HashMap<u64, usize>, k: u64) -> (pos: usize)
    requires
        index@.contains_key(k),
    ensures
        pos == index@[k],
{
    *index.get(&k).unwrap()
}

/// The state after wiring the first `i` edges into a fresh arena: ids and
/// index as materialized, child lists and parent links in agreement, the
/// first `i` destinations distinct, each node with a parent fed by edge
/// `in_edge[a]` among the first `i`, and each branch weighted as its edge.
#[verifier::opaque]
spec fn wired(edges: Seq<Edge>, i: int, nodes: Seq<Node>, index: Map<u64, usize>, in_edge: Seq<int>) -> bool {
    &&& 0 <= i <= edges.len()
    &&& in_edge.len() == nodes.len()
    &&& index_matches(nodes, index)
    &&& forall|a: int| #![trigger nodes[a].id] 0 <= a < nodes.len() ==> is_endpoint(edges, nodes[a].id)
    &&& forall|k: int| #![trigger edges[k]]
        0 <= k < edges.len() ==> index.contains_key(edges[k].source) && index.contains_key(edges[k].destination)
    &&& links_agree(nodes)
    &&& forall|k1: int, k2: int|
        0 <= k1 < k2 < i ==> #[trigger] edges[k1].destination != #[trigger] edges[k2].destination
    &&& forall|a: int| #![trigger nodes[a].parent]
        0 <= a < nodes.len() && nodes[a].parent is Some ==> {
            &&& 0 <= in_edge[a] < i
            &&& edges[in_edge[a]].destination == nodes[a].id
            &&& nodes[a].parent->0 < nodes.len()
            &&& nodes[nodes[a].parent->0 as int].id == edges[in_edge[a]].source
        }
    &&& forall|k: int| #![trigger edges[k]]
        0 <= k < i ==> nodes[index[edges[k].destination] as int].parent is Some
    &&& forall|a: int, j: int| #![trigger nodes[a].children@[j]]
        0 <= a < nodes.len() && 0 <= j < nodes[a].children@.len() ==> nodes[a].children@[j].weight
            == edges[in_edge[nodes[a].children@[j].destination as int]].weight
    &&& forall|a: int| #![trigger nodes[a].children]
        0 <= a < nodes.len() ==> branch_pairs(nodes, a) == outgoing(edges.take(i), nodes[a].id)
}

/// Taking one more edge extends the outgoing pairs of its source only.
proof fn lemma_outgoing_step(edges: Seq<Edge>, i: int, v: u64)
    requires
        0 <= i < edges.len(),
    ensures
        outgoing(edges.take(i + 1), v) == if edges[i].source == v {
            outgoing(edges.take(i), v).push((edges[i].destination, edges[i].weight))
        } else {
            outgoing(edges.take(i), v)
        },
{
    let p = leaves(v);
    assert(edges.take(i + 1) =~= edges.take(i).push(edges[i]));
    edges.take(i).lemma_filter_push(edges[i], p);
    let f = edges.take(i).filter(p);
    if edges[i].source == v {
        assert(f.push(edges[i]).map_values(|e: Edge| (e.destination, e.weight)) =~= f.map_values(
            |e: Edge| (e.destination, e.weight),
        ).push((edges[i].destination, edges[i].weight)));
    }
}

/// A freshly materialized arena is wired for no edge yet.
proof fn lemma_wired_start(edges: Seq<Edge>, nodes: Seq<Node>, index: Map<u64, usize>)
    requires
        index_matches(nodes, index),
        forall|a: int| #![trigger nodes[a]]
            0 <= a < nodes.len() ==> {
                &&& nodes[a].parent is None
                &&& nodes[a].children@.len() == 0
                &&& is_endpoint(edges, nodes[a].id)
            },
        forall|k: int| #![trigger edges[k]]
            0 <= k < edges.len() ==> index.contains_key(edges[k].source) && index.contains_key(edges[k].destination),
    ensures
        wired(edges, 0, nodes, index, Seq::new(nodes.len(), |a: int| 0int)),
{
    reveal(wired);
    assert forall|a: int, k: int| #![trigger child_positions(nodes, a)[k]]
        0 <= a < nodes.len() && 0 <= k < child_positions(nodes, a).len() implies false by {
        assert(nodes[a].children@.len() == 0);
    }
    assert forall|a: int| 0 <= a < nodes.len() implies (#[trigger] child_positions(nodes, a)).no_duplicates() by {
        assert(nodes[a].children@.len() == 0);
    }
    assert forall|a: int| #![trigger nodes[a].parent] 0 <= a < nodes.len() implies nodes[a].parent is None by {
        assert(nodes[a].parent is None);
    }
    assert forall|a: int, j: int| #![trigger nodes[a].children@[j]]
        0 <= a < nodes.len() && 0 <= j < nodes[a].children@.len() implies false by {
        assert(nodes[a].children@.len() == 0);
    }
    assert forall|a: int| #![trigger nodes[a].id] 0 <= a < nodes.len() implies is_endpoint(edges, nodes[a].id) by {
        assert(is_endpoint(edges, nodes[a].id));
    }
    assert forall|a: int| #![trigger nodes[a].children]
        0 <= a < nodes.len() implies branch_pairs(nodes, a) == outgoing(edges.take(0), nodes[a].id) by {
        assert(nodes[a].children@.len() == 0);
        assert(branch_pairs(nodes, a) =~= Seq::<(u64, u64)>::empty());
        assert(edges.take(0) =~= Seq::<Edge>::empty());
        assert(outgoing(edges.take(0), nodes[a].id) =~= Seq::<(u64, u64)>::empty());
    }
}

/// Wiring edge `i` (its destination still parent-less) keeps the state.
#[verifier::rlimit(40)]
proof fn lemma_wire_step(
    edges: Seq<Edge>,
    i: int,
    old_nodes: Seq<Node>,
    ns: Seq<Node>,
    index: Map<u64, usize>,
    in_edge: Seq<int>,
    s: usize,
    d: usize,
)
    requires
        wired(edges, i, old_nodes, index, in_edge),
        i < edges.len(),
        s == index[edges[i].source],
        d == index[edges[i].destination],
        old_nodes[d as int].parent is None,
        ns.len() == old_nodes.len(),
        forall|a: int| 0 <= a < ns.len() && a != s && a != d ==> #[trigger] ns[a] == old_nodes[a],
        forall|a: int| 0 <= a < ns.len() ==> #[trigger] ns[a].id == old_nodes[a].id,
        ns[d as int].parent == Some(s),
        s != d ==> ns[s as int].parent == old_nodes[s as int].parent,
        s != d ==> ns[d as int].children@ == old_nodes[d as int].children@,
        ns[s as int].children@ == old_nodes[s as int].children@.push(
            Branch { weight: edges[i].weight, destination: d },
        ),
    ensures
        wired(edges, i + 1, ns, index, in_edge.update(d as int, i)),
{
    reveal(wired);
    let n0 = old_nodes.len();
    let ie = in_edge.update(d as int, i);
    assert(old_nodes[s as int].id == edges[i].source);
    assert(old_nodes[d as int].id == edges[i].destination);
    assert forall|a: int| 0 <= a < n0 && a != s implies #[trigger] child_positions(ns, a) == child_positions(old_nodes, a) by {
        assert(ns[a].children@ == old_nodes[a].children@);
    }
    assert(child_positions(ns, s as int) =~= child_positions(old_nodes, s as int).push(d));
    assert forall|a: int| #![trigger ns[a].parent] 0 <= a < n0 && a != d implies ns[a].parent == old_nodes[a].parent by {}
    assert forall|a: int, k: int| #![trigger child_positions(old_nodes, a)[k]]
        0 <= a < n0 && 0 <= k < child_positions(old_nodes, a).len() implies child_positions(old_nodes, a)[k] != d by {
    }
    assert forall|a: int, k: int| #![trigger child_positions(ns, a)[k]]
        0 <= a < n0 && 0 <= k < child_positions(ns, a).len() implies {
            &&& child_positions(ns, a)[k] < n0
            &&& ns[child_positions(ns, a)[k] as int].parent == Some(a as usize)
        } by {
        if a == s && k == child_positions(old_nodes, a).len() {
        } else {
            assert(child_positions(ns, a)[k] == child_positions(old_nodes, a)[k]);
        }
    }
    assert forall|a: int| 0 <= a < n0 implies (#[trigger] child_positions(ns, a)).no_duplicates() by {
        if a == s {
            assert forall|k: int| 0 <= k < child_positions(old_nodes, a).len() implies
                child_positions(old_nodes, a)[k] != d by {}
        }
    }
    assert forall|j: int| #![trigger ns[j].parent]
        0 <= j < n0 && ns[j].parent is Some implies child_positions(ns, ns[j].parent->0 as int).contains(j as usize) by {
        if j == d {
            assert(child_positions(ns, s as int)[child_positions(ns, s as int).len() - 1] == d);
        } else {
            let q = ns[j].parent->0 as int;
            assert(old_nodes[j].parent is Some);
            assert(child_positions(old_nodes, q).contains(j as usize));
            if q == s {
                let k = choose|k: int| 0 <= k < child_positions(old_nodes, q).len() && child_positions(old_nodes, q)[k] == j as usize;
                assert(child_positions(ns, q)[k] == j as usize);
            }
        }
    }
    assert(links_agree(ns));
    assert forall|a: int| 0 <= a < ns.len() implies #[trigger] index.contains_key(ns[a].id) && index[ns[a].id] == a by {
        assert(index.contains_key(old_nodes[a].id));
    }
    assert(index_matches(ns, index));
    assert forall|k1: int, k2: int|
        0 <= k1 < k2 < i + 1 implies #[trigger] edges[k1].destination != #[trigger] edges[k2].destination by {
        if k2 == i {
            assert(old_nodes[index[edges[k1].destination] as int].parent is Some);
        }
    }
    assert forall|a: int| #![trigger ns[a].parent]
        0 <= a < n0 && ns[a].parent is Some implies {
            &&& 0 <= ie[a] < i + 1
            &&& edges[ie[a]].destination == ns[a].id
            &&& ns[a].parent->0 < n0
            &&& ns[ns[a].parent->0 as int].id == edges[ie[a]].source
        } by {
        if a != d {
            assert(old_nodes[a].parent is Some);
        }
    }
    assert forall|k: int| #![trigger edges[k]]
        0 <= k < i + 1 implies ns[index[edges[k].destination] as int].parent is Some by {
        if k < i {
            assert(old_nodes[index[edges[k].destination] as int].parent is Some);
        }
    }
    assert forall|a: int, j: int| #![trigger ns[a].children@[j]]
        0 <= a < n0 && 0 <= j < ns[a].children@.len() implies ns[a].children@[j].weight
            == edges[ie[ns[a].children@[j].destination as int]].weight by {
        if a == s && j == old_nodes[a].children@.len() {
        } else {
            assert(ns[a].children@[j] == old_nodes[a].children@[j]);
            assert(child_positions(old_nodes, a)[j] == ns[a].children@[j].destination);
        }
    }
    assert forall|a: int| #![trigger ns[a].id] 0 <= a < n0 implies is_endpoint(edges, ns[a].id) by {
        assert(is_endpoint(edges, old_nodes[a].id));
    }
    assert forall|a: int| #![trigger ns[a].children]
        0 <= a < n0 implies branch_pairs(ns, a) == outgoing(edges.take(i + 1), ns[a].id) by {
        lemma_outgoing_step(edges, i, ns[a].id);
        assert(branch_pairs(old_nodes, a) == outgoing(edges.take(i), old_nodes[a].id));
        assert forall|j: int| 0 <= j < old_nodes[a].children@.len() implies
            ns[old_nodes[a].children@[j].destination as int].id == old_nodes[old_nodes[a].children@[j].destination as int].id by {
            assert(child_positions(old_nodes, a)[j] == old_nodes[a].children@[j].destination);
        }
        if a == s {
            assert(branch_pairs(ns, a) =~= branch_pairs(old_nodes, a).push((edges[i].destination, edges[i].weight)));
        } else {
            assert(ns[a].id != edges[i].source);
            assert(ns[a].children@ == old_nodes[a].children@);
            assert(branch_pairs(ns, a) =~= branch_pairs(old_nodes, a));
        }
    }
}

/// What wiring every edge leaves: no shared destination, ids and index as
/// materialized, parent links that follow the incoming edges, and branches
/// weighted as the edges they come from.
spec fn settled(edges: Seq<Edge>, nodes: Seq<Node>, index: Map<u64, usize>) -> bool {
    &&& !shares_destination(edges)
    &&& index_matches(nodes, index)
    &&& links_agree(nodes)
    &&& forall|v: u64| #[trigger] is_endpoint(edges, v) ==> index.contains_key(v)
    &&& forall|a: int| #![trigger nodes[a].id] 0 <= a < nodes.len() ==> is_endpoint(edges, nodes[a].id)
    &&& forall|b: int| #![trigger nodes[b].parent]
        0 <= b < nodes.len() ==> (nodes[b].parent is None <==> !is_destination(edges, nodes[b].id))
    &&& forall|b: int| #![trigger nodes[b].parent]
        0 <= b < nodes.len() && nodes[b].parent is Some ==> {
            &&& nodes[b].parent->0 < nodes.len()
            &&& nodes[nodes[b].parent->0 as int].id == edges[incoming(edges, nodes[b].id)].source
        }
    &&& forall|a: int, j: int| #![trigger nodes[a].children@[j]]
        0 <= a < nodes.len() && 0 <= j < nodes[a].children@.len() ==> nodes[a].children@[j].weight
            == edges[incoming(edges, nodes[nodes[a].children@[j].destination as int].id)].weight
    &&& forall|a: int| #![trigger nodes[a].children]
        0 <= a < nodes.len() ==> branch_pairs(nodes, a) == outgoing(edges, nodes[a].id)
}

#[verifier::rlimit(40)]
proof fn lemma_settle(edges: Seq<Edge>, nodes: Seq<Node>, index: Map<u64, usize>, in_edge: Seq<int>)
    requires
        wired(edges, edges.len() as int, nodes, index, in_edge),
    ensures
        settled(edges, nodes, index),
{
    reveal(wired);
    assert(edges.take(edges.len() as int) =~= edges);
    assert forall|v: u64| #[trigger] is_endpoint(edges, v) implies index.contains_key(v) by {
        let k = choose|k: int| 0 <= k < edges.len() && (#[trigger] edges[k].source == v || edges[k].destination == v);
        assert(index.contains_key(edges[k].source) && index.contains_key(edges[k].destination));
    }
    assert forall|b: int| #![trigger nodes[b].parent]
        0 <= b < nodes.len() && nodes[b].parent is Some implies in_edge[b] == incoming(edges, nodes[b].id) by {
        assert(edges[in_edge[b]].destination == nodes[b].id);
        let k = incoming(edges, nodes[b].id);
        assert(0 <= k < edges.len() && edges[k].destination == nodes[b].id);
        if k < in_edge[b] {
            assert(edges[k].destination != edges[in_edge[b]].destination);
        } else if k > in_edge[b] {
            assert(edges[in_edge[b]].destination != edges[k].destination);
        }
    }
    assert forall|b: int| #![trigger nodes[b].parent]
        0 <= b < nodes.len() implies (nodes[b].parent is None <==> !is_destination(edges, nodes[b].id)) by {
        if nodes[b].parent is Some {
            assert(edges[in_edge[b]].destination == nodes[b].id);
        } else if is_destination(edges, nodes[b].id) {
            let k = choose|k: int| 0 <= k < edges.len() && #[trigger] edges[k].destination == nodes[b].id;
            assert(index.contains_key(nodes[b].id));
            assert(nodes[index[edges[k].destination] as int].parent is Some);
        }
    }
    assert forall|a: int, j: int| #![trigger nodes[a].children@[j]]
        0 <= a < nodes.len() && 0 <= j < nodes[a].children@.len() implies nodes[a].children@[j].weight
            == edges[incoming(edges, nodes[nodes[a].children@[j].destination as int].id)].weight by {
        let c = child_positions(nodes, a)[j];
        assert(c == nodes[a].children@[j].destination);
        assert(nodes[c as int].parent == Some(a as usize));
    }
    assert(!shares_destination(edges));
}

/// Finds the only parent-less node, or reports that there is none or
/// more than one.
fn find_root(nodes: &Vec<Node>) -> (r: Result<usize, TreeError>)
    ensures
        r matches Ok(root) ==> root < nodes@.len() && nodes@[root as int].parent is None && forall|b: int|
            #![trigger nodes@[b].parent] 0 <= b < nodes@.len() && b != root ==> nodes@[b].parent is Some,
        r == Err::<usize, TreeError>(TreeError::NoRootFound) ==> forall|b: int|
            #![trigger nodes@[b].parent] 0 <= b < nodes@.len() ==> nodes@[b].parent is Some,
        r == Err::<usize, TreeError>(TreeError::MultipleRootsFound) ==> exists|a: int, b: int|
            0 <= a < b < nodes@.len() && #[trigger] nodes@[a].parent is None && #[trigger] nodes@[b].parent is None,
        r is Ok || r == Err::<usize, TreeError>(TreeError::NoRootFound) || r == Err::<usize, TreeError>(
            TreeError::MultipleRootsFound,
        ),
{
    let mut root: Option<usize> = None;
    let mut a: usize = 0;
    while a < nodes.len()
        invariant
            a <= nodes@.len(),
            root is None ==> forall|b: int| #![trigger nodes@[b].parent] 0 <= b < a ==> nodes@[b].parent is Some,
            root matches Some(r) ==> r < a && nodes@[r as int].parent is None && forall|b: int|
                #![trigger nodes@[b].parent] 0 <= b < a && b != r ==> nodes@[b].parent is Some,
        decreases nodes@.len() - a,
    {
        if nodes[a].parent.is_none() {
            if let Some(r) = root {
                assert(nodes@[r as int].parent is None && nodes@[a as int].parent is None);
                return Err(TreeError::MultipleRootsFound);
            }
            root = Some(a);
        }
        a = a + 1;
    }
    match root {
        Some(r) => Ok(r),
        None => Err(TreeError::NoRootFound),
    }
}

/// Reports whether every node reaches a parent-less node within `fuel`
/// parent steps.
fn all_reach_within(nodes: &Vec<Node>, fuel: usize) -> (b: bool)
    requires
        forall|j: int| #![trigger nodes@[j].parent]
            0 <= j < nodes@.len() && nodes@[j].parent is Some ==> nodes@[j].parent->0 < nodes@.len(),
    ensures
        b == forall|a: int| 0 <= a < nodes@.len() ==> #[trigger] reaches_root(nodes@, a, fuel as nat),
{
    let mut a: usize = 0;
    while a < nodes.len()
        invariant
            a <= nodes@.len(),
            forall|j: int| #![trigger nodes@[j].parent]
                0 <= j < nodes@.len() && nodes@[j].parent is Some ==> nodes@[j].parent->0 < nodes@.len(),
            forall|b: int| 0 <= b < a ==> #[trigger] reaches_root(nodes@, b, fuel as nat),
        decreases nodes@.len() - a,
    {
        if !reaches_root_within(nodes, a, fuel) {
            return false;
        }
        a = a + 1;
    }
    true
}

/// A settled arena with its root at an edge-list root describes the list.
#[verifier::rlimit(40)]
proof fn lemma_describes(edges: Seq<Edge>, t: &Tree)
    requires
        settled(edges, t.nodes@, t.index@),
        t.root < t.nodes@.len(),
        is_edge_root(edges, t.nodes@[t.root as int].id),
    ensures
        t.describes(edges),
{
    let nodes = t.nodes@;
    let index = t.index@;
    lemma_index_ids_unique(nodes, index);
    assert forall|v: u64| #[trigger] t.contains_id(v) <==> is_endpoint(edges, v) by {
        if t.contains_id(v) {
            let i = choose|i: int| 0 <= i < t.spec_len() && #[trigger] t.spec_nodes()[i].id == v;
            assert(is_endpoint(edges, nodes[i].id));
        }
        if is_endpoint(edges, v) {
            assert(index.contains_key(v));
            assert(t.spec_nodes()[index[v] as int].id == v);
        }
    }
    assert forall|k: int| #![trigger edges[k]]
        0 <= k < edges.len() implies {
            let s = t.position_of(edges[k].source);
            let d = t.position_of(edges[k].destination);
            &&& t.contains_id(edges[k].source)
            &&& t.contains_id(edges[k].destination)
            &&& t.spec_nodes()[d].parent == Some(s as usize)
            &&& t.spec_nodes()[s].children@.contains(Branch { weight: edges[k].weight, destination: d as usize })
        } by {
        let e = edges[k];
        assert(is_endpoint(edges, e.source));
        assert(is_endpoint(edges, e.destination));
        assert(t.contains_id(e.source));
        assert(t.contains_id(e.destination));
        let s = t.position_of(e.source);
        let d = t.position_of(e.destination);
        assert(index.contains_key(e.source));
        assert(index.contains_key(e.destination));
        assert(nodes[index[e.source] as int].id == e.source);
        assert(s == index[e.source]);
        assert(d == index[e.destination]);
        assert(is_destination(edges, nodes[d].id));
        assert(nodes[d].parent is Some);
        let kk = incoming(edges, e.destination);
        assert(edges[kk].destination == e.destination);
        if kk < k {
            assert(edges[kk].destination != edges[k].destination);
        } else if kk > k {
            assert(edges[k].destination != edges[kk].destination);
        }
        let p = nodes[d].parent->0 as int;
        assert(nodes[p].id == e.source);
        assert(p == s);
        assert(child_positions(nodes, p).contains(d as usize));
        let j = choose|j: int| 0 <= j < child_positions(nodes, p).len() && child_positions(nodes, p)[j] == d as usize;
        assert(nodes[p].children@[j].destination == d);
        assert(nodes[p].children@[j] == Branch { weight: e.weight, destination: d as usize });
    }
}

/// Picks the root of a wired arena and checks that every node reaches it.
#[verifier::rlimit(40)]
fn finish(edges: &[Edge], nodes: Vec<Node>, index: HashMap<u64, usize>) -> (r: Result<Tree, TreeError>)
    requires
        settled(edges@, nodes@, index@),
    ensures
        has_no_root(edges@) ==> r == Err::<Tree, TreeError>(TreeError::NoRootFound),
        has_several_roots(edges@) ==> r == Err::<Tree, TreeError>(TreeError::MultipleRootsFound),
        !has_no_root(edges@) && !has_several_roots(edges@) && !all_reach_root(edges@) ==> r == Err::<
            Tree,
            TreeError,
        >(TreeError::NoRootFound),
        forms_tree(edges@) <==> r is Ok,
        r != Err::<Tree, TreeError>(TreeError::MultipleParents),
        r matches Ok(t) ==> t.wf() && t.describes(edges@),
{
    proof {
        lemma_index_ids_unique(nodes@, index@);
    }
    let root = match find_root(&nodes) {
        Ok(root) => root,
        Err(e) => {
            proof {
                if e == TreeError::NoRootFound {
                    assert forall|v: u64| is_endpoint(edges@, v) implies is_destination(edges@, v) by {
                        assert(index@.contains_key(v));
                        assert(nodes@[index@[v] as int].parent is Some);
                    }
                    assert(has_no_root(edges@));
                } else {
                    let (a, b) = choose|a: int, b: int|
                        0 <= a < b < nodes@.len() && #[trigger] nodes@[a].parent is None && #[trigger] nodes@[b].parent is None;
                    assert(nodes@[a].id != nodes@[b].id);
                    assert(is_edge_root(edges@, nodes@[a].id));
                    assert(is_edge_root(edges@, nodes@[b].id));
                    assert(has_several_roots(edges@));
                }
            }
            return Err(e);
        },
    };
    let ghost root_id = nodes@[root as int].id;
    proof {
        assert(is_edge_root(edges@, root_id));
        assert forall|v: u64| is_edge_root(edges@, v) implies v == root_id by {
            assert(index@.contains_key(v));
            assert(nodes@[index@[v] as int].parent is None);
        }
    }
    if !all_reach_within(&nodes, edges.len()) {
        proof {
            let a = choose|a: int| 0 <= a < nodes@.len() && !#[trigger] reaches_root(nodes@, a, edges@.len());
            lemma_reaches_root_agrees(nodes@, edges@, a, edges@.len());
            assert(is_endpoint(edges@, nodes@[a].id));
        }
        return Err(TreeError::NoRootFound);
    }
    proof {
        assert forall|v: u64| is_endpoint(edges@, v) implies #[trigger] edge_reaches_root(edges@, v, edges@.len()) by {
            assert(index@.contains_key(v));
            assert(reaches_root(nodes@, index@[v] as int, edges@.len()));
            lemma_reaches_root_agrees(nodes@, edges@, index@[v] as int, edges@.len());
        }
    }
    let t = Tree { nodes, root, index, bound: Ghost(edges@.len()) };
    proof {
        lemma_describes(edges@, &t);
        assert(t.nodes.len() == t.nodes@.len());
    }
    Ok(t)
}

/// Looking up the endpoints of edge `i` while wiring; a destination that
/// already has a parent means that two edges share it.
proof fn lemma_wired_lookup(edges: Seq<Edge>, i: int, nodes: Seq<Node>, index: Map<u64, usize>, in_edge: Seq<int>)
    requires
        wired(edges, i, nodes, index, in_edge),
        0 <= i < edges.len(),
    ensures
        index.contains_key(edges[i].source),
        index.contains_key(edges[i].destination),
        index[edges[i].source] < nodes.len(),
        index[edges[i].destination] < nodes.len(),
        nodes[index[edges[i].destination] as int].parent is Some ==> shares_destination(edges),
{
    reveal(wired);
    assert(index.contains_key(edges[i].source) && index.contains_key(edges[i].destination));
    let d = index[edges[i].destination] as int;
    if nodes[d].parent is Some {
        let k = in_edge[d];
        assert(edges[k].destination == edges[i].destination);
    }
}

impl Tree {
    /// Builds a tree from an unordered list of weighted edges. Each distinct
    /// endpoint becomes one node; each edge becomes a branch from its source
    /// to its destination, appended in list order. Fails with
    /// `MultipleParents` when two edges share a destination, with
    /// `NoRootFound` when every node has an incoming edge, with
    /// `MultipleRootsFound` when several nodes have none, and with
    /// `NoRootFound` when, the root being unique, some node lies on a cycle
    /// and so cannot be reached from it.
    pub fn from_edge_list(edges: &[Edge]) -> (r: Result<Tree, TreeError>)
        ensures
            shares_destination(edges@) <==> r == Err::<Tree, TreeError>(TreeError::MultipleParents),
            !shares_destination(edges@) && has_no_root(edges@) ==> r == Err::<Tree, TreeError>(
                TreeError::NoRootFound,
            ),
            !shares_destination(edges@) && has_several_roots(edges@) ==> r == Err::<Tree, TreeError>(
                TreeError::MultipleRootsFound,
            ),
            !shares_destination(edges@) && !has_no_root(edges@) && !has_several_roots(edges@)
                && !all_reach_root(edges@) ==> r == Err::<Tree, TreeError>(TreeError::NoRootFound),
            forms_tree(edges@) <==> r is Ok,
            r matches Ok(t) ==> t.wf() && t.describes(edges@),
    {
        let (mut nodes, index) = materialize(edges);
        let ghost mut in_edge: Seq<int> = Seq::new(nodes@.len(), |a: int| 0int);
        proof {
            lemma_wired_start(edges@, nodes@, index@);
        }
        let mut i: usize = 0;
        while i < edges.len()
            invariant
                i <= edges@.len(),
                wired(edges@, i as int, nodes@, index@, in_edge),
            decreases edges@.len() - i,
        {
            let e = edges[i];
            proof {
                assert(edges@[i as int] == e);
            }
            proof {
                lemma_wired_lookup(edges@, i as int, nodes@, index@, in_edge);
            }
            let s = lookup(&index, e.source);
            let d = lookup(&index, e.destination);
            if nodes[d].parent.is_some() {
                return Err(TreeError::MultipleParents);
            }
            let ghost old_nodes = nodes@;
            nodes[d].parent = Some(s);
            nodes[s].children.push(Branch { weight: e.weight, destination: d });
            proof {
                lemma_wire_step(edges@, i as int, old_nodes, nodes@, index@, in_edge, s, d);
                in_edge = in_edge.update(d as int, i as int);
            }
            i = i + 1;
        }
        proof {
            lemma_settle(edges@, nodes@, index@, in_edge);
        }
        finish(edges, nodes, index)
    }
}

} // verus!
