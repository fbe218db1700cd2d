use weighted_tree::edges::Edge;
use weighted_tree::error::TreeError;
use weighted_tree::traversal::TraversalKind;
use weighted_tree::tree::Tree;

fn edge(source: u64, destination: u64, weight: u64) -> Edge {
    Edge { source, destination, weight }
}

fn get_simple_tree() -> Tree {
    let branches = vec![edge(0, 1, 1), edge(0, 2, 1)];
    Tree::from_edge_list(&branches).unwrap()
}

fn ids_of(mut it: weighted_tree::traversal::TreeIterator<'_>) -> Vec<u64> {
    let mut ids = Vec::new();
    while let Some(node) = it.next() {
        ids.push(node.id);
    }
    ids
}

#[test]
fn example_tree() {
    get_simple_tree();
}

#[test]
fn add_child() {
    let mut tree = Tree::new(0);
    let root_id = tree.root_id();
    tree.add_child(root_id, 69, 1).unwrap();
}

#[test]
fn iterate_tree() {
    let tree = get_simple_tree();
    let mut it = tree.iter_dfs();
    while let Some(node) = it.next() {
        let _ = node.id;
    }
    let mut it = tree.iter_bfs();
    while let Some(node) = it.next() {
        let _ = node.id;
    }
}

#[test]
fn simple_edges_give_root_zero_and_level_order() {
    let tree = get_simple_tree();
    assert_eq!(tree.root_id(), 0);
    assert_eq!(tree.len(), 3);
    assert_eq!(ids_of(tree.iter_bfs()), vec![0, 1, 2]);
    assert_eq!(tree.visit_ids(TraversalKind::Bfs), vec![0, 1, 2]);
}

#[test]
fn depth_first_visits_last_listed_child_first() {
    let tree = get_simple_tree();
    assert_eq!(ids_of(tree.iter_dfs()), vec![0, 2, 1]);
    assert_eq!(tree.visit_ids(TraversalKind::Dfs), vec![0, 2, 1]);
}

#[test]
fn deeper_tree_orders() {
    let edges = vec![edge(0, 1, 1), edge(0, 2, 1), edge(1, 3, 1), edge(1, 4, 1), edge(2, 5, 1)];
    let tree = Tree::from_edge_list(&edges).unwrap();
    assert_eq!(tree.visit_ids(TraversalKind::Bfs), vec![0, 1, 2, 3, 4, 5]);
    assert_eq!(tree.visit_ids(TraversalKind::Dfs), vec![0, 2, 5, 1, 4, 3]);
}

#[test]
fn edges_in_any_order_build_the_same_shape() {
    let edges = vec![edge(7, 9, 4), edge(3, 7, 2), edge(3, 8, 5)];
    let tree = Tree::from_edge_list(&edges).unwrap();
    assert_eq!(tree.root_id(), 3);
    assert_eq!(tree.visit_ids(TraversalKind::Bfs), vec![3, 7, 8, 9]);
    let root = tree.node(tree.root());
    assert_eq!(root.parent, None);
    assert_eq!(root.children.len(), 2);
    assert_eq!(root.children[0].weight, 2);
    assert_eq!(tree.node(root.children[0].destination).id, 7);
    assert_eq!(root.children[1].weight, 5);
    assert_eq!(tree.node(root.children[1].destination).id, 8);
}

#[test]
fn two_parents_for_one_node_fail() {
    let edges = vec![edge(0, 1, 1), edge(2, 1, 1)];
    assert_eq!(Tree::from_edge_list(&edges).err(), Some(TreeError::MultipleParents));
}

#[test]
fn two_cycle_has_no_root() {
    let edges = vec![edge(0, 1, 1), edge(1, 0, 1)];
    assert_eq!(Tree::from_edge_list(&edges).err(), Some(TreeError::NoRootFound));
}

#[test]
fn self_loop_has_no_root() {
    let edges = vec![edge(5, 5, 1)];
    assert_eq!(Tree::from_edge_list(&edges).err(), Some(TreeError::NoRootFound));
}

#[test]
fn empty_edge_list_has_no_root() {
    let edges: Vec<Edge> = Vec::new();
    assert_eq!(Tree::from_edge_list(&edges).err(), Some(TreeError::NoRootFound));
}

#[test]
fn two_disjoint_trees_have_several_roots() {
    let edges = vec![edge(0, 1, 1), edge(0, 2, 1), edge(10, 11, 1)];
    assert_eq!(Tree::from_edge_list(&edges).err(), Some(TreeError::MultipleRootsFound));
}

#[test]
fn cycle_beside_a_tree_is_rejected() {
    let edges = vec![edge(0, 1, 1), edge(2, 3, 1), edge(3, 2, 1)];
    assert_eq!(Tree::from_edge_list(&edges).err(), Some(TreeError::NoRootFound));
}

#[test]
fn add_child_duplicate_and_unknown_parent() {
    let mut tree = Tree::new(0);
    assert_eq!(tree.add_child(0, 69, 1), Ok(()));
    assert_eq!(tree.add_child(0, 69, 1), Err(TreeError::DuplicateId));
    assert_eq!(tree.add_child(99, 70, 1), Err(TreeError::UnknownParent));
    assert_eq!(tree.add_child(69, 0, 1), Err(TreeError::DuplicateId));
    assert_eq!(tree.len(), 2);
    assert!(tree.contains(69));
    assert!(!tree.contains(70));
}

#[test]
fn add_child_appends_in_arrival_order() {
    let mut tree = Tree::new(10);
    tree.add_child(10, 20, 3).unwrap();
    tree.add_child(10, 30, 4).unwrap();
    tree.add_child(20, 40, 5).unwrap();
    assert_eq!(tree.visit_ids(TraversalKind::Bfs), vec![10, 20, 30, 40]);
    assert_eq!(tree.visit_ids(TraversalKind::Dfs), vec![10, 30, 20, 40]);
    let root = tree.node(tree.root());
    assert_eq!(root.children.len(), 2);
    assert_eq!(root.children[1].weight, 4);
    let child = tree.node(root.children[0].destination);
    assert_eq!(child.id, 20);
    assert_eq!(child.parent, Some(tree.root()));
}

#[test]
fn traversals_repeat_identically() {
    let edges = vec![edge(1, 2, 1), edge(1, 3, 1), edge(3, 4, 1), edge(2, 5, 1)];
    let tree = Tree::from_edge_list(&edges).unwrap();
    assert_eq!(ids_of(tree.iter_bfs()), ids_of(tree.iter_bfs()));
    assert_eq!(ids_of(tree.iter_dfs()), ids_of(tree.iter_dfs()));
    assert_eq!(tree.visit_order(TraversalKind::Bfs), tree.visit_order(TraversalKind::Bfs));
}

#[test]
fn traversal_visits_each_node_once_then_stops() {
    let edges = vec![edge(4, 1, 1), edge(4, 2, 1), edge(2, 3, 1), edge(2, 6, 1), edge(6, 7, 1)];
    let tree = Tree::from_edge_list(&edges).unwrap();
    for kind in [TraversalKind::Bfs, TraversalKind::Dfs] {
        let mut ids = tree.visit_ids(kind);
        ids.sort();
        assert_eq!(ids, vec![1, 2, 3, 4, 6, 7]);
    }
    let mut it = tree.iter_bfs();
    let mut count = 0;
    while it.next().is_some() {
        count += 1;
    }
    assert_eq!(count, 6);
    assert!(it.next().is_none());
}

#[test]
fn single_root_tree() {
    let tree = Tree::new(42);
    assert_eq!(tree.root_id(), 42);
    assert_eq!(tree.visit_ids(TraversalKind::Dfs), vec![42]);
    assert_eq!(tree.visit_order(TraversalKind::Bfs), vec![tree.root()]);
}

#[test]
fn nodes_compare_by_id() {
    let mut tree = Tree::new(1);
    tree.add_child(1, 2, 9).unwrap();
    let root = tree.node(tree.root());
    let child = tree.node(root.children[0].destination);
    assert!(root == root);
    assert!(root != child);
}

#[test]
fn weight_to_parent_reads_the_incoming_branch() {
    let edges = vec![edge(0, 1, 7), edge(0, 2, 8), edge(2, 3, 9)];
    let tree = Tree::from_edge_list(&edges).unwrap();
    let mut weights = Vec::new();
    let mut it = tree.iter_bfs();
    while let Some(p) = it.next_position() {
        weights.push((tree.node(p).id, tree.weight_to_parent(p)));
    }
    assert_eq!(weights, vec![(0, None), (1, Some(7)), (2, Some(8)), (3, Some(9))]);
}
