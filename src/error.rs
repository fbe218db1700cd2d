use vstd::prelude::*;

verus! {

/// Kinds of failure reported by tree construction and mutation.
#[derive(Debug, Clone, Copy, PartialEq, Eq, Structural)]
pub enum TreeError {
    /// A mutation named a parent id that is not in the tree.
    UnknownParent,
    /// A mutation tried to introduce an id that is already in the tree.
    DuplicateId,
    /// An edge list gives some destination id two or more incoming edges.
    MultipleParents,
    /// An edge list leaves no node without a parent, or part of it forms a
    /// cycle that the root cannot reach.
    NoRootFound,
    /// An edge list leaves more than one node without a parent.
    MultipleRootsFound,
}

} // verus!
