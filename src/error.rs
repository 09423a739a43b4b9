use vstd::prelude::*;

verus! {

/// What went wrong in an operation on a [`crate::Tree`].
///
/// Each variant carries the node indices involved.
#[derive(Debug, PartialEq, Eq)]
#[non_exhaustive]
pub enum TreeError {
    /// No node lives at the index: it is out of range or its slot is vacant.
    RetrievingNode(usize),
    /// The node at the index was created without the right to have children.
    NoChildrenAllowed(usize),
    /// The position (first field) is past the end of the children of the node (second field).
    ExceedsChildren(usize, usize),
    /// The node still has children, so it cannot be removed.
    HasChildren(usize),
    /// The node (first field) is absent from the children of its parent (second field).
    MissingInParent(usize, usize),
    /// The root node has no parent.
    RootHasNoParent(usize),
    /// The node has no child at the requested place.
    NoChildrenFound(usize),
    /// The node at the index was created without the right to hold data.
    NoDataAllowed(usize),
    /// The ancestry walk from the first node towards the second failed with the inner error.
    NotAncestorOf(usize, usize, Box<TreeError>),
    /// The node to be moved (first field) lies above the destination (second
    /// field): moving it there would make a cycle.
    IsAncestorOf(usize, usize),
}

} // verus!
