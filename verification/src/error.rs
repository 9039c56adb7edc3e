//! The errors of the tree's mutation and query operations.

use vstd::prelude::*;

verus! {

/// Why an operation on the tree was refused.
#[derive(Debug, Clone, Copy, PartialEq, Eq, Structural)]
pub enum UIError {
    /// A node with this identity is already in the tree.
    DuplicateNodeId,
    /// The node named as parent is not in the tree.
    UnknownParent,
    /// No node has the identity asked for.
    UnknownNode,
    /// A style source gave a length that is neither pixels nor a percentage.
    MalformedStyleUnit,
    /// A style source gave a direction or a colour that cannot be read.
    MalformedStyleValue,
    /// A style source named a property that this engine does not know.
    UnsupportedProperty,
    /// The tree holds as many nodes as its store can index.
    CapacityExceeded,
}

} // verus!
