//! An in-memory model of a filesystem subtree for an interactive browser:
//! a sized, sorted node hierarchy together with the visibility and indexing
//! engine that flattens it into rows and toggles directories by ordinal.

use vstd::prelude::*;

pub mod model;
pub mod view;

verus! {

use crate::model::Node;

/// The application container: owns the root of the scanned tree for the
/// whole session.
pub struct App {
    pub node: Node,
}

impl App {
    /// Wraps an already scanned root node.
    pub fn new(node: Node) -> (r: Self)
        ensures
            r.node == node,
    {
        App { node }
    }
}

} // verus!
