//! Change events: what an edit tells the systems that mirror the tree.

use vstd::prelude::*;
use crate::geometry::QuadTreeNodeId;
use crate::node::Quad;

verus! {

/// One node whose standing changed. With `Some(v)` the node now covers its
/// whole region with `v` and a consumer inserts or updates what it keeps
/// under `identity`. With `None` the node no longer stands for its region
/// and a consumer removes what it keeps under `identity`.
#[derive(Clone, Copy, Debug, PartialEq)]
pub struct ChangeEvent<T> {
    pub identity: u64,
    pub region: QuadTreeNodeId,
    pub value: Option<T>,
}

impl<T> Quad<T> {
    /// The event that tells of this node's value.
    pub open spec fn announcement(self) -> ChangeEvent<T> {
        ChangeEvent { identity: self.identity, region: self.region, value: self.value }
    }

    /// The event that withdraws this node.
    pub open spec fn retraction(self) -> ChangeEvent<T> {
        ChangeEvent { identity: self.identity, region: self.region, value: None }
    }
}

impl<T: Copy> Quad<T> {
    /// The event that tells of this node's value.
    pub fn announce(&self) -> (event: ChangeEvent<T>)
        ensures
            event == self.announcement(),
    {
        ChangeEvent { identity: self.identity, region: self.region, value: self.value }
    }

    /// The event that withdraws this node.
    pub fn retract(&self) -> (event: ChangeEvent<T>)
        ensures
            event == self.retraction(),
    {
        ChangeEvent { identity: self.identity, region: self.region, value: None }
    }
}

} // verus!
