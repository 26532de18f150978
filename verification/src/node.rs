//! The nodes of the tree and what holds of a well-formed one.

use vstd::prelude::*;
use vstd::laws_eq::obeys_concrete_eq;
use crate::geometry::{QuadTreeNodeId, Quadrant, MAX_DEPTH, lemma_child_in_grid};

verus! {

/// One authoritative region of the field: a cell and the value that the
/// whole cell has.
#[derive(Clone, Copy, Debug, PartialEq)]
pub struct QuadTreeNode<T> {
    pub id: QuadTreeNodeId,
    pub value: T,
}

impl<T> From<(QuadTreeNodeId, T)> for QuadTreeNode<T> {
    fn from(pair: (QuadTreeNodeId, T)) -> (node: Self) {
        QuadTreeNode { id: pair.0, value: pair.1 }
    }
}

impl<T> vstd::std_specs::convert::FromSpecImpl<(QuadTreeNodeId, T)> for QuadTreeNode<T> {
    open spec fn obeys_from_spec() -> bool {
        true
    }

    open spec fn from_spec(pair: (QuadTreeNodeId, T)) -> Self {
        QuadTreeNode { id: pair.0, value: pair.1 }
    }
}

/// The four children of a split node.
#[derive(Debug, PartialEq)]
pub struct Quadrants<T> {
    pub sw: Quad<T>,
    pub se: Quad<T>,
    pub ne: Quad<T>,
    pub nw: Quad<T>,
}

/// A node of the tree. It is a leaf, which covers its whole region with one
/// value or with none yet, or it is split and its four children cover one
/// quarter of the region each.
#[derive(Debug, PartialEq)]
pub struct Quad<T> {
    /// Token that names this node towards consumers of change events. It is
    /// given when the node is created and never to another node.
    pub identity: u64,
    /// The cell that the node covers.
    pub region: QuadTreeNodeId,
    /// How many more levels may lie below this node.
    pub remaining_subdivisions: usize,
    /// `Some(v)`: the whole region is `v`. `None`: the node is split, or
    /// nothing was painted here yet.
    pub value: Option<T>,
    pub children: Option<Box<Quadrants<T>>>,
}

impl<T> Quadrants<T> {
    /// The child in the given quadrant.
    pub open spec fn get(self, q: Quadrant) -> Quad<T> {
        match q {
            Quadrant::SouthWest => self.sw,
            Quadrant::SouthEast => self.se,
            Quadrant::NorthEast => self.ne,
            Quadrant::NorthWest => self.nw,
        }
    }

    /// All four are leaves that hold one and the same value.
    pub open spec fn uniform(self) -> bool {
        &&& self.sw.children is None
        &&& self.se.children is None
        &&& self.ne.children is None
        &&& self.nw.children is None
        &&& self.sw.value is Some
        &&& self.se.value == self.sw.value
        &&& self.ne.value == self.sw.value
        &&& self.nw.value == self.sw.value
    }
}

impl<T: Copy + PartialEq> Quadrants<T> {
    /// The value that all four children hold, if they are four leaves of one
    /// value.
    pub fn uniform_value(&self) -> (common: Option<T>)
        requires
            obeys_concrete_eq::<T>(),
        ensures
            common is Some <==> self.uniform(),
            common is Some ==> common == self.sw.value,
    {
        if self.sw.children.is_some() || self.se.children.is_some() || self.ne.children.is_some()
            || self.nw.children.is_some() {
            return None;
        }
        match (self.sw.value, self.se.value, self.ne.value, self.nw.value) {
            (Some(a), Some(b), Some(c), Some(d)) => {
                if same_value(&a, &b) && same_value(&a, &c) && same_value(&a, &d) {
                    Some(a)
                } else {
                    None
                }
            },
            _ => None,
        }
    }
}

/// Whether two values are equal.
pub fn same_value<T: PartialEq>(a: &T, b: &T) -> (equal: bool)
    requires
        obeys_concrete_eq::<T>(),
    ensures
        equal == (*a == *b),
{
    proof {
        reveal(obeys_concrete_eq);
    }
    *a == *b
}

impl<T> Quad<T> {
    /// The leaf with the given identity, region, depth budget and value.
    pub open spec fn spec_leaf(
        identity: u64,
        region: QuadTreeNodeId,
        remaining_subdivisions: usize,
        value: Option<T>,
    ) -> Quad<T> {
        Quad { identity, region, remaining_subdivisions, value, children: None }
    }

    /// The child `q` lies where the quarter `q` of this node's region lies,
    /// one level further down.
    pub open spec fn has_child_at(self, child: Quad<T>, q: Quadrant) -> bool {
        &&& child.region == self.region.spec_child(q)
        &&& child.remaining_subdivisions + 1 == self.remaining_subdivisions
    }

    /// What holds of every node of a tree between two edits: the node lies
    /// in the grid and so does all that its budget lets it grow; a split node
    /// carries no value, its children are the four quarters of its region
    /// with one level less to go, and they are not four leaves of one value.
    pub open spec fn wf(self) -> bool
        decreases self,
    {
        &&& self.region.in_grid()
        &&& self.region.depth + self.remaining_subdivisions <= MAX_DEPTH
        &&& match self.children {
            None => true,
            Some(q) => {
                &&& self.value is None
                &&& self.has_child_at(q.sw, Quadrant::SouthWest)
                &&& self.has_child_at(q.se, Quadrant::SouthEast)
                &&& self.has_child_at(q.ne, Quadrant::NorthEast)
                &&& self.has_child_at(q.nw, Quadrant::NorthWest)
                &&& q.sw.wf()
                &&& q.se.wf()
                &&& q.ne.wf()
                &&& q.nw.wf()
                &&& !q.uniform()
            },
        }
    }

    /// The identities of this node and of all nodes below it.
    pub open spec fn identities(self) -> Set<u64>
        decreases self,
    {
        match self.children {
            None => set![self.identity],
            Some(q) => q.sw.identities().union(q.se.identities()).union(q.ne.identities()).union(
                q.nw.identities(),
            ).insert(self.identity),
        }
    }

    /// No two nodes of the subtree share an identity.
    pub open spec fn distinct(self) -> bool
        decreases self,
    {
        match self.children {
            None => true,
            Some(q) => {
                &&& q.sw.distinct()
                &&& q.se.distinct()
                &&& q.ne.distinct()
                &&& q.nw.distinct()
                &&& !q.sw.identities().contains(self.identity)
                &&& !q.se.identities().contains(self.identity)
                &&& !q.ne.identities().contains(self.identity)
                &&& !q.nw.identities().contains(self.identity)
                &&& q.sw.identities().disjoint(q.se.identities())
                &&& q.sw.identities().disjoint(q.ne.identities())
                &&& q.sw.identities().disjoint(q.nw.identities())
                &&& q.se.identities().disjoint(q.ne.identities())
                &&& q.se.identities().disjoint(q.nw.identities())
                &&& q.ne.identities().disjoint(q.nw.identities())
            },
        }
    }

    /// Every identity of the subtree is below `bound`.
    pub open spec fn identities_below(self, bound: nat) -> bool {
        forall|i: u64| #[trigger] self.identities().contains(i) ==> i < bound
    }

    /// The authoritative regions of the subtree, depth first, the quarters of
    /// a split node from south-west over south-east and north-east to
    /// north-west.
    pub open spec fn leaves(self) -> Seq<QuadTreeNode<T>>
        decreases self,
    {
        match self.children {
            None => match self.value {
                Some(v) => seq![QuadTreeNode { id: self.region, value: v }],
                None => Seq::empty(),
            },
            Some(q) => q.sw.leaves() + q.se.leaves() + q.ne.leaves() + q.nw.leaves(),
        }
    }

    /// Every leaf of the subtree holds a value.
    pub open spec fn painted(self) -> bool
        decreases self,
    {
        match self.children {
            None => self.value is Some,
            Some(q) => q.sw.painted() && q.se.painted() && q.ne.painted() && q.nw.painted(),
        }
    }

    /// The two subtrees split the same regions in the same way and hold the
    /// same values; their identities may differ.
    pub open spec fn same_structure(self, other: Quad<T>) -> bool
        decreases self,
    {
        &&& self.region == other.region
        &&& self.remaining_subdivisions == other.remaining_subdivisions
        &&& self.value == other.value
        &&& match (self.children, other.children) {
            (None, None) => true,
            (Some(p), Some(q)) => {
                &&& p.sw.same_structure(q.sw)
                &&& p.se.same_structure(q.se)
                &&& p.ne.same_structure(q.ne)
                &&& p.nw.same_structure(q.nw)
            },
            _ => false,
        }
    }

    /// A fresh leaf.
    pub fn leaf(identity: u64, region: QuadTreeNodeId, remaining_subdivisions: usize, value: Option<T>) -> (quad: Quad<T>)
        ensures
            quad == Self::spec_leaf(identity, region, remaining_subdivisions, value),
    {
        Quad { identity, region, remaining_subdivisions, value, children: None }
    }
}

/// A leaf that may still split has four well-formed leaves as its possible
/// children.
pub proof fn lemma_fresh_child_wf<T>(quad: Quad<T>, q: Quadrant, identity: u64, value: Option<T>)
    requires
        quad.wf(),
        quad.remaining_subdivisions > 0,
    ensures
        Quad::spec_leaf(identity, quad.region.spec_child(q), (quad.remaining_subdivisions - 1) as usize, value).wf(),
{
    lemma_child_in_grid(quad.region, q);
}

} // verus!
