//! The tree: a root node, the counter that identities come from, and the
//! operations that applications call.

use vstd::prelude::*;
use vstd::laws_eq::obeys_concrete_eq;
use crate::geometry::{Disc, Point, Rect, MAX_DEPTH};
use crate::node::Quad;
use crate::event::ChangeEvent;
use crate::stamp::{fresh_bound, stamp_quad, lemma_stamped_wf, lemma_stamped_identities};
use crate::sampling::build_quad;
use crate::enumerate::{collect_leaves, collect_leaf_events, rects_of_solid, solid_rects, lemma_leaves_in_grid};

pub use crate::geometry::QuadTreeNodeId;
pub use crate::node::QuadTreeNode;

verus! {

/// An adaptive quadtree over the unit square: a field that holds one value
/// per region and splits a region only where its content differs.
#[derive(Debug)]
pub struct QuadTree<T> {
    root: Quad<T>,
    next_identity: u64,
}

/// What a tree is to its contracts: its nodes, and the first identity that
/// no node of it ever had.
pub ghost struct QuadTreeView<T> {
    pub root: Quad<T>,
    pub next_identity: nat,
}

impl<T> QuadTreeView<T> {
    /// The depth budget that the tree was made with.
    pub open spec fn subdivisions(self) -> nat {
        self.root.remaining_subdivisions as nat
    }

    /// What holds of a tree after every operation: its root covers the whole
    /// square, every node is well-formed, no identity occurs twice, and all
    /// identities lie below the counter.
    pub open spec fn wf(self) -> bool {
        &&& self.root.wf()
        &&& self.root.region == QuadTreeNodeId::spec_root()
        &&& self.root.distinct()
        &&& self.root.identities_below(self.next_identity)
        &&& self.next_identity <= u64::MAX
    }

    /// The counter has identities left for all that one edit can create.
    pub open spec fn can_stamp(self) -> bool {
        self.next_identity + fresh_bound(self.subdivisions()) <= u64::MAX
    }

    /// The tree is what a batch build with the given depth and sampling
    /// function yields: well-formed, with a value on every leaf, which is the
    /// value that `sample` gives at the center of each finest cell that the
    /// leaf covers, and with the identities that the nodes of the full tree
    /// have when they are counted from 0 on.
    pub open spec fn built_from<F: Fn(Point) -> T>(self, subdivisions: nat, sample: F) -> bool {
        &&& self.wf()
        &&& self.subdivisions() == subdivisions
        &&& self.root.painted()
        &&& self.root.sampled(sample)
        &&& self.root.numbered_from(0)
        &&& self.next_identity == fresh_bound(subdivisions) + 1
    }

    /// The tree after `value` was painted onto the disc of the given radius
    /// round `center`.
    pub open spec fn stamped(self, center: Point, radius: i64, value: T) -> QuadTreeView<T> {
        let s = self.root.stamped(Disc { center, radius }, value, self.next_identity);
        QuadTreeView { root: s.quad, next_identity: s.next }
    }

    /// What that edit announces, in the order in which it arises.
    pub open spec fn stamp_events(self, center: Point, radius: i64, value: T) -> Seq<ChangeEvent<T>> {
        self.root.stamped(Disc { center, radius }, value, self.next_identity).events
    }
}

impl<T> View for QuadTree<T> {
    type V = QuadTreeView<T>;

    closed spec fn view(&self) -> QuadTreeView<T> {
        QuadTreeView { root: self.root, next_identity: self.next_identity as nat }
    }
}

/// A deeper budget never needs fewer identities.
pub proof fn lemma_fresh_bound_grows(shallow: nat, deep: nat)
    requires
        shallow <= deep,
    ensures
        fresh_bound(shallow) <= fresh_bound(deep),
    decreases deep,
{
    if shallow < deep {
        lemma_fresh_bound_grows(shallow, (deep - 1) as nat);
    }
}

/// Within the depth that the grid allows, the identities that one edit can
/// use up fit the counter.
pub proof fn lemma_fresh_bound_fits(remaining: nat)
    requires
        remaining <= MAX_DEPTH,
    ensures
        fresh_bound(remaining) <= 0x5555_5555_5555_5554,
{
    lemma_fresh_bound_grows(remaining, 31);
    assert(fresh_bound(31) == 0x5555_5555_5555_5554) by {
        reveal_with_fuel(fresh_bound, 32);
    }
}

/// The most identities that one edit of a tree with the given depth budget
/// can use up.
pub fn identities_per_stamp(subdivisions: usize) -> (bound: u64)
    requires
        subdivisions <= MAX_DEPTH,
    ensures
        bound == fresh_bound(subdivisions as nat),
{
    let mut bound: u64 = 0;
    let mut level: usize = 0;
    while level < subdivisions
        invariant
            level <= subdivisions <= MAX_DEPTH,
            bound == fresh_bound(level as nat),
        decreases subdivisions - level,
    {
        proof {
            lemma_fresh_bound_fits((level + 1) as nat);
        }
        bound = 4 + 4 * bound;
        level = level + 1;
    }
    bound
}

impl<T: Copy + PartialEq> QuadTree<T> {
    /// A tree that is one leaf with nothing painted on it yet, and that edits
    /// may refine down to `subdivisions` levels.
    pub fn empty(subdivisions: usize) -> (tree: QuadTree<T>)
        requires
            subdivisions <= MAX_DEPTH,
        ensures
            tree@.wf(),
            tree@.root == Quad::<T>::spec_leaf(0, QuadTreeNodeId::spec_root(), subdivisions, None),
            tree@.next_identity == 1,
    {
        let root = Quad::leaf(0, QuadTreeNodeId::root(), subdivisions, None);
        proof {
            assert(root.identities() =~= set![0u64]);
        }
        QuadTree { root, next_identity: 1 }
    }

    /// A tree that is one leaf of the given value, and that edits may refine
    /// down to `subdivisions` levels.
    pub fn uniform(subdivisions: usize, value: T) -> (tree: QuadTree<T>)
        requires
            subdivisions <= MAX_DEPTH,
        ensures
            tree@.wf(),
            tree@.root == Quad::<T>::spec_leaf(0, QuadTreeNodeId::spec_root(), subdivisions, Some(value)),
            tree@.next_identity == 1,
    {
        let root = Quad::leaf(0, QuadTreeNodeId::root(), subdivisions, Some(value));
        proof {
            assert(root.identities() =~= set![0u64]);
        }
        QuadTree { root, next_identity: 1 }
    }

    /// The tree of the field that `sample` describes: every cell at depth
    /// `subdivisions` is sampled at its center, and where four sibling
    /// regions hold one value they are one region.
    pub fn new<F: Fn(Point) -> T>(subdivisions: usize, sample: F) -> (tree: QuadTree<T>)
        requires
            subdivisions <= MAX_DEPTH,
            obeys_concrete_eq::<T>(),
            forall|cell: QuadTreeNodeId|
                cell.in_grid() && cell.depth == subdivisions ==> sample.requires((cell.spec_center(),)),
        ensures
            tree@.built_from(subdivisions as nat, sample),
    {
        let mut next: u64 = 0;
        proof {
            lemma_fresh_bound_fits(subdivisions as nat);
        }
        let root = build_quad(QuadTreeNodeId::root(), subdivisions, &sample, &mut next);
        QuadTree { root, next_identity: next }
    }

    /// The root node, from which the whole tree can be read.
    pub fn root(&self) -> (root: &Quad<T>)
        ensures
            *root == self@.root,
    {
        &self.root
    }

    /// The depth budget that the tree was made with.
    pub fn subdivisions(&self) -> (budget: usize)
        ensures
            budget == self@.subdivisions(),
    {
        self.root.remaining_subdivisions
    }

    /// Whether the counter has identities left for one more edit.
    pub fn can_stamp(&self) -> (ok: bool)
        requires
            self@.wf(),
        ensures
            ok == self@.can_stamp(),
    {
        let bound = identities_per_stamp(self.root.remaining_subdivisions);
        self.next_identity <= u64::MAX - bound
    }

    /// The authoritative regions of the field with their values, depth
    /// first, the quarters of a split region from south-west over south-east
    /// and north-east to north-west.
    pub fn nodes(&self) -> (leaves: Vec<QuadTreeNode<T>>)
        ensures
            leaves@ == self@.root.leaves(),
    {
        let mut leaves: Vec<QuadTreeNode<T>> = Vec::new();
        collect_leaves(&self.root, &mut leaves);
        assert(leaves@ =~= self@.root.leaves());
        leaves
    }

    /// The events that build, from nothing, what a consumer of change events
    /// holds of this tree: one for each authoritative region, in the order
    /// of `nodes`.
    pub fn snapshot(&self) -> (events: Vec<ChangeEvent<T>>)
        ensures
            events@ == self@.root.leaf_events(),
    {
        let mut events: Vec<ChangeEvent<T>> = Vec::new();
        collect_leaf_events(&self.root, &mut events);
        assert(events@ =~= self@.root.leaf_events());
        events
    }

    /// One rectangle for each authoritative region that holds `solid`, in
    /// the order of `nodes`.
    pub fn collider_shapes(&self, solid: T) -> (rects: Vec<Rect>)
        requires
            self@.wf(),
            obeys_concrete_eq::<T>(),
        ensures
            rects@ == solid_rects(self@.root.leaves(), solid),
    {
        let leaves = self.nodes();
        proof {
            assert forall|i: int| 0 <= i < leaves@.len() implies (#[trigger] leaves@[i]).id.depth <= MAX_DEPTH by {
                lemma_leaves_in_grid(self.root, i);
            }
        }
        rects_of_solid(&leaves, solid)
    }

    /// Paints `value` onto every region of the field that the disc of the
    /// given radius round `center` meets, and returns what changed, in the
    /// order in which it changed.
    pub fn stamp(&mut self, center: Point, radius: i64, value: T) -> (events: Vec<ChangeEvent<T>>)
        requires
            old(self)@.wf(),
            old(self)@.can_stamp(),
            obeys_concrete_eq::<T>(),
        ensures
            final(self)@ == old(self)@.stamped(center, radius, value),
            events@ == old(self)@.stamp_events(center, radius, value),
            final(self)@.wf(),
            final(self)@.subdivisions() == old(self)@.subdivisions(),
            old(self)@.next_identity <= final(self)@.next_identity,
            !old(self)@.root.region.spec_intersects(Disc { center, radius }) ==> events@.len() == 0
                && final(self)@ == old(self)@,
    {
        let disc = Disc { center, radius };
        let mut events: Vec<ChangeEvent<T>> = Vec::new();
        proof {
            lemma_stamped_wf(self.root, disc, value, self.next_identity as nat);
            lemma_stamped_identities(self.root, disc, value, self.next_identity as nat);
        }
        stamp_quad(&mut self.root, &disc, value, &mut self.next_identity, &mut events);
        events
    }
}

} // verus!
