//! What holds of every tree and of every edit.

use vstd::prelude::*;
use vstd::arithmetic::power2::lemma2_to64;
use crate::geometry::{
    Disc,
    Point,
    Quadrant,
    QuadTreeNodeId,
    corner_cell,
    lemma_disc_meets_a_child,
    lemma_children_tile_parent,
    lemma_corner_cell_within,
    lemma_disc_misses_within,
    lemma_parent_in_grid,
    lemma_within_a_child,
    lemma_within_parent,
};
use crate::sampling::deterministic;
use crate::node::{Quad, QuadTreeNode};
use crate::event::ChangeEvent;
use crate::cache::{
    lookup,
    replayed,
    lemma_entry_is_of_subtree,
    lemma_leaf_events_replay,
    lemma_leaves_are_entries,
    lemma_stamp_replay,
};
use crate::stamp::{
    Stamped,
    fresh_bound,
    lemma_identities_of_split,
    lemma_opened,
    lemma_opened_identities,
    lemma_regrown_identities,
    lemma_stamped_identities,
    lemma_stamped_wf,
};
use crate::quadtree::QuadTreeView;

verus! {

impl<T> Quad<T> {
    /// `node` is this node or lies below it.
    pub open spec fn holds(self, node: Quad<T>) -> bool
        decreases self,
    {
        self == node || match self.children {
            None => false,
            Some(q) => q.sw.holds(node) || q.se.holds(node) || q.ne.holds(node) || q.nw.holds(node),
        }
    }

    /// Nothing that the disc meets in this subtree is left to paint: every
    /// leaf that the disc meets holds `value`.
    pub open spec fn settled(self, disc: Disc, value: T) -> bool
        decreases self,
    {
        !self.region.spec_intersects(disc) || match self.children {
            None => self.value == Some(value),
            Some(q) => {
                &&& q.sw.settled(disc, value)
                &&& q.se.settled(disc, value)
                &&& q.ne.settled(disc, value)
                &&& q.nw.settled(disc, value)
            },
        }
    }
}

/// Every node of a well-formed tree is well-formed.
pub proof fn lemma_every_node_wf<T>(root: Quad<T>, node: Quad<T>)
    requires
        root.wf(),
        root.holds(node),
    ensures
        node.wf(),
    decreases root,
{
    if root != node {
        let q = root.children->0;
        if q.sw.holds(node) {
            lemma_every_node_wf(q.sw, node);
        } else if q.se.holds(node) {
            lemma_every_node_wf(q.se, node);
        } else if q.ne.holds(node) {
            lemma_every_node_wf(q.ne, node);
        } else {
            lemma_every_node_wf(q.nw, node);
        }
    }
}

/// Minimality: no node of a well-formed tree has four children that are
/// leaves of one value.
pub proof fn lemma_no_node_can_merge<T>(tree: QuadTreeView<T>, node: Quad<T>)
    requires
        tree.wf(),
        tree.root.holds(node),
    ensures
        !node.mergeable(),
{
    lemma_every_node_wf(tree.root, node);
}

/// Partition: the four children of a split node of a well-formed tree are
/// the four quarters of its region, each with one level less to go, and the
/// quarters tile the region: every point of the region lies in exactly one
/// of them, and no point of a quarter lies outside the region.
pub proof fn lemma_children_partition_region<T>(tree: QuadTreeView<T>, node: Quad<T>, p: Point)
    requires
        tree.wf(),
        tree.root.holds(node),
        node.children is Some,
    ensures
        ({
            let q = node.children->0;
            &&& forall|at: Quadrant| #[trigger] q.get(at).region == node.region.spec_child(at)
            &&& forall|at: Quadrant| #[trigger] q.get(at).remaining_subdivisions == node.remaining_subdivisions - 1
            &&& node.region.contains(p) <==> (exists|at: Quadrant| #[trigger] q.get(at).region.contains(p))
            &&& forall|at: Quadrant, other: Quadrant|
                #[trigger] q.get(at).region.contains(p) && #[trigger] q.get(other).region.contains(p) ==> at
                    == other
        }),
{
    lemma_every_node_wf(tree.root, node);
    lemma_children_tile_parent(node.region, p);
    let q = node.children->0;
    assert forall|at: Quadrant| #[trigger] q.get(at).region == node.region.spec_child(at) by {}
    if node.region.contains(p) {
        let at = choose|at: Quadrant| #[trigger] node.region.spec_child(at).contains(p);
        assert(q.get(at).region.contains(p));
    }
    if exists|at: Quadrant| #[trigger] q.get(at).region.contains(p) {
        let at = choose|at: Quadrant| #[trigger] q.get(at).region.contains(p);
        assert(node.region.spec_child(at).contains(p));
    }
    assert forall|at: Quadrant, other: Quadrant|
        #[trigger] q.get(at).region.contains(p) && #[trigger] q.get(other).region.contains(
            p,
        ) implies at == other by {
        assert(node.region.spec_child(at).contains(p));
        assert(node.region.spec_child(other).contains(p));
    }
}

impl<T> Quad<T> {
    /// What the field holds at `cell`: the value of the leaf that `cell` lies
    /// in.
    pub open spec fn value_at(self, cell: QuadTreeNodeId) -> Option<T>
        decreases self,
    {
        match self.children {
            None => self.value,
            Some(q) => if cell.within(q.sw.region) {
                q.sw.value_at(cell)
            } else if cell.within(q.se.region) {
                q.se.value_at(cell)
            } else if cell.within(q.ne.region) {
                q.ne.value_at(cell)
            } else {
                q.nw.value_at(cell)
            },
        }
    }
}

/// What an edit does to the field: every finest cell that the disc meets
/// holds the painted value afterwards, and every other finest cell holds
/// what it held.
pub proof fn lemma_stamped_field<T>(quad: Quad<T>, disc: Disc, value: T, next: nat, cell: QuadTreeNodeId)
    requires
        quad.wf(),
        quad.covers(cell),
    ensures
        quad.stamped(disc, value, next).quad.value_at(cell) == (if cell.spec_intersects(disc) {
            Some(value)
        } else {
            quad.value_at(cell)
        }),
    decreases quad.remaining_subdivisions,
{
    if !quad.region.spec_intersects(disc) {
        lemma_disc_misses_within(cell, quad.region, disc);
    } else if quad.value == Some(value) {
    } else if quad.remaining_subdivisions == 0 {
    } else {
        lemma_opened(quad, next);
        let open = quad.opened(next);
        let q = open.quad.children->0;
        lemma_stamped_wf(q.sw, disc, value, open.next);
        let sw = q.sw.stamped(disc, value, open.next);
        lemma_stamped_wf(q.se, disc, value, sw.next);
        let se = q.se.stamped(disc, value, sw.next);
        lemma_stamped_wf(q.ne, disc, value, se.next);
        let ne = q.ne.stamped(disc, value, se.next);
        lemma_stamped_wf(q.nw, disc, value, ne.next);
        let nw = q.nw.stamped(disc, value, ne.next);
        let grown = open.quad.with_children(sw.quad, se.quad, ne.quad, nw.quad);
        lemma_within_a_child(cell, quad.region);
        assert(open.quad.value_at(cell) == quad.value_at(cell)) by {
            reveal_with_fuel(Quad::value_at, 2);
        }
        if cell.within(q.sw.region) {
            lemma_stamped_field(q.sw, disc, value, open.next, cell);
        } else if cell.within(q.se.region) {
            lemma_stamped_field(q.se, disc, value, sw.next, cell);
        } else if cell.within(q.ne.region) {
            lemma_stamped_field(q.ne, disc, value, se.next, cell);
        } else {
            assert(cell.within(q.nw.region));
            lemma_stamped_field(q.nw, disc, value, ne.next, cell);
        }
        assert(grown.consolidated().value_at(cell) == grown.value_at(cell));
    }
}

/// After an edit nothing that its disc meets is left to paint.
pub proof fn lemma_stamped_settles<T>(quad: Quad<T>, disc: Disc, value: T, next: nat)
    requires
        quad.wf(),
    ensures
        quad.stamped(disc, value, next).quad.settled(disc, value),
    decreases quad.remaining_subdivisions,
{
    if !quad.region.spec_intersects(disc) || quad.value == Some(value) {
    } else if quad.remaining_subdivisions == 0 {
    } else {
        lemma_opened(quad, next);
        let open = quad.opened(next);
        let q = open.quad.children->0;
        lemma_stamped_wf(q.sw, disc, value, open.next);
        lemma_stamped_settles(q.sw, disc, value, open.next);
        let sw = q.sw.stamped(disc, value, open.next);
        lemma_stamped_wf(q.se, disc, value, sw.next);
        lemma_stamped_settles(q.se, disc, value, sw.next);
        let se = q.se.stamped(disc, value, sw.next);
        lemma_stamped_wf(q.ne, disc, value, se.next);
        lemma_stamped_settles(q.ne, disc, value, se.next);
        let ne = q.ne.stamped(disc, value, se.next);
        lemma_stamped_wf(q.nw, disc, value, ne.next);
        lemma_stamped_settles(q.nw, disc, value, ne.next);
        let nw = q.nw.stamped(disc, value, ne.next);
        let grown = open.quad.with_children(sw.quad, se.quad, ne.quad, nw.quad);
        if grown.mergeable() {
            lemma_disc_meets_a_child(quad.region, disc);
            let at = choose|at: Quadrant| #[trigger] quad.region.spec_child(at).spec_intersects(disc);
            let hit = (grown.children->0).get(at);
            assert(hit.region == quad.region.spec_child(at));
            assert(hit.settled(disc, value));
            assert(hit.value == Some(value));
        }
    }
}

/// An edit of a subtree in which nothing is left to paint changes nothing
/// and announces nothing.
pub proof fn lemma_settled_stays<T>(quad: Quad<T>, disc: Disc, value: T, next: nat)
    requires
        quad.wf(),
        quad.settled(disc, value),
    ensures
        quad.stamped(disc, value, next) == (Stamped { quad, events: Seq::<ChangeEvent<T>>::empty(), next }),
    decreases quad.remaining_subdivisions,
{
    if !quad.region.spec_intersects(disc) || quad.value == Some(value) {
    } else {
        let q = quad.children->0;
        lemma_settled_stays(q.sw, disc, value, next);
        lemma_settled_stays(q.se, disc, value, next);
        lemma_settled_stays(q.ne, disc, value, next);
        lemma_settled_stays(q.nw, disc, value, next);
        let grown = quad.with_children(q.sw, q.se, q.ne, q.nw);
        assert(grown == quad);
        let none = Seq::<ChangeEvent<T>>::empty();
        assert(none + none + none + none + none + none =~= none);
    }
}

/// An edit that announces nothing changed nothing.
pub proof fn lemma_silent_stamp_changes_nothing<T>(quad: Quad<T>, disc: Disc, value: T, next: nat)
    requires
        quad.wf(),
        quad.stamped(disc, value, next).events.len() == 0,
    ensures
        quad.stamped(disc, value, next).quad == quad,
        quad.stamped(disc, value, next).next == next,
    decreases quad.remaining_subdivisions,
{
    if !quad.region.spec_intersects(disc) || quad.value == Some(value) {
    } else if quad.remaining_subdivisions == 0 {
    } else {
        lemma_opened(quad, next);
        let open = quad.opened(next);
        let q = open.quad.children->0;
        let sw = q.sw.stamped(disc, value, open.next);
        lemma_stamped_wf(q.sw, disc, value, open.next);
        let se = q.se.stamped(disc, value, sw.next);
        lemma_stamped_wf(q.se, disc, value, sw.next);
        let ne = q.ne.stamped(disc, value, se.next);
        lemma_stamped_wf(q.ne, disc, value, se.next);
        let nw = q.nw.stamped(disc, value, ne.next);
        let grown = open.quad.with_children(sw.quad, se.quad, ne.quad, nw.quad);
        assert(open.events.len() == 0);
        assert(quad.children is Some);
        lemma_silent_stamp_changes_nothing(q.sw, disc, value, open.next);
        lemma_silent_stamp_changes_nothing(q.se, disc, value, sw.next);
        lemma_silent_stamp_changes_nothing(q.ne, disc, value, se.next);
        lemma_silent_stamp_changes_nothing(q.nw, disc, value, ne.next);
        assert(grown == quad);
    }
}

/// Idempotence: the same edit made twice in a row announces nothing the
/// second time and leaves the tree as the first edit left it. And the first
/// edit announces nothing only where it changes nothing.
pub proof fn lemma_stamp_twice<T>(tree: QuadTreeView<T>, center: Point, radius: i64, value: T)
    requires
        tree.wf(),
    ensures
        tree.stamped(center, radius, value).stamp_events(center, radius, value).len() == 0,
        tree.stamped(center, radius, value).stamped(center, radius, value) == tree.stamped(center, radius, value),
        tree.stamp_events(center, radius, value).len() == 0 ==> tree.stamped(center, radius, value) == tree,
{
    let disc = Disc { center, radius };
    lemma_stamped_wf(tree.root, disc, value, tree.next_identity);
    lemma_stamped_settles(tree.root, disc, value, tree.next_identity);
    let once = tree.stamped(center, radius, value);
    lemma_settled_stays(once.root, disc, value, once.next_identity);
    if tree.stamp_events(center, radius, value).len() == 0 {
        lemma_silent_stamp_changes_nothing(tree.root, disc, value, tree.next_identity);
    }
}

/// Depth bound: an edit of a tree without depth budget never gives the root
/// children. It announces nothing, or only that the root took the value.
pub proof fn lemma_stamp_without_budget<T>(tree: QuadTreeView<T>, center: Point, radius: i64, value: T)
    requires
        tree.wf(),
        tree.subdivisions() == 0,
    ensures
        tree.stamped(center, radius, value).root.children is None,
        tree.stamped(center, radius, value).next_identity == tree.next_identity,
        tree.stamp_events(center, radius, value).len() == 0 || tree.stamp_events(center, radius, value) == seq![
            ChangeEvent { identity: tree.root.identity, region: tree.root.region, value: Some(value) },
        ],
        tree.stamp_events(center, radius, value).len() == 1 <==> tree.root.region.spec_intersects(
            Disc { center, radius },
        ) && tree.root.value != Some(value),
{
}

/// Non-intersection: an edit whose disc misses the root's region, as every
/// disc with a radius of zero or less does, announces nothing and leaves the
/// tree as it is.
pub proof fn lemma_stamp_outside<T>(tree: QuadTreeView<T>, center: Point, radius: i64, value: T)
    requires
        tree.wf(),
        radius <= 0 || !tree.root.region.spec_intersects(Disc { center, radius }),
    ensures
        tree.stamp_events(center, radius, value).len() == 0,
        tree.stamped(center, radius, value) == tree,
{
}

/// A finest cell that a child covers is one that its parent covers.
pub proof fn lemma_child_covers<T>(quad: Quad<T>, at: Quadrant, cell: QuadTreeNodeId)
    requires
        quad.wf(),
        quad.children is Some,
        (quad.children->0).get(at).covers(cell),
    ensures
        quad.covers(cell),
{
    lemma_within_parent(cell, quad.region, at);
}

/// A built subtree over cells that all sample to one value is one leaf of
/// that value.
pub proof fn lemma_one_value_one_leaf<T, F: Fn(Point) -> T>(quad: Quad<T>, sample: F, v: T)
    requires
        quad.wf(),
        quad.sampled(sample),
        deterministic(sample),
        forall|cell: QuadTreeNodeId| #[trigger] quad.covers(cell) ==> sample.ensures((cell.spec_center(),), v),
    ensures
        quad.children is None,
        quad.value == Some(v),
    decreases quad,
{
    match quad.children {
        None => {
            let cell = corner_cell(quad.region, quad.remaining_subdivisions as nat);
            lemma_corner_cell_within(quad.region, quad.remaining_subdivisions as nat);
            assert(quad.covers(cell));
        },
        Some(q) => {
            assert forall|at: Quadrant| q.get(at).children is None && (#[trigger] q.get(at)).value == Some(v) by {
                assert forall|cell: QuadTreeNodeId| #[trigger] q.get(at).covers(cell) implies sample.ensures(
                    (cell.spec_center(),),
                    v,
                ) by {
                    lemma_child_covers(quad, at, cell);
                }
                lemma_one_value_one_leaf(q.get(at), sample, v);
            }
            assert(q.get(Quadrant::SouthWest) == q.sw);
            assert(q.get(Quadrant::SouthEast) == q.se);
            assert(q.get(Quadrant::NorthEast) == q.ne);
            assert(q.get(Quadrant::NorthWest) == q.nw);
            assert(q.uniform());
        },
    }
}

/// Two built subtrees of one region, sampled with one function, split alike
/// and hold the same values.
pub proof fn lemma_same_samples_same_structure<T, F: Fn(Point) -> T>(a: Quad<T>, b: Quad<T>, sample: F)
    requires
        a.wf(),
        b.wf(),
        a.sampled(sample),
        b.sampled(sample),
        a.region == b.region,
        a.remaining_subdivisions == b.remaining_subdivisions,
        deterministic(sample),
    ensures
        a.same_structure(b),
    decreases a,
{
    match (a.children, b.children) {
        (None, None) => {
            let cell = corner_cell(a.region, a.remaining_subdivisions as nat);
            lemma_corner_cell_within(a.region, a.remaining_subdivisions as nat);
            assert(a.covers(cell) && b.covers(cell));
        },
        (None, Some(_)) => {
            assert forall|cell: QuadTreeNodeId| #[trigger] b.covers(cell) implies sample.ensures(
                (cell.spec_center(),),
                a.value->0,
            ) by {
                assert(a.covers(cell));
            }
            lemma_one_value_one_leaf(b, sample, a.value->0);
        },
        (Some(_), None) => {
            assert forall|cell: QuadTreeNodeId| #[trigger] a.covers(cell) implies sample.ensures(
                (cell.spec_center(),),
                b.value->0,
            ) by {
                assert(b.covers(cell));
            }
            lemma_one_value_one_leaf(a, sample, b.value->0);
        },
        (Some(p), Some(q)) => {
            lemma_same_samples_same_structure(p.sw, q.sw, sample);
            lemma_same_samples_same_structure(p.se, q.se, sample);
            lemma_same_samples_same_structure(p.ne, q.ne, sample);
            lemma_same_samples_same_structure(p.nw, q.nw, sample);
        },
    }
}

/// Subtrees that split alike, hold the same values and are numbered from
/// the same number on are equal.
pub proof fn lemma_same_structure_same_numbers<T>(a: Quad<T>, b: Quad<T>, first: nat)
    requires
        a.same_structure(b),
        a.numbered_from(first),
        b.numbered_from(first),
    ensures
        a == b,
    decreases a,
{
    match (a.children, b.children) {
        (Some(p), Some(q)) => {
            let step = fresh_bound((a.remaining_subdivisions - 1) as nat) + 1;
            lemma_same_structure_same_numbers(p.sw, q.sw, first + 1);
            lemma_same_structure_same_numbers(p.se, q.se, first + 1 + step);
            lemma_same_structure_same_numbers(p.ne, q.ne, first + 1 + 2 * step);
            lemma_same_structure_same_numbers(p.nw, q.nw, first + 1 + 3 * step);
        },
        _ => {},
    }
}

/// Batch-build determinism: two trees built with the same depth from one
/// sampling function, which gives one value for each position, split the
/// same regions in the same way and hold the same values. They give their
/// nodes the same identities too, so they are equal.
pub proof fn lemma_batch_build_deterministic<T, F: Fn(Point) -> T>(
    first: QuadTreeView<T>,
    second: QuadTreeView<T>,
    subdivisions: nat,
    sample: F,
)
    requires
        first.built_from(subdivisions, sample),
        second.built_from(subdivisions, sample),
        deterministic(sample),
    ensures
        first.root.same_structure(second.root),
        first.root.leaves() == second.root.leaves(),
        first == second,
{
    lemma_same_samples_same_structure(first.root, second.root, sample);
    lemma_same_structure_same_leaves(first.root, second.root);
    lemma_same_structure_same_numbers(first.root, second.root, 0);
}

/// Subtrees that split alike and hold the same values list the same
/// authoritative regions.
pub proof fn lemma_same_structure_same_leaves<T>(a: Quad<T>, b: Quad<T>)
    requires
        a.same_structure(b),
    ensures
        a.leaves() == b.leaves(),
    decreases a,
{
    match (a.children, b.children) {
        (Some(p), Some(q)) => {
            lemma_same_structure_same_leaves(p.sw, q.sw);
            lemma_same_structure_same_leaves(p.se, q.se);
            lemma_same_structure_same_leaves(p.ne, q.ne);
            lemma_same_structure_same_leaves(p.nw, q.nw);
        },
        _ => {},
    }
}

/// Change notification: a consumer that holds the authoritative regions of
/// a tree, each under the identity of its node, and applies the events of an
/// edit in their order, holds the authoritative regions of the edited tree.
pub proof fn lemma_events_keep_cache_in_step<T>(tree: QuadTreeView<T>, center: Point, radius: i64, value: T)
    requires
        tree.wf(),
        tree.can_stamp(),
    ensures
        replayed(tree.root.entries(), tree.stamp_events(center, radius, value)) == tree.stamped(
            center,
            radius,
            value,
        ).root.entries(),
{
    let disc = Disc { center, radius };
    let cache = tree.root.entries();
    let s = tree.root.stamped(disc, value, tree.next_identity);
    let after = replayed(cache, s.events);
    lemma_stamp_replay(tree.root, disc, value, tree.next_identity, cache);
    lemma_stamped_identities(tree.root, disc, value, tree.next_identity);
    assert forall|i: u64| lookup(after, i) == s.quad.entry(i) by {
        lemma_entry_is_of_subtree(tree.root, i);
        lemma_entry_is_of_subtree(s.quad, i);
        assert(lookup(after, i) == if tree.root.identities().contains(i) || tree.next_identity <= i < s.next {
            s.quad.entry(i)
        } else {
            lookup(cache, i)
        });
    }
    assert forall|i: u64| after.contains_key(i) == s.quad.entries().contains_key(i) by {
        assert(lookup(after, i) == s.quad.entry(i));
    }
    assert forall|i: u64| after.contains_key(i) implies after[i] == s.quad.entries()[i] by {
        assert(lookup(after, i) == s.quad.entry(i));
    }
    assert(after =~= s.quad.entries());
}

/// The events of a snapshot build, from nothing, the cache that holds the
/// authoritative regions of the tree.
pub proof fn lemma_snapshot_fills_cache<T>(tree: QuadTreeView<T>)
    requires
        tree.wf(),
    ensures
        replayed(Map::<u64, QuadTreeNode<T>>::empty(), tree.root.leaf_events()) == tree.root.entries(),
{
    let nothing = Map::<u64, QuadTreeNode<T>>::empty();
    let after = replayed(nothing, tree.root.leaf_events());
    lemma_leaf_events_replay(tree.root, nothing);
    assert forall|i: u64| after.contains_key(i) == tree.root.entries().contains_key(i) by {
        assert(lookup(after, i) == if tree.root.entry(i) is Some {
            tree.root.entry(i)
        } else {
            lookup(nothing, i)
        });
    }
    assert forall|i: u64| after.contains_key(i) implies after[i] == tree.root.entries()[i] by {
        assert(lookup(after, i) == if tree.root.entry(i) is Some {
            tree.root.entry(i)
        } else {
            lookup(nothing, i)
        });
    }
    assert(after =~= tree.root.entries());
}

/// The regions that a full enumeration lists are the regions that such a
/// cache holds: a consumer that follows the events sees what a consumer that
/// reads the whole tree sees.
pub proof fn lemma_nodes_are_cached<T>(tree: QuadTreeView<T>, leaf: QuadTreeNode<T>)
    requires
        tree.wf(),
    ensures
        tree.root.leaves().contains(leaf) <==> tree.root.entries().contains_value(leaf),
{
    lemma_leaves_are_entries(tree.root, leaf);
    let entries = tree.root.entries();
    if tree.root.leaves().contains(leaf) {
        let i = choose|i: u64| #[trigger] tree.root.entry(i) == Some(leaf);
        assert(entries.contains_key(i) && entries[i] == leaf);
    }
    if entries.contains_value(leaf) {
        let i = choose|i: u64| #[trigger] entries.contains_key(i) && entries[i] == leaf;
        assert(tree.root.entry(i) == Some(leaf));
    }
}

/// What an edit paints: afterwards the field holds the painted value at
/// every finest cell that the disc meets, and at every other finest cell
/// what it held before.
pub proof fn lemma_stamp_paints_the_disc<T>(
    tree: QuadTreeView<T>,
    center: Point,
    radius: i64,
    value: T,
    cell: QuadTreeNodeId,
)
    requires
        tree.wf(),
        cell.in_grid(),
        cell.depth == tree.subdivisions(),
    ensures
        tree.stamped(center, radius, value).root.value_at(cell) == (if cell.spec_intersects(
            Disc { center, radius },
        ) {
            Some(value)
        } else {
            tree.root.value_at(cell)
        }),
{
    lemma_grid_cell_within_root(cell);
    lemma_stamped_field(tree.root, Disc { center, radius }, value, tree.next_identity, cell);
}

/// Every cell of the grid lies inside the root.
pub proof fn lemma_grid_cell_within_root(cell: QuadTreeNodeId)
    requires
        cell.in_grid(),
    ensures
        cell.within(QuadTreeNodeId::spec_root()),
    decreases cell.depth,
{
    if cell.depth > 0 {
        lemma_parent_in_grid(cell);
        lemma_grid_cell_within_root(cell.spec_parent());
    } else {
        lemma2_to64();
    }
}

/// In a built subtree the field holds, at every finest cell, a value that
/// the sampling function gives at the center of that cell.
pub proof fn lemma_sampled_field<T, F: Fn(Point) -> T>(quad: Quad<T>, sample: F, cell: QuadTreeNodeId)
    requires
        quad.wf(),
        quad.sampled(sample),
        quad.covers(cell),
    ensures
        quad.value_at(cell) is Some,
        sample.ensures((cell.spec_center(),), quad.value_at(cell)->0),
    decreases quad,
{
    match quad.children {
        None => {},
        Some(q) => {
            lemma_within_a_child(cell, quad.region);
            if cell.within(q.sw.region) {
                lemma_sampled_field(q.sw, sample, cell);
            } else if cell.within(q.se.region) {
                lemma_sampled_field(q.se, sample, cell);
            } else if cell.within(q.ne.region) {
                lemma_sampled_field(q.ne, sample, cell);
            } else {
                assert(cell.within(q.nw.region));
                lemma_sampled_field(q.nw, sample, cell);
            }
        },
    }
}

/// What a batch build yields: a field that holds, at every cell of the
/// finest level, a value that the sampling function gives at the center of
/// that cell.
pub proof fn lemma_build_samples_the_field<T, F: Fn(Point) -> T>(
    tree: QuadTreeView<T>,
    subdivisions: nat,
    sample: F,
    cell: QuadTreeNodeId,
)
    requires
        tree.built_from(subdivisions, sample),
        cell.in_grid(),
        cell.depth == subdivisions,
    ensures
        tree.root.value_at(cell) is Some,
        sample.ensures((cell.spec_center(),), tree.root.value_at(cell)->0),
{
    lemma_grid_cell_within_root(cell);
    lemma_sampled_field(tree.root, sample, cell);
}

impl<T> Quad<T> {
    /// The region of the node of this subtree that has the given identity,
    /// if there is one.
    pub open spec fn region_of(self, identity: u64) -> Option<QuadTreeNodeId>
        decreases self,
    {
        if self.identity == identity {
            Some(self.region)
        } else {
            match self.children {
                None => None,
                Some(q) => if q.sw.region_of(identity) is Some {
                    q.sw.region_of(identity)
                } else if q.se.region_of(identity) is Some {
                    q.se.region_of(identity)
                } else if q.ne.region_of(identity) is Some {
                    q.ne.region_of(identity)
                } else {
                    q.nw.region_of(identity)
                },
            }
        }
    }
}

/// The identities that name a region of a subtree are the identities of its
/// nodes.
pub proof fn lemma_region_of_node<T>(quad: Quad<T>, identity: u64)
    ensures
        quad.region_of(identity) is Some <==> quad.identities().contains(identity),
    decreases quad,
{
    match quad.children {
        None => {},
        Some(q) => {
            lemma_region_of_node(q.sw, identity);
            lemma_region_of_node(q.se, identity);
            lemma_region_of_node(q.ne, identity);
            lemma_region_of_node(q.nw, identity);
        },
    }
}

/// An identity that named a region of the subtree before an edit and names
/// one after it names the same region.
pub proof fn lemma_stamped_regions<T>(quad: Quad<T>, disc: Disc, value: T, next: nat, identity: u64)
    requires
        quad.wf(),
        quad.distinct(),
        quad.identities_below(next),
        next + fresh_bound(quad.remaining_subdivisions as nat) <= u64::MAX,
        quad.stamped(disc, value, next).quad.identities().contains(identity),
        identity < next,
    ensures
        quad.stamped(disc, value, next).quad.region_of(identity) == quad.region_of(identity),
        quad.identities().contains(identity),
    decreases quad.remaining_subdivisions,
{
    let s = quad.stamped(disc, value, next);
    lemma_stamped_identities(quad, disc, value, next);
    if !quad.region.spec_intersects(disc) || quad.value == Some(value) {
    } else if quad.remaining_subdivisions == 0 {
    } else if identity == quad.identity {
        lemma_stamped_wf(quad, disc, value, next);
    } else {
        lemma_opened(quad, next);
        lemma_opened_identities(quad, next);
        let open = quad.opened(next);
        let q = open.quad.children->0;
        lemma_identities_of_split(open.quad);
        lemma_stamped_wf(q.sw, disc, value, open.next);
        let sw = q.sw.stamped(disc, value, open.next);
        lemma_stamped_wf(q.se, disc, value, sw.next);
        let se = q.se.stamped(disc, value, sw.next);
        lemma_stamped_wf(q.ne, disc, value, se.next);
        let ne = q.ne.stamped(disc, value, se.next);
        lemma_stamped_wf(q.nw, disc, value, ne.next);
        let nw = q.nw.stamped(disc, value, ne.next);
        let grown = open.quad.with_children(sw.quad, se.quad, ne.quad, nw.quad);
        assert forall|i: u64|
            (#[trigger] q.sw.identities().contains(i) || #[trigger] q.se.identities().contains(i)
                || #[trigger] q.ne.identities().contains(i) || #[trigger] q.nw.identities().contains(i))
                implies i < open.next by {
            assert(open.quad.identities().contains(i));
        }
        lemma_stamped_identities(q.sw, disc, value, open.next);
        lemma_stamped_identities(q.se, disc, value, sw.next);
        lemma_stamped_identities(q.ne, disc, value, se.next);
        lemma_stamped_identities(q.nw, disc, value, ne.next);
        lemma_regrown_identities(
            open.quad,
            sw.quad,
            se.quad,
            ne.quad,
            nw.quad,
            open.next,
            sw.next,
            se.next,
            ne.next,
            nw.next,
        );
        lemma_identities_of_split(grown);
        assert(grown.identities().contains(grown.identity));
        if grown.mergeable() {
            assert(s.quad.identities() =~= set![quad.identity]);
        } else {
            lemma_region_of_node(sw.quad, identity);
            lemma_region_of_node(se.quad, identity);
            lemma_region_of_node(ne.quad, identity);
            lemma_region_of_node(nw.quad, identity);
            lemma_region_of_node(q.sw, identity);
            lemma_region_of_node(q.se, identity);
            lemma_region_of_node(q.ne, identity);
            lemma_region_of_node(q.nw, identity);
            if sw.quad.identities().contains(identity) {
                lemma_stamped_regions(q.sw, disc, value, open.next, identity);
            } else if se.quad.identities().contains(identity) {
                lemma_stamped_regions(q.se, disc, value, sw.next, identity);
            } else if ne.quad.identities().contains(identity) {
                lemma_stamped_regions(q.ne, disc, value, se.next, identity);
            } else {
                lemma_stamped_regions(q.nw, disc, value, ne.next, identity);
            }
            assert(open.quad.identities().contains(identity));
            assert(quad.children is Some);
        }
    }
}

/// Stable identities: an edit gives no identity to another region. An
/// identity that a node of the edited tree has was that of a node of the
/// same region before the edit, or no node had it before.
pub proof fn lemma_identities_are_stable<T>(
    tree: QuadTreeView<T>,
    center: Point,
    radius: i64,
    value: T,
    identity: u64,
)
    requires
        tree.wf(),
        tree.can_stamp(),
        tree.stamped(center, radius, value).root.identities().contains(identity),
    ensures
        tree.root.identities().contains(identity) || identity >= tree.next_identity,
        tree.root.identities().contains(identity) ==> tree.stamped(center, radius, value).root.region_of(identity)
            == tree.root.region_of(identity),
        !tree.root.identities().contains(identity) ==> tree.root.region_of(identity) is None,
{
    let disc = Disc { center, radius };
    lemma_stamped_identities(tree.root, disc, value, tree.next_identity);
    lemma_region_of_node(tree.root, identity);
    if tree.root.identities().contains(identity) {
        lemma_stamped_regions(tree.root, disc, value, tree.next_identity, identity);
    }
}

} // verus!
