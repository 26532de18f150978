//! Reading the whole field off a subtree.

use vstd::prelude::*;
use vstd::laws_eq::obeys_concrete_eq;
use crate::geometry::{Rect, MAX_DEPTH};
use crate::node::{Quad, QuadTreeNode, same_value};
use crate::event::ChangeEvent;

verus! {

impl<T> Quad<T> {
    /// For each authoritative region of the subtree the event that tells of
    /// it, in the order of `leaves`.
    pub open spec fn leaf_events(self) -> Seq<ChangeEvent<T>>
        decreases self,
    {
        match self.children {
            None => match self.value {
                Some(v) => seq![self.announcement()],
                None => Seq::empty(),
            },
            Some(q) => q.sw.leaf_events() + q.se.leaf_events() + q.ne.leaf_events() + q.nw.leaf_events(),
        }
    }
}

/// The rectangles of the regions among `leaves` that hold `solid`, in the
/// order in which the regions come.
pub open spec fn solid_rects<T>(leaves: Seq<QuadTreeNode<T>>, solid: T) -> Seq<Rect> {
    leaves.filter(|leaf: QuadTreeNode<T>| leaf.value == solid).map_values(
        |leaf: QuadTreeNode<T>| leaf.id.spec_rect(),
    )
}

/// Every region that `leaves` of a well-formed subtree lists lies at a depth
/// that the grid allows.
pub proof fn lemma_leaves_in_grid<T>(quad: Quad<T>, i: int)
    requires
        quad.wf(),
        0 <= i < quad.leaves().len(),
    ensures
        quad.leaves()[i].id.in_grid(),
    decreases quad,
{
    match quad.children {
        None => {},
        Some(q) => {
            let a = q.sw.leaves();
            let b = q.se.leaves();
            let c = q.ne.leaves();
            let d = q.nw.leaves();
            if i < a.len() {
                lemma_leaves_in_grid(q.sw, i);
            } else if i < a.len() + b.len() {
                lemma_leaves_in_grid(q.se, i - a.len());
            } else if i < a.len() + b.len() + c.len() {
                lemma_leaves_in_grid(q.ne, i - a.len() - b.len());
            } else {
                lemma_leaves_in_grid(q.nw, i - a.len() - b.len() - c.len());
            }
        },
    }
}

/// Appends the authoritative regions of the subtree to `out`.
pub fn collect_leaves<T: Copy>(quad: &Quad<T>, out: &mut Vec<QuadTreeNode<T>>)
    ensures
        final(out)@ == old(out)@ + quad.leaves(),
    decreases quad,
{
    let ghost had = out@;
    match &quad.children {
        None => match quad.value {
            Some(v) => {
                out.push(QuadTreeNode { id: quad.region, value: v });
                assert(out@ =~= had + quad.leaves());
            },
            None => {
                assert(out@ =~= had + quad.leaves());
            },
        },
        Some(children) => {
            collect_leaves(&children.sw, out);
            collect_leaves(&children.se, out);
            collect_leaves(&children.ne, out);
            collect_leaves(&children.nw, out);
            assert(out@ =~= had + quad.leaves());
        },
    }
}

/// Appends to `out`, for each authoritative region of the subtree, the event
/// that tells of it.
pub fn collect_leaf_events<T: Copy>(quad: &Quad<T>, out: &mut Vec<ChangeEvent<T>>)
    ensures
        final(out)@ == old(out)@ + quad.leaf_events(),
    decreases quad,
{
    let ghost had = out@;
    match &quad.children {
        None => match quad.value {
            Some(v) => {
                out.push(quad.announce());
                assert(out@ =~= had + quad.leaf_events());
            },
            None => {
                assert(out@ =~= had + quad.leaf_events());
            },
        },
        Some(children) => {
            collect_leaf_events(&children.sw, out);
            collect_leaf_events(&children.se, out);
            collect_leaf_events(&children.ne, out);
            collect_leaf_events(&children.nw, out);
            assert(out@ =~= had + quad.leaf_events());
        },
    }
}

/// The rectangles of the regions among `leaves` that hold `solid`.
pub fn rects_of_solid<T: Copy + PartialEq>(leaves: &Vec<QuadTreeNode<T>>, solid: T) -> (rects: Vec<Rect>)
    requires
        obeys_concrete_eq::<T>(),
        forall|i: int| 0 <= i < leaves@.len() ==> (#[trigger] leaves@[i]).id.depth <= MAX_DEPTH,
    ensures
        rects@ == solid_rects(leaves@, solid),
{
    let mut rects: Vec<Rect> = Vec::new();
    let mut i: usize = 0;
    let ghost is_solid = |leaf: QuadTreeNode<T>| leaf.value == solid;
    let ghost to_rect = |leaf: QuadTreeNode<T>| leaf.id.spec_rect();
    proof {
        assert(leaves@.take(0) =~= Seq::<QuadTreeNode<T>>::empty());
        assert(rects@ =~= leaves@.take(0).filter(is_solid).map_values(to_rect)) by {
            reveal(Seq::filter);
        }
    }
    while i < leaves.len()
        invariant
            i <= leaves@.len(),
            obeys_concrete_eq::<T>(),
            forall|k: int| 0 <= k < leaves@.len() ==> (#[trigger] leaves@[k]).id.depth <= MAX_DEPTH,
            is_solid == |leaf: QuadTreeNode<T>| leaf.value == solid,
            to_rect == |leaf: QuadTreeNode<T>| leaf.id.spec_rect(),
            rects@ == leaves@.take(i as int).filter(is_solid).map_values(to_rect),
        decreases leaves@.len() - i,
    {
        let leaf = leaves[i];
        let ghost seen = leaves@.take(i as int);
        proof {
            assert(leaves@.take(i + 1).drop_last() =~= seen);
            assert(leaves@.take(i + 1).last() == leaf);
            reveal(Seq::filter);
        }
        if same_value(&leaf.value, &solid) {
            rects.push(leaf.id.rect());
            assert(leaves@.take(i + 1).filter(is_solid) == seen.filter(is_solid).push(leaf));
            assert(rects@ =~= leaves@.take(i + 1).filter(is_solid).map_values(to_rect));
        } else {
            assert(leaves@.take(i + 1).filter(is_solid) == seen.filter(is_solid));
        }
        i = i + 1;
    }
    assert(leaves@.take(i as int) =~= leaves@);
    rects
}

} // verus!
