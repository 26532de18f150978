//! Building a tree from a sampling function.

use vstd::prelude::*;
use vstd::laws_eq::obeys_concrete_eq;
use crate::geometry::{Point, QuadTreeNodeId, Quadrant, MAX_DEPTH, lemma_within_a_child, lemma_child_in_grid};
use crate::node::{Quad, Quadrants};
use crate::stamp::{fresh_bound, lemma_identities_of_split};

verus! {

impl<T> Quad<T> {
    /// `cell` is one of the finest cells that this node can ever reach.
    pub open spec fn covers(self, cell: QuadTreeNodeId) -> bool {
        cell.within(self.region) && cell.depth == self.region.depth + self.remaining_subdivisions
    }

    /// The nodes carry the numbers that they have when the nodes of the full
    /// tree are counted from `first` on, each parent before its children
    /// and the children from south-west over south-east and north-east to
    /// north-west.
    pub open spec fn numbered_from(self, first: nat) -> bool
        decreases self,
    {
        &&& self.identity == first
        &&& match self.children {
            None => true,
            Some(q) => {
                let step = fresh_bound((self.remaining_subdivisions - 1) as nat) + 1;
                &&& q.sw.numbered_from(first + 1)
                &&& q.se.numbered_from(first + 1 + step)
                &&& q.ne.numbered_from(first + 1 + 2 * step)
                &&& q.nw.numbered_from(first + 1 + 3 * step)
            },
        }
    }

    /// Every leaf holds a value, and it is the value that `sample` gives at
    /// the center of each finest cell that the leaf covers.
    pub open spec fn sampled<F: Fn(Point) -> T>(self, sample: F) -> bool
        decreases self,
    {
        match self.children {
            None => {
                &&& self.value is Some
                &&& forall|cell: QuadTreeNodeId| #[trigger]
                    self.covers(cell) ==> sample.ensures((cell.spec_center(),), self.value->0)
            },
            Some(q) => {
                &&& q.sw.sampled(sample)
                &&& q.se.sampled(sample)
                &&& q.ne.sampled(sample)
                &&& q.nw.sampled(sample)
            },
        }
    }
}

/// The sampling function gives one value for each position: it is a function
/// of the position alone.
pub open spec fn deterministic<T, F: Fn(Point) -> T>(sample: F) -> bool {
    forall|p: Point, a: T, b: T| #[trigger] sample.ensures((p,), a) && #[trigger] sample.ensures((p,), b) ==> a == b
}

/// Builds the subtree of `region`: samples every finest cell at its center
/// and merges, from the bottom up, every four leaves of one value.
pub fn build_quad<T: Copy + PartialEq, F: Fn(Point) -> T>(
    region: QuadTreeNodeId,
    remaining: usize,
    sample: &F,
    next: &mut u64,
) -> (quad: Quad<T>)
    requires
        region.in_grid(),
        region.depth + remaining <= MAX_DEPTH,
        obeys_concrete_eq::<T>(),
        forall|cell: QuadTreeNodeId|
            cell.in_grid() && cell.depth == region.depth + remaining ==> sample.requires((cell.spec_center(),)),
        *old(next) + fresh_bound(remaining as nat) + 1 <= u64::MAX,
    ensures
        quad.wf(),
        quad.numbered_from(*old(next) as nat),
        quad.region == region,
        quad.remaining_subdivisions == remaining,
        quad.painted(),
        quad.sampled(*sample),
        quad.distinct(),
        forall|i: u64| #[trigger] quad.identities().contains(i) ==> *old(next) <= i < *final(next),
        *final(next) == *old(next) + fresh_bound(remaining as nat) + 1,
    decreases remaining,
{
    let identity: u64 = *next;
    *next = identity + 1;
    if remaining == 0 {
        let value = sample(region.center());
        let quad = Quad::leaf(identity, region, 0, Some(value));
        return quad;
    }
    proof {
        lemma_child_in_grid(region, Quadrant::SouthWest);
        lemma_child_in_grid(region, Quadrant::SouthEast);
        lemma_child_in_grid(region, Quadrant::NorthEast);
        lemma_child_in_grid(region, Quadrant::NorthWest);
    }
    let sw = build_quad(region.child(Quadrant::SouthWest), remaining - 1, sample, next);
    let se = build_quad(region.child(Quadrant::SouthEast), remaining - 1, sample, next);
    let ne = build_quad(region.child(Quadrant::NorthEast), remaining - 1, sample, next);
    let nw = build_quad(region.child(Quadrant::NorthWest), remaining - 1, sample, next);
    let children = Quadrants { sw, se, ne, nw };
    match children.uniform_value() {
        Some(v) => {
            let quad = Quad::leaf(identity, region, remaining, Some(v));
            proof {
                assert forall|cell: QuadTreeNodeId| #[trigger] quad.covers(cell) implies sample.ensures(
                    (cell.spec_center(),),
                    v,
                ) by {
                    lemma_within_a_child(cell, region);
                    let q = choose|q: Quadrant| #[trigger] cell.within(region.spec_child(q));
                    assert(children.get(q).covers(cell));
                }
            }
            quad
        },
        None => {
            let quad = Quad {
                identity,
                region,
                remaining_subdivisions: remaining,
                value: None,
                children: Some(Box::new(children)),
            };
            proof {
                lemma_identities_of_split(quad);
            }
            quad
        },
    }
}

} // verus!
