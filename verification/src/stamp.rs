//! The edit: painting a disc onto a subtree.

use vstd::prelude::*;
use vstd::laws_eq::obeys_concrete_eq;
use crate::geometry::{Disc, Quadrant};
use crate::node::{Quad, Quadrants, same_value, lemma_fresh_child_wf};
use crate::event::ChangeEvent;

verus! {

/// What an edit of a subtree yields: the subtree after it, the events in the
/// order in which they arose, and the first identity not yet given out.
pub ghost struct Stamped<T> {
    pub quad: Quad<T>,
    pub events: Seq<ChangeEvent<T>>,
    pub next: nat,
}

/// The most identities that one edit can use up in a subtree that has
/// `remaining` levels to go: four for each split.
pub open spec fn fresh_bound(remaining: nat) -> nat
    decreases remaining,
{
    if remaining == 0 {
        0
    } else {
        4 + 4 * fresh_bound((remaining - 1) as nat)
    }
}

impl<T> Quad<T> {
    /// This leaf, split: four leaves that inherit its value and take the
    /// identities `next` to `next + 3`.
    pub open spec fn subdivided(self, next: nat) -> Quad<T> {
        let budget = (self.remaining_subdivisions - 1) as usize;
        Quad {
            identity: self.identity,
            region: self.region,
            remaining_subdivisions: self.remaining_subdivisions,
            value: None,
            children: Some(
                Box::new(
                    Quadrants {
                        sw: Quad::spec_leaf(
                            next as u64,
                            self.region.spec_child(Quadrant::SouthWest),
                            budget,
                            self.value,
                        ),
                        se: Quad::spec_leaf(
                            (next + 1) as u64,
                            self.region.spec_child(Quadrant::SouthEast),
                            budget,
                            self.value,
                        ),
                        ne: Quad::spec_leaf(
                            (next + 2) as u64,
                            self.region.spec_child(Quadrant::NorthEast),
                            budget,
                            self.value,
                        ),
                        nw: Quad::spec_leaf(
                            (next + 3) as u64,
                            self.region.spec_child(Quadrant::NorthWest),
                            budget,
                            self.value,
                        ),
                    },
                ),
            ),
        }
    }

    /// What a split announces: each new child with the value it inherits,
    /// then the parent as no longer standing for its region.
    pub open spec fn subdivision_events(self, next: nat) -> Seq<ChangeEvent<T>> {
        let q = self.subdivided(next).children->0;
        seq![
            q.sw.announcement(),
            q.se.announcement(),
            q.ne.announcement(),
            q.nw.announcement(),
            self.retraction(),
        ]
    }

    /// The node made ready for an edit of its children: a leaf is split, a
    /// split node stays as it is.
    pub open spec fn opened(self, next: nat) -> Stamped<T> {
        if self.children is None {
            Stamped { quad: self.subdivided(next), events: self.subdivision_events(next), next: next + 4 }
        } else {
            Stamped { quad: self, events: Seq::empty(), next }
        }
    }

    /// The node can merge: it is split into four leaves of one value.
    pub open spec fn mergeable(self) -> bool {
        self.children is Some && (self.children->0).uniform()
    }

    /// This split node, whose children are four leaves of one value, as one
    /// leaf of that value.
    pub open spec fn merged(self) -> Quad<T> {
        Quad {
            identity: self.identity,
            region: self.region,
            remaining_subdivisions: self.remaining_subdivisions,
            value: (self.children->0).sw.value,
            children: None,
        }
    }

    /// What a merge announces: the parent with its new value, then each
    /// dropped child as no longer standing for its region.
    pub open spec fn merge_events(self) -> Seq<ChangeEvent<T>> {
        let q = self.children->0;
        seq![
            self.merged().announcement(),
            q.sw.retraction(),
            q.se.retraction(),
            q.ne.retraction(),
            q.nw.retraction(),
        ]
    }

    /// The node after the check that follows every edit of its children:
    /// merged if it can merge, else as it is.
    pub open spec fn consolidated(self) -> Quad<T> {
        if self.mergeable() {
            self.merged()
        } else {
            self
        }
    }

    /// What that check announces: the events of the merge, if there is one.
    pub open spec fn consolidation_events(self) -> Seq<ChangeEvent<T>> {
        if self.mergeable() {
            self.merge_events()
        } else {
            Seq::empty()
        }
    }

    /// This node with other children.
    pub open spec fn with_children(self, sw: Quad<T>, se: Quad<T>, ne: Quad<T>, nw: Quad<T>) -> Quad<T> {
        Quad {
            identity: self.identity,
            region: self.region,
            remaining_subdivisions: self.remaining_subdivisions,
            value: self.value,
            children: Some(Box::new(Quadrants { sw, se, ne, nw })),
        }
    }

    /// The subtree after `value` was painted onto every part of it that the
    /// disc meets, with what that announces.
    ///
    /// A node that the disc misses, and one that already holds `value`, stay
    /// as they are. A hard leaf takes the value. Any other leaf splits first.
    /// Then the children are edited from south-west over south-east and
    /// north-east to north-west, and if that leaves four leaves of one value
    /// they merge.
    pub open spec fn stamped(self, disc: Disc, value: T, next: nat) -> Stamped<T>
        decreases self.remaining_subdivisions,
        when self.wf()
    {
        if !self.region.spec_intersects(disc) || self.value == Some(value) {
            Stamped { quad: self, events: Seq::empty(), next }
        } else if self.remaining_subdivisions == 0 {
            let quad = Quad::spec_leaf(self.identity, self.region, self.remaining_subdivisions, Some(value));
            Stamped { quad, events: seq![quad.announcement()], next }
        } else {
            let open = self.opened(next);
            let q = open.quad.children->0;
            let sw = q.sw.stamped(disc, value, open.next);
            let se = q.se.stamped(disc, value, sw.next);
            let ne = q.ne.stamped(disc, value, se.next);
            let nw = q.nw.stamped(disc, value, ne.next);
            let grown = open.quad.with_children(sw.quad, se.quad, ne.quad, nw.quad);
            Stamped {
                quad: grown.consolidated(),
                events: open.events + sw.events + se.events + ne.events + nw.events
                    + grown.consolidation_events(),
                next: nw.next,
            }
        }
    }
}

/// A leaf that may still split is well-formed after the split, but for the
/// check that its children are not four leaves of one value.
pub proof fn lemma_opened<T>(quad: Quad<T>, next: nat)
    requires
        quad.wf(),
        quad.remaining_subdivisions > 0,
    ensures
        ({
            let open = quad.opened(next);
            let q = open.quad.children->0;
            &&& open.quad.children is Some
            &&& open.quad.value is None
            &&& open.quad.identity == quad.identity
            &&& open.quad.region == quad.region
            &&& open.quad.remaining_subdivisions == quad.remaining_subdivisions
            &&& next <= open.next <= next + 4
            &&& q.sw.wf() && q.se.wf() && q.ne.wf() && q.nw.wf()
            &&& open.quad.has_child_at(q.sw, Quadrant::SouthWest)
            &&& open.quad.has_child_at(q.se, Quadrant::SouthEast)
            &&& open.quad.has_child_at(q.ne, Quadrant::NorthEast)
            &&& open.quad.has_child_at(q.nw, Quadrant::NorthWest)
        }),
{
    if quad.children is None {
        lemma_fresh_child_wf(quad, Quadrant::SouthWest, next as u64, quad.value);
        lemma_fresh_child_wf(quad, Quadrant::SouthEast, (next + 1) as u64, quad.value);
        lemma_fresh_child_wf(quad, Quadrant::NorthEast, (next + 2) as u64, quad.value);
        lemma_fresh_child_wf(quad, Quadrant::NorthWest, (next + 3) as u64, quad.value);
    }
}

/// An edit keeps a well-formed subtree well-formed, leaves its root where
/// and what it was, and uses up no more identities than the subtree's budget
/// allows.
pub proof fn lemma_stamped_wf<T>(quad: Quad<T>, disc: Disc, value: T, next: nat)
    requires
        quad.wf(),
    ensures
        ({
            let s = quad.stamped(disc, value, next);
            &&& s.quad.wf()
            &&& s.quad.identity == quad.identity
            &&& s.quad.region == quad.region
            &&& s.quad.remaining_subdivisions == quad.remaining_subdivisions
            &&& next <= s.next <= next + fresh_bound(quad.remaining_subdivisions as nat)
        }),
    decreases quad.remaining_subdivisions,
{
    if !quad.region.spec_intersects(disc) || quad.value == Some(value) {
    } else if quad.remaining_subdivisions == 0 {
    } else {
        lemma_opened(quad, next);
        let open = quad.opened(next);
        let q = open.quad.children->0;
        lemma_stamped_wf(q.sw, disc, value, open.next);
        let sw = q.sw.stamped(disc, value, open.next);
        lemma_stamped_wf(q.se, disc, value, sw.next);
        let se = q.se.stamped(disc, value, sw.next);
        lemma_stamped_wf(q.ne, disc, value, se.next);
        let ne = q.ne.stamped(disc, value, se.next);
        lemma_stamped_wf(q.nw, disc, value, ne.next);
    }
}

/// Where the identities of a split node come from: its own, and those of
/// its four children.
pub proof fn lemma_identities_of_split<T>(quad: Quad<T>)
    requires
        quad.children is Some,
    ensures
        ({
            let q = quad.children->0;
            forall|i: u64| #[trigger]
                quad.identities().contains(i) <==> (i == quad.identity || q.sw.identities().contains(i)
                    || q.se.identities().contains(i) || q.ne.identities().contains(i)
                    || q.nw.identities().contains(i))
        }),
{
}

/// A split gives its four new children identities that no node had before.
pub proof fn lemma_opened_identities<T>(quad: Quad<T>, next: nat)
    requires
        quad.wf(),
        quad.remaining_subdivisions > 0,
        quad.distinct(),
        quad.identities_below(next),
        next + 4 <= u64::MAX,
    ensures
        ({
            let open = quad.opened(next);
            &&& open.quad.distinct()
            &&& open.quad.identities_below(open.next)
            &&& forall|i: u64| #[trigger]
                open.quad.identities().contains(i) ==> quad.identities().contains(i) || next <= i < open.next
        }),
{
    let open = quad.opened(next);
    if quad.children is None {
        let q = open.quad.children->0;
        lemma_identities_of_split(open.quad);
        assert(quad.identities().contains(quad.identity));
        assert(q.sw.identities() =~= set![next as u64]);
        assert(q.se.identities() =~= set![(next + 1) as u64]);
        assert(q.ne.identities() =~= set![(next + 2) as u64]);
        assert(q.nw.identities() =~= set![(next + 3) as u64]);
        assert(q.sw.distinct() && q.se.distinct() && q.ne.distinct() && q.nw.distinct());
        assert(quad.identity < next);
        assert(open.quad.distinct());
        assert(open.quad.identities_below(open.next));
    }
}

/// Children that were edited one after the other, each with identities of
/// its own, leave their parent without an identity that occurs twice.
pub proof fn lemma_regrown_identities<T>(
    parent: Quad<T>,
    sw: Quad<T>,
    se: Quad<T>,
    ne: Quad<T>,
    nw: Quad<T>,
    n0: nat,
    n1: nat,
    n2: nat,
    n3: nat,
    n4: nat,
)
    requires
        parent.children is Some,
        parent.distinct(),
        parent.identities_below(n0),
        n0 <= n1 <= n2 <= n3 <= n4,
        sw.distinct() && se.distinct() && ne.distinct() && nw.distinct(),
        forall|i: u64| #[trigger]
            sw.identities().contains(i) ==> (parent.children->0).sw.identities().contains(i) || n0 <= i < n1,
        forall|i: u64| #[trigger]
            se.identities().contains(i) ==> (parent.children->0).se.identities().contains(i) || n1 <= i < n2,
        forall|i: u64| #[trigger]
            ne.identities().contains(i) ==> (parent.children->0).ne.identities().contains(i) || n2 <= i < n3,
        forall|i: u64| #[trigger]
            nw.identities().contains(i) ==> (parent.children->0).nw.identities().contains(i) || n3 <= i < n4,
    ensures
        ({
            let grown = parent.with_children(sw, se, ne, nw);
            &&& grown.distinct()
            &&& grown.identities_below(n4)
            &&& forall|i: u64| #[trigger]
                grown.identities().contains(i) ==> parent.identities().contains(i) || n0 <= i < n4
        }),
{
    let grown = parent.with_children(sw, se, ne, nw);
    let q = parent.children->0;
    lemma_identities_of_split(parent);
    lemma_identities_of_split(grown);
    assert(parent.identities().contains(parent.identity));
    assert forall|i: u64| #[trigger] grown.identities().contains(i) implies parent.identities().contains(i) || n0
        <= i < n4 by {
        if sw.identities().contains(i) {
        } else if se.identities().contains(i) {
        } else if ne.identities().contains(i) {
        } else if nw.identities().contains(i) {
        }
    }
    assert forall|i: u64| #[trigger] q.sw.identities().contains(i) implies i < n0 by {
        assert(parent.identities().contains(i));
    }
    assert forall|i: u64| #[trigger] q.se.identities().contains(i) implies i < n0 by {
        assert(parent.identities().contains(i));
    }
    assert forall|i: u64| #[trigger] q.ne.identities().contains(i) implies i < n0 by {
        assert(parent.identities().contains(i));
    }
    assert forall|i: u64| #[trigger] q.nw.identities().contains(i) implies i < n0 by {
        assert(parent.identities().contains(i));
    }
    assert(sw.identities().disjoint(se.identities()));
    assert(sw.identities().disjoint(ne.identities()));
    assert(sw.identities().disjoint(nw.identities()));
    assert(se.identities().disjoint(ne.identities()));
    assert(se.identities().disjoint(nw.identities()));
    assert(ne.identities().disjoint(nw.identities()));
}

/// An edit gives no identity twice: the nodes that it keeps keep their
/// identities, and the nodes that it creates take identities from `next` on,
/// which no node had before.
pub proof fn lemma_stamped_identities<T>(quad: Quad<T>, disc: Disc, value: T, next: nat)
    requires
        quad.wf(),
        quad.distinct(),
        quad.identities_below(next),
        next + fresh_bound(quad.remaining_subdivisions as nat) <= u64::MAX,
    ensures
        ({
            let s = quad.stamped(disc, value, next);
            &&& s.quad.distinct()
            &&& s.quad.identities_below(s.next)
            &&& forall|i: u64| #[trigger]
                s.quad.identities().contains(i) ==> quad.identities().contains(i) || next <= i < s.next
        }),
    decreases quad.remaining_subdivisions,
{
    lemma_stamped_wf(quad, disc, value, next);
    if !quad.region.spec_intersects(disc) || quad.value == Some(value) {
    } else if quad.remaining_subdivisions == 0 {
        assert(quad.identities().contains(quad.identity));
    } else {
        lemma_opened(quad, next);
        lemma_opened_identities(quad, next);
        let open = quad.opened(next);
        let q = open.quad.children->0;
        lemma_identities_of_split(open.quad);
        lemma_stamped_wf(q.sw, disc, value, open.next);
        let sw = q.sw.stamped(disc, value, open.next);
        lemma_stamped_wf(q.se, disc, value, sw.next);
        let se = q.se.stamped(disc, value, sw.next);
        lemma_stamped_wf(q.ne, disc, value, se.next);
        let ne = q.ne.stamped(disc, value, se.next);
        lemma_stamped_wf(q.nw, disc, value, ne.next);
        let nw = q.nw.stamped(disc, value, ne.next);
        assert(q.sw.identities_below(open.next)) by {
            assert forall|i: u64| #[trigger] q.sw.identities().contains(i) implies i < open.next by {
                assert(open.quad.identities().contains(i));
            }
        }
        assert(q.se.identities_below(sw.next)) by {
            assert forall|i: u64| #[trigger] q.se.identities().contains(i) implies i < sw.next by {
                assert(open.quad.identities().contains(i));
            }
        }
        assert(q.ne.identities_below(se.next)) by {
            assert forall|i: u64| #[trigger] q.ne.identities().contains(i) implies i < se.next by {
                assert(open.quad.identities().contains(i));
            }
        }
        assert(q.nw.identities_below(ne.next)) by {
            assert forall|i: u64| #[trigger] q.nw.identities().contains(i) implies i < ne.next by {
                assert(open.quad.identities().contains(i));
            }
        }
        lemma_stamped_identities(q.sw, disc, value, open.next);
        lemma_stamped_identities(q.se, disc, value, sw.next);
        lemma_stamped_identities(q.ne, disc, value, se.next);
        lemma_stamped_identities(q.nw, disc, value, ne.next);
        lemma_regrown_identities(
            open.quad,
            sw.quad,
            se.quad,
            ne.quad,
            nw.quad,
            open.next,
            sw.next,
            se.next,
            ne.next,
            nw.next,
        );
        let grown = open.quad.with_children(sw.quad, se.quad, ne.quad, nw.quad);
        assert(grown.identities().contains(grown.identity));
    }
}

/// Splits a leaf.
fn subdivide<T: Copy>(quad: &mut Quad<T>, next: &mut u64, events: &mut Vec<ChangeEvent<T>>)
    requires
        old(quad).wf(),
        old(quad).children is None,
        old(quad).remaining_subdivisions > 0,
        *old(next) + 4 <= u64::MAX,
    ensures
        *final(quad) == old(quad).subdivided(*old(next) as nat),
        final(events)@ == old(events)@ + old(quad).subdivision_events(*old(next) as nat),
        *final(next) == *old(next) + 4,
{
    let ghost told = events@;
    let budget: usize = quad.remaining_subdivisions - 1;
    let n: u64 = *next;
    let sw = Quad::leaf(n, quad.region.child(Quadrant::SouthWest), budget, quad.value);
    let se = Quad::leaf(n + 1, quad.region.child(Quadrant::SouthEast), budget, quad.value);
    let ne = Quad::leaf(n + 2, quad.region.child(Quadrant::NorthEast), budget, quad.value);
    let nw = Quad::leaf(n + 3, quad.region.child(Quadrant::NorthWest), budget, quad.value);
    events.push(sw.announce());
    events.push(se.announce());
    events.push(ne.announce());
    events.push(nw.announce());
    events.push(quad.retract());
    quad.value = None;
    quad.children = Some(Box::new(Quadrants { sw, se, ne, nw }));
    *next = n + 4;
    assert(events@ =~= told + old(quad).subdivision_events(n as nat));
}

/// Merges a split node whose children are four leaves of one value, and
/// leaves any other node as it is.
fn consolidate<T: Copy + PartialEq>(quad: &mut Quad<T>, events: &mut Vec<ChangeEvent<T>>)
    requires
        obeys_concrete_eq::<T>(),
    ensures
        *final(quad) == old(quad).consolidated(),
        final(events)@ == old(events)@ + old(quad).consolidation_events(),
{
    let ghost told = events@;
    let merge = match &quad.children {
        Some(children) => match children.uniform_value() {
            Some(v) => Some(
                (v, children.sw.retract(), children.se.retract(), children.ne.retract(), children.nw.retract()),
            ),
            None => None,
        },
        None => None,
    };
    if let Some((v, sw_gone, se_gone, ne_gone, nw_gone)) = merge {
        quad.value = Some(v);
        quad.children = None;
        events.push(quad.announce());
        events.push(sw_gone);
        events.push(se_gone);
        events.push(ne_gone);
        events.push(nw_gone);
        assert(events@ =~= told + old(quad).merge_events());
    } else {
        assert(events@ =~= told + Seq::<ChangeEvent<T>>::empty());
    }
}

/// Paints `value` onto every part of the subtree that the disc meets, takes
/// the identities of new nodes from `next`, and appends what the edit
/// announces to `events`.
pub fn stamp_quad<T: Copy + PartialEq>(
    quad: &mut Quad<T>,
    disc: &Disc,
    value: T,
    next: &mut u64,
    events: &mut Vec<ChangeEvent<T>>,
)
    requires
        old(quad).wf(),
        obeys_concrete_eq::<T>(),
        *old(next) + fresh_bound(old(quad).remaining_subdivisions as nat) <= u64::MAX,
    ensures
        ({
            let s = old(quad).stamped(*disc, value, *old(next) as nat);
            &&& *final(quad) == s.quad
            &&& final(events)@ == old(events)@ + s.events
            &&& *final(next) == s.next
        }),
    decreases old(quad).remaining_subdivisions,
{
    let ghost told = events@;
    if !quad.region.intersects(disc) {
        assert(events@ =~= told + Seq::<ChangeEvent<T>>::empty());
        return ;
    }
    let settled = match quad.value {
        Some(v) => same_value(&v, &value),
        None => false,
    };
    if settled {
        assert(events@ =~= told + Seq::<ChangeEvent<T>>::empty());
        return ;
    }
    if quad.remaining_subdivisions == 0 {
        quad.value = Some(value);
        quad.children = None;
        events.push(quad.announce());
        assert(events@ =~= told + seq![quad.announcement()]);
        return ;
    }
    let ghost open = old(quad).opened(*old(next) as nat);
    proof {
        lemma_opened(*old(quad), *old(next) as nat);
    }
    if quad.children.is_none() {
        subdivide(quad, next, events);
    } else {
        assert(events@ =~= told + Seq::<ChangeEvent<T>>::empty());
    }
    assert(*quad == open.quad);
    let ghost q = open.quad.children->0;
    let ghost sw = q.sw.stamped(*disc, value, open.next);
    let ghost se = q.se.stamped(*disc, value, sw.next);
    let ghost ne = q.ne.stamped(*disc, value, se.next);
    let ghost nw = q.nw.stamped(*disc, value, ne.next);
    proof {
        lemma_stamped_wf(q.sw, *disc, value, open.next);
        lemma_stamped_wf(q.se, *disc, value, sw.next);
        lemma_stamped_wf(q.ne, *disc, value, se.next);
        lemma_stamped_wf(q.nw, *disc, value, ne.next);
    }
    match &mut quad.children {
        Some(children) => {
            stamp_quad(&mut children.sw, disc, value, next, events);
            stamp_quad(&mut children.se, disc, value, next, events);
            stamp_quad(&mut children.ne, disc, value, next, events);
            stamp_quad(&mut children.nw, disc, value, next, events);
        },
        None => {},
    }
    let ghost grown = open.quad.with_children(sw.quad, se.quad, ne.quad, nw.quad);
    assert(*quad == grown);
    assert(events@ =~= told + (open.events + sw.events + se.events + ne.events + nw.events));
    consolidate(quad, events);
    assert(events@ =~= told + (open.events + sw.events + se.events + ne.events + nw.events
        + grown.consolidation_events()));
}

} // verus!
