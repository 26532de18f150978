//! What a consumer of change events holds, and why it stays equal to the
//! tree.

use vstd::prelude::*;
use crate::geometry::Disc;
use crate::node::{Quad, QuadTreeNode};
use crate::event::ChangeEvent;
use crate::stamp::{
    fresh_bound,
    lemma_identities_of_split,
    lemma_opened,
    lemma_opened_identities,
    lemma_regrown_identities,
    lemma_stamped_identities,
    lemma_stamped_wf,
};

verus! {

/// What a cache holds under `identity`, if anything.
pub open spec fn lookup<T>(cache: Map<u64, QuadTreeNode<T>>, identity: u64) -> Option<QuadTreeNode<T>> {
    if cache.contains_key(identity) {
        Some(cache[identity])
    } else {
        None
    }
}

/// The cache after one event: a value is kept under the event's identity,
/// together with its region; no value removes what was kept there.
pub open spec fn applied<T>(cache: Map<u64, QuadTreeNode<T>>, event: ChangeEvent<T>) -> Map<u64, QuadTreeNode<T>> {
    match event.value {
        Some(v) => cache.insert(event.identity, QuadTreeNode { id: event.region, value: v }),
        None => cache.remove(event.identity),
    }
}

/// The cache after the events were applied to it one after the other.
pub open spec fn replayed<T>(cache: Map<u64, QuadTreeNode<T>>, events: Seq<ChangeEvent<T>>) -> Map<
    u64,
    QuadTreeNode<T>,
>
    decreases events.len(),
{
    if events.len() == 0 {
        cache
    } else {
        applied(replayed(cache, events.drop_last()), events.last())
    }
}

impl<T> Quad<T> {
    /// Region and value of the leaf of this subtree that has the given
    /// identity and holds a value, if there is one.
    pub open spec fn entry(self, identity: u64) -> Option<QuadTreeNode<T>>
        decreases self,
    {
        match self.children {
            None => if self.identity == identity && self.value is Some {
                Some(QuadTreeNode { id: self.region, value: self.value->0 })
            } else {
                None
            },
            Some(q) => if q.sw.entry(identity) is Some {
                q.sw.entry(identity)
            } else if q.se.entry(identity) is Some {
                q.se.entry(identity)
            } else if q.ne.entry(identity) is Some {
                q.ne.entry(identity)
            } else {
                q.nw.entry(identity)
            },
        }
    }

    /// The authoritative regions of the subtree, each under the identity of
    /// its node: what a cache must hold to be equal to the subtree.
    pub open spec fn entries(self) -> Map<u64, QuadTreeNode<T>> {
        Map::new(|identity: u64| self.entry(identity) is Some, |identity: u64| self.entry(identity)->0)
    }

    /// The cache holds, under every identity of the subtree, what the subtree
    /// has there.
    pub open spec fn mirrored_by(self, cache: Map<u64, QuadTreeNode<T>>) -> bool {
        forall|i: u64| #[trigger] self.identities().contains(i) ==> lookup(cache, i) == self.entry(i)
    }
}

/// Applying a list of events and then one more is applying the longer list.
pub proof fn lemma_replayed_push<T>(cache: Map<u64, QuadTreeNode<T>>, events: Seq<ChangeEvent<T>>, event: ChangeEvent<T>)
    ensures
        replayed(cache, events.push(event)) == applied(replayed(cache, events), event),
{
    assert(events.push(event).drop_last() =~= events);
}

/// Applying two lists of events one after the other is applying their
/// concatenation.
pub proof fn lemma_replayed_concat<T>(
    cache: Map<u64, QuadTreeNode<T>>,
    first: Seq<ChangeEvent<T>>,
    second: Seq<ChangeEvent<T>>,
)
    ensures
        replayed(cache, first + second) == replayed(replayed(cache, first), second),
    decreases second.len(),
{
    if second.len() == 0 {
        assert(first + second =~= first);
    } else {
        lemma_replayed_concat(cache, first, second.drop_last());
        assert((first + second).drop_last() =~= first + second.drop_last());
    }
}

/// Only identities of the subtree have an entry in it.
pub proof fn lemma_entry_is_of_subtree<T>(quad: Quad<T>, identity: u64)
    ensures
        quad.entry(identity) is Some ==> quad.identities().contains(identity),
    decreases quad,
{
    match quad.children {
        None => {},
        Some(q) => {
            lemma_entry_is_of_subtree(q.sw, identity);
            lemma_entry_is_of_subtree(q.se, identity);
            lemma_entry_is_of_subtree(q.ne, identity);
            lemma_entry_is_of_subtree(q.nw, identity);
        },
    }
}

/// In a split node without repeated identities, an identity has the entry
/// that it has in the child it belongs to, and none if it belongs to no
/// child.
pub proof fn lemma_entry_of_split<T>(quad: Quad<T>, identity: u64)
    requires
        quad.children is Some,
        quad.distinct(),
    ensures
        ({
            let q = quad.children->0;
            &&& q.sw.identities().contains(identity) ==> quad.entry(identity) == q.sw.entry(identity)
            &&& q.se.identities().contains(identity) ==> quad.entry(identity) == q.se.entry(identity)
            &&& q.ne.identities().contains(identity) ==> quad.entry(identity) == q.ne.entry(identity)
            &&& q.nw.identities().contains(identity) ==> quad.entry(identity) == q.nw.entry(identity)
            &&& !q.sw.identities().contains(identity) && !q.se.identities().contains(identity)
                && !q.ne.identities().contains(identity) && !q.nw.identities().contains(identity)
                ==> quad.entry(identity) is None
        }),
{
    let q = quad.children->0;
    lemma_entry_is_of_subtree(q.sw, identity);
    lemma_entry_is_of_subtree(q.se, identity);
    lemma_entry_is_of_subtree(q.ne, identity);
    lemma_entry_is_of_subtree(q.nw, identity);
}

/// `after` is `before` brought up to date: under the identities that the
/// subtree had and under those given out from `first` up to `last` it holds
/// what the new subtree has there, and under every other identity it holds
/// what `before` held.
pub open spec fn synced<T>(
    before: Map<u64, QuadTreeNode<T>>,
    after: Map<u64, QuadTreeNode<T>>,
    old_quad: Quad<T>,
    new_quad: Quad<T>,
    first: nat,
    last: nat,
) -> bool {
    forall|i: u64| #[trigger]
        lookup(after, i) == (if old_quad.identities().contains(i) || first <= i < last {
            new_quad.entry(i)
        } else {
            lookup(before, i)
        })
}

/// The events of a split bring a cache up to date with the split node.
pub proof fn lemma_subdivision_replay<T>(quad: Quad<T>, next: nat, cache: Map<u64, QuadTreeNode<T>>)
    requires
        quad.wf(),
        quad.children is None,
        quad.remaining_subdivisions > 0,
        quad.identities_below(next),
        next + 4 <= u64::MAX,
        quad.mirrored_by(cache),
    ensures
        synced(
            cache,
            replayed(cache, quad.subdivision_events(next)),
            quad,
            quad.subdivided(next),
            next,
            next + 4,
        ),
{
    let split = quad.subdivided(next);
    let q = split.children->0;
    let none = Seq::<ChangeEvent<T>>::empty();
    let e1 = none.push(q.sw.announcement());
    let e2 = e1.push(q.se.announcement());
    let e3 = e2.push(q.ne.announcement());
    let e4 = e3.push(q.nw.announcement());
    let e5 = e4.push(quad.retraction());
    assert(quad.subdivision_events(next) =~= e5);
    lemma_replayed_push(cache, none, q.sw.announcement());
    lemma_replayed_push(cache, e1, q.se.announcement());
    lemma_replayed_push(cache, e2, q.ne.announcement());
    lemma_replayed_push(cache, e3, q.nw.announcement());
    lemma_replayed_push(cache, e4, quad.retraction());
    let c1 = applied(cache, q.sw.announcement());
    let c2 = applied(c1, q.se.announcement());
    let c3 = applied(c2, q.ne.announcement());
    let c4 = applied(c3, q.nw.announcement());
    let c5 = applied(c4, quad.retraction());
    assert(replayed(cache, none) == cache);
    assert(replayed(cache, e5) == c5);
    assert(quad.identities().contains(quad.identity));
    assert(quad.identities() =~= set![quad.identity]);
    assert(quad.identity < next);
    reveal_with_fuel(Quad::entry, 2);
    assert forall|i: u64| #[trigger]
        lookup(c5, i) == (if quad.identities().contains(i) || next <= i < next + 4 {
            split.entry(i)
        } else {
            lookup(cache, i)
        }) by {
        if i == quad.identity {
        } else if i == next as u64 {
        } else if i == (next + 1) as u64 {
        } else if i == (next + 2) as u64 {
        } else if i == (next + 3) as u64 {
        } else {
        }
    }
}

/// The events of a merge bring a cache up to date with the merged node.
pub proof fn lemma_merge_replay<T>(quad: Quad<T>, cache: Map<u64, QuadTreeNode<T>>)
    requires
        quad.mergeable(),
        quad.distinct(),
    ensures
        forall|i: u64| #[trigger]
            lookup(replayed(cache, quad.merge_events()), i) == (if quad.identities().contains(i) {
                quad.merged().entry(i)
            } else {
                lookup(cache, i)
            }),
{
    let q = quad.children->0;
    let none = Seq::<ChangeEvent<T>>::empty();
    let e1 = none.push(quad.merged().announcement());
    let e2 = e1.push(q.sw.retraction());
    let e3 = e2.push(q.se.retraction());
    let e4 = e3.push(q.ne.retraction());
    let e5 = e4.push(q.nw.retraction());
    assert(quad.merge_events() =~= e5);
    lemma_replayed_push(cache, none, quad.merged().announcement());
    lemma_replayed_push(cache, e1, q.sw.retraction());
    lemma_replayed_push(cache, e2, q.se.retraction());
    lemma_replayed_push(cache, e3, q.ne.retraction());
    lemma_replayed_push(cache, e4, q.nw.retraction());
    let c1 = applied(cache, quad.merged().announcement());
    let c2 = applied(c1, q.sw.retraction());
    let c3 = applied(c2, q.se.retraction());
    let c4 = applied(c3, q.ne.retraction());
    let c5 = applied(c4, q.nw.retraction());
    assert(replayed(cache, none) == cache);
    assert(replayed(cache, e5) == c5);
    lemma_identities_of_split(quad);
    assert(q.sw.identities() =~= set![q.sw.identity]);
    assert(q.se.identities() =~= set![q.se.identity]);
    assert(q.ne.identities() =~= set![q.ne.identity]);
    assert(q.nw.identities() =~= set![q.nw.identity]);
    assert forall|i: u64| #[trigger]
        lookup(c5, i) == (if quad.identities().contains(i) {
            quad.merged().entry(i)
        } else {
            lookup(cache, i)
        }) by {
        if i == quad.identity {
        } else if i == q.sw.identity {
        } else if i == q.se.identity {
        } else if i == q.ne.identity {
        } else if i == q.nw.identity {
        } else {
        }
    }
}

/// A child of a split node whose cache is up to date is itself mirrored by
/// that cache.
pub proof fn lemma_child_mirrored<T>(parent: Quad<T>, child: Quad<T>, cache: Map<u64, QuadTreeNode<T>>)
    requires
        parent.children is Some,
        parent.distinct(),
        parent.mirrored_by(cache),
        child == (parent.children->0).sw || child == (parent.children->0).se || child == (parent.children->0).ne
            || child == (parent.children->0).nw,
    ensures
        child.mirrored_by(cache),
{
    lemma_identities_of_split(parent);
    assert forall|i: u64| #[trigger] child.identities().contains(i) implies lookup(cache, i) == child.entry(
        i,
    ) by {
        assert(parent.identities().contains(i));
        lemma_entry_of_split(parent, i);
    }
}

/// Four children brought up to date one after the other, each under its own
/// identities, leave the cache up to date with their parent.
pub proof fn lemma_children_replay<T>(
    parent: Quad<T>,
    sw: Quad<T>,
    se: Quad<T>,
    ne: Quad<T>,
    nw: Quad<T>,
    n0: nat,
    n1: nat,
    n2: nat,
    n3: nat,
    n4: nat,
    c0: Map<u64, QuadTreeNode<T>>,
    c1: Map<u64, QuadTreeNode<T>>,
    c2: Map<u64, QuadTreeNode<T>>,
    c3: Map<u64, QuadTreeNode<T>>,
    c4: Map<u64, QuadTreeNode<T>>,
)
    requires
        parent.children is Some,
        parent.value is None,
        parent.distinct(),
        parent.identities_below(n0),
        parent.mirrored_by(c0),
        n0 <= n1 <= n2 <= n3 <= n4,
        sw.distinct() && se.distinct() && ne.distinct() && nw.distinct(),
        forall|i: u64| #[trigger]
            sw.identities().contains(i) ==> (parent.children->0).sw.identities().contains(i) || n0 <= i < n1,
        forall|i: u64| #[trigger]
            se.identities().contains(i) ==> (parent.children->0).se.identities().contains(i) || n1 <= i < n2,
        forall|i: u64| #[trigger]
            ne.identities().contains(i) ==> (parent.children->0).ne.identities().contains(i) || n2 <= i < n3,
        forall|i: u64| #[trigger]
            nw.identities().contains(i) ==> (parent.children->0).nw.identities().contains(i) || n3 <= i < n4,
        synced(c0, c1, (parent.children->0).sw, sw, n0, n1),
        synced(c1, c2, (parent.children->0).se, se, n1, n2),
        synced(c2, c3, (parent.children->0).ne, ne, n2, n3),
        synced(c3, c4, (parent.children->0).nw, nw, n3, n4),
    ensures
        synced(c0, c4, parent, parent.with_children(sw, se, ne, nw), n0, n4),
{
    let grown = parent.with_children(sw, se, ne, nw);
    let q = parent.children->0;
    lemma_regrown_identities(parent, sw, se, ne, nw, n0, n1, n2, n3, n4);
    lemma_identities_of_split(parent);
    lemma_identities_of_split(grown);
    assert(parent.identities().contains(parent.identity));
    assert forall|i: u64| #[trigger]
        lookup(c4, i) == (if parent.identities().contains(i) || n0 <= i < n4 {
            grown.entry(i)
        } else {
            lookup(c0, i)
        }) by {
        lemma_entry_of_split(grown, i);
        lemma_entry_of_split(parent, i);
        lemma_entry_is_of_subtree(sw, i);
        lemma_entry_is_of_subtree(se, i);
        lemma_entry_is_of_subtree(ne, i);
        lemma_entry_is_of_subtree(nw, i);
        let in_sw = q.sw.identities().contains(i);
        let in_se = q.se.identities().contains(i);
        let in_ne = q.ne.identities().contains(i);
        let in_nw = q.nw.identities().contains(i);
        if in_sw || in_se || in_ne || in_nw {
            assert(parent.identities().contains(i));
            assert(i < n0);
        }
        assert(lookup(c1, i) == if in_sw || n0 <= i < n1 {
            sw.entry(i)
        } else {
            lookup(c0, i)
        });
        assert(lookup(c2, i) == if in_se || n1 <= i < n2 {
            se.entry(i)
        } else {
            lookup(c1, i)
        });
        assert(lookup(c3, i) == if in_ne || n2 <= i < n3 {
            ne.entry(i)
        } else {
            lookup(c2, i)
        });
        assert(lookup(c4, i) == if in_nw || n3 <= i < n4 {
            nw.entry(i)
        } else {
            lookup(c3, i)
        });
        if i == parent.identity {
            assert(lookup(c0, i) == parent.entry(i));
        }
    }
}

/// The events of an edit bring a cache that was up to date with the subtree
/// up to date with the edited subtree, and touch nothing else in it.
#[verifier::rlimit(40)]
pub proof fn lemma_stamp_replay<T>(quad: Quad<T>, disc: Disc, value: T, next: nat, cache: Map<u64, QuadTreeNode<T>>)
    requires
        quad.wf(),
        quad.distinct(),
        quad.identities_below(next),
        next + fresh_bound(quad.remaining_subdivisions as nat) <= u64::MAX,
        quad.mirrored_by(cache),
    ensures
        ({
            let s = quad.stamped(disc, value, next);
            synced(cache, replayed(cache, s.events), quad, s.quad, next, s.next)
        }),
    decreases quad.remaining_subdivisions,
{
    let s = quad.stamped(disc, value, next);
    let none = Seq::<ChangeEvent<T>>::empty();
    if !quad.region.spec_intersects(disc) || quad.value == Some(value) {
        assert(replayed(cache, none) == cache);
    } else if quad.remaining_subdivisions == 0 {
        assert(s.events =~= none.push(s.quad.announcement()));
        lemma_replayed_push(cache, none, s.quad.announcement());
        assert(replayed(cache, none) == cache);
        assert(quad.identities() =~= set![quad.identity]);
    } else {
        lemma_opened(quad, next);
        lemma_opened_identities(quad, next);
        let open = quad.opened(next);
        let q = open.quad.children->0;
        let c0 = replayed(cache, open.events);
        lemma_identities_of_split(open.quad);
        if quad.children is None {
            lemma_subdivision_replay(quad, next, cache);
            assert(quad.identities() =~= set![quad.identity]);
        } else {
            assert(replayed(cache, none) == cache);
        }
        assert(synced(cache, c0, quad, open.quad, next, open.next));
        assert forall|i: u64| #[trigger] open.quad.identities().contains(i) implies lookup(c0, i)
            == open.quad.entry(i) by {
            assert(quad.identities().contains(i) || next <= i < open.next);
        }
        assert(open.quad.mirrored_by(c0));
        lemma_stamped_wf(q.sw, disc, value, open.next);
        let sw = q.sw.stamped(disc, value, open.next);
        lemma_stamped_wf(q.se, disc, value, sw.next);
        let se = q.se.stamped(disc, value, sw.next);
        lemma_stamped_wf(q.ne, disc, value, se.next);
        let ne = q.ne.stamped(disc, value, se.next);
        lemma_stamped_wf(q.nw, disc, value, ne.next);
        let nw = q.nw.stamped(disc, value, ne.next);
        let c1 = replayed(c0, sw.events);
        let c2 = replayed(c1, se.events);
        let c3 = replayed(c2, ne.events);
        let c4 = replayed(c3, nw.events);
        assert(q.sw.identities_below(open.next) && q.se.identities_below(open.next) && q.ne.identities_below(
            open.next,
        ) && q.nw.identities_below(open.next)) by {
            assert forall|i: u64|
                (#[trigger] q.sw.identities().contains(i) || #[trigger] q.se.identities().contains(i)
                    || #[trigger] q.ne.identities().contains(i) || #[trigger] q.nw.identities().contains(i))
                    implies i < open.next by {
                assert(open.quad.identities().contains(i));
            }
        }
        lemma_stamped_identities(q.sw, disc, value, open.next);
        lemma_stamped_identities(q.se, disc, value, sw.next);
        lemma_stamped_identities(q.ne, disc, value, se.next);
        lemma_stamped_identities(q.nw, disc, value, ne.next);
        lemma_child_mirrored(open.quad, q.sw, c0);
        lemma_stamp_replay(q.sw, disc, value, open.next, c0);
        assert(q.se.mirrored_by(c1)) by {
            lemma_child_mirrored(open.quad, q.se, c0);
            assert forall|i: u64| #[trigger] q.se.identities().contains(i) implies lookup(c1, i) == q.se.entry(
                i,
            ) by {
                assert(!q.sw.identities().contains(i));
                assert(lookup(c1, i) == lookup(c0, i));
            }
        }
        lemma_stamp_replay(q.se, disc, value, sw.next, c1);
        assert(q.ne.mirrored_by(c2)) by {
            lemma_child_mirrored(open.quad, q.ne, c0);
            assert forall|i: u64| #[trigger] q.ne.identities().contains(i) implies lookup(c2, i) == q.ne.entry(
                i,
            ) by {
                assert(!q.sw.identities().contains(i));
                assert(!q.se.identities().contains(i));
                assert(lookup(c1, i) == lookup(c0, i));
                assert(lookup(c2, i) == lookup(c1, i));
            }
        }
        lemma_stamp_replay(q.ne, disc, value, se.next, c2);
        assert(q.nw.mirrored_by(c3)) by {
            lemma_child_mirrored(open.quad, q.nw, c0);
            assert forall|i: u64| #[trigger] q.nw.identities().contains(i) implies lookup(c3, i) == q.nw.entry(
                i,
            ) by {
                assert(!q.sw.identities().contains(i));
                assert(!q.se.identities().contains(i));
                assert(!q.ne.identities().contains(i));
                assert(lookup(c1, i) == lookup(c0, i));
                assert(lookup(c2, i) == lookup(c1, i));
                assert(lookup(c3, i) == lookup(c2, i));
            }
        }
        lemma_stamp_replay(q.nw, disc, value, ne.next, c3);
        lemma_children_replay(
            open.quad,
            sw.quad,
            se.quad,
            ne.quad,
            nw.quad,
            open.next,
            sw.next,
            se.next,
            ne.next,
            nw.next,
            c0,
            c1,
            c2,
            c3,
            c4,
        );
        let grown = open.quad.with_children(sw.quad, se.quad, ne.quad, nw.quad);
        lemma_regrown_identities(
            open.quad,
            sw.quad,
            se.quad,
            ne.quad,
            nw.quad,
            open.next,
            sw.next,
            se.next,
            ne.next,
            nw.next,
        );
        let c5 = replayed(c4, grown.consolidation_events());
        assert(replayed(cache, s.events) == c5) by {
            lemma_replayed_concat(cache, open.events, sw.events);
            lemma_replayed_concat(cache, open.events + sw.events, se.events);
            lemma_replayed_concat(cache, open.events + sw.events + se.events, ne.events);
            lemma_replayed_concat(cache, open.events + sw.events + se.events + ne.events, nw.events);
            lemma_replayed_concat(
                cache,
                open.events + sw.events + se.events + ne.events + nw.events,
                grown.consolidation_events(),
            );
        }
        if grown.mergeable() {
            lemma_merge_replay(grown, c4);
        } else {
            assert(replayed(c4, none) == c4);
        }
        assert(grown.identities().contains(grown.identity));
        assert forall|i: u64| #[trigger]
            lookup(c5, i) == (if quad.identities().contains(i) || next <= i < s.next {
                s.quad.entry(i)
            } else {
                lookup(cache, i)
            }) by {
            lemma_entry_is_of_subtree(grown, i);
            assert(lookup(c4, i) == if open.quad.identities().contains(i) || open.next <= i < nw.next {
                grown.entry(i)
            } else {
                lookup(c0, i)
            });
            assert(lookup(c0, i) == if quad.identities().contains(i) || next <= i < open.next {
                open.quad.entry(i)
            } else {
                lookup(cache, i)
            });
            if grown.identities().contains(i) {
                assert(open.quad.identities().contains(i) || open.next <= i < nw.next);
            }
            if open.quad.identities().contains(i) {
                assert(quad.identities().contains(i) || next <= i < open.next);
            }
            if quad.identities().contains(i) || next <= i < open.next {
                if quad.children is None {
                    assert(i == quad.identity || next <= i < open.next);
                    assert(open.quad.identities().contains(i));
                } else {
                    assert(open.quad.identities().contains(i));
                }
            }
        }
    }
}

/// The events that tell of the authoritative regions of a subtree put each
/// of them into a cache and touch nothing else in it.
pub proof fn lemma_leaf_events_replay<T>(quad: Quad<T>, cache: Map<u64, QuadTreeNode<T>>)
    requires
        quad.distinct(),
    ensures
        forall|i: u64| #[trigger]
            lookup(replayed(cache, quad.leaf_events()), i) == (if quad.entry(i) is Some {
                quad.entry(i)
            } else {
                lookup(cache, i)
            }),
    decreases quad,
{
    let none = Seq::<ChangeEvent<T>>::empty();
    match quad.children {
        None => {
            if quad.value is Some {
                assert(quad.leaf_events() =~= none.push(quad.announcement()));
                lemma_replayed_push(cache, none, quad.announcement());
            }
            assert(replayed(cache, none) == cache);
        },
        Some(q) => {
            let a = q.sw.leaf_events();
            let b = q.se.leaf_events();
            let c = q.ne.leaf_events();
            let d = q.nw.leaf_events();
            let c1 = replayed(cache, a);
            let c2 = replayed(c1, b);
            let c3 = replayed(c2, c);
            let c4 = replayed(c3, d);
            lemma_replayed_concat(cache, a, b);
            lemma_replayed_concat(cache, a + b, c);
            lemma_replayed_concat(cache, a + b + c, d);
            lemma_leaf_events_replay(q.sw, cache);
            lemma_leaf_events_replay(q.se, c1);
            lemma_leaf_events_replay(q.ne, c2);
            lemma_leaf_events_replay(q.nw, c3);
            assert forall|i: u64| #[trigger]
                lookup(c4, i) == (if quad.entry(i) is Some {
                    quad.entry(i)
                } else {
                    lookup(cache, i)
                }) by {
                lemma_entry_is_of_subtree(q.sw, i);
                lemma_entry_is_of_subtree(q.se, i);
                lemma_entry_is_of_subtree(q.ne, i);
                lemma_entry_is_of_subtree(q.nw, i);
                assert(lookup(c1, i) == if q.sw.entry(i) is Some {
                    q.sw.entry(i)
                } else {
                    lookup(cache, i)
                });
                assert(lookup(c2, i) == if q.se.entry(i) is Some {
                    q.se.entry(i)
                } else {
                    lookup(c1, i)
                });
                assert(lookup(c3, i) == if q.ne.entry(i) is Some {
                    q.ne.entry(i)
                } else {
                    lookup(c2, i)
                });
            }
        },
    }
}

/// The regions that `leaves` lists are the regions that have an entry.
pub proof fn lemma_leaves_are_entries<T>(quad: Quad<T>, leaf: QuadTreeNode<T>)
    requires
        quad.distinct(),
    ensures
        quad.leaves().contains(leaf) <==> exists|i: u64| #[trigger] quad.entry(i) == Some(leaf),
    decreases quad,
{
    match quad.children {
        None => {
            if quad.value is Some {
                let only = QuadTreeNode { id: quad.region, value: quad.value->0 };
                assert(quad.leaves()[0] == only);
                assert(quad.entry(quad.identity) == Some(only));
                if quad.leaves().contains(leaf) {
                    let k = choose|k: int| 0 <= k < quad.leaves().len() && quad.leaves()[k] == leaf;
                    assert(leaf == only);
                }
                if exists|i: u64| #[trigger] quad.entry(i) == Some(leaf) {
                    assert(leaf == only);
                    assert(quad.leaves().contains(leaf));
                }
            } else {
                assert(quad.leaves().len() == 0);
            }
        },
        Some(q) => {
            lemma_leaves_are_entries(q.sw, leaf);
            lemma_leaves_are_entries(q.se, leaf);
            lemma_leaves_are_entries(q.ne, leaf);
            lemma_leaves_are_entries(q.nw, leaf);
            let a = q.sw.leaves();
            let b = q.se.leaves();
            let c = q.ne.leaves();
            let d = q.nw.leaves();
            if quad.leaves().contains(leaf) {
                let k = choose|k: int| 0 <= k < quad.leaves().len() && quad.leaves()[k] == leaf;
                let i = if k < a.len() {
                    assert(a[k] == leaf);
                    choose|i: u64| #[trigger] q.sw.entry(i) == Some(leaf)
                } else if k < a.len() + b.len() {
                    assert(b[k - a.len()] == leaf);
                    choose|i: u64| #[trigger] q.se.entry(i) == Some(leaf)
                } else if k < a.len() + b.len() + c.len() {
                    assert(c[k - a.len() - b.len()] == leaf);
                    choose|i: u64| #[trigger] q.ne.entry(i) == Some(leaf)
                } else {
                    assert(d[k - a.len() - b.len() - c.len()] == leaf);
                    choose|i: u64| #[trigger] q.nw.entry(i) == Some(leaf)
                };
                lemma_entry_of_split(quad, i);
                lemma_entry_is_of_subtree(q.sw, i);
                lemma_entry_is_of_subtree(q.se, i);
                lemma_entry_is_of_subtree(q.ne, i);
                lemma_entry_is_of_subtree(q.nw, i);
                assert(quad.entry(i) == Some(leaf));
            }
            if exists|i: u64| #[trigger] quad.entry(i) == Some(leaf) {
                let i = choose|i: u64| #[trigger] quad.entry(i) == Some(leaf);
                if q.sw.entry(i) is Some {
                    assert(q.sw.entry(i) == Some(leaf));
                    assert(a.contains(leaf));
                    let k = choose|k: int| 0 <= k < a.len() && a[k] == leaf;
                    assert(quad.leaves()[k] == leaf);
                } else if q.se.entry(i) is Some {
                    assert(q.se.entry(i) == Some(leaf));
                    assert(b.contains(leaf));
                    let k = choose|k: int| 0 <= k < b.len() && b[k] == leaf;
                    assert(quad.leaves()[a.len() + k] == leaf);
                } else if q.ne.entry(i) is Some {
                    assert(q.ne.entry(i) == Some(leaf));
                    assert(c.contains(leaf));
                    let k = choose|k: int| 0 <= k < c.len() && c[k] == leaf;
                    assert(quad.leaves()[a.len() + b.len() + k] == leaf);
                } else {
                    assert(q.nw.entry(i) == Some(leaf));
                    assert(d.contains(leaf));
                    let k = choose|k: int| 0 <= k < d.len() && d[k] == leaf;
                    assert(quad.leaves()[a.len() + b.len() + c.len() + k] == leaf);
                }
            }
        },
    }
}

} // verus!
