use quadtree_demo::event::ChangeEvent;
use quadtree_demo::geometry::{Point, Quadrant};
use quadtree_demo::node::Quad;
use quadtree_demo::quadtree::{QuadTree, QuadTreeNodeId};

/// Maps a coordinate of the square of side 2 round the origin to the tree's
/// coordinate space.
fn tree_coordinate(world: f64) -> i64 {
    ((world + 1.0) / 2.0 * 4294967296.0).round() as i64
}

/// Maps a length in the square of side 2 round the origin to tree units.
fn tree_length(world: f64) -> i64 {
    (world / 2.0 * 4294967296.0).round() as i64
}

fn tree_point(x: f64, y: f64) -> Point {
    Point::new(tree_coordinate(x), tree_coordinate(y))
}

fn child_values(root: &Quad<u32>) -> [Option<u32>; 4] {
    let children = root.children.as_ref().expect("the root is split");
    [children.sw.value, children.nw.value, children.se.value, children.ne.value]
}

/// The tree with one level of depth on which the lower half was painted 0
/// and the upper half 1.
fn halves() -> QuadTree<u32> {
    let mut tree: QuadTree<u32> = QuadTree::empty(1);
    tree.stamp(tree_point(0.0, -0.5), tree_length(0.5), 0);
    tree.stamp(tree_point(0.0, 0.5), tree_length(0.5), 1);
    tree
}

#[test]
fn hard_leaf_root_takes_each_value() {
    let mut tree: QuadTree<u32> = QuadTree::empty(0);
    let root_identity = tree.root().identity;
    let first = tree.stamp(tree_point(0.0, 0.0), tree_length(1.0), 0);
    assert_eq!(
        first,
        vec![ChangeEvent { identity: root_identity, region: QuadTreeNodeId::new(0, 0, 0), value: Some(0) }]
    );
    let second = tree.stamp(tree_point(0.0, 0.0), tree_length(1.0), 1);
    assert_eq!(
        second,
        vec![ChangeEvent { identity: root_identity, region: QuadTreeNodeId::new(0, 0, 0), value: Some(1) }]
    );
    assert_eq!(tree.root().value, Some(1));
    assert!(tree.root().children.is_none());
}

#[test]
fn two_half_stamps_leave_four_children() {
    let tree = halves();
    assert_eq!(tree.root().value, None);
    assert_eq!(child_values(tree.root()), [Some(0), Some(1), Some(0), Some(1)]);
}

#[test]
fn small_stamp_changes_one_child() {
    let mut tree = halves();
    let south_west = tree.root().children.as_ref().unwrap().sw.identity;
    let events = tree.stamp(tree_point(-0.5, -0.5), tree_length(0.1), 1);
    assert_eq!(
        events,
        vec![ChangeEvent { identity: south_west, region: QuadTreeNodeId::new(0, 0, 1), value: Some(1) }]
    );
    assert_eq!(child_values(tree.root()), [Some(1), Some(1), Some(0), Some(1)]);
}

#[test]
fn last_differing_child_triggers_consolidation() {
    let mut tree = halves();
    tree.stamp(tree_point(-0.5, -0.5), tree_length(0.1), 1);
    let root = tree.root().identity;
    let (sw, se, ne, nw) = {
        let children = tree.root().children.as_ref().unwrap();
        (children.sw.identity, children.se.identity, children.ne.identity, children.nw.identity)
    };
    let events = tree.stamp(tree_point(0.5, -0.5), tree_length(0.1), 1);
    let id = QuadTreeNodeId::new(0, 0, 0);
    assert_eq!(
        events,
        vec![
            ChangeEvent { identity: se, region: id.child(Quadrant::SouthEast), value: Some(1) },
            ChangeEvent { identity: root, region: id, value: Some(1) },
            ChangeEvent { identity: sw, region: id.child(Quadrant::SouthWest), value: None },
            ChangeEvent { identity: se, region: id.child(Quadrant::SouthEast), value: None },
            ChangeEvent { identity: ne, region: id.child(Quadrant::NorthEast), value: None },
            ChangeEvent { identity: nw, region: id.child(Quadrant::NorthWest), value: None },
        ]
    );
    assert!(tree.root().children.is_none());
    assert_eq!(tree.root().value, Some(1));
}

#[test]
fn first_stamp_on_empty_root_announces_the_split() {
    let mut tree: QuadTree<u32> = QuadTree::empty(1);
    let events = tree.stamp(tree_point(0.0, -0.5), tree_length(0.5), 0);
    let id = QuadTreeNodeId::new(0, 0, 0);
    assert_eq!(
        events,
        vec![
            ChangeEvent { identity: 1, region: QuadTreeNodeId::new(0, 0, 1), value: None },
            ChangeEvent { identity: 2, region: QuadTreeNodeId::new(1, 0, 1), value: None },
            ChangeEvent { identity: 3, region: QuadTreeNodeId::new(1, 1, 1), value: None },
            ChangeEvent { identity: 4, region: QuadTreeNodeId::new(0, 1, 1), value: None },
            ChangeEvent { identity: 0, region: id, value: None },
            ChangeEvent { identity: 1, region: QuadTreeNodeId::new(0, 0, 1), value: Some(0) },
            ChangeEvent { identity: 2, region: QuadTreeNodeId::new(1, 0, 1), value: Some(0) },
        ]
    );
}

#[test]
fn split_children_inherit_the_value() {
    let mut tree: QuadTree<u32> = QuadTree::uniform(1, 7);
    let events = tree.stamp(tree_point(-0.5, -0.5), tree_length(0.1), 9);
    assert_eq!(
        events,
        vec![
            ChangeEvent { identity: 1, region: QuadTreeNodeId::new(0, 0, 1), value: Some(7) },
            ChangeEvent { identity: 2, region: QuadTreeNodeId::new(1, 0, 1), value: Some(7) },
            ChangeEvent { identity: 3, region: QuadTreeNodeId::new(1, 1, 1), value: Some(7) },
            ChangeEvent { identity: 4, region: QuadTreeNodeId::new(0, 1, 1), value: Some(7) },
            ChangeEvent { identity: 0, region: QuadTreeNodeId::new(0, 0, 0), value: None },
            ChangeEvent { identity: 1, region: QuadTreeNodeId::new(0, 0, 1), value: Some(9) },
        ]
    );
    assert_eq!(child_values(tree.root()), [Some(9), Some(7), Some(7), Some(7)]);
}

#[test]
fn split_and_merge_in_one_stamp() {
    let mut tree: QuadTree<u32> = QuadTree::uniform(1, 7);
    let events = tree.stamp(tree_point(0.0, 0.0), tree_length(0.5), 9);
    assert_eq!(events.len(), 5 + 4 + 5);
    assert_eq!(events[9], ChangeEvent { identity: 0, region: QuadTreeNodeId::new(0, 0, 0), value: Some(9) });
    assert!(tree.root().children.is_none());
    assert_eq!(tree.root().value, Some(9));
}

#[test]
fn disc_that_touches_the_edge_only_misses() {
    // The upper children lie at distance 0.5 from the center of this disc,
    // which is its radius: they are not painted.
    let mut tree: QuadTree<u32> = QuadTree::empty(1);
    tree.stamp(tree_point(0.0, -0.5), tree_length(0.5), 0);
    assert_eq!(child_values(tree.root()), [Some(0), None, Some(0), None]);
}

#[test]
fn stamp_outside_the_root_changes_nothing() {
    let mut tree = halves();
    let twin = halves();
    let events = tree.stamp(tree_point(3.0, 0.0), tree_length(1.0), 5);
    assert!(events.is_empty());
    assert_eq!(tree.root(), twin.root());
    assert_eq!(tree.snapshot(), twin.snapshot());
    let events = tree.stamp(tree_point(2.0, 2.0), tree_length(1.4), 5);
    assert!(events.is_empty());
    assert_eq!(tree.root(), twin.root());
}

#[test]
fn empty_disc_changes_nothing() {
    let mut tree = halves();
    let twin = halves();
    assert!(tree.stamp(tree_point(0.0, 0.0), 0, 5).is_empty());
    assert!(tree.stamp(tree_point(0.0, 0.0), -1000, 5).is_empty());
    assert!(tree.stamp(tree_point(0.0, 0.0), i64::MIN, 5).is_empty());
    assert_eq!(tree.root(), twin.root());
}

#[test]
fn far_center_and_huge_radius_paint_everything() {
    let mut tree: QuadTree<u32> = QuadTree::empty(3);
    let events = tree.stamp(Point::new(i64::MIN, i64::MAX), i64::MAX, 4);
    assert!(events.is_empty());
    let events = tree.stamp(Point::new(0, 0), i64::MAX, 4);
    assert!(!events.is_empty());
    assert!(tree.root().children.is_none());
    assert_eq!(tree.root().value, Some(4));
}

#[test]
fn same_stamp_twice_is_silent_the_second_time() {
    let mut tree: QuadTree<u32> = QuadTree::empty(4);
    let first = tree.stamp(tree_point(0.3, -0.2), tree_length(0.45), 2);
    assert!(!first.is_empty());
    let mut twin: QuadTree<u32> = QuadTree::empty(4);
    twin.stamp(tree_point(0.3, -0.2), tree_length(0.45), 2);
    let second = tree.stamp(tree_point(0.3, -0.2), tree_length(0.45), 2);
    assert!(second.is_empty());
    assert_eq!(tree.root(), twin.root());
}

#[test]
fn without_budget_the_root_never_splits() {
    let mut tree: QuadTree<u32> = QuadTree::empty(0);
    assert!(tree.stamp(tree_point(5.0, 5.0), tree_length(0.5), 1).is_empty());
    assert!(tree.root().children.is_none());
    assert_eq!(tree.stamp(tree_point(0.9, 0.9), tree_length(0.01), 1).len(), 1);
    assert!(tree.root().children.is_none());
    assert_eq!(tree.root().value, Some(1));
    assert!(tree.stamp(tree_point(0.0, 0.0), tree_length(0.01), 1).is_empty());
    assert_eq!(tree.stamp(tree_point(0.0, 0.0), tree_length(0.01), 2).len(), 1);
    assert!(tree.root().children.is_none());
}
