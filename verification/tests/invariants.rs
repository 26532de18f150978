use std::collections::HashMap;
use std::collections::HashSet;

use quadtree_demo::event::ChangeEvent;
use quadtree_demo::geometry::{Disc, Point, Quadrant, Rect, MAX_DEPTH, UNIT};
use quadtree_demo::node::{same_value, Quad, Quadrants};
use quadtree_demo::quadtree::{identities_per_stamp, QuadTree, QuadTreeNode, QuadTreeNodeId};

fn unit(coordinate: i64) -> f64 {
    coordinate as f64 / 4294967296.0
}

fn at(x: f64, y: f64) -> Point {
    Point::new((x * 4294967296.0).round() as i64, (y * 4294967296.0).round() as i64)
}

fn length(l: f64) -> i64 {
    (l * 4294967296.0).round() as i64
}

fn stripes(position: Point) -> u8 {
    ((unit(position.x) * 8.0) as u8 / 3) % 2
}

/// Walks the subtree and checks what must hold of each of its nodes.
fn check_node(quad: &Quad<u8>, identities: &mut HashSet<u64>) {
    assert!(identities.insert(quad.identity), "identity {} occurs twice", quad.identity);
    assert!(quad.region.depth + quad.remaining_subdivisions <= MAX_DEPTH);
    if let Some(children) = &quad.children {
        assert_eq!(quad.value, None);
        assert!(quad.remaining_subdivisions > 0);
        let ordered = [
            (&children.sw, Quadrant::SouthWest),
            (&children.se, Quadrant::SouthEast),
            (&children.ne, Quadrant::NorthEast),
            (&children.nw, Quadrant::NorthWest),
        ];
        let mut area: i128 = 0;
        for (child, quadrant) in ordered {
            assert_eq!(child.region, quad.region.child(quadrant));
            assert_eq!(child.remaining_subdivisions + 1, quad.remaining_subdivisions);
            let rect = child.region.rect();
            let outer = quad.region.rect();
            assert!(rect.center.x - rect.half_extent.x >= outer.center.x - outer.half_extent.x);
            assert!(rect.center.x + rect.half_extent.x <= outer.center.x + outer.half_extent.x);
            assert!(rect.center.y - rect.half_extent.y >= outer.center.y - outer.half_extent.y);
            assert!(rect.center.y + rect.half_extent.y <= outer.center.y + outer.half_extent.y);
            area += (child.region.size() as i128) * (child.region.size() as i128);
            check_node(child, identities);
        }
        assert_eq!(area, (quad.region.size() as i128) * (quad.region.size() as i128));
        let all_leaves = ordered.iter().all(|(child, _)| child.children.is_none());
        let first = children.sw.value;
        let one_value = first.is_some() && ordered.iter().all(|(child, _)| child.value == first);
        assert!(!(all_leaves && one_value), "four leaves of one value were not merged");
    }
}

fn check_tree(tree: &QuadTree<u8>) {
    let mut identities = HashSet::new();
    assert_eq!(tree.root().region, QuadTreeNodeId::new(0, 0, 0));
    check_node(tree.root(), &mut identities);
}

fn structure(quad: &Quad<u8>, out: &mut Vec<(QuadTreeNodeId, Option<u8>, bool)>) {
    out.push((quad.region, quad.value, quad.children.is_some()));
    if let Some(children) = &quad.children {
        structure(&children.sw, out);
        structure(&children.se, out);
        structure(&children.ne, out);
        structure(&children.nw, out);
    }
}

fn apply(cache: &mut HashMap<u64, (QuadTreeNodeId, u8)>, events: &[ChangeEvent<u8>]) {
    for event in events {
        match event.value {
            Some(value) => {
                cache.insert(event.identity, (event.region, value));
            }
            None => {
                cache.remove(&event.identity);
            }
        }
    }
}

fn edits() -> Vec<(Point, i64, u8)> {
    vec![
        (at(0.5, 0.5), length(0.3), 1),
        (at(0.25, 0.25), length(0.2), 2),
        (at(0.5, 0.5), length(0.3), 1),
        (at(0.9, 0.1), length(0.05), 1),
        (at(0.5, 0.5), length(0.8), 2),
        (at(0.1, 0.9), length(0.4), 0),
        (at(0.5, 0.5), length(2.0), 2),
        (at(0.7, 0.3), length(0.01), 1),
        (at(1.5, 0.5), length(0.6), 3),
    ]
}

#[test]
fn every_reached_tree_is_minimal_and_partitioned() {
    let mut tree: QuadTree<u8> = QuadTree::empty(5);
    check_tree(&tree);
    for (center, radius, value) in edits() {
        assert!(tree.can_stamp());
        tree.stamp(center, radius, value);
        check_tree(&tree);
    }
    check_tree(&QuadTree::new(5, stripes));
}

#[test]
fn identities_are_never_given_twice() {
    let mut tree: QuadTree<u8> = QuadTree::uniform(3, 0);
    let mut seen: HashMap<u64, QuadTreeNodeId> = HashMap::new();
    let mut highest_before: u64 = 0;
    for (center, radius, value) in edits() {
        let events = tree.stamp(center, radius, value);
        for event in &events {
            let region = seen.entry(event.identity).or_insert(event.region);
            assert_eq!(*region, event.region, "identity {} moved", event.identity);
        }
        let fresh: Vec<u64> = events.iter().map(|e| e.identity).filter(|i| *i > highest_before).collect();
        for identity in fresh {
            highest_before = highest_before.max(identity);
        }
    }
    // A region that was split, merged and split again has new children.
    let mut tree: QuadTree<u8> = QuadTree::uniform(1, 0);
    let first = tree.stamp(at(0.25, 0.25), length(0.1), 1);
    tree.stamp(at(0.25, 0.25), length(0.1), 0);
    assert!(tree.root().children.is_none());
    let again = tree.stamp(at(0.25, 0.25), length(0.1), 1);
    assert_eq!(first[0].region, again[0].region);
    assert_ne!(first[0].identity, again[0].identity);
    assert_eq!(first[4].identity, again[4].identity);
}

#[test]
fn events_keep_a_cache_equal_to_the_snapshot() {
    let mut tree: QuadTree<u8> = QuadTree::uniform(4, 0);
    let mut cache: HashMap<u64, (QuadTreeNodeId, u8)> = HashMap::new();
    apply(&mut cache, &tree.snapshot());
    for (center, radius, value) in edits() {
        let events = tree.stamp(center, radius, value);
        apply(&mut cache, &events);
        let mut fresh: HashMap<u64, (QuadTreeNodeId, u8)> = HashMap::new();
        apply(&mut fresh, &tree.snapshot());
        assert_eq!(cache, fresh);
        let mut solid: Vec<Rect> = cache.values().filter(|(_, v)| *v == 2).map(|(id, _)| id.rect()).collect();
        let mut shapes = tree.collider_shapes(2);
        let key = |r: &Rect| (r.center.x, r.center.y);
        solid.sort_by_key(key);
        shapes.sort_by_key(key);
        assert_eq!(solid, shapes);
    }
}

#[test]
fn building_twice_gives_the_same_structure() {
    let first = QuadTree::new(6, stripes);
    let second = QuadTree::new(6, stripes);
    assert_eq!(first.nodes(), second.nodes());
    let mut a = Vec::new();
    let mut b = Vec::new();
    structure(first.root(), &mut a);
    structure(second.root(), &mut b);
    assert_eq!(a, b);
    let mut identities = HashSet::new();
    check_node(first.root(), &mut identities);
    assert_eq!(first.root().identity, 0);
}

#[test]
fn build_samples_every_finest_cell_at_its_center() {
    let tree = QuadTree::new(3, |p: Point| (p.x / (UNIT / 8), p.y / (UNIT / 8)));
    let nodes = tree.nodes();
    assert_eq!(nodes.len(), 64);
    for node in nodes {
        assert_eq!(node.id.depth, 3);
        assert_eq!(node.value, (node.id.x as i64, node.id.y as i64));
    }
}

#[test]
fn uniform_field_builds_one_leaf() {
    let tree = QuadTree::new(5, |_| 3u8);
    assert_eq!(tree.nodes(), vec![QuadTreeNode::from((QuadTreeNodeId::new(0, 0, 0), 3u8))]);
    assert!(tree.root().children.is_none());
    assert_eq!(tree.subdivisions(), 5);
}

#[test]
fn nodes_list_only_painted_regions() {
    let mut tree: QuadTree<u8> = QuadTree::empty(1);
    assert!(tree.nodes().is_empty());
    assert!(tree.snapshot().is_empty());
    tree.stamp(at(0.25, 0.75), length(0.1), 6);
    assert_eq!(tree.nodes(), vec![QuadTreeNode::from((QuadTreeNodeId::new(0, 1, 1), 6u8))]);
    assert_eq!(
        tree.snapshot(),
        vec![ChangeEvent { identity: 4, region: QuadTreeNodeId::new(0, 1, 1), value: Some(6u8) }]
    );
}

#[test]
fn collider_shapes_are_the_solid_regions() {
    let mut tree: QuadTree<u8> = QuadTree::uniform(2, 0);
    tree.stamp(at(0.75, 0.25), length(0.2), 1);
    tree.stamp(at(0.125, 0.875), length(0.05), 1);
    let quarter = UNIT / 4;
    let eighth = UNIT / 8;
    assert_eq!(
        tree.collider_shapes(1),
        vec![
            Rect { center: Point::new(3 * quarter, quarter), half_extent: Point::new(quarter, quarter) },
            Rect { center: Point::new(eighth, 7 * eighth), half_extent: Point::new(eighth, eighth) },
        ]
    );
    assert!(tree.collider_shapes(5).is_empty());
    assert_eq!(tree.collider_shapes(0).len(), tree.nodes().len() - 2);
}

#[test]
fn cell_geometry_is_exact() {
    let root = QuadTreeNodeId::root();
    assert_eq!(root, QuadTreeNodeId::new(0, 0, 0));
    assert_eq!(root.size(), UNIT);
    assert_eq!(root.center(), Point::new(UNIT / 2, UNIT / 2));
    assert_eq!(root.child(Quadrant::SouthWest), QuadTreeNodeId::new(0, 0, 1));
    assert_eq!(root.child(Quadrant::SouthEast), QuadTreeNodeId::new(1, 0, 1));
    assert_eq!(root.child(Quadrant::NorthEast), QuadTreeNodeId::new(1, 1, 1));
    assert_eq!(root.child(Quadrant::NorthWest), QuadTreeNodeId::new(0, 1, 1));
    let cell = QuadTreeNodeId::new(5, 2, 3);
    assert_eq!(cell.child(Quadrant::NorthEast), QuadTreeNodeId::new(11, 5, 4));
    assert_eq!(cell.size(), UNIT / 8);
    assert_eq!(cell.center(), Point::new(11 * (UNIT / 16), 5 * (UNIT / 16)));
    assert_eq!(
        cell.rect(),
        Rect { center: cell.center(), half_extent: Point::new(UNIT / 16, UNIT / 16) }
    );
    let finest = QuadTreeNodeId::new(i32::MAX, 0, MAX_DEPTH);
    assert_eq!(finest.size(), 2);
    assert_eq!(finest.center(), Point::new(UNIT - 1, 1));
}

#[test]
fn intersection_is_strict_and_exact() {
    let cell = QuadTreeNodeId::new(1, 1, 1);
    let corner = UNIT / 2;
    let disc = |x: i64, y: i64, radius: i64| Disc { center: Point::new(x, y), radius };
    assert!(cell.intersects(&disc(corner, corner, 1)));
    assert!(!cell.intersects(&disc(corner, corner, 0)));
    assert!(!cell.intersects(&disc(corner - 3, corner - 4, 5)));
    assert!(cell.intersects(&disc(corner - 3, corner - 4, 6)));
    assert!(!cell.intersects(&disc(corner - 5, corner + 10, 5)));
    assert!(cell.intersects(&disc(corner - 5, corner + 10, 6)));
    assert!(cell.intersects(&disc(UNIT, UNIT, 1)));
    assert!(!cell.intersects(&disc(UNIT + 1, UNIT, 1)));
    assert!(!cell.intersects(&disc(i64::MAX, i64::MIN, i64::MAX)));
    assert!(cell.intersects(&disc(i64::MAX, corner, i64::MAX)));
}

#[test]
fn identity_budget_of_one_stamp() {
    assert_eq!(identities_per_stamp(0), 0);
    assert_eq!(identities_per_stamp(1), 4);
    assert_eq!(identities_per_stamp(2), 20);
    assert_eq!(identities_per_stamp(31), 0x5555_5555_5555_5554);
    let tree: QuadTree<u8> = QuadTree::empty(31);
    assert!(tree.can_stamp());
}

#[test]
fn uniform_value_needs_four_equal_leaves() {
    let leaf = |identity: u64, q: Quadrant, value: Option<u8>| {
        Quad::leaf(identity, QuadTreeNodeId::root().child(q), 0, value)
    };
    let four = |a, b, c, d| Quadrants {
        sw: leaf(1, Quadrant::SouthWest, a),
        se: leaf(2, Quadrant::SouthEast, b),
        ne: leaf(3, Quadrant::NorthEast, c),
        nw: leaf(4, Quadrant::NorthWest, d),
    };
    assert_eq!(four(Some(1), Some(1), Some(1), Some(1)).uniform_value(), Some(1));
    assert_eq!(four(Some(1), Some(1), Some(2), Some(1)).uniform_value(), None);
    assert_eq!(four(None, None, None, None).uniform_value(), None);
    assert_eq!(four(Some(1), Some(1), Some(1), None).uniform_value(), None);
    assert!(same_value(&3u8, &3u8));
    assert!(!same_value(&3u8, &4u8));
}
