use std::time::{Duration, Instant};

use quadtree_demo::geometry::Point;
use quadtree_demo::quadtree::{QuadTree, QuadTreeNode, QuadTreeNodeId};

#[derive(Copy, Clone, Debug, Eq, PartialEq)]
struct FillType(u32);

/// A tree coordinate as a fraction of the root's side.
fn unit(coordinate: i64) -> f64 {
    coordinate as f64 / 4294967296.0
}

#[test]
fn new_root_no_subdivisions() {
    let quadtree = QuadTree::new(0, |_| FillType(0));

    let actual: Vec<_> = quadtree.nodes().iter().map(|q| *q).collect();
    let expected = vec![
        QuadTreeNode::from((
            QuadTreeNodeId::new(0b0, 0b0, 0),
            FillType(0),
        )),
    ];

    assert_eq!(actual, expected);
}

#[test]
fn subdivide_compact() {
    let quadtree = QuadTree::new(2, |position: Point| {
        let left = unit(position.x) < 0.75;
        let bottom = unit(position.y) < 0.5;
        if left ^ bottom {
            FillType(1)
        } else {
            FillType(0)
        }
    });

    let actual: Vec<_> = quadtree.nodes().iter().map(|q| *q).collect();
    let expected = vec![
        QuadTreeNode::from((
            QuadTreeNodeId::new(0b00, 0b00, 1),
            FillType(0),
        )),
        QuadTreeNode::from((
            QuadTreeNodeId::new(0b010, 0b000, 2),
            FillType(0),
        )),
        QuadTreeNode::from((
            QuadTreeNodeId::new(0b011, 0b000, 2),
            FillType(1),
        )),
        QuadTreeNode::from((
            QuadTreeNodeId::new(0b011, 0b001, 2),
            FillType(1),
        )),
        QuadTreeNode::from((
            QuadTreeNodeId::new(0b010, 0b001, 2),
            FillType(0),
        )),
        QuadTreeNode::from((
            QuadTreeNodeId::new(0b010, 0b010, 2),
            FillType(1),
        )),
        QuadTreeNode::from((
            QuadTreeNodeId::new(0b011, 0b010, 2),
            FillType(0),
        )),
        QuadTreeNode::from((
            QuadTreeNodeId::new(0b011, 0b011, 2),
            FillType(0),
        )),
        QuadTreeNode::from((
            QuadTreeNodeId::new(0b010, 0b011, 2),
            FillType(1),
        )),
        QuadTreeNode::from((
            QuadTreeNodeId::new(0b00, 0b01, 1),
            FillType(1),
        )),
    ];

    assert_eq!(actual, expected);
}

#[test]
fn id_root() {
    let id = QuadTreeNodeId::new(0b0, 0b0, 0);
    let center = id.center();
    assert_eq!((unit(center.x), unit(center.y)), (0.5, 0.5));
    assert_eq!(unit(id.size()), 1.0);
}

#[test]
fn id_child() {
    let id = QuadTreeNodeId::new(0b00, 0b00, 1);
    let center = id.center();
    assert_eq!((unit(center.x), unit(center.y)), (0.25, 0.25));
    assert_eq!(unit(id.size()), 0.5);

    let id = QuadTreeNodeId::new(0b01, 0b00, 1);
    let center = id.center();
    assert_eq!((unit(center.x), unit(center.y)), (0.75, 0.25));
    assert_eq!(unit(id.size()), 0.5);

    let id = QuadTreeNodeId::new(0b00, 0b01, 1);
    let center = id.center();
    assert_eq!((unit(center.x), unit(center.y)), (0.25, 0.75));
    assert_eq!(unit(id.size()), 0.5);

    let id = QuadTreeNodeId::new(0b01, 0b01, 1);
    let center = id.center();
    assert_eq!((unit(center.x), unit(center.y)), (0.75, 0.75));
    assert_eq!(unit(id.size()), 0.5);
}

/// A field of blobs: the sign of a sum of three waves of different pitch.
fn blobs(position: Point) -> bool {
    let x = 4.0 * unit(position.x);
    let y = 4.0 * unit(position.y);
    (1.7 * x + 0.3).sin() + (2.3 * y - 0.8).sin() + (1.1 * (x + y)).cos() > 0.0
}

#[test]
fn benchmark() {
    let now = Instant::now();
    QuadTree::new(8, blobs);
    let elapsed = now.elapsed();
    assert!(elapsed < Duration::from_secs(1), "{:?}", elapsed);
}
