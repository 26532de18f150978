//! Exact geometry of the tree's coordinate space.
//!
//! The root of a tree covers the unit square. Coordinates are fixed-point
//! numbers with 32 fractional bits, so the root spans `[0, 2^32]` on both
//! axes and every cell down to depth 31 has integral corners and an integral
//! center. A cell is addressed by its column, its row and its depth: at depth
//! `d` the root is cut into `2^d` columns and `2^d` rows.

use vstd::prelude::*;
use vstd::arithmetic::power2::{pow2, lemma_pow2_pos, lemma_pow2_unfold, lemma2_to64, lemma2_to64_rest};
use vstd::bits::lemma_u64_shl_is_mul;

verus! {

/// Deepest level a cell can lie at: its columns and rows still fit an `i32`,
/// and its half side is still a whole number of lattice units.
pub const MAX_DEPTH: usize = 31;

/// Side of the root square in lattice units.
pub const UNIT: i64 = 0x1_0000_0000;

/// A position, or an extent, in the tree's coordinate space.
#[derive(Clone, Copy, Debug, PartialEq, Eq, Structural)]
pub struct Point {
    pub x: i64,
    pub y: i64,
}

impl Point {
    /// The point with the given coordinates.
    pub fn new(x: i64, y: i64) -> (p: Point)
        ensures
            p == (Point { x, y }),
    {
        Point { x, y }
    }
}

/// The disc that an edit paints: every point at a distance strictly below
/// `radius` from `center`. A radius of zero or less describes the empty disc.
#[derive(Clone, Copy, Debug, PartialEq, Eq, Structural)]
pub struct Disc {
    pub center: Point,
    pub radius: i64,
}

/// An axis-aligned rectangle given by its center and its half extents.
#[derive(Clone, Copy, Debug, PartialEq, Eq, Structural)]
pub struct Rect {
    pub center: Point,
    pub half_extent: Point,
}

/// The four quarters of a cell, in the order in which a split cell holds them.
#[derive(Clone, Copy, Debug, PartialEq, Eq, Structural)]
pub enum Quadrant {
    SouthWest,
    SouthEast,
    NorthEast,
    NorthWest,
}

impl Quadrant {
    /// 0 for the western quarters, 1 for the eastern ones.
    pub open spec fn column(self) -> int {
        match self {
            Quadrant::SouthWest | Quadrant::NorthWest => 0,
            Quadrant::SouthEast | Quadrant::NorthEast => 1,
        }
    }

    /// 0 for the southern quarters, 1 for the northern ones.
    pub open spec fn row(self) -> int {
        match self {
            Quadrant::SouthWest | Quadrant::SouthEast => 0,
            Quadrant::NorthWest | Quadrant::NorthEast => 1,
        }
    }
}

/// Side, in lattice units, of a cell at the given depth.
pub open spec fn cell_side(depth: nat) -> int {
    pow2((32 - depth) as nat) as int
}

/// The value in `[lo, hi]` that is nearest to `v`.
pub open spec fn clamp(v: int, lo: int, hi: int) -> int {
    if v < lo {
        lo
    } else if v > hi {
        hi
    } else {
        v
    }
}

/// The address of a cell: column `x` and row `y` of the grid at `depth`.
#[derive(Clone, Copy, Debug, PartialEq, Eq, Structural)]
pub struct QuadTreeNodeId {
    pub x: i32,
    pub y: i32,
    pub depth: usize,
}

impl QuadTreeNodeId {
    /// The cell lies inside the root square, at a depth the lattice can hold.
    pub open spec fn in_grid(self) -> bool {
        &&& self.depth <= MAX_DEPTH
        &&& 0 <= self.x < pow2(self.depth as nat)
        &&& 0 <= self.y < pow2(self.depth as nat)
    }

    /// The cell that is the whole root square.
    pub open spec fn spec_root() -> QuadTreeNodeId {
        QuadTreeNodeId { x: 0, y: 0, depth: 0 }
    }

    /// Side of the cell in lattice units.
    pub open spec fn spec_size(self) -> int {
        cell_side(self.depth as nat)
    }

    /// Western edge of the cell.
    pub open spec fn min_x(self) -> int {
        self.x * self.spec_size()
    }

    /// Southern edge of the cell.
    pub open spec fn min_y(self) -> int {
        self.y * self.spec_size()
    }

    /// Eastern edge of the cell.
    pub open spec fn max_x(self) -> int {
        (self.x + 1) * self.spec_size()
    }

    /// Northern edge of the cell.
    pub open spec fn max_y(self) -> int {
        (self.y + 1) * self.spec_size()
    }

    /// Center of the cell: an odd multiple of half its side, both ways.
    pub open spec fn spec_center(self) -> Point {
        Point {
            x: ((2 * self.x + 1) * cell_side((self.depth + 1) as nat)) as i64,
            y: ((2 * self.y + 1) * cell_side((self.depth + 1) as nat)) as i64,
        }
    }

    /// The cell as a rectangle: its center and half its side, both ways.
    pub open spec fn spec_rect(self) -> Rect {
        Rect {
            center: self.spec_center(),
            half_extent: Point {
                x: cell_side((self.depth + 1) as nat) as i64,
                y: cell_side((self.depth + 1) as nat) as i64,
            },
        }
    }

    /// The point lies in the cell, whose western and southern edges belong to
    /// it and whose eastern and northern edges belong to its neighbours.
    pub open spec fn contains(self, p: Point) -> bool {
        &&& self.min_x() <= p.x < self.max_x()
        &&& self.min_y() <= p.y < self.max_y()
    }

    /// The quarter of this cell that lies in the given quadrant.
    pub open spec fn spec_child(self, q: Quadrant) -> QuadTreeNodeId {
        QuadTreeNodeId {
            x: (2 * self.x + q.column()) as i32,
            y: (2 * self.y + q.row()) as i32,
            depth: (self.depth + 1) as usize,
        }
    }

    /// The cell one level up that this cell is a quarter of.
    pub open spec fn spec_parent(self) -> QuadTreeNodeId {
        QuadTreeNodeId { x: (self.x / 2) as i32, y: (self.y / 2) as i32, depth: (self.depth - 1) as usize }
    }

    /// This cell is `ancestor` or lies inside it.
    pub open spec fn within(self, ancestor: QuadTreeNodeId) -> bool
        decreases self.depth,
    {
        if self.depth <= ancestor.depth {
            self == ancestor
        } else {
            self.spec_parent().within(ancestor)
        }
    }

    /// The closed square of the cell and the disc have a point in common: the
    /// point of the square nearest to the disc's center is closer to it than
    /// the radius.
    pub open spec fn spec_intersects(self, disc: Disc) -> bool {
        let dx = clamp(disc.center.x as int, self.min_x(), self.max_x()) - disc.center.x;
        let dy = clamp(disc.center.y as int, self.min_y(), self.max_y()) - disc.center.y;
        disc.radius > 0 && dx * dx + dy * dy < disc.radius * disc.radius
    }

    /// The cell in column `x` and row `y` of the grid at `depth`.
    pub fn new(x: i32, y: i32, depth: usize) -> (id: QuadTreeNodeId)
        ensures
            id == (QuadTreeNodeId { x, y, depth }),
    {
        QuadTreeNodeId { x, y, depth }
    }

    /// The cell that is the whole root square.
    pub fn root() -> (id: QuadTreeNodeId)
        ensures
            id == Self::spec_root(),
            id.in_grid(),
    {
        proof {
            lemma2_to64();
        }
        QuadTreeNodeId { x: 0, y: 0, depth: 0 }
    }

    /// Side of the cell in lattice units.
    pub fn size(&self) -> (side: i64)
        requires
            self.depth <= MAX_DEPTH,
        ensures
            side == self.spec_size(),
            2 <= side <= UNIT,
    {
        let shift: u64 = (32 - self.depth) as u64;
        proof {
            lemma_side_range(self.depth as nat);
            lemma_u64_shl_is_mul(1u64, shift);
        }
        (1u64 << shift) as i64
    }

    /// Center of the cell.
    pub fn center(&self) -> (p: Point)
        requires
            self.depth <= MAX_DEPTH,
        ensures
            p == self.spec_center(),
            2 * p.x == self.min_x() + self.max_x(),
            2 * p.y == self.min_y() + self.max_y(),
    {
        let half: i64 = self.size() / 2;
        let cx: i64 = 2 * (self.x as i64) + 1;
        let cy: i64 = 2 * (self.y as i64) + 1;
        proof {
            lemma_side_halves(self.depth as nat);
            lemma_side_range(self.depth as nat);
            let h = half as int;
            let s = self.spec_size();
            assert(s == 2 * h);
            assert(-0x1_0000_0000 < cx < 0x1_0000_0000 && 1 <= h <= 0x8000_0000 ==> -0x8000_0000_0000_0000
                < cx * h < 0x8000_0000_0000_0000) by (nonlinear_arith);
            assert(-0x1_0000_0000 < cy < 0x1_0000_0000 && 1 <= h <= 0x8000_0000 ==> -0x8000_0000_0000_0000
                < cy * h < 0x8000_0000_0000_0000) by (nonlinear_arith);
            assert(2 * (cx * h) == self.x * (2 * h) + (self.x + 1) * (2 * h)) by (nonlinear_arith)
                requires
                    cx == 2 * self.x + 1,
            ;
            assert(2 * (cy * h) == self.y * (2 * h) + (self.y + 1) * (2 * h)) by (nonlinear_arith)
                requires
                    cy == 2 * self.y + 1,
            ;
        }
        Point { x: cx * half, y: cy * half }
    }

    /// The cell as a rectangle: its center and half its side, both ways.
    pub fn rect(&self) -> (r: Rect)
        requires
            self.depth <= MAX_DEPTH,
        ensures
            r == self.spec_rect(),
    {
        proof {
            lemma_side_halves(self.depth as nat);
        }
        let half: i64 = self.size() / 2;
        Rect { center: self.center(), half_extent: Point { x: half, y: half } }
    }

    /// The quarter of this cell that lies in the given quadrant.
    pub fn child(&self, q: Quadrant) -> (id: QuadTreeNodeId)
        requires
            self.in_grid(),
            self.depth < MAX_DEPTH,
        ensures
            id == self.spec_child(q),
            id.in_grid(),
    {
        proof {
            lemma_child_in_grid(*self, q);
        }
        let (column, row): (i32, i32) = match q {
            Quadrant::SouthWest => (0, 0),
            Quadrant::SouthEast => (1, 0),
            Quadrant::NorthEast => (1, 1),
            Quadrant::NorthWest => (0, 1),
        };
        QuadTreeNodeId { x: 2 * self.x + column, y: 2 * self.y + row, depth: self.depth + 1 }
    }

    /// Whether the cell's closed square meets the disc.
    pub fn intersects(&self, disc: &Disc) -> (hit: bool)
        requires
            self.in_grid(),
        ensures
            hit == self.spec_intersects(*disc),
    {
        if disc.radius <= 0 {
            return false;
        }
        let side: i64 = self.size();
        proof {
            lemma_cell_bounds(*self);
        }
        let lo_x: i64 = (self.x as i64) * side;
        let lo_y: i64 = (self.y as i64) * side;
        let gap_x: u128 = gap(disc.center.x, lo_x, lo_x + side);
        let gap_y: u128 = gap(disc.center.y, lo_y, lo_y + side);
        let radius: u128 = disc.radius as u128;
        proof {
            let dx = clamp(disc.center.x as int, self.min_x(), self.max_x()) - disc.center.x;
            let dy = clamp(disc.center.y as int, self.min_y(), self.max_y()) - disc.center.y;
            assert(gap_x * gap_x == dx * dx) by (nonlinear_arith)
                requires
                    gap_x == dx || gap_x == -dx,
            ;
            assert(gap_y * gap_y == dy * dy) by (nonlinear_arith)
                requires
                    gap_y == dy || gap_y == -dy,
            ;
            if gap_x >= radius {
                lemma_square_monotonic(radius as int, gap_x as int);
            } else {
                lemma_square_monotonic(gap_x as int, radius as int);
            }
            if gap_y >= radius {
                lemma_square_monotonic(radius as int, gap_y as int);
            } else {
                lemma_square_monotonic(gap_y as int, radius as int);
            }
            lemma_square_monotonic(radius as int, 0x7fff_ffff_ffff_ffff);
            assert(gap_y * gap_y >= 0 && gap_x * gap_x >= 0) by (nonlinear_arith);
        }
        if gap_x >= radius || gap_y >= radius {
            return false;
        }
        gap_x * gap_x + gap_y * gap_y < radius * radius
    }
}

/// Distance from `v` to the interval `[lo, hi]`.
fn gap(v: i64, lo: i64, hi: i64) -> (d: u128)
    requires
        0 <= lo <= hi <= UNIT,
    ensures
        d == clamp(v as int, lo as int, hi as int) - v || d == v - clamp(v as int, lo as int, hi as int),
        d <= 0x8000_0001_0000_0000,
{
    if v < lo {
        ((lo as i128) - (v as i128)) as u128
    } else if v > hi {
        ((v as i128) - (hi as i128)) as u128
    } else {
        0
    }
}

/// Squaring keeps the order of numbers that are not negative.
pub proof fn lemma_square_monotonic(a: int, b: int)
    requires
        0 <= a <= b,
    ensures
        a * a <= b * b,
{
    assert(a * a <= b * b) by (nonlinear_arith)
        requires
            0 <= a <= b,
    ;
}

/// A cell's side is a whole number between 2 and the side of the root.
pub proof fn lemma_side_range(depth: nat)
    requires
        depth <= MAX_DEPTH,
    ensures
        2 <= cell_side(depth) <= UNIT,
        cell_side(depth) == pow2((32 - depth) as nat),
        pow2((32 - depth) as nat) <= u64::MAX,
    decreases MAX_DEPTH - depth,
{
    lemma2_to64();
    if depth < MAX_DEPTH {
        lemma_side_range(depth + 1);
        lemma_pow2_unfold((32 - depth) as nat);
    }
}

/// Each level halves the side.
pub proof fn lemma_side_halves(depth: nat)
    requires
        depth <= MAX_DEPTH,
    ensures
        cell_side(depth) == 2 * cell_side(depth + 1),
        cell_side(depth + 1) >= 1,
{
    lemma_pow2_unfold((32 - depth) as nat);
    lemma_pow2_pos((31 - depth) as nat);
}

/// The grid at `depth` has `2^depth` columns, each `cell_side(depth)` wide:
/// together they span the root.
pub proof fn lemma_grid_spans_unit(depth: nat)
    requires
        depth <= MAX_DEPTH,
    ensures
        pow2(depth) * cell_side(depth) == UNIT,
    decreases depth,
{
    lemma2_to64();
    lemma2_to64_rest();
    if depth > 0 {
        lemma_grid_spans_unit((depth - 1) as nat);
        lemma_pow2_unfold(depth);
        lemma_side_halves((depth - 1) as nat);
        let a = pow2((depth - 1) as nat) as int;
        let s = cell_side(depth);
        assert(pow2(depth) == 2 * a);
        assert(cell_side((depth - 1) as nat) == 2 * s);
        assert(a * (2 * s) == UNIT);
        let n = pow2(depth) as int;
        assert(n * s == UNIT) by (nonlinear_arith)
            requires
                n == 2 * a,
                a * (2 * s) == UNIT,
        ;
    } else {
        let n = pow2(depth) as int;
        let s = cell_side(depth);
        assert(n * s == UNIT) by (nonlinear_arith)
            requires
                n == 1,
                s == UNIT,
        ;
    }
}

/// A cell of the grid lies inside the root square and is `spec_size()` wide
/// and high.
pub proof fn lemma_cell_bounds(id: QuadTreeNodeId)
    requires
        id.in_grid(),
    ensures
        0 <= id.min_x() < id.max_x() <= UNIT,
        0 <= id.min_y() < id.max_y() <= UNIT,
        id.max_x() == id.min_x() + id.spec_size(),
        id.max_y() == id.min_y() + id.spec_size(),
{
    lemma_side_range(id.depth as nat);
    lemma_grid_spans_unit(id.depth as nat);
    let s = id.spec_size();
    let n = pow2(id.depth as nat) as int;
    let x = id.x as int;
    let y = id.y as int;
    assert(0 <= x * s && (x + 1) * s == x * s + s && (x + 1) * s <= n * s) by (nonlinear_arith)
        requires
            0 <= x < n,
            s > 0,
    ;
    assert(0 <= y * s && (y + 1) * s == y * s + s && (y + 1) * s <= n * s) by (nonlinear_arith)
        requires
            0 <= y < n,
            s > 0,
    ;
}

/// The quarters of a grid cell are grid cells.
pub proof fn lemma_child_in_grid(id: QuadTreeNodeId, q: Quadrant)
    requires
        id.in_grid(),
        id.depth < MAX_DEPTH,
    ensures
        id.spec_child(q).in_grid(),
        id.spec_child(q).x == 2 * id.x + q.column(),
        id.spec_child(q).y == 2 * id.y + q.row(),
        id.spec_child(q).depth == id.depth + 1,
        id.spec_child(q).spec_parent() == id,
        id.spec_child(q).within(id),
{
    lemma_pow2_unfold((id.depth + 1) as nat);
    lemma2_to64();
    lemma_pow2_bound(id.depth as nat);
    let c = id.spec_child(q);
    assert(c.spec_parent().within(id));
}

/// Up to depth 31 the number of columns fits an `i32`.
pub proof fn lemma_pow2_bound(depth: nat)
    requires
        depth <= MAX_DEPTH,
    ensures
        1 <= pow2(depth) <= 0x8000_0000,
    decreases depth,
{
    lemma2_to64();
    if depth > 0 {
        lemma_pow2_bound((depth - 1) as nat);
        lemma_pow2_unfold(depth);
    }
}

/// Where a quarter lies in its cell: the western quarters span the western
/// half, the eastern quarters the eastern half, and likewise from south to
/// north.
pub proof fn lemma_child_bounds(id: QuadTreeNodeId, q: Quadrant)
    requires
        id.in_grid(),
        id.depth < MAX_DEPTH,
    ensures
        id.spec_child(q).in_grid(),
        id.spec_size() == 2 * id.spec_child(q).spec_size(),
        id.spec_child(q).min_x() == id.min_x() + (if q.column() == 1 {
            id.spec_child(q).spec_size()
        } else {
            0
        }),
        id.spec_child(q).min_y() == id.min_y() + (if q.row() == 1 {
            id.spec_child(q).spec_size()
        } else {
            0
        }),
        id.spec_child(q).max_x() == id.spec_child(q).min_x() + id.spec_child(q).spec_size(),
        id.spec_child(q).max_y() == id.spec_child(q).min_y() + id.spec_child(q).spec_size(),
{
    lemma_child_in_grid(id, q);
    lemma_side_halves(id.depth as nat);
    lemma_cell_bounds(id.spec_child(q));
    let c = id.spec_child(q);
    let h = c.spec_size();
    let x = id.x as int;
    let y = id.y as int;
    let i = q.column();
    let j = q.row();
    assert((2 * x + i) * h == x * (2 * h) + (if i == 1 {
        h
    } else {
        0
    })) by (nonlinear_arith)
        requires
            i == 0 || i == 1,
    ;
    assert((2 * y + j) * h == y * (2 * h) + (if j == 1 {
        h
    } else {
        0
    })) by (nonlinear_arith)
        requires
            j == 0 || j == 1,
    ;
}

/// The four quarters tile their cell: every point of the cell lies in exactly
/// one quarter, and every point of a quarter lies in the cell.
pub proof fn lemma_children_tile_parent(id: QuadTreeNodeId, p: Point)
    requires
        id.in_grid(),
        id.depth < MAX_DEPTH,
    ensures
        id.contains(p) <==> (exists|q: Quadrant| #[trigger] id.spec_child(q).contains(p)),
        forall|q: Quadrant, r: Quadrant|
            #[trigger] id.spec_child(q).contains(p) && #[trigger] id.spec_child(r).contains(p) ==> q == r,
{
    lemma_child_bounds(id, Quadrant::SouthWest);
    lemma_child_bounds(id, Quadrant::SouthEast);
    lemma_child_bounds(id, Quadrant::NorthEast);
    lemma_child_bounds(id, Quadrant::NorthWest);
    lemma_cell_bounds(id);
    let mid_x = id.min_x() + id.spec_child(Quadrant::SouthWest).spec_size();
    let mid_y = id.min_y() + id.spec_child(Quadrant::SouthWest).spec_size();
    if id.contains(p) {
        let q = if p.x < mid_x {
            if p.y < mid_y {
                Quadrant::SouthWest
            } else {
                Quadrant::NorthWest
            }
        } else {
            if p.y < mid_y {
                Quadrant::SouthEast
            } else {
                Quadrant::NorthEast
            }
        };
        assert(id.spec_child(q).contains(p));
    }
    assert forall|q: Quadrant| #[trigger] id.spec_child(q).contains(p) implies id.contains(p) by {
        lemma_child_bounds(id, q);
    }
    assert forall|q: Quadrant, r: Quadrant|
        #[trigger] id.spec_child(q).contains(p) && #[trigger] id.spec_child(r).contains(p) implies q == r by {
        lemma_child_bounds(id, q);
        lemma_child_bounds(id, r);
    }
}

/// A disc that meets a cell meets one of its quarters.
pub proof fn lemma_disc_meets_a_child(id: QuadTreeNodeId, disc: Disc)
    requires
        id.in_grid(),
        id.depth < MAX_DEPTH,
        id.spec_intersects(disc),
    ensures
        exists|q: Quadrant| #[trigger] id.spec_child(q).spec_intersects(disc),
{
    lemma_cell_bounds(id);
    let px = clamp(disc.center.x as int, id.min_x(), id.max_x());
    let py = clamp(disc.center.y as int, id.min_y(), id.max_y());
    let h = id.spec_child(Quadrant::SouthWest).spec_size();
    lemma_child_bounds(id, Quadrant::SouthWest);
    let q = if px <= id.min_x() + h {
        if py <= id.min_y() + h {
            Quadrant::SouthWest
        } else {
            Quadrant::NorthWest
        }
    } else {
        if py <= id.min_y() + h {
            Quadrant::SouthEast
        } else {
            Quadrant::NorthEast
        }
    };
    lemma_child_bounds(id, q);
    let c = id.spec_child(q);
    let dx = px - disc.center.x;
    let dy = py - disc.center.y;
    let ex = clamp(disc.center.x as int, c.min_x(), c.max_x()) - disc.center.x;
    let ey = clamp(disc.center.y as int, c.min_y(), c.max_y()) - disc.center.y;
    assert(c.min_x() <= px <= c.max_x());
    assert(c.min_y() <= py <= c.max_y());
    assert(ex * ex <= dx * dx) by (nonlinear_arith)
        requires
            (0 <= ex <= dx) || (dx <= ex <= 0),
    ;
    assert(ey * ey <= dy * dy) by (nonlinear_arith)
        requires
            (0 <= ey <= dy) || (dy <= ey <= 0),
    ;
    assert(c.spec_intersects(disc));
}

/// A disc that misses a cell misses each of its quarters.
pub proof fn lemma_disc_misses_children(id: QuadTreeNodeId, disc: Disc, q: Quadrant)
    requires
        id.in_grid(),
        id.depth < MAX_DEPTH,
        !id.spec_intersects(disc),
    ensures
        !id.spec_child(q).spec_intersects(disc),
{
    lemma_cell_bounds(id);
    lemma_child_bounds(id, q);
    let c = id.spec_child(q);
    lemma_cell_bounds(c);
    let dx = clamp(disc.center.x as int, id.min_x(), id.max_x()) - disc.center.x;
    let dy = clamp(disc.center.y as int, id.min_y(), id.max_y()) - disc.center.y;
    let ex = clamp(disc.center.x as int, c.min_x(), c.max_x()) - disc.center.x;
    let ey = clamp(disc.center.y as int, c.min_y(), c.max_y()) - disc.center.y;
    assert(q.column() == 0 || q.column() == 1);
    assert(q.row() == 0 || q.row() == 1);
    assert(id.min_x() <= c.min_x() && c.max_x() <= id.max_x());
    assert(id.min_y() <= c.min_y() && c.max_y() <= id.max_y());
    assert(dx * dx <= ex * ex) by (nonlinear_arith)
        requires
            (0 <= dx <= ex) || (ex <= dx <= 0),
    ;
    assert(dy * dy <= ey * ey) by (nonlinear_arith)
        requires
            (0 <= dy <= ey) || (ey <= dy <= 0),
    ;
}

/// A cell that lies strictly inside another lies inside one of its quarters.
pub proof fn lemma_within_a_child(cell: QuadTreeNodeId, ancestor: QuadTreeNodeId)
    requires
        cell.within(ancestor),
        cell.depth > ancestor.depth,
    ensures
        exists|q: Quadrant| #[trigger] cell.within(ancestor.spec_child(q)),
    decreases cell.depth,
{
    let up = cell.spec_parent();
    assert(up.within(ancestor));
    if cell.depth == ancestor.depth + 1 {
        assert(up.depth <= ancestor.depth);
        assert(up == ancestor);
        let q = if cell.x % 2 == 0 {
            if cell.y % 2 == 0 {
                Quadrant::SouthWest
            } else {
                Quadrant::NorthWest
            }
        } else {
            if cell.y % 2 == 0 {
                Quadrant::SouthEast
            } else {
                Quadrant::NorthEast
            }
        };
        assert(ancestor.spec_child(q) == cell);
        assert(cell.within(ancestor.spec_child(q)));
    } else {
        lemma_within_a_child(up, ancestor);
        let q = choose|q: Quadrant| #[trigger] up.within(ancestor.spec_child(q));
        assert(cell.within(ancestor.spec_child(q)));
    }
}

/// A cell inside a quarter of another lies inside that other.
pub proof fn lemma_within_parent(cell: QuadTreeNodeId, ancestor: QuadTreeNodeId, q: Quadrant)
    requires
        ancestor.in_grid(),
        ancestor.depth < MAX_DEPTH,
        cell.within(ancestor.spec_child(q)),
    ensures
        cell.within(ancestor),
        cell.depth > ancestor.depth,
    decreases cell.depth,
{
    lemma_child_in_grid(ancestor, q);
    let child = ancestor.spec_child(q);
    if cell.depth <= child.depth {
        assert(cell == child);
    } else {
        lemma_within_parent(cell.spec_parent(), ancestor, q);
    }
}

/// The cell that lies `levels` below `id` in its south-western corner.
pub open spec fn corner_cell(id: QuadTreeNodeId, levels: nat) -> QuadTreeNodeId
    decreases levels,
{
    if levels == 0 {
        id
    } else {
        corner_cell(id.spec_child(Quadrant::SouthWest), (levels - 1) as nat)
    }
}

/// Every cell that may still split holds a cell of the finest level it can
/// reach.
pub proof fn lemma_corner_cell_within(id: QuadTreeNodeId, levels: nat)
    requires
        id.in_grid(),
        id.depth + levels <= MAX_DEPTH,
    ensures
        corner_cell(id, levels).within(id),
        corner_cell(id, levels).depth == id.depth + levels,
        corner_cell(id, levels).in_grid(),
    decreases levels,
{
    if levels > 0 {
        lemma_child_in_grid(id, Quadrant::SouthWest);
        lemma_corner_cell_within(id.spec_child(Quadrant::SouthWest), (levels - 1) as nat);
        lemma_within_parent(corner_cell(id, levels), id, Quadrant::SouthWest);
    }
}

/// The cell one level above a cell of the grid is a cell of the grid.
pub proof fn lemma_parent_in_grid(cell: QuadTreeNodeId)
    requires
        cell.in_grid(),
        cell.depth > 0,
    ensures
        cell.spec_parent().in_grid(),
{
    lemma_pow2_unfold(cell.depth as nat);
}

/// A disc that misses a cell misses every cell inside it.
pub proof fn lemma_disc_misses_within(cell: QuadTreeNodeId, ancestor: QuadTreeNodeId, disc: Disc)
    requires
        ancestor.in_grid(),
        cell.within(ancestor),
        cell.depth <= MAX_DEPTH,
        !ancestor.spec_intersects(disc),
    ensures
        !cell.spec_intersects(disc),
    decreases cell.depth - ancestor.depth,
{
    if cell.depth > ancestor.depth {
        lemma_within_a_child(cell, ancestor);
        let q = choose|q: Quadrant| #[trigger] cell.within(ancestor.spec_child(q));
        lemma_child_in_grid(ancestor, q);
        lemma_disc_misses_children(ancestor, disc, q);
        lemma_disc_misses_within(cell, ancestor.spec_child(q), disc);
    }
}

} // verus!
