//! Points, axis-aligned rectangles, and the geometry predicates the
//! quadtree is built on: inclusive point containment, strict rectangle
//! intersection, and the quadrant arithmetic used when a node splits.

use vstd::prelude::*;

verus! {

/// A point in the plane. Equality is exact comparison of both coordinates.
#[derive(Clone, Copy, Debug, PartialEq, Eq, Structural)]
pub struct Point {
    pub x: i32,
    pub y: i32,
}

/// An axis-aligned rectangle: origin `(x, y)`, extending to `x + width`
/// and `y + height`. Negative widths and heights are not normalized;
/// the predicates below simply apply their formulas to them.
#[derive(Clone, Copy, Debug)]
pub struct Rectangle {
    pub x: i32,
    pub y: i32,
    pub width: i32,
    pub height: i32,
}

/// Inclusive containment: `p` lies in `r`, all four edges included.
pub open spec fn rect_contains(p: Point, r: Rectangle) -> bool {
    &&& p.x >= r.x
    &&& p.x <= r.x + r.width
    &&& p.y >= r.y
    &&& p.y <= r.y + r.height
}

/// Strict overlap: the two rectangles share interior in both axes.
/// A rectangle that merely touches an edge of the other does not intersect.
pub open spec fn rect_intersects(a: Rectangle, b: Rectangle) -> bool {
    &&& a.x < b.x + b.width
    &&& a.x + a.width > b.x
    &&& a.y < b.y + b.height
    &&& a.y + a.height > b.y
}

/// `p` lies in `r` with all four edges excluded.
pub open spec fn strictly_inside(p: Point, r: Rectangle) -> bool {
    &&& r.x < p.x < r.x + r.width
    &&& r.y < p.y < r.y + r.height
}

/// Half of `v`, truncated toward zero (the halving used when a node splits).
pub open spec fn half_val(v: int) -> int {
    if v >= 0 {
        v / 2
    } else {
        -((-v) / 2)
    }
}

/// The x origin of quadrant `k` of `r` (0: top-left, 1: top-right,
/// 2: bottom-right, 3: bottom-left).
pub open spec fn quadrant_x(r: Rectangle, k: int) -> int {
    if k == 1 || k == 2 {
        r.x + half_val(r.width as int)
    } else {
        r.x as int
    }
}

/// The y origin of quadrant `k` of `r`.
pub open spec fn quadrant_y(r: Rectangle, k: int) -> int {
    if k == 2 || k == 3 {
        r.y + half_val(r.height as int)
    } else {
        r.y as int
    }
}

/// Inclusive containment of `p` in quadrant `k` of `r`: the same formula
/// as `rect_contains`, on a quadrant's origin and halved extents.
pub open spec fn quadrant_contains(r: Rectangle, k: int, p: Point) -> bool {
    let w = half_val(r.width as int);
    let h = half_val(r.height as int);
    &&& p.x >= quadrant_x(r, k)
    &&& p.x <= quadrant_x(r, k) + w
    &&& p.y >= quadrant_y(r, k)
    &&& p.y <= quadrant_y(r, k) + h
}

/// The first quadrant of `r` whose (inclusive) bounds contain `p`, in the
/// fixed order 0, 1, 2, 3; `None` if no quadrant contains `p`.
pub open spec fn quadrant_of(r: Rectangle, p: Point) -> Option<int> {
    if quadrant_contains(r, 0, p) {
        Some(0int)
    } else if quadrant_contains(r, 1, p) {
        Some(1int)
    } else if quadrant_contains(r, 2, p) {
        Some(2int)
    } else if quadrant_contains(r, 3, p) {
        Some(3int)
    } else {
        None
    }
}

/// Both shifted quadrant origins of `r` are representable as `i32`,
/// so that a node with bounds `r` can build its children.
pub open spec fn split_origins_fit(r: Rectangle) -> bool {
    &&& i32::MIN <= r.x + half_val(r.width as int) <= i32::MAX
    &&& i32::MIN <= r.y + half_val(r.height as int) <= i32::MAX
}

/// `p` lies in the half-open cell with origin `(x, y)`, width `w` and
/// height `h`: left and top edges included, right and bottom excluded.
pub open spec fn in_half_open_cell(p: Point, x: int, y: int, w: int, h: int) -> bool {
    &&& x <= p.x < x + w
    &&& y <= p.y < y + h
}

/// `p` lies in the half-open cell of quadrant `k` of `r`.
pub open spec fn in_quadrant_cell(r: Rectangle, k: int, p: Point) -> bool {
    in_half_open_cell(
        p,
        quadrant_x(r, k),
        quadrant_y(r, k),
        half_val(r.width as int),
        half_val(r.height as int),
    )
}

/// Law: subdivision partitions its rectangle. With even, nonnegative
/// extents, the four quadrants of `r` — each `r.width / 2` wide and
/// `r.height / 2` tall — tile `r` exactly: every point of `r`'s half-open
/// area lies in some quadrant's half-open cell (no gaps), and in no more
/// than one (no overlaps).
pub proof fn lemma_quadrants_partition(r: Rectangle, p: Point)
    requires
        r.width >= 0,
        r.height >= 0,
        r.width % 2 == 0,
        r.height % 2 == 0,
    ensures
        in_half_open_cell(p, r.x as int, r.y as int, r.width as int, r.height as int)
            <==> exists|k: int| 0 <= k < 4 && in_quadrant_cell(r, k, p),
        forall|k1: int, k2: int|
            0 <= k1 < 4 && 0 <= k2 < 4 && in_quadrant_cell(r, k1, p) && in_quadrant_cell(
                r,
                k2,
                p,
            ) ==> k1 == k2,
{
    let w = half_val(r.width as int);
    let h = half_val(r.height as int);
    assert(2 * w == r.width);
    assert(2 * h == r.height);
    if in_half_open_cell(p, r.x as int, r.y as int, r.width as int, r.height as int) {
        if p.x < r.x + w {
            if p.y < r.y + h {
                assert(in_quadrant_cell(r, 0, p));
            } else {
                assert(in_quadrant_cell(r, 3, p));
            }
        } else {
            if p.y < r.y + h {
                assert(in_quadrant_cell(r, 1, p));
            } else {
                assert(in_quadrant_cell(r, 2, p));
            }
        }
    }
}

/// A point strictly inside `r` lies in some quadrant of `r` (inclusive
/// bounds), so routing it finds a quadrant.
pub proof fn lemma_strictly_inside_lands(r: Rectangle, p: Point)
    requires
        strictly_inside(p, r),
    ensures
        quadrant_of(r, p) is Some,
{
    let w = half_val(r.width as int);
    let h = half_val(r.height as int);
    assert(r.width >= 2);
    assert(r.height >= 2);
    assert(2 * w >= r.width - 1);
    assert(2 * h >= r.height - 1);
    if p.x <= r.x + w {
        if p.y <= r.y + h {
            assert(quadrant_contains(r, 0, p));
        } else {
            assert(quadrant_contains(r, 3, p));
        }
    } else {
        if p.y <= r.y + h {
            assert(quadrant_contains(r, 1, p));
        } else {
            assert(quadrant_contains(r, 2, p));
        }
    }
}

/// A range that contains a point strictly inside `r` strictly
/// intersects `r`.
pub proof fn lemma_containing_range_intersects(range: Rectangle, p: Point, r: Rectangle)
    requires
        strictly_inside(p, r),
        rect_contains(p, range),
    ensures
        rect_intersects(range, r),
{
}

/// With nonnegative extents, a quadrant of `r` lies within `r`: a point a
/// quadrant contains, `r` contains.
pub proof fn lemma_quadrant_within(r: Rectangle, k: int, p: Point)
    requires
        0 <= k < 4,
        r.width >= 0,
        r.height >= 0,
        quadrant_contains(r, k, p),
    ensures
        rect_contains(p, r),
{
    assert(2 * half_val(r.width as int) <= r.width);
    assert(2 * half_val(r.height as int) <= r.height);
}

impl Point {
    pub fn new(x: i32, y: i32) -> (p: Point)
        ensures
            p.x == x,
            p.y == y,
    {
        Point { x, y }
    }

    /// The point rendered as `(x, y)`.
    ///
    /// Relies on std's `format!` (decimal `Display` of `i32`).
    #[verifier::external_body]
    pub fn to_text(&self) -> String {
        format!("({}, {})", self.x, self.y)
    }
}

impl Rectangle {
    pub fn new(x: i32, y: i32, width: i32, height: i32) -> (r: Rectangle)
        ensures
            r == (Rectangle { x, y, width, height }),
    {
        Rectangle { x, y, width, height }
    }

    /// The rectangle rendered as `(x, y, x + width, y + height)`.
    ///
    /// Relies on std's `format!` (decimal `Display` of `i64`); the edge
    /// sums are taken in `i64` so they cannot overflow.
    #[verifier::external_body]
    pub fn to_text(&self) -> String {
        format!(
            "({}, {}, {}, {})",
            self.x,
            self.y,
            self.x as i64 + self.width as i64,
            self.y as i64 + self.height as i64,
        )
    }
}

/// Half of `v`, truncated toward zero, computed without overflow.
pub(crate) fn half(v: i32) -> (r: i32)
    ensures
        r == half_val(v as int),
{
    if v >= 0 {
        ((v as u32) / 2) as i32
    } else {
        let magnitude: u32 = (-(v as i64)) as u32;
        let halved: u32 = magnitude / 2;
        ((-(halved as i64)) as i32)
    }
}

} // verus!
