//! Geometry primitives for pre- and post-processing images: integer points,
//! lines, rectangles, polygon collections, and contour extraction from
//! binary masks.

use vstd::prelude::*;

verus! {

pub type Coord = i32;

/// A point defined by integer X and Y coordinates.
#[derive(Copy, Clone, Debug, Eq, PartialEq, Structural)]
pub struct Point {
    pub x: Coord,
    pub y: Coord,
}

/// Division by two rounding toward zero, as the target machine does it.
pub open spec fn div2_trunc(s: int) -> int {
    if s >= 0 {
        s / 2
    } else {
        -((-s) / 2)
    }
}

impl Default for Point {
    /// The origin.
    fn default() -> (r: Point)
        ensures
            r.x == 0 && r.y == 0,
    {
        Point { x: 0, y: 0 }
    }
}

impl Point {
    pub fn from_yx(y: Coord, x: Coord) -> (r: Point)
        ensures
            r.y == y && r.x == x,
    {
        Point { y, x }
    }

    /// Return self as a `[y, x]` index.
    pub fn coord(self) -> (r: [usize; 2])
        requires
            self.y >= 0,
            self.x >= 0,
        ensures
            r[0] == self.y as usize,
            r[1] == self.x as usize,
    {
        [self.y as usize, self.x as usize]
    }

    pub fn translate(self, y: Coord, x: Coord) -> (r: Point)
        requires
            i32::MIN <= self.y + y <= i32::MAX,
            i32::MIN <= self.x + x <= i32::MAX,
        ensures
            r.y == self.y + y,
            r.x == self.x + x,
    {
        Point { y: self.y + y, x: self.x + x }
    }

    /// Return the neighbors of the current point in clockwise order, starting
    /// from the point directly above `self`.
    pub fn neighbors(self) -> (r: [Point; 8])
        requires
            i32::MIN < self.y < i32::MAX,
            i32::MIN < self.x < i32::MAX,
        ensures
            r[0].y == self.y - 1 && r[0].x == self.x,
            r[1].y == self.y - 1 && r[1].x == self.x + 1,
            r[2].y == self.y && r[2].x == self.x + 1,
            r[3].y == self.y + 1 && r[3].x == self.x + 1,
            r[4].y == self.y + 1 && r[4].x == self.x,
            r[5].y == self.y + 1 && r[5].x == self.x - 1,
            r[6].y == self.y && r[6].x == self.x - 1,
            r[7].y == self.y - 1 && r[7].x == self.x - 1,
    {
        [
            self.translate(-1, 0),  // N
            self.translate(-1, 1),  // NE
            self.translate(0, 1),  // E
            self.translate(1, 1),  // SE
            self.translate(1, 0),  // S
            self.translate(1, -1),  // SW
            self.translate(0, -1),  // W
            self.translate(-1, -1),  // NW
        ]
    }
}

/// Order a pair so that the smaller coordinate comes first.
fn sort_pair(pair: (i32, i32)) -> (r: (i32, i32))
    ensures
        r.0 == if pair.0 <= pair.1 {
            pair.0
        } else {
            pair.1
        },
        r.1 == if pair.0 <= pair.1 {
            pair.1
        } else {
            pair.0
        },
{
    if pair.0 <= pair.1 {
        pair
    } else {
        (pair.1, pair.0)
    }
}

/// The overlap of two 1D intervals: how many units their spans share.
pub open spec fn overlap_spec(a0: int, a1: int, b0: int, b1: int) -> int {
    let a_lo = if a0 <= a1 {
        a0
    } else {
        a1
    };
    let a_hi = if a0 <= a1 {
        a1
    } else {
        a0
    };
    let b_lo = if b0 <= b1 {
        b0
    } else {
        b1
    };
    let b_hi = if b0 <= b1 {
        b1
    } else {
        b0
    };
    let lo = if a_lo >= b_lo {
        a_lo
    } else {
        b_lo
    };
    let hi = if a_hi <= b_hi {
        a_hi
    } else {
        b_hi
    };
    if hi - lo >= 0 {
        hi - lo
    } else {
        0
    }
}

/// Compute the overlap between two 1D lines `a` and `b`, where each line is
/// given as (start, end) coords.
fn overlap(a: (i32, i32), b: (i32, i32)) -> (r: i32)
    requires
        -0x3FFF_FFFF <= a.0 <= 0x3FFF_FFFF,
        -0x3FFF_FFFF <= a.1 <= 0x3FFF_FFFF,
        -0x3FFF_FFFF <= b.0 <= 0x3FFF_FFFF,
        -0x3FFF_FFFF <= b.1 <= 0x3FFF_FFFF,
    ensures
        r == overlap_spec(a.0 as int, a.1 as int, b.0 as int, b.1 as int),
{
    let a = sort_pair(a);
    let b = sort_pair(b);
    let (first, second) = if a.0 < b.0 || (a.0 == b.0 && a.1 <= b.1) {
        (a, b)
    } else {
        (b, a)
    };
    let (a_start, a_end) = first;
    let (b_start, b_end) = second;
    let raw = a_end - b_start;
    let cap = b_end - b_start;
    let clamped = if raw < 0 {
        0
    } else if raw > cap {
        cap
    } else {
        raw
    };
    clamped
}

/// A bounded line segment defined by a start and end point.
#[derive(Copy, Clone, Debug, PartialEq, Eq, Structural)]
pub struct Line {
    pub start: Point,
    pub end: Point,
}

impl Line {
    pub fn from_endpoints(start: Point, end: Point) -> (r: Line)
        ensures
            r.start == start && r.end == end,
    {
        Line { start, end }
    }

    /// Return true if this line has zero length.
    pub fn is_empty(&self) -> (r: bool)
        ensures
            r == (self.start == self.end),
    {
        self.start == self.end
    }

    /// Return the number of pixels by which this line overlaps `other` in the
    /// vertical direction.
    pub fn vertical_overlap(&self, other: Line) -> (r: i32)
        requires
            -0x3FFF_FFFF <= self.start.y <= 0x3FFF_FFFF,
            -0x3FFF_FFFF <= self.end.y <= 0x3FFF_FFFF,
            -0x3FFF_FFFF <= other.start.y <= 0x3FFF_FFFF,
            -0x3FFF_FFFF <= other.end.y <= 0x3FFF_FFFF,
        ensures
            r == overlap_spec(
                self.start.y as int,
                self.end.y as int,
                other.start.y as int,
                other.end.y as int,
            ),
    {
        overlap((self.start.y, self.end.y), (other.start.y, other.end.y))
    }

    /// Return the number of pixels by which this line overlaps `other` in the
    /// horizontal direction.
    pub fn horizontal_overlap(&self, other: Line) -> (r: i32)
        requires
            -0x3FFF_FFFF <= self.start.x <= 0x3FFF_FFFF,
            -0x3FFF_FFFF <= self.end.x <= 0x3FFF_FFFF,
            -0x3FFF_FFFF <= other.start.x <= 0x3FFF_FFFF,
            -0x3FFF_FFFF <= other.end.x <= 0x3FFF_FFFF,
        ensures
            r == overlap_spec(
                self.start.x as int,
                self.end.x as int,
                other.start.x as int,
                other.end.x as int,
            ),
    {
        overlap((self.start.x, self.end.x), (other.start.x, other.end.x))
    }
}

/// Rectangle defined by left, top, right and bottom integer coordinates.
///
/// The left and top coordinates are inclusive. The right and bottom
/// coordinates are exclusive.
#[derive(Copy, Clone, Debug, PartialEq, Eq, Structural)]
pub struct Rect {
    top_left: Point,
    bottom_right: Point,
}

impl Rect {
    pub closed spec fn top_spec(&self) -> int {
        self.top_left.y as int
    }

    pub closed spec fn left_spec(&self) -> int {
        self.top_left.x as int
    }

    pub closed spec fn bottom_spec(&self) -> int {
        self.bottom_right.y as int
    }

    pub closed spec fn right_spec(&self) -> int {
        self.bottom_right.x as int
    }

    /// Return a rect with top-left corner at 0, 0 and the given height/width.
    pub fn from_hw(height: Coord, width: Coord) -> (r: Rect)
        ensures
            r.top_spec() == 0 && r.left_spec() == 0 && r.bottom_spec() == height && r.right_spec()
                == width,
    {
        Self::new(Point::default(), Point::from_yx(height, width))
    }

    /// Return a rect with the given top, left, bottom and right coordinates.
    pub fn from_tlbr(top: Coord, left: Coord, bottom: Coord, right: Coord) -> (r: Rect)
        ensures
            r.top_spec() == top && r.left_spec() == left && r.bottom_spec() == bottom
                && r.right_spec() == right,
    {
        Self::new(Point::from_yx(top, left), Point::from_yx(bottom, right))
    }

    pub fn new(top_left: Point, bottom_right: Point) -> (r: Rect)
        ensures
            r.top_spec() == top_left.y && r.left_spec() == top_left.x && r.bottom_spec()
                == bottom_right.y && r.right_spec() == bottom_right.x,
    {
        Rect { top_left, bottom_right }
    }

    pub fn area(&self) -> (r: Coord)
        requires
            i32::MIN <= self.right_spec() - self.left_spec() <= i32::MAX,
            i32::MIN <= self.bottom_spec() - self.top_spec() <= i32::MAX,
            i32::MIN <= (self.right_spec() - self.left_spec()) * (self.bottom_spec()
                - self.top_spec()) <= i32::MAX,
        ensures
            r == (self.right_spec() - self.left_spec()) * (self.bottom_spec() - self.top_spec()),
    {
        self.width() * self.height()
    }

    pub fn width(&self) -> (r: Coord)
        requires
            i32::MIN <= self.right_spec() - self.left_spec() <= i32::MAX,
        ensures
            r == self.right_spec() - self.left_spec(),
    {
        self.bottom_right.x - self.top_left.x
    }

    pub fn height(&self) -> (r: Coord)
        requires
            i32::MIN <= self.bottom_spec() - self.top_spec() <= i32::MAX,
        ensures
            r == self.bottom_spec() - self.top_spec(),
    {
        self.bottom_right.y - self.top_left.y
    }

    pub fn top(&self) -> (r: Coord)
        ensures
            r == self.top_spec(),
    {
        self.top_left.y
    }

    pub fn left(&self) -> (r: Coord)
        ensures
            r == self.left_spec(),
    {
        self.top_left.x
    }

    pub fn right(&self) -> (r: Coord)
        ensures
            r == self.right_spec(),
    {
        self.bottom_right.x
    }

    pub fn bottom(&self) -> (r: Coord)
        ensures
            r == self.bottom_spec(),
    {
        self.bottom_right.y
    }

    /// Return true if the width or height of this rect are <= 0.
    pub fn is_empty(&self) -> (r: bool)
        ensures
            r == (self.right_spec() <= self.left_spec() || self.bottom_spec() <= self.top_spec()),
    {
        self.right() <= self.left() || self.bottom() <= self.top()
    }

    /// Return the center point of the rect.
    pub fn center(&self) -> (r: Point)
        requires
            i32::MIN <= self.top_spec() + self.bottom_spec() <= i32::MAX,
            i32::MIN <= self.left_spec() + self.right_spec() <= i32::MAX,
        ensures
            r.y == div2_trunc(self.top_spec() + self.bottom_spec()),
            r.x == div2_trunc(self.left_spec() + self.right_spec()),
    {
        let ys = self.top_left.y + self.bottom_right.y;
        let xs = self.top_left.x + self.bottom_right.x;
        Point::from_yx(half_trunc(ys), half_trunc(xs))
    }

    /// Return the coordinate of the top-left corner of the rect.
    pub fn top_left(&self) -> (r: Point)
        ensures
            r.y == self.top_spec() && r.x == self.left_spec(),
    {
        self.top_left
    }

    /// Return the coordinate of the top-right corner of the rect.
    pub fn top_right(&self) -> (r: Point)
        ensures
            r.y == self.top_spec() && r.x == self.right_spec(),
    {
        Point::from_yx(self.top_left.y, self.bottom_right.x)
    }

    /// Return the coordinate of the bottom-left corner of the rect.
    pub fn bottom_left(&self) -> (r: Point)
        ensures
            r.y == self.bottom_spec() && r.x == self.left_spec(),
    {
        Point::from_yx(self.bottom_right.y, self.top_left.x)
    }

    /// Return the coordinate of the bottom-right corner of the rect.
    pub fn bottom_right(&self) -> (r: Point)
        ensures
            r.y == self.bottom_spec() && r.x == self.right_spec(),
    {
        self.bottom_right
    }

    /// Return the line segment of the left edge of the rect.
    pub fn left_edge(&self) -> (r: Line)
        ensures
            r.start.y == self.top_spec() && r.start.x == self.left_spec(),
            r.end.y == self.bottom_spec() && r.end.x == self.left_spec(),
    {
        Line::from_endpoints(self.top_left(), self.bottom_left())
    }

    /// Return the line segment of the top edge of the rect.
    pub fn top_edge(&self) -> (r: Line)
        ensures
            r.start.y == self.top_spec() && r.start.x == self.left_spec(),
            r.end.y == self.top_spec() && r.end.x == self.right_spec(),
    {
        Line::from_endpoints(self.top_left(), self.top_right())
    }

    /// Return the line segment of the right edge of the rect.
    pub fn right_edge(&self) -> (r: Line)
        ensures
            r.start.y == self.top_spec() && r.start.x == self.right_spec(),
            r.end.y == self.bottom_spec() && r.end.x == self.right_spec(),
    {
        Line::from_endpoints(self.top_right(), self.bottom_right())
    }

    /// Return the line segment of the bottom edge of the rect.
    pub fn bottom_edge(&self) -> (r: Line)
        ensures
            r.start.y == self.bottom_spec() && r.start.x == self.left_spec(),
            r.end.y == self.bottom_spec() && r.end.x == self.right_spec(),
    {
        Line::from_endpoints(self.bottom_left(), self.bottom_right())
    }

    /// Return the top, left, bottom and right coordinates as an array.
    pub fn tlbr(&self) -> (r: [Coord; 4])
        ensures
            r[0] == self.top_spec(),
            r[1] == self.left_spec(),
            r[2] == self.bottom_spec(),
            r[3] == self.right_spec(),
    {
        [self.top_left.y, self.top_left.x, self.bottom_right.y, self.bottom_right.x]
    }

    /// Return a new Rect with each coordinate adjusted by an offset.
    pub fn adjust_tlbr(&self, top: Coord, left: Coord, bottom: Coord, right: Coord) -> (r: Rect)
        requires
            i32::MIN <= self.top_spec() + top <= i32::MAX,
            i32::MIN <= self.left_spec() + left <= i32::MAX,
            i32::MIN <= self.bottom_spec() + bottom <= i32::MAX,
            i32::MIN <= self.right_spec() + right <= i32::MAX,
        ensures
            r.top_spec() == self.top_spec() + top,
            r.left_spec() == self.left_spec() + left,
            r.bottom_spec() == self.bottom_spec() + bottom,
            r.right_spec() == self.right_spec() + right,
    {
        Rect {
            top_left: self.top_left.translate(top, left),
            bottom_right: self.bottom_right.translate(bottom, right),
        }
    }

    /// Return a new rect with each side adjusted so that the result lies
    /// inside `rect`.
    pub fn clamp(&self, rect: Rect) -> (r: Rect)
        ensures
            r.top_spec() == if self.top_spec() >= rect.top_spec() {
                self.top_spec()
            } else {
                rect.top_spec()
            },
            r.left_spec() == if self.left_spec() >= rect.left_spec() {
                self.left_spec()
            } else {
                rect.left_spec()
            },
            r.bottom_spec() == if self.bottom_spec() <= rect.bottom_spec() {
                self.bottom_spec()
            } else {
                rect.bottom_spec()
            },
            r.right_spec() == if self.right_spec() <= rect.right_spec() {
                self.right_spec()
            } else {
                rect.right_spec()
            },
    {
        let top = if self.top() >= rect.top() {
            self.top()
        } else {
            rect.top()
        };
        let left = if self.left() >= rect.left() {
            self.left()
        } else {
            rect.left()
        };
        let bottom = if self.bottom() <= rect.bottom() {
            self.bottom()
        } else {
            rect.bottom()
        };
        let right = if self.right() <= rect.right() {
            self.right()
        } else {
            rect.right()
        };
        Rect { top_left: Point::from_yx(top, left), bottom_right: Point::from_yx(bottom, right) }
    }

    /// Return true if the intersection of this rect and `other` is non-empty.
    pub fn intersects(&self, other: Rect) -> (r: bool)
        requires
            -0x3FFF_FFFF <= self.top_spec() <= 0x3FFF_FFFF,
            -0x3FFF_FFFF <= self.bottom_spec() <= 0x3FFF_FFFF,
            -0x3FFF_FFFF <= self.left_spec() <= 0x3FFF_FFFF,
            -0x3FFF_FFFF <= self.right_spec() <= 0x3FFF_FFFF,
            -0x3FFF_FFFF <= other.top_spec() <= 0x3FFF_FFFF,
            -0x3FFF_FFFF <= other.bottom_spec() <= 0x3FFF_FFFF,
            -0x3FFF_FFFF <= other.left_spec() <= 0x3FFF_FFFF,
            -0x3FFF_FFFF <= other.right_spec() <= 0x3FFF_FFFF,
        ensures
            r == (overlap_spec(
                self.top_spec(),
                self.bottom_spec(),
                other.top_spec(),
                other.bottom_spec(),
            ) > 0 && overlap_spec(
                self.left_spec(),
                self.right_spec(),
                other.left_spec(),
                other.right_spec(),
            ) > 0),
    {
        self.left_edge().vertical_overlap(other.left_edge()) > 0
            && self.top_edge().horizontal_overlap(other.top_edge()) > 0
    }

    /// Return the smallest rect that contains both this rect and `other`.
    pub fn union(&self, other: Rect) -> (r: Rect)
        ensures
            r.top_spec() == if self.top_spec() <= other.top_spec() {
                self.top_spec()
            } else {
                other.top_spec()
            },
            r.left_spec() == if self.left_spec() <= other.left_spec() {
                self.left_spec()
            } else {
                other.left_spec()
            },
            r.bottom_spec() == if self.bottom_spec() >= other.bottom_spec() {
                self.bottom_spec()
            } else {
                other.bottom_spec()
            },
            r.right_spec() == if self.right_spec() >= other.right_spec() {
                self.right_spec()
            } else {
                other.right_spec()
            },
    {
        let t = if self.top() <= other.top() {
            self.top()
        } else {
            other.top()
        };
        let l = if self.left() <= other.left() {
            self.left()
        } else {
            other.left()
        };
        let b = if self.bottom() >= other.bottom() {
            self.bottom()
        } else {
            other.bottom()
        };
        let r = if self.right() >= other.right() {
            self.right()
        } else {
            other.right()
        };
        Rect::from_tlbr(t, l, b, r)
    }

    /// Return true if `other` lies entirely within this rect.
    pub fn contains(&self, other: Rect) -> (r: bool)
        ensures
            r == (self.top_spec() <= other.top_spec() && self.left_spec() <= other.left_spec()
                && self.bottom_spec() >= other.bottom_spec() && self.right_spec()
                >= other.right_spec()),
    {
        let u = self.union(other);
        let same = u.top() == self.top() && u.left() == self.left() && u.bottom() == self.bottom()
            && u.right() == self.right();
        same
    }
}

/// Division of an i32 by two, rounding toward zero.
fn half_trunc(s: i32) -> (r: i32)
    ensures
        r == div2_trunc(s as int),
{
    if s >= 0 {
        (s as u32 / 2) as i32
    } else {
        let a = (-(s as i64)) as u64;
        -((a / 2) as i64) as i32
    }
}

/// A collection of polygons, where each polygon is defined by a list of
/// points.
///
/// `Polygons` is primarily useful when building up collections of many
/// polygons, as it stores all points in a single buffer, which is more
/// efficient than allocating a separate buffer for each polygon's points.
pub struct Polygons {
    points: Vec<Point>,
    // Offsets within `points` where each polygon starts and ends.
    polygons: Vec<(usize, usize)>,
}

impl View for Polygons {
    type V = Seq<Seq<Point>>;

    closed spec fn view(&self) -> Seq<Seq<Point>> {
        Seq::new(
            self.polygons@.len() as nat,
            |i: int| self.points@.subrange(self.polygons@[i].0 as int, self.polygons@[i].1 as int),
        )
    }
}

impl Polygons {
    #[verifier::type_invariant]
    spec fn polygons_inv(self) -> bool {
        forall|i: int|
            0 <= i < self.polygons@.len() ==> (#[trigger] self.polygons@[i]).0
                <= self.polygons@[i].1 <= self.points@.len()
    }

    /// Construct an empty polygon collection.
    pub fn new() -> (r: Polygons)
        ensures
            r@ =~= Seq::<Seq<Point>>::empty(),
    {
        Polygons { points: Vec::new(), polygons: Vec::new() }
    }

    /// Add a new polygon to the list, defined by the given points.
    pub fn push(&mut self, points: &[Point])
        ensures
            final(self)@ =~= old(self)@.push(points@),
    {
        proof {
            use_type_invariant(&*self);
        }
        let mut own_points: Vec<Point> = Vec::new();
        let mut own_polygons: Vec<(usize, usize)> = Vec::new();
        core::mem::swap(&mut own_polygons, &mut self.polygons);
        core::mem::swap(&mut own_points, &mut self.points);
        let ghost points0 = own_points@;
        let start = own_points.len();
        let mut i: usize = 0;
        while i < points.len()
            invariant
                i <= points@.len(),
                start == points0.len(),
                own_points@ =~= points0 + points@.take(i as int),
            decreases points@.len() - i,
        {
            proof {
                assert(points0 + points@.take(i + 1) =~= (points0 + points@.take(i as int)).push(
                    points@[i as int],
                ));
            }
            own_points.push(points[i]);
            i = i + 1;
        }
        proof {
            assert(own_points@ =~= points0 + points@);
        }
        let end = own_points.len();
        own_polygons.push((start, end));
        core::mem::swap(&mut own_points, &mut self.points);
        proof {
            assert forall|k: int|
                0 <= k < own_polygons@.len() implies (#[trigger] own_polygons@[k]).0
                    <= own_polygons@[k].1 <= self.points@.len() by {
                if k < own_polygons@.len() - 1 {
                    assert(own_polygons@[k] == old(self).polygons@[k]);
                }
            }
        }
        core::mem::swap(&mut own_polygons, &mut self.polygons);
        proof {
            assert forall|k: int| 0 <= k < self@.len() implies self@[k] == old(self)@.push(
                points@,
            )[k] by {
                if k < old(self)@.len() {
                    assert(self@[k] =~= old(self)@[k]);
                } else {
                    assert(self@[k] =~= points@);
                }
            }
        }
    }

    /// Return the number of polygons in the collection.
    pub fn len(&self) -> (r: usize)
        ensures
            r == self@.len(),
    {
        self.polygons.len()
    }

    /// Return true if this collection has no polygons.
    pub fn is_empty(&self) -> (r: bool)
        ensures
            r == (self@.len() == 0),
    {
        self.polygons.len() == 0
    }

    /// Return the points of the polygon at `index`.
    pub fn polygon(&self, index: usize) -> (r: Vec<Point>)
        requires
            index < self@.len(),
        ensures
            r@ == self@[index as int],
    {
        proof {
            use_type_invariant(self);
        }
        let range = self.polygons[index];
        let start = range.0;
        let end = range.1;
        let mut r: Vec<Point> = Vec::new();
        let mut i: usize = start;
        while i < end
            invariant
                start <= i <= end,
                end <= self.points@.len(),
                r@ =~= self.points@.subrange(start as int, i as int),
            decreases end - i,
        {
            proof {
                assert(self.points@.subrange(start as int, i + 1) =~= self.points@.subrange(
                    start as int,
                    i as int,
                ).push(self.points@[i as int]));
            }
            r.push(self.points[i]);
            i = i + 1;
        }
        proof {
            assert(r@ =~= self@[index as int]);
        }
        r
    }

    /// Return an iterator over individual polygons in the sequence.
    pub fn iter(&self) -> (r: PolygonsIter)
        ensures
            r.polys_spec() == self@,
            r.pos_spec() == 0,
    {
        PolygonsIter { polygons: self, next_index: 0 }
    }
}

/// Iterator over polygons in a [`Polygons`] collection.
pub struct PolygonsIter<'a> {
    polygons: &'a Polygons,
    next_index: usize,
}

impl<'a> PolygonsIter<'a> {
    /// The polygons being iterated over.
    pub closed spec fn polys_spec(&self) -> Seq<Seq<Point>> {
        self.polygons@
    }

    /// The position of the next polygon to yield.
    pub closed spec fn pos_spec(&self) -> int {
        self.next_index as int
    }

    /// Yield the points of the next polygon, if any are left.
    pub fn next(&mut self) -> (r: Option<Vec<Point>>)
        ensures
            final(self).polys_spec() == old(self).polys_spec(),
            old(self).pos_spec() < old(self).polys_spec().len() ==> {
                &&& r is Some
                &&& r->Some_0@ == old(self).polys_spec()[old(self).pos_spec()]
                &&& final(self).pos_spec() == old(self).pos_spec() + 1
            },
            old(self).pos_spec() >= old(self).polys_spec().len() ==> {
                &&& r is None
                &&& final(self).pos_spec() == old(self).pos_spec()
            },
    {
        if self.next_index < self.polygons.len() {
            let p = self.polygons.polygon(self.next_index);
            self.next_index = self.next_index + 1;
            Some(p)
        } else {
            None
        }
    }
}

/// Specifies which contours to extract from a mask in [`find_contours`].
pub enum RetrievalMode {
    /// Get only the outer-most contours.
    External,
    /// Retrieve all contours as a flat list without hierarchy information.
    List,
}

/// Distinct cells of a row-major grid have distinct flat indices.
proof fn lemma_flat_index_injective(cols: int, y1: int, x1: int, y2: int, x2: int)
    requires
        0 <= x1 < cols,
        0 <= x2 < cols,
        0 <= y1,
        0 <= y2,
        y1 * cols + x1 == y2 * cols + x2,
    ensures
        y1 == y2 && x1 == x2,
{
    assert(y1 == y2 && x1 == x2) by (nonlinear_arith)
        requires
            0 <= x1 < cols,
            0 <= x2 < cols,
            0 <= y1,
            0 <= y2,
            y1 * cols + x1 == y2 * cols + x2,
    ;
}

/// A cell of a row-major grid lies inside the flat buffer.
proof fn lemma_flat_index_bound(rows: int, cols: int, y: int, x: int)
    requires
        0 <= y < rows,
        0 <= x < cols,
    ensures
        0 <= y * cols + x < rows * cols,
{
    assert(0 <= y * cols + x < rows * cols) by (nonlinear_arith)
        requires
            0 <= y < rows,
            0 <= x < cols,
    ;
}

/// A two-dimensional image of elements of type `T`, stored in row-major
/// order. Its model is a sequence of rows.
pub struct Grid<T> {
    rows: usize,
    cols: usize,
    data: Vec<T>,
}

impl<T> View for Grid<T> {
    type V = Seq<Seq<T>>;

    closed spec fn view(&self) -> Seq<Seq<T>> {
        Seq::new(
            self.rows as nat,
            |y: int| Seq::new(self.cols as nat, |x: int| self.data@[y * self.cols + x]),
        )
    }
}

/// A grid model is rectangular: every row has the same number of columns.
pub open spec fn grid_wf<T>(m: Seq<Seq<T>>, rows: int, cols: int) -> bool {
    &&& m.len() == rows
    &&& forall|y: int| 0 <= y < rows ==> (#[trigger] m[y]).len() == cols
}

impl<T> Grid<T> {
    /// The grid's buffer holds exactly one element per cell.
    pub closed spec fn wf(self) -> bool {
        self.data@.len() == self.rows * self.cols
    }
}

impl<T: Copy> Grid<T> {
    /// Create a grid of the given size with every cell set to `fill`.
    pub fn new(rows: usize, cols: usize, fill: T) -> (r: Grid<T>)
        requires
            rows * cols <= usize::MAX,
        ensures
            r.wf(),
            grid_wf(r@, rows as int, cols as int),
            forall|y: int, x: int| 0 <= y < rows && 0 <= x < cols ==> r@[y][x] == fill,
    {
        proof {
            assert(rows * cols >= 0) by (nonlinear_arith);
        }
        let total: usize = rows * cols;
        let mut data: Vec<T> = Vec::new();
        let mut i: usize = 0;
        while i < total
            invariant
                i <= total,
                data@.len() == i,
                forall|j: int| 0 <= j < i ==> data@[j] == fill,
            decreases total - i,
        {
            data.push(fill);
            i = i + 1;
        }
        let r = Grid { rows, cols, data };
        proof {
            assert forall|y: int, x: int| 0 <= y < rows && 0 <= x < cols implies r@[y][x]
                == fill by {
                lemma_flat_index_bound(rows as int, cols as int, y, x);
            }
        }
        r
    }

    /// The number of rows.
    pub fn rows(&self) -> (r: usize)
        ensures
            r == self@.len(),
    {
        self.rows
    }

    /// The number of columns.
    pub fn cols(&self) -> (r: usize)
        requires
            self@.len() > 0,
        ensures
            r == self@[0].len(),
    {
        self.cols
    }

    /// The element at row `y`, column `x`.
    pub fn get(&self, y: usize, x: usize) -> (r: T)
        requires
            self.wf(),
            y < self@.len(),
            x < self@[y as int].len(),
        ensures
            r == self@[y as int][x as int],
    {
        let dlen = self.data.len();
        proof {
            lemma_flat_index_bound(self.rows as int, self.cols as int, y as int, x as int);
            assert(y * self.cols + x < dlen);
        }
        self.data[y * self.cols + x]
    }

    /// Set the element at row `y`, column `x`.
    pub fn set(&mut self, y: usize, x: usize, v: T)
        requires
            old(self).wf(),
            y < old(self)@.len(),
            x < old(self)@[y as int].len(),
        ensures
            final(self).wf(),
            final(self)@ =~~= old(self)@.update(y as int, old(self)@[y as int].update(x as int, v)),
    {
        let dlen = self.data.len();
        proof {
            lemma_flat_index_bound(self.rows as int, self.cols as int, y as int, x as int);
            assert(y * self.cols + x < dlen);
        }
        let idx = y * self.cols + x;
        self.data.set(idx, v);
        proof {
            let cols = self.cols as int;
            assert forall|yy: int, xx: int|
                0 <= yy < self.rows && 0 <= xx < cols implies self@[yy][xx] == old(self)@.update(
                y as int,
                old(self)@[y as int].update(x as int, v),
            )[yy][xx] by {
                lemma_flat_index_bound(self.rows as int, cols, yy, xx);
                if yy * cols + xx == y as int * cols + x as int {
                    lemma_flat_index_injective(cols, yy, xx, y as int, x as int);
                }
            }
        }
    }
}

/// Fill all points inside `rect` with the value `value`.
pub fn fill_rect<T: Copy>(mask: &mut Grid<T>, rect: Rect, value: T)
    requires
        old(mask).wf(),
        0 <= rect.top_spec() && rect.bottom_spec() <= old(mask)@.len(),
        0 <= rect.left_spec(),
        forall|y: int|
            0 <= y < old(mask)@.len() ==> rect.right_spec() <= (#[trigger] old(mask)@[y]).len(),
    ensures
        final(mask).wf(),
        mask_painted(old(mask)@, final(mask)@, rect, value),
{
    let mut y = rect.top();
    let bottom = rect.bottom();
    let left = rect.left();
    let right = rect.right();
    while y < bottom
        invariant
            rect.top_spec() <= y <= bottom || y == rect.top_spec(),
            bottom == rect.bottom_spec(),
            left == rect.left_spec(),
            right == rect.right_spec(),
            0 <= rect.top_spec() && rect.bottom_spec() <= mask@.len(),
            0 <= left,
            mask.wf(),
            mask@.len() == old(mask)@.len(),
            forall|yy: int| 0 <= yy < mask@.len() ==> (#[trigger] mask@[yy]).len() == old(mask)@[yy].len(),
            forall|yy: int| 0 <= yy < mask@.len() ==> right <= (#[trigger] mask@[yy]).len(),
            forall|yy: int, xx: int|
                0 <= yy < mask@.len() && 0 <= xx < mask@[yy].len() ==> #[trigger] mask@[yy][xx]
                    == (if rect.top_spec() <= yy < y && left <= xx < right {
                    value
                } else {
                    old(mask)@[yy][xx]
                }),
        decreases bottom - y,
    {
        let mut x = left;
        while x < right
            invariant
                left <= x <= right || x == left,
                rect.top_spec() <= y < bottom,
                bottom == rect.bottom_spec(),
                left == rect.left_spec(),
                right == rect.right_spec(),
                0 <= rect.top_spec() && rect.bottom_spec() <= mask@.len(),
                0 <= left,
                mask.wf(),
                mask@.len() == old(mask)@.len(),
                forall|yy: int| 0 <= yy < mask@.len() ==> (#[trigger] mask@[yy]).len() == old(mask)@[yy].len(),
                forall|yy: int| 0 <= yy < mask@.len() ==> right <= (#[trigger] mask@[yy]).len(),
                forall|yy: int, xx: int|
                    0 <= yy < mask@.len() && 0 <= xx < mask@[yy].len() ==> #[trigger] mask@[yy][xx]
                        == (if (rect.top_spec() <= yy < y && left <= xx < right) || (yy == y && left
                        <= xx < x) {
                        value
                    } else {
                        old(mask)@[yy][xx]
                    }),
            decreases right - x,
        {
            mask.set(y as usize, x as usize, value);
            x = x + 1;
        }
        y = y + 1;
    }
}

/// The column count of a rectangular grid model (zero when it has no rows).
pub open spec fn rect_cols<T>(m: Seq<Seq<T>>) -> int {
    if m.len() == 0 {
        0
    } else {
        m[0].len() as int
    }
}

/// How a painting operation relates the new mask to the old: cells inside
/// the rectangle hold `value`, all others are unchanged, and the dimensions
/// are kept.
pub open spec fn mask_painted<T>(
    old_mask: Seq<Seq<T>>,
    new_mask: Seq<Seq<T>>,
    rect: Rect,
    value: T,
) -> bool {
    &&& new_mask.len() == old_mask.len()
    &&& forall|y: int|
        0 <= y < new_mask.len() ==> (#[trigger] new_mask[y]).len() == old_mask[y].len()
    &&& forall|y: int, x: int|
        0 <= y < new_mask.len() && 0 <= x < new_mask[y].len() ==> #[trigger] new_mask[y][x] == (
        if rect.top_spec() <= y < rect.bottom_spec() && rect.left_spec() <= x < rect.right_spec() {
            value
        } else {
            old_mask[y][x]
        })
}

/// Draw the outline of a rectangle `rect` with border width `width`.
///
/// The outline is drawn such that the bounding box of the outermost pixels
/// will be `rect`.
pub fn stroke_rect<T: Copy>(mask: &mut Grid<T>, rect: Rect, value: T, width: u32)
    requires
        old(mask).wf(),
        0 <= rect.top_spec() && rect.bottom_spec() <= old(mask)@.len(),
        0 <= rect.left_spec(),
        forall|y: int|
            0 <= y < old(mask)@.len() ==> rect.right_spec() <= (#[trigger] old(mask)@[y]).len(),
        2 * width <= rect.right_spec() - rect.left_spec(),
        2 * width <= rect.bottom_spec() - rect.top_spec(),
    ensures
        final(mask).wf(),
        final(mask)@.len() == old(mask)@.len(),
        forall|y: int|
            0 <= y < final(mask)@.len() ==> (#[trigger] final(mask)@[y]).len() == old(
                mask,
            )@[y].len(),
        forall|y: int, x: int|
            0 <= y < final(mask)@.len() && 0 <= x < final(mask)@[y].len()
                ==> #[trigger] final(mask)@[y][x] == (if rect.top_spec() <= y < rect.bottom_spec()
                && rect.left_spec() <= x < rect.right_spec() && (y < rect.top_spec() + width || y
                >= rect.bottom_spec() - width || x < rect.left_spec() + width || x
                >= rect.right_spec() - width) {
                value
            } else {
                old(mask)@[y][x]
            }),
{
    let ghost m0 = mask@;
    let w = width as i32;
    // Left edge
    let r1 = Rect::from_tlbr(rect.top(), rect.left(), rect.bottom(), rect.left() + w);
    fill_rect(mask, r1, value);
    let ghost m1 = mask@;
    // Top edge (minus ends)
    let r2 = Rect::from_tlbr(rect.top(), rect.left() + w, rect.top() + w, rect.right() - w);
    fill_rect(mask, r2, value);
    let ghost m2 = mask@;
    // Right edge
    let r3 = Rect::from_tlbr(rect.top(), rect.right() - w, rect.bottom(), rect.right());
    fill_rect(mask, r3, value);
    let ghost m3 = mask@;
    // Bottom edge (minus ends)
    let r4 = Rect::from_tlbr(rect.bottom() - w, rect.left() + w, rect.bottom(), rect.right() - w);
    fill_rect(mask, r4, value);
}

/// Return a copy of `p` with X and Y coordinates clamped to `[0, width)` and
/// `[0, height)` respectively.
fn clamp_to_bounds(p: Point, height: i32, width: i32) -> (r: Point)
    requires
        height >= 0,
        width >= 0,
    ensures
        r.y == clamp_coord(p.y as int, height as int),
        r.x == clamp_coord(p.x as int, width as int),
{
    let max_y = if height > 0 {
        height - 1
    } else {
        0
    };
    let max_x = if width > 0 {
        width - 1
    } else {
        0
    };
    let y = if p.y < 0 {
        0
    } else if p.y > max_y {
        max_y
    } else {
        p.y
    };
    let x = if p.x < 0 {
        0
    } else if p.x > max_x {
        max_x
    } else {
        p.x
    };
    Point::from_yx(y, x)
}

/// A coordinate clamped to the valid index range of an extent.
pub open spec fn clamp_coord(v: int, extent: int) -> int {
    let hi = if extent > 0 {
        extent - 1
    } else {
        0
    };
    if v < 0 {
        0
    } else if v > hi {
        hi
    } else {
        v
    }
}

/// Return the bounding box containing a set of points.
///
/// The point list must be non-empty.
pub fn bounding_box(points: &[Point]) -> (r: Rect)
    requires
        points@.len() > 0,
        forall|k: int|
            0 <= k < points@.len() ==> (#[trigger] points@[k]).y < i32::MAX && points@[k].x
                < i32::MAX,
    ensures
        forall|k: int|
            0 <= k < points@.len() ==> r.top_spec() <= (#[trigger] points@[k]).y < r.bottom_spec()
                && r.left_spec() <= points@[k].x < r.right_spec(),
        exists|k: int| 0 <= k < points@.len() && (#[trigger] points@[k]).y == r.top_spec(),
        exists|k: int| 0 <= k < points@.len() && (#[trigger] points@[k]).x == r.left_spec(),
        exists|k: int| 0 <= k < points@.len() && (#[trigger] points@[k]).y == r.bottom_spec() - 1,
        exists|k: int| 0 <= k < points@.len() && (#[trigger] points@[k]).x == r.right_spec() - 1,
{
    let mut left = points[0].x;
    let mut top = points[0].y;
    let mut right = left + 1;
    let mut bottom = top + 1;

    let mut i: usize = 0;
    while i < points.len()
        invariant
            i <= points@.len(),
            points@.len() > 0,
            forall|k: int|
                0 <= k < points@.len() ==> (#[trigger] points@[k]).y < i32::MAX && points@[k].x
                    < i32::MAX,
            top <= points@[0].y && left <= points@[0].x,
            points@[0].y < bottom && points@[0].x < right,
            forall|k: int|
                0 <= k < i ==> top <= (#[trigger] points@[k]).y < bottom && left <= points@[k].x
                    < right,
            exists|k: int| 0 <= k < points@.len() && (#[trigger] points@[k]).y == top,
            exists|k: int| 0 <= k < points@.len() && (#[trigger] points@[k]).x == left,
            exists|k: int| 0 <= k < points@.len() && (#[trigger] points@[k]).y == bottom - 1,
            exists|k: int| 0 <= k < points@.len() && (#[trigger] points@[k]).x == right - 1,
        decreases points@.len() - i,
    {
        let p = points[i];
        if p.x < left {
            left = p.x;
        }
        if p.x + 1 > right {
            right = p.x + 1;
        }
        if p.y < top {
            top = p.y;
        }
        if p.y + 1 > bottom {
            bottom = p.y + 1;
        }
        i = i + 1;
    }

    Rect::from_tlbr(top, left, bottom, right)
}

/// How drawing relates the new image to the old: the dimensions are kept and
/// every cell is either unchanged or holds the drawn value.
pub open spec fn image_drawn<T>(old_im: Seq<Seq<T>>, new_im: Seq<Seq<T>>, value: T) -> bool {
    &&& new_im.len() == old_im.len()
    &&& forall|y: int| 0 <= y < new_im.len() ==> (#[trigger] new_im[y]).len() == old_im[y].len()
    &&& forall|y: int, x: int|
        0 <= y < new_im.len() && 0 <= x < new_im[y].len() ==> #[trigger] new_im[y][x] == old_im[y][
        x] || new_im[y][x] == value
}

/// Set the cell at `(y, x)` when it lies inside the image; out-of-range
/// coordinates are ignored.
fn put<T: Copy>(image: &mut Grid<T>, y: i32, x: i32, value: T)
    requires
        old(image).wf(),
        forall|yy: int|
            0 <= yy < old(image)@.len() ==> (#[trigger] old(image)@[yy]).len() == rect_cols(
                old(image)@,
            ),
    ensures
        final(image).wf(),
        final(image)@ =~~= (if 0 <= y < old(image)@.len() && 0 <= x < rect_cols(old(image)@) {
            old(image)@.update(y as int, old(image)@[y as int].update(x as int, value))
        } else {
            old(image)@
        }),
        image_drawn(old(image)@, final(image)@, value),
        forall|yy: int|
            0 <= yy < final(image)@.len() ==> (#[trigger] final(image)@[yy]).len() == rect_cols(
                old(image)@,
            ),
{
    let rows = image.rows();
    if y >= 0 && x >= 0 && (y as usize) < rows {
        let cols = image.cols();
        if (x as usize) < cols {
            image.set(y as usize, x as usize, value);
        }
    }
}

/// Whether `v` lies between `a` and `b`, in either order.
pub open spec fn between(a: int, v: int, b: int) -> bool {
    (a <= v && v <= b) || (b <= v && v <= a)
}

/// As `image_drawn`, but every drawn cell lies in the axis-aligned box
/// spanned by `(y1, x1)` and `(y2, x2)`.
pub open spec fn image_drawn_within<T>(
    old_im: Seq<Seq<T>>,
    new_im: Seq<Seq<T>>,
    value: T,
    y1: int,
    y2: int,
    x1: int,
    x2: int,
) -> bool {
    &&& new_im.len() == old_im.len()
    &&& forall|y: int| 0 <= y < new_im.len() ==> (#[trigger] new_im[y]).len() == old_im[y].len()
    &&& forall|y: int, x: int|
        0 <= y < new_im.len() && 0 <= x < new_im[y].len() ==> #[trigger] new_im[y][x] == old_im[y][
        x] || (new_im[y][x] == value && between(y1, y, y2) && between(x1, x, x2))
}

/// Draw a non-antialiased line in an image.
///
/// The endpoints are first clamped into the image bounds. Every drawn cell
/// is set to `value` and lies in the axis-aligned box spanned by the clamped
/// endpoints; all other cells are unchanged.
pub fn draw_line<T: Copy>(image: &mut Grid<T>, line: Line, value: T)
    requires
        old(image).wf(),
        old(image)@.len() <= 0x1FFF_FFFF,
        rect_cols(old(image)@) <= 0x1FFF_FFFF,
        forall|yy: int|
            0 <= yy < old(image)@.len() ==> (#[trigger] old(image)@[yy]).len() == rect_cols(
                old(image)@,
            ),
    ensures
        final(image).wf(),
        image_drawn(old(image)@, final(image)@, value),
        image_drawn_within(
            old(image)@,
            final(image)@,
            value,
            clamp_coord(line.start.y as int, old(image)@.len() as int),
            clamp_coord(line.end.y as int, old(image)@.len() as int),
            clamp_coord(line.start.x as int, rect_cols(old(image)@)),
            clamp_coord(line.end.x as int, rect_cols(old(image)@)),
        ),
        forall|yy: int|
            0 <= yy < final(image)@.len() ==> (#[trigger] final(image)@[yy]).len() == rect_cols(
                old(image)@,
            ),
{
    let height: i32 = image.rows() as i32;
    let width: i32 = if image.rows() > 0 {
        image.cols() as i32
    } else {
        0
    };
    proof {
        assert(height == old(image)@.len());
        assert(width == rect_cols(old(image)@));
    }

    let start = clamp_to_bounds(line.start, height, width);
    let end = clamp_to_bounds(line.end, height, width);

    let dx = if end.x >= start.x {
        end.x - start.x
    } else {
        start.x - end.x
    };
    let dy = if end.y >= start.y {
        end.y - start.y
    } else {
        start.y - end.y
    };

    let x_step: i32 = if end.x > start.x {
        1
    } else if end.x < start.x {
        -1
    } else {
        0
    };
    let y_step: i32 = if end.y > start.y {
        1
    } else if end.y < start.y {
        -1
    } else {
        0
    };

    let steps = if dx >= dy {
        dx
    } else {
        dy
    };

    if x_step == 0 {
        // Vertical line
        let mut y = start.y;
        let mut i: i32 = 0;
        while i < steps
            invariant
                image.wf(),
                image_drawn(old(image)@, image@, value),
                image_drawn_within(
                    old(image)@,
                    image@,
                    value,
                    start.y as int,
                    end.y as int,
                    start.x as int,
                    end.x as int,
                ),
                forall|yy: int|
                    0 <= yy < image@.len() ==> (#[trigger] image@[yy]).len() == rect_cols(
                        old(image)@,
                    ),
                0 <= i <= steps,
                steps == dy,
                steps < 0x1FFF_FFFF,
                end.x == start.x,
                -1 <= y_step <= 1,
                y_step == 1 ==> end.y == start.y + dy && y == start.y + i,
                y_step == -1 ==> end.y == start.y - dy && y == start.y - i,
                y_step == 0 ==> dy == 0 && y == start.y,
                -0x1FFF_FFFF <= start.y <= 0x1FFF_FFFF,
            decreases steps - i,
        {
            let ghost before = image@;
            put(image, y, start.x, value);
            proof {
                assert(rect_cols(before) == rect_cols(old(image)@)) by {
                    if before.len() > 0 {
                        assert(before[0].len() == rect_cols(old(image)@));
                    }
                }
                lemma_put_within(
                    before,
                    image@,
                    old(image)@,
                    value,
                    y as int,
                    start.x as int,
                    start.y as int,
                    end.y as int,
                    start.x as int,
                    end.x as int,
                );
            }
            y = y + y_step;
            i = i + 1;
        }
    } else if y_step == 0 {
        // Horizontal line
        let mut x = start.x;
        let mut i: i32 = 0;
        while i < steps
            invariant
                image.wf(),
                image_drawn(old(image)@, image@, value),
                image_drawn_within(
                    old(image)@,
                    image@,
                    value,
                    start.y as int,
                    end.y as int,
                    start.x as int,
                    end.x as int,
                ),
                forall|yy: int|
                    0 <= yy < image@.len() ==> (#[trigger] image@[yy]).len() == rect_cols(
                        old(image)@,
                    ),
                0 <= i <= steps,
                steps == dx,
                steps < 0x1FFF_FFFF,
                end.y == start.y,
                -1 <= x_step <= 1,
                x_step == 1 ==> end.x == start.x + dx && x == start.x + i,
                x_step == -1 ==> end.x == start.x - dx && x == start.x - i,
                x_step == 0 ==> dx == 0 && x == start.x,
                -0x1FFF_FFFF <= start.x <= 0x1FFF_FFFF,
            decreases steps - i,
        {
            let ghost before = image@;
            put(image, start.y, x, value);
            proof {
                assert(rect_cols(before) == rect_cols(old(image)@)) by {
                    if before.len() > 0 {
                        assert(before[0].len() == rect_cols(old(image)@));
                    }
                }
                lemma_put_within(
                    before,
                    image@,
                    old(image)@,
                    value,
                    start.y as int,
                    x as int,
                    start.y as int,
                    end.y as int,
                    start.x as int,
                    end.x as int,
                );
            }
            x = x + x_step;
            i = i + 1;
        }
    } else if dx >= dy {
        // Horizontal slope
        let dy2 = dy * 2;
        let mut error = dy2 - dx;
        let dx2 = dx * 2;
        let mut cur_y = start.y;
        let mut cur_x = start.x;
        let mut i: i32 = 0;
        let ghost mut j: int = 0;
        proof {
            assert(dy2 * (0 + 1) == dy2 && dx2 * 0 == 0) by (nonlinear_arith);
        }
        while i < steps
            invariant
                image.wf(),
                image_drawn(old(image)@, image@, value),
                image_drawn_within(
                    old(image)@,
                    image@,
                    value,
                    start.y as int,
                    end.y as int,
                    start.x as int,
                    end.x as int,
                ),
                forall|yy: int|
                    0 <= yy < image@.len() ==> (#[trigger] image@[yy]).len() == rect_cols(
                        old(image)@,
                    ),
                0 <= i <= steps,
                steps == dx,
                1 <= dy <= dx < 0x1FFF_FFFF,
                dy2 == 2 * dy,
                dx2 == 2 * dx,
                0 <= j,
                error == dy2 * (i + 1) - dx - dx2 * j,
                -dx2 <= error < dy2,
                x_step == 1 ==> end.x == start.x + dx && cur_x == start.x + i,
                x_step == -1 ==> end.x == start.x - dx && cur_x == start.x - i,
                x_step == 1 || x_step == -1,
                y_step == 1 ==> end.y == start.y + dy && cur_y == start.y + j,
                y_step == -1 ==> end.y == start.y - dy && cur_y == start.y - j,
                y_step == 1 || y_step == -1,
                -0x1FFF_FFFF <= start.y <= 0x1FFF_FFFF,
                -0x1FFF_FFFF <= start.x <= 0x1FFF_FFFF,
            decreases steps - i,
        {
            proof {
                // The number of sideways steps never exceeds the smaller
                // extent while the walk is in progress.
                assert(j <= dy) by (nonlinear_arith)
                    requires
                        error == dy2 * (i + 1) - dx - dx2 * j,
                        -dx2 <= error,
                        dy2 == 2 * dy,
                        dx2 == 2 * dx,
                        0 <= i < dx,
                        1 <= dy <= dx,
                        0 <= j,
                ;
            }
            let ghost before = image@;
            put(image, cur_y, cur_x, value);
            proof {
                assert(rect_cols(before) == rect_cols(old(image)@)) by {
                    if before.len() > 0 {
                        assert(before[0].len() == rect_cols(old(image)@));
                    }
                }
                lemma_put_within(
                    before,
                    image@,
                    old(image)@,
                    value,
                    cur_y as int,
                    cur_x as int,
                    start.y as int,
                    end.y as int,
                    start.x as int,
                    end.x as int,
                );
            }
            if error >= 0 {
                cur_y = cur_y + y_step;
                error = error - dx2;
                proof {
                    assert(dx2 * (j + 1) == dx2 * j + dx2) by (nonlinear_arith);
                    j = j + 1;
                }
            }
            proof {
                assert(dy2 * (i + 2) == dy2 * (i + 1) + dy2) by (nonlinear_arith);
            }
            error = error + dy2;
            cur_x = cur_x + x_step;
            i = i + 1;
        }
    } else {
        // Vertical slope
        let dx2 = dx * 2;
        let mut error = dx2 - dy;
        let dy2 = dy * 2;
        let mut cur_y = start.y;
        let mut cur_x = start.x;
        let mut i: i32 = 0;
        let ghost mut j: int = 0;
        proof {
            assert(dx2 * (0 + 1) == dx2 && dy2 * 0 == 0) by (nonlinear_arith);
        }
        while i < steps
            invariant
                image.wf(),
                image_drawn(old(image)@, image@, value),
                image_drawn_within(
                    old(image)@,
                    image@,
                    value,
                    start.y as int,
                    end.y as int,
                    start.x as int,
                    end.x as int,
                ),
                forall|yy: int|
                    0 <= yy < image@.len() ==> (#[trigger] image@[yy]).len() == rect_cols(
                        old(image)@,
                    ),
                0 <= i <= steps,
                steps == dy,
                1 <= dx < dy < 0x1FFF_FFFF,
                dy2 == 2 * dy,
                dx2 == 2 * dx,
                0 <= j,
                error == dx2 * (i + 1) - dy - dy2 * j,
                -dy2 <= error < dx2,
                y_step == 1 ==> end.y == start.y + dy && cur_y == start.y + i,
                y_step == -1 ==> end.y == start.y - dy && cur_y == start.y - i,
                y_step == 1 || y_step == -1,
                x_step == 1 ==> end.x == start.x + dx && cur_x == start.x + j,
                x_step == -1 ==> end.x == start.x - dx && cur_x == start.x - j,
                x_step == 1 || x_step == -1,
                -0x1FFF_FFFF <= start.y <= 0x1FFF_FFFF,
                -0x1FFF_FFFF <= start.x <= 0x1FFF_FFFF,
            decreases steps - i,
        {
            proof {
                assert(j <= dx) by (nonlinear_arith)
                    requires
                        error == dx2 * (i + 1) - dy - dy2 * j,
                        -dy2 <= error,
                        dy2 == 2 * dy,
                        dx2 == 2 * dx,
                        0 <= i < dy,
                        1 <= dx <= dy,
                        0 <= j,
                ;
            }
            let ghost before = image@;
            put(image, cur_y, cur_x, value);
            proof {
                assert(rect_cols(before) == rect_cols(old(image)@)) by {
                    if before.len() > 0 {
                        assert(before[0].len() == rect_cols(old(image)@));
                    }
                }
                lemma_put_within(
                    before,
                    image@,
                    old(image)@,
                    value,
                    cur_y as int,
                    cur_x as int,
                    start.y as int,
                    end.y as int,
                    start.x as int,
                    end.x as int,
                );
            }
            if error >= 0 {
                cur_x = cur_x + x_step;
                error = error - dy2;
                proof {
                    assert(dy2 * (j + 1) == dy2 * j + dy2) by (nonlinear_arith);
                    j = j + 1;
                }
            }
            proof {
                assert(dx2 * (i + 2) == dx2 * (i + 1) + dx2) by (nonlinear_arith);
            }
            error = error + dx2;
            cur_y = cur_y + y_step;
            i = i + 1;
        }
    }
}

/// One in-box write extends a box-confined drawing.
proof fn lemma_put_within<T>(
    before: Seq<Seq<T>>,
    after: Seq<Seq<T>>,
    base: Seq<Seq<T>>,
    value: T,
    wy: int,
    wx: int,
    y1: int,
    y2: int,
    x1: int,
    x2: int,
)
    requires
        image_drawn_within(base, before, value, y1, y2, x1, x2),
        after =~~= (if 0 <= wy < before.len() && 0 <= wx < rect_cols(before) {
            before.update(wy, before[wy].update(wx, value))
        } else {
            before
        }),
        forall|yy: int| 0 <= yy < before.len() ==> (#[trigger] before[yy]).len() == rect_cols(before),
        between(y1, wy, y2),
        between(x1, wx, x2),
    ensures
        image_drawn_within(base, after, value, y1, y2, x1, x2),
{
    assert forall|y: int, x: int|
        0 <= y < after.len() && 0 <= x < after[y].len() implies #[trigger] after[y][x] == base[y][
        x] || (after[y][x] == value && between(y1, y, y2) && between(x1, x, x2)) by {
        if 0 <= wy < before.len() && 0 <= wx < rect_cols(before) {
            if y == wy && x == wx {
            } else {
                assert(after[y][x] == before[y][x]);
            }
        }
    }
}


pub fn draw_polygon<T: Copy>(image: &mut Grid<T>, poly: &[Point], value: T)
    requires
        old(image).wf(),
        old(image)@.len() <= 0x1FFF_FFFF,
        rect_cols(old(image)@) <= 0x1FFF_FFFF,
        forall|yy: int|
            0 <= yy < old(image)@.len() ==> (#[trigger] old(image)@[yy]).len() == rect_cols(
                old(image)@,
            ),
    ensures
        final(image).wf(),
        image_drawn(old(image)@, final(image)@, value),
{
    if poly.len() == 0 {
        return ;
    }
    let pn = poly.len();
    let mut i: usize = 0;
    while i < pn - 1
        invariant
            pn == poly@.len(),
            poly@.len() > 0,
            i <= poly@.len(),
            image.wf(),
            image_drawn(old(image)@, image@, value),
            image@.len() <= 0x1FFF_FFFF,
            rect_cols(old(image)@) <= 0x1FFF_FFFF,
            forall|yy: int|
                0 <= yy < image@.len() ==> (#[trigger] image@[yy]).len() == rect_cols(
                    old(image)@,
                ),
        decreases poly@.len() - i,
    {
        let seg = Line::from_endpoints(poly[i], poly[i + 1]);
        proof {
            assert(rect_cols(image@) == rect_cols(old(image)@));
        }
        draw_line(image, seg, value);
        i = i + 1;
    }
    let seg = Line::from_endpoints(poly[pn - 1], poly[0]);
    proof {
        assert(rect_cols(image@) == rect_cols(old(image)@));
    }
    draw_line(image, seg, value);
}

enum Direction {
    Clockwise,
    CounterClockwise,
}

/// Whether `p` is one of the eight neighbors of `center`.
pub open spec fn is_neighbor(center: Point, p: Point) -> bool {
    &&& center.y - 1 <= p.y <= center.y + 1
    &&& center.x - 1 <= p.x <= center.x + 1
    &&& !(p.y == center.y && p.x == center.x)
}

/// The next neighbor index in the given rotation order.
fn next_neighbor_idx(idx: usize, dir: &Direction) -> (r: usize)
    requires
        idx < 8,
    ensures
        r < 8,
{
    match dir {
        Direction::Clockwise => (idx + 1) % 8,
        Direction::CounterClockwise => {
            if idx == 0 {
                7
            } else {
                idx - 1
            }
        },
    }
}

/// Search the neighborhood of the pixel `center` in `mask` for a pixel with
/// a non-zero value, starting from `start` and in the order given by `dir`.
///
/// If `skip_first` is true, start the search from the next neighbor of
/// `start` in the order given by `dir`.
fn find_nonzero_neighbor(
    mask: &Grid<i32>,
    center: Point,
    start: Point,
    dir: Direction,
    skip_first: bool,
) -> (r: Option<Point>)
    requires
        mask.wf(),
        forall|yy: int|
            0 <= yy < mask@.len() ==> (#[trigger] mask@[yy]).len() == rect_cols(mask@),
        mask@.len() <= 0x7FFF_FF00,
        rect_cols(mask@) <= 0x7FFF_FF00,
        1 <= center.y,
        center.y + 1 < mask@.len(),
        1 <= center.x,
        center.x + 1 < rect_cols(mask@),
        is_neighbor(center, start),
    ensures
        match r {
            Some(p) => is_neighbor(center, p) && mask@[p.y as int][p.x as int] != 0,
            None => true,
        },
{
    let neighbors = center.neighbors();
    // Find the position of `start` among the neighbors.
    let mut start_idx: usize = 0;
    let mut found = false;
    let mut s: usize = 0;
    while s < 8
        invariant
            s <= 8,
            found ==> start_idx < 8,
            !found ==> forall|k: int| 0 <= k < s ==> neighbors@[k] != start,
            neighbors@.len() == 8,
            forall|k: int| 0 <= k < 8 ==> is_neighbor(center, #[trigger] neighbors@[k]),
        decreases 8 - s,
    {
        if neighbors[s] == start {
            start_idx = s;
            found = true;
            s = 8;
        } else {
            s = s + 1;
        }
    }
    if !found {
        // `start` is a neighbor of `center`, so it is one of the eight.
        proof {
            // Case analysis over the eight relative positions.
            let dy = start.y - center.y;
            let dx = start.x - center.x;
            if dy == -1 && dx == 0 {
                assert(neighbors@[0] == start);
            } else if dy == -1 && dx == 1 {
                assert(neighbors@[1] == start);
            } else if dy == 0 && dx == 1 {
                assert(neighbors@[2] == start);
            } else if dy == 1 && dx == 1 {
                assert(neighbors@[3] == start);
            } else if dy == 1 && dx == 0 {
                assert(neighbors@[4] == start);
            } else if dy == 1 && dx == -1 {
                assert(neighbors@[5] == start);
            } else if dy == 0 && dx == -1 {
                assert(neighbors@[6] == start);
            } else {
                assert(neighbors@[7] == start);
            }
        }
        return None;
    }
    let mut idx = if skip_first {
        next_neighbor_idx(start_idx, &dir)
    } else {
        start_idx
    };
    let mut count: usize = 0;
    while count < 8
        invariant
            count <= 8,
            idx < 8,
            mask.wf(),
            forall|yy: int|
                0 <= yy < mask@.len() ==> (#[trigger] mask@[yy]).len() == rect_cols(mask@),
            1 <= center.y,
            center.y + 1 < mask@.len(),
            1 <= center.x,
            center.x + 1 < rect_cols(mask@),
            neighbors@.len() == 8,
            forall|k: int| 0 <= k < 8 ==> is_neighbor(center, #[trigger] neighbors@[k]),
        decreases 8 - count,
    {
        let p = neighbors[idx];
        if mask.get(p.y as usize, p.x as usize) != 0 {
            return Some(p);
        }
        idx = next_neighbor_idx(idx, &dir);
        count = count + 1;
    }
    None
}

/// Follow one border of the padded working mask starting at `start_point`,
/// collecting its points and marking them with `border_num`.
fn trace_border(
    padded: &mut Grid<i32>,
    border: &mut Vec<Point>,
    start_point: Point,
    start_neighbor: Point,
    border_num: i32,
    Ghost(mask): Ghost<Seq<Seq<i32>>>,
)
    requires
        old(padded).wf(),
        old(padded)@.len() == mask.len() + 2,
        rect_cols(old(padded)@) == rect_cols(mask) + 2,
        grid_wf(old(padded)@, old(padded)@.len() as int, rect_cols(old(padded)@)),
        padded_inv(mask, old(padded)@, old(padded)@.len() as int, rect_cols(old(padded)@)),
        old(padded)@.len() * rect_cols(old(padded)@) <= 0x7FFF_FF00,
        1 <= start_point.y && start_point.y + 1 < old(padded)@.len(),
        1 <= start_point.x && start_point.x + 1 < rect_cols(old(padded)@),
        old(padded)@[start_point.y as int][start_point.x as int] != 0,
        old(padded)@[start_point.y as int][start_point.x as int] == 1 || old(padded)@[
            start_point.y as int
        ][start_point.x + 1] == 0,
        is_neighbor(start_point, start_neighbor),
        border_num >= 1,
        old(border)@.len() == 0,
    ensures
        final(padded).wf(),
        final(padded)@.len() == old(padded)@.len(),
        rect_cols(final(padded)@) == rect_cols(old(padded)@),
        grid_wf(final(padded)@, old(padded)@.len() as int, rect_cols(old(padded)@)),
        padded_inv(mask, final(padded)@, old(padded)@.len() as int, rect_cols(old(padded)@)),
        border_points_ok(
            mask,
            final(border)@,
            old(padded)@.len() as int,
            rect_cols(old(padded)@),
        ),
        final(border)@.len() >= 1,
{
    let pr = padded.rows();
    let pc = padded.cols();
    proof {
        assert(pr <= 0x7FFF_FF00 && pc <= 0x7FFF_FF00) by (nonlinear_arith)
            requires
                pr * pc <= 0x7FFF_FF00,
                pr >= 2,
                pc >= 2,
        ;
    }
    let nonzero_start_neighbor = find_nonzero_neighbor(
        padded,
        start_point,
        start_neighbor,
        Direction::Clockwise,
        false,  // skip_first
    );

    let first_neighbor = match nonzero_start_neighbor {
        Some(fnb) => fnb,
        None => {
            // The current border consists of a single point. Mark it as
            // being the right edge of a border.
            border.push(start_point);
            padded.set(start_point.y as usize, start_point.x as usize, -border_num);
            return ;
        },
    };

    let mut current_point = start_point;
    let mut prev_neighbor = first_neighbor;
    // The number of steps a border can take is bounded; real borders are far
    // shorter.
    let cells = pr * pc;
    let mut fuel: usize = if cells <= (usize::MAX - 8) / 4 {
        cells * 4 + 8
    } else {
        usize::MAX
    };
    let ghost fuel0 = fuel as int;
    let ghost mut iterations: int = 0;
    while fuel > 0
        invariant_except_break
            padded.wf(),
            padded@.len() == mask.len() + 2,
            rect_cols(padded@) == rect_cols(mask) + 2,
            grid_wf(padded@, padded@.len() as int, rect_cols(padded@)),
            padded_inv(mask, padded@, padded@.len() as int, rect_cols(padded@)),
            pr == padded@.len(),
            pc == rect_cols(padded@),
            pr <= 0x7FFF_FF00,
            pc <= 0x7FFF_FF00,
            1 <= current_point.y && current_point.y + 1 < padded@.len(),
            1 <= current_point.x && current_point.x + 1 < rect_cols(padded@),
            padded@[current_point.y as int][current_point.x as int] != 0,
            is_neighbor(current_point, prev_neighbor) || current_point == prev_neighbor,
            border_points_ok(mask, border@, padded@.len() as int, rect_cols(padded@)),
            border_num >= 1,
            fuel0 >= 1,
            0 <= iterations,
            fuel + iterations == fuel0,
            1 <= start_point.y && start_point.y + 1 < padded@.len(),
            1 <= start_point.x && start_point.x + 1 < rect_cols(padded@),
            old(padded)@[start_point.y as int][start_point.x as int] == 1 || old(padded)@[
                start_point.y as int
            ][start_point.x + 1] == 0,
            iterations == 0 ==> padded@ == old(padded)@ && current_point == start_point,
            iterations >= 1 ==> border@.len() >= 1,
        ensures
            padded.wf(),
            padded@.len() == mask.len() + 2,
            rect_cols(padded@) == rect_cols(mask) + 2,
            grid_wf(padded@, padded@.len() as int, rect_cols(padded@)),
            padded_inv(mask, padded@, padded@.len() as int, rect_cols(padded@)),
            border_points_ok(mask, border@, padded@.len() as int, rect_cols(padded@)),
            border@.len() >= 1,
        decreases fuel,
    {
        // On the first step of some borders the previous neighbor can equal
        // the current point; restart the search from just above it then.
        let pn = if current_point.y == prev_neighbor.y && current_point.x == prev_neighbor.x {
            Point { y: current_point.y - 1, x: current_point.x }
        } else {
            prev_neighbor
        };
        let next_point = find_nonzero_neighbor(
            padded,
            current_point,
            pn,
            Direction::CounterClockwise,
            true,  // skip_first
        );

        // Determine if this is the right or left side of the border and mark
        // the pixel.
        let right_val = padded.get(current_point.y as usize, (current_point.x + 1) as usize);
        let cur_val = padded.get(current_point.y as usize, current_point.x as usize);
        if right_val == 0 {
            border.push(current_point);
            padded.set(current_point.y as usize, current_point.x as usize, -border_num);
        } else if cur_val == 1 {
            border.push(current_point);
            padded.set(current_point.y as usize, current_point.x as usize, border_num);
        }

        let back_at_start = match next_point {
            Some(np) => np == start_point && current_point == first_neighbor,
            None => true,
        };
        if back_at_start {
            // We are back at the starting point of the border (or,
            // defensively, the search found nothing).
            break ;
        }
        match next_point {
            Some(np) => {
                prev_neighbor = current_point;
                current_point = np;
            },
            None => {
                break ;
            },
        }
        fuel = fuel - 1;
        proof {
            iterations = iterations + 1;
        }
    }
}

/// Find the contours of connected components in the binary image `mask`.
///
/// Returns a collection of the polygons of each component, following the
/// border of each component in counter-clockwise order. Values greater than
/// zero are treated as foreground; every returned point addresses a
/// foreground pixel of the mask.
pub fn find_contours(mask: &Grid<i32>, mode: RetrievalMode) -> (r: Polygons)
    requires
        mask.wf(),
        forall|yy: int|
            0 <= yy < mask@.len() ==> (#[trigger] mask@[yy]).len() == rect_cols(mask@),
        (mask@.len() + 2) * (rect_cols(mask@) + 2) <= 0x7FFF_FF00,
    ensures
        forall|i: int, k: int|
            0 <= i < r@.len() && 0 <= k < r@[i].len() ==> {
                let p = #[trigger] r@[i][k];
                &&& 0 <= p.y < mask@.len()
                &&& 0 <= p.x < rect_cols(mask@)
                &&& mask@[p.y as int][p.x as int] >= 1
            },
        forall|i: int| 0 <= i < r@.len() ==> (#[trigger] r@[i]).len() >= 1,
{
    let rows = mask.rows();
    let cols = if rows > 0 {
        mask.cols()
    } else {
        0
    };
    let ghost cols_g = rect_cols(mask@);
    proof {
        assert(rows * cols <= (rows + 2) * (cols + 2) && rows + 2 <= 0x7FFF_FF00 && cols + 2
            <= 0x7FFF_FF00) by (nonlinear_arith)
            requires
                rows >= 0,
                cols >= 0,
                (rows + 2) * (cols + 2) <= 0x7FFF_FF00,
        ;
    }
    let pr = rows + 2;
    let pc = cols + 2;

    // Copy the mask with zero padding around the border, clamping values to
    // { 0, 1 } so the algorithm below can use other values as working state.
    let mut padded = Grid::new(pr, pc, 0i32);
    let mut cy: usize = 0;
    while cy < rows
        invariant
            cy <= rows,
            mask.wf(),
            rows == mask@.len(),
            cols == cols_g,
            cols_g == rect_cols(mask@),
            pr == rows + 2,
            pc == cols + 2,
            padded.wf(),
            grid_wf(padded@, pr as int, pc as int),
            padded_inv(mask@, padded@, pr as int, pc as int),
        decreases rows - cy,
    {
        let mut cx: usize = 0;
        while cx < cols
            invariant
                cy < rows,
                cx <= cols,
                mask.wf(),
                rows == mask@.len(),
                cols == cols_g,
                cols_g == rect_cols(mask@),
                pr == rows + 2,
                pc == cols + 2,
                padded.wf(),
                grid_wf(padded@, pr as int, pc as int),
                padded_inv(mask@, padded@, pr as int, pc as int),
            decreases cols - cx,
        {
            let v = mask.get(cy, cx);
            let clamped = if v < 0 {
                0
            } else if v > 1 {
                1
            } else {
                v
            };
            padded.set(cy + 1, cx + 1, clamped);
            cx = cx + 1;
        }
        cy = cy + 1;
    }

    let mut contours = Polygons::new();
    let mut border: Vec<Point> = Vec::new();
    let mut border_num: i32 = 1;
    let outer_only = matches!(mode, RetrievalMode::External);

    let mut y: usize = 1;
    while y + 1 < pr
        invariant
            1 <= y <= pr,
            mask.wf(),
            rows == mask@.len(),
            cols == cols_g,
            cols_g == rect_cols(mask@),
            pr == rows + 2,
            pc == cols + 2,
            pr <= 0x7FFF_FF00,
            pc <= 0x7FFF_FF00,
            pr * pc <= 0x7FFF_FF00,
            padded.wf(),
            grid_wf(padded@, pr as int, pc as int),
            padded_inv(mask@, padded@, pr as int, pc as int),
            1 <= border_num,
            border_num <= 2 + y * pc,
            contours_ok(mask@, contours@),
            forall|i: int| 0 <= i < contours@.len() ==> (#[trigger] contours@[i]).len() >= 1,
        decreases pr - y,
    {
        let mut last_nonzero_pixel: i32 = 0;
        let mut x: usize = 1;
        while x + 1 < pc
            invariant
                1 <= y,
                y + 1 < pr,
                1 <= x <= pc,
                mask.wf(),
                rows == mask@.len(),
                cols == cols_g,
                cols_g == rect_cols(mask@),
                pr == rows + 2,
                pc == cols + 2,
                pr <= 0x7FFF_FF00,
                pc <= 0x7FFF_FF00,
                pr * pc <= 0x7FFF_FF00,
                padded.wf(),
                grid_wf(padded@, pr as int, pc as int),
                padded_inv(mask@, padded@, pr as int, pc as int),
                1 <= border_num,
                border_num <= 2 + y * pc + x,
                contours_ok(mask@, contours@),
                forall|i: int| 0 <= i < contours@.len() ==> (#[trigger] contours@[i]).len() >= 1,
            decreases pc - x,
        {
            proof {
                assert(y * pc + x + 1 <= pr * pc) by (nonlinear_arith)
                    requires
                        1 <= y,
                        y + 1 < pr,
                        1 <= x,
                        x + 1 < pc,
                ;
            }
            let yc = y as i32;
            let xc = x as i32;
            let start_point = Point { y: yc, x: xc };
            let current = padded.get(y, x);
            if current == 0 {
                // A zero pixel leaves the last-nonzero tracking untouched.
                x = x + 1;
                continue;
            }

            // Neighbor of the current point to start searching for the next
            // pixel along the border that begins at the current point.
            let mut start_neighbor: Option<Point> = None;

            let prev_point = Point { y: yc, x: xc - 1 };
            let next_point = Point { y: yc, x: xc + 1 };
            let prev_val = padded.get(y, x - 1);
            let next_val = padded.get(y, x + 1);

            // Test whether we are at the starting point of an unvisited
            // border.
            if outer_only {
                if last_nonzero_pixel <= 0 && prev_val == 0 && current == 1 {
                    start_neighbor = Some(prev_point);
                }
            } else if prev_val == 0 && current == 1 {
                // This is a new outer border.
                start_neighbor = Some(prev_point);
            } else if current >= 1 && next_val == 0 {
                // This is a new hole border.
                start_neighbor = Some(next_point);
            }

            match start_neighbor {
                Some(start_neighbor) => {
                    border_num = border_num + 1;
                    border = Vec::new();

                    trace_border(
                        &mut padded,
                        &mut border,
                        start_point,
                        start_neighbor,
                        border_num,
                        Ghost(mask@),
                    );

                    // Adjust coordinates to remove the padding.
                    let mut adjusted: Vec<Point> = Vec::new();
                    let mut bi: usize = 0;
                    while bi < border.len()
                        invariant
                            bi <= border@.len(),
                            rows == mask@.len(),
                            cols == cols_g,
                            cols_g == rect_cols(mask@),
                            border_points_ok(mask@, border@, rows + 2, cols + 2),
                            adjusted@.len() == bi,
                            forall|k: int|
                                0 <= k < bi ==> {
                                    let p = #[trigger] adjusted@[k];
                                    &&& 0 <= p.y < mask@.len()
                                    &&& 0 <= p.x < rect_cols(mask@)
                                    &&& mask@[p.y as int][p.x as int] >= 1
                                },
                        decreases border@.len() - bi,
                    {
                        let p = border[bi];
                        adjusted.push(Point { y: p.y - 1, x: p.x - 1 });
                        bi = bi + 1;
                    }
                    contours.push(adjusted.as_slice());
                    proof {
                        assert forall|i: int, k: int|
                            0 <= i < contours@.len() && 0 <= k < contours@[i].len() implies {
                            let p = #[trigger] contours@[i][k];
                            &&& 0 <= p.y < mask@.len()
                            &&& 0 <= p.x < rect_cols(mask@)
                            &&& mask@[p.y as int][p.x as int] >= 1
                        } by {
                            if i < contours@.len() - 1 {
                                assert(contours@[i] == polygon_at(contours@, i));
                            }
                        }
                        assert forall|i: int|
                            0 <= i < contours@.len() implies (#[trigger] contours@[i]).len()
                            >= 1 by {
                            if i < contours@.len() - 1 {
                                assert(contours@[i] == polygon_at(contours@, i));
                            }
                        }
                    }
                },
                None => {},
            }

            last_nonzero_pixel = padded.get(y, x);
            x = x + 1;
        }
        proof {
            assert((y + 1) * pc == y * pc + pc) by (nonlinear_arith);
        }
        y = y + 1;
    }

    contours
}

/// One polygon of a collection, named for proof readability.
spec fn polygon_at(c: Seq<Seq<Point>>, i: int) -> Seq<Point> {
    c[i]
}

/// Every non-zero cell of the padded working mask is in its interior and
/// corresponds to a foreground pixel of the original mask.
pub open spec fn padded_inv(
    mask: Seq<Seq<i32>>,
    padded: Seq<Seq<i32>>,
    pr: int,
    pc: int,
) -> bool {
    forall|yy: int, xx: int|
        0 <= yy < pr && 0 <= xx < pc && #[trigger] padded[yy][xx] != 0 ==> {
            &&& 1 <= yy < pr - 1
            &&& 1 <= xx < pc - 1
            &&& mask[yy - 1][xx - 1] >= 1
        }
}

/// Every collected border point is an interior point of the padded mask
/// whose original pixel is foreground.
pub open spec fn border_points_ok(
    mask: Seq<Seq<i32>>,
    border: Seq<Point>,
    pr: int,
    pc: int,
) -> bool {
    forall|k: int|
        0 <= k < border.len() ==> {
            let p = #[trigger] border[k];
            &&& 1 <= p.y < pr - 1
            &&& 1 <= p.x < pc - 1
            &&& mask[p.y - 1][p.x - 1] >= 1
        }
}

/// Every point of every collected contour addresses a foreground pixel of
/// the mask.
pub open spec fn contours_ok(mask: Seq<Seq<i32>>, contours: Seq<Seq<Point>>) -> bool {
    forall|i: int, k: int|
        0 <= i < contours.len() && 0 <= k < contours[i].len() ==> {
            let p = #[trigger] contours[i][k];
            &&& 0 <= p.y < mask.len()
            &&& 0 <= p.x < rect_cols(mask)
            &&& mask[p.y as int][p.x as int] >= 1
        }
}

/// Whether `a` comes strictly before `b` when sorting points around
/// `origin` by the cosine of the angle between `p - origin` and the X axis,
/// in ascending order. The origin itself sorts before every other point.
/// The comparison is exact: cosines are compared by cross-multiplied
/// squares, with the signs of the X offsets deciding first.
fn angle_less(origin: Point, a: Point, b: Point) -> (r: bool)
    requires
        -0x3FFF_FFFF <= origin.x <= 0x3FFF_FFFF,
        -0x3FFF_FFFF <= origin.y <= 0x3FFF_FFFF,
        -0x3FFF_FFFF <= a.x <= 0x3FFF_FFFF,
        -0x3FFF_FFFF <= a.y <= 0x3FFF_FFFF,
        -0x3FFF_FFFF <= b.x <= 0x3FFF_FFFF,
        -0x3FFF_FFFF <= b.y <= 0x3FFF_FFFF,
    ensures
        a == origin && b != origin ==> r,
        b == origin ==> !r,
{
    let dxa = a.x as i128 - origin.x as i128;
    let dya = a.y as i128 - origin.y as i128;
    let dxb = b.x as i128 - origin.x as i128;
    let dyb = b.y as i128 - origin.y as i128;
    let za = dxa == 0 && dya == 0;
    let zb = dxb == 0 && dyb == 0;
    if za {
        return !zb;
    }
    if zb {
        return false;
    }
    let sa: i32 = if dxa > 0 {
        1
    } else if dxa < 0 {
        -1
    } else {
        0
    };
    let sb: i32 = if dxb > 0 {
        1
    } else if dxb < 0 {
        -1
    } else {
        0
    };
    if sa != sb {
        return sa < sb;
    }
    if sa == 0 {
        return false;
    }
    proof {
        assert(0 <= dxa * dxa <= 0x4000_0000_0000_0000 && 0 <= dya * dya
            <= 0x4000_0000_0000_0000 && 0 <= dxb * dxb <= 0x4000_0000_0000_0000 && 0 <= dyb
            * dyb <= 0x4000_0000_0000_0000) by (nonlinear_arith)
            requires
                -0x8000_0000 <= dxa <= 0x8000_0000,
                -0x8000_0000 <= dya <= 0x8000_0000,
                -0x8000_0000 <= dxb <= 0x8000_0000,
                -0x8000_0000 <= dyb <= 0x8000_0000,
        ;
        assert(0 <= (dxa * dxa) * (dyb * dyb) <= 0x4000_0000_0000_0000
            * 0x4000_0000_0000_0000 && 0 <= (dxb * dxb) * (dya * dya)
            <= 0x4000_0000_0000_0000 * 0x4000_0000_0000_0000) by (nonlinear_arith)
            requires
                0 <= dxa * dxa <= 0x4000_0000_0000_0000,
                0 <= dya * dya <= 0x4000_0000_0000_0000,
                0 <= dxb * dxb <= 0x4000_0000_0000_0000,
                0 <= dyb * dyb <= 0x4000_0000_0000_0000,
        ;
    }
    let lhs = (dxa * dxa) * (dyb * dyb);
    let rhs = (dxb * dxb) * (dya * dya);
    if sa > 0 {
        lhs < rhs
    } else {
        lhs > rhs
    }
}

/// The magnitude of the cross product of the vectors `prev2 -> p` and
/// `prev -> p`; positive when the three points make a counter-clockwise
/// turn.
fn turn_direction(prev2: Point, prev: Point, p: Point) -> (r: i128)
    requires
        -0x3FFF_FFFF <= prev2.x <= 0x3FFF_FFFF,
        -0x3FFF_FFFF <= prev2.y <= 0x3FFF_FFFF,
        -0x3FFF_FFFF <= prev.x <= 0x3FFF_FFFF,
        -0x3FFF_FFFF <= prev.y <= 0x3FFF_FFFF,
        -0x3FFF_FFFF <= p.x <= 0x3FFF_FFFF,
        -0x3FFF_FFFF <= p.y <= 0x3FFF_FFFF,
{
    let acx = p.x as i128 - prev2.x as i128;
    let acy = p.y as i128 - prev2.y as i128;
    let bcx = p.x as i128 - prev.x as i128;
    let bcy = p.y as i128 - prev.y as i128;
    proof {
        assert(-0x4000_0000_0000_0000 <= acx * bcy <= 0x4000_0000_0000_0000
            && -0x4000_0000_0000_0000 <= acy * bcx <= 0x4000_0000_0000_0000)
            by (nonlinear_arith)
            requires
                -0x8000_0000 <= acx <= 0x8000_0000,
                -0x8000_0000 <= acy <= 0x8000_0000,
                -0x8000_0000 <= bcx <= 0x8000_0000,
                -0x8000_0000 <= bcy <= 0x8000_0000,
        ;
    }
    acx * bcy - acy * bcx
}

/// Return the sorted subset of points from `poly` that form a convex hull
/// containing `poly`.
///
/// The hull starts with the lowest (largest y), left-most point and proceeds
/// clockwise in image coordinates. Every returned point is one of the input
/// points, and the hull is empty exactly when the input is.
pub fn convex_hull(poly: &[Point]) -> (r: Vec<Point>)
    requires
        forall|k: int|
            0 <= k < poly@.len() ==> -0x3FFF_FFFF <= (#[trigger] poly@[k]).x <= 0x3FFF_FFFF
                && -0x3FFF_FFFF <= poly@[k].y <= 0x3FFF_FFFF,
    ensures
        forall|k: int| 0 <= k < r@.len() ==> poly@.contains(#[trigger] r@[k]),
        (r@.len() > 0) == (poly@.len() > 0),
        r@.len() > 0 ==> forall|k: int|
            0 <= k < poly@.len() ==> ((#[trigger] poly@[k]).y < r@[0].y || (poly@[k].y == r@[0].y
                && r@[0].x <= poly@[k].x)),
{
    let mut hull: Vec<Point> = Vec::new();
    if poly.len() == 0 {
        return hull;
    }

    // Find the lowest and left-most point.
    let mut min_point = poly[0];
    let mut i: usize = 1;
    while i < poly.len()
        invariant
            1 <= i <= poly@.len(),
            poly@.contains(min_point),
            forall|k: int|
                0 <= k < i ==> ((#[trigger] poly@[k]).y < min_point.y || (poly@[k].y
                    == min_point.y && min_point.x <= poly@[k].x)),
            -0x3FFF_FFFF <= min_point.x <= 0x3FFF_FFFF,
            -0x3FFF_FFFF <= min_point.y <= 0x3FFF_FFFF,
            forall|k: int|
                0 <= k < poly@.len() ==> -0x3FFF_FFFF <= (#[trigger] poly@[k]).x <= 0x3FFF_FFFF
                    && -0x3FFF_FFFF <= poly@[k].y <= 0x3FFF_FFFF,
        decreases poly@.len() - i,
    {
        let p = poly[i];
        if p.y > min_point.y || (p.y == min_point.y && p.x < min_point.x) {
            min_point = p;
            proof {
                assert(poly@[i as int] == p);
            }
        }
        i = i + 1;
    }

    // Sort the points by the angle between `point - min_point` and the X
    // axis, keeping the first of equally-angled points first.
    let mut remaining: Vec<Point> = Vec::new();
    let mut ci: usize = 0;
    while ci < poly.len()
        invariant
            ci <= poly@.len(),
            remaining@ =~= poly@.take(ci as int),
        decreases poly@.len() - ci,
    {
        remaining.push(poly[ci]);
        ci = ci + 1;
    }
    proof {
        assert(remaining@ =~= poly@);
    }
    let mut sorted_points: Vec<Point> = Vec::new();
    while remaining.len() > 0
        invariant
            forall|k: int| 0 <= k < remaining@.len() ==> poly@.contains(#[trigger] remaining@[k]),
            forall|k: int|
                0 <= k < sorted_points@.len() ==> poly@.contains(#[trigger] sorted_points@[k]),
            sorted_points@.len() + remaining@.len() == poly@.len(),
            sorted_points@.len() == 0 ==> remaining@.contains(min_point),
            sorted_points@.len() > 0 ==> sorted_points@[0] == min_point,
            forall|k: int|
                0 <= k < poly@.len() ==> -0x3FFF_FFFF <= (#[trigger] poly@[k]).x <= 0x3FFF_FFFF
                    && -0x3FFF_FFFF <= poly@[k].y <= 0x3FFF_FFFF,
            -0x3FFF_FFFF <= min_point.x <= 0x3FFF_FFFF,
            -0x3FFF_FFFF <= min_point.y <= 0x3FFF_FFFF,
        decreases remaining@.len(),
    {
        let mut best: usize = 0;
        let mut j: usize = 1;
        while j < remaining.len()
            invariant
                best < remaining@.len(),
                j <= remaining@.len(),
                forall|k: int|
                    0 <= k < remaining@.len() ==> poly@.contains(#[trigger] remaining@[k]),
                remaining@[best as int] == min_point || (forall|k: int|
                    0 <= k < j ==> remaining@[k] != min_point),
                forall|k: int|
                    0 <= k < poly@.len() ==> -0x3FFF_FFFF <= (#[trigger] poly@[k]).x
                        <= 0x3FFF_FFFF && -0x3FFF_FFFF <= poly@[k].y <= 0x3FFF_FFFF,
                -0x3FFF_FFFF <= min_point.x <= 0x3FFF_FFFF,
                -0x3FFF_FFFF <= min_point.y <= 0x3FFF_FFFF,
            decreases remaining@.len() - j,
        {
            proof {
                assert(poly@.contains(remaining@[j as int]));
                assert(poly@.contains(remaining@[best as int]));
                let wj = choose|w: int| 0 <= w < poly@.len() && poly@[w] == remaining@[j as int];
                let wb = choose|w: int| 0 <= w < poly@.len() && poly@[w] == remaining@[best as int];
            }
            if angle_less(min_point, remaining[j], remaining[best]) {
                best = j;
            }
            j = j + 1;
        }
        proof {
            assert(poly@.contains(remaining@[best as int]));
            // The minimum point sorts before every other point, so the very
            // first pick is the minimum point.
            if sorted_points@.len() == 0 {
                let w = choose|w: int| 0 <= w < remaining@.len() && remaining@[w] == min_point;
                assert(remaining@[best as int] == min_point);
            }
        }
        let p = remaining.remove(best);
        sorted_points.push(p);
        proof {
            assert forall|k: int|
                0 <= k < remaining@.len() implies poly@.contains(#[trigger] remaining@[k]) by {
                // Removal keeps every remaining element an input point.
            }
        }
    }

    // Visit sorted points and keep the sequence that can be followed without
    // making any clockwise turns.
    let mut si: usize = 0;
    while si < sorted_points.len()
        invariant
            si <= sorted_points@.len(),
            forall|k: int|
                0 <= k < sorted_points@.len() ==> poly@.contains(#[trigger] sorted_points@[k]),
            forall|k: int| 0 <= k < hull@.len() ==> poly@.contains(#[trigger] hull@[k]),
            si > 0 ==> hull@.len() > 0,
            si == 0 ==> hull@.len() == 0,
            hull@.len() > 0 ==> hull@[0] == sorted_points@[0],
            sorted_points@.len() == poly@.len(),
            forall|k: int|
                0 <= k < poly@.len() ==> -0x3FFF_FFFF <= (#[trigger] poly@[k]).x <= 0x3FFF_FFFF
                    && -0x3FFF_FFFF <= poly@[k].y <= 0x3FFF_FFFF,
        decreases sorted_points@.len() - si,
    {
        let p = sorted_points[si];
        proof {
            assert(poly@.contains(sorted_points@[si as int]));
        }
        while hull.len() >= 2
            invariant_except_break
                forall|k: int| 0 <= k < hull@.len() ==> poly@.contains(#[trigger] hull@[k]),
                poly@.contains(p),
                hull@.len() > 0 ==> hull@[0] == sorted_points@[0],
                si == 0 ==> hull@.len() == 0,
                si > 0 ==> hull@.len() >= 1,
                forall|k: int|
                    0 <= k < poly@.len() ==> -0x3FFF_FFFF <= (#[trigger] poly@[k]).x
                        <= 0x3FFF_FFFF && -0x3FFF_FFFF <= poly@[k].y <= 0x3FFF_FFFF,
            ensures
                forall|k: int| 0 <= k < hull@.len() ==> poly@.contains(#[trigger] hull@[k]),
                hull@.len() > 0 ==> hull@[0] == sorted_points@[0],
                si == 0 ==> hull@.len() == 0,
                si > 0 ==> hull@.len() >= 1,
            decreases hull@.len(),
        {
            let prev2 = hull[hull.len() - 2];
            let prev = hull[hull.len() - 1];
            proof {
                assert(poly@.contains(hull@[hull@.len() - 2]));
                assert(poly@.contains(hull@[hull@.len() - 1]));
                let w2 = choose|w: int| 0 <= w < poly@.len() && poly@[w] == hull@[hull@.len() - 2];
                let w1 = choose|w: int| 0 <= w < poly@.len() && poly@[w] == hull@[hull@.len() - 1];
                let wp = choose|w: int| 0 <= w < poly@.len() && poly@[w] == p;
            }
            let turn = turn_direction(prev2, prev, p);
            if turn > 0 {
                // The last three points form a counter-clockwise turn.
                break ;
            }
            let _ = hull.pop();
        }
        hull.push(p);
        si = si + 1;
    }

    hull
}

} // verus!
