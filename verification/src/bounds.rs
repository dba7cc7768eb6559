//! The box that bounds a set of coordinates.

use vstd::prelude::*;
use vek::geom::repr_c::Aabr;
use vek::vec::repr_c::Vec2;
use crate::decimal::Decimal;

verus! {

/// A place in the plane of the drawing.
#[derive(Clone, Copy, Debug, PartialEq, Eq, Structural)]
pub struct Coordinate {
    pub x: Decimal,
    pub y: Decimal,
}

/// A rectangle with sides along the axes, given by its corner of least and
/// its corner of greatest coordinates.
#[derive(Clone, Copy, Debug, PartialEq, Eq, Structural)]
pub struct BoundingBox {
    pub min: Coordinate,
    pub max: Coordinate,
}

/// The first of two numbers unless the second is smaller.
pub open spec fn lower(a: Decimal, b: Decimal) -> Decimal {
    if a.units <= b.units {
        a
    } else {
        b
    }
}

/// The first of two numbers unless the second is greater.
pub open spec fn upper(a: Decimal, b: Decimal) -> Decimal {
    if a.units >= b.units {
        a
    } else {
        b
    }
}

/// Whether `p` lies in `b`, its sides included.
pub open spec fn within(b: BoundingBox, p: Coordinate) -> bool {
    b.min.x.units <= p.x.units <= b.max.x.units && b.min.y.units <= p.y.units <= b.max.y.units
}

/// Whether `b` is the least box that holds all of `points`: each of them
/// lies in it, and on each of its four sides lies one of them.
pub open spec fn bounds(b: BoundingBox, points: Seq<Coordinate>) -> bool {
    &&& forall|i: int| 0 <= i < points.len() ==> within(b, #[trigger] points[i])
    &&& exists|i: int| 0 <= i < points.len() && (#[trigger] points[i]).x == b.min.x
    &&& exists|i: int| 0 <= i < points.len() && (#[trigger] points[i]).y == b.min.y
    &&& exists|i: int| 0 <= i < points.len() && (#[trigger] points[i]).x == b.max.x
    &&& exists|i: int| 0 <= i < points.len() && (#[trigger] points[i]).y == b.max.y
}

/// Whether `b` is what bounds `points`: no box where there are no points,
/// and else the least box that holds them all.
pub open spec fn fits(b: Option<BoundingBox>, points: Seq<Coordinate>) -> bool {
    match b {
        Some(b) => bounds(b, points),
        None => points.len() == 0,
    }
}

/// `vek::geom::repr_c::Aabr::new_empty`, on numbers taken by their units:
/// the box that has the point `p` for both of its corners.
#[verifier::external_body]
fn seeded(p: Coordinate) -> (r: BoundingBox)
    ensures
        r.min == p,
        r.max == p,
{
    let a = Aabr::new_empty(Vec2::new(p.x.units, p.y.units));
    BoundingBox {
        min: Coordinate { x: Decimal { units: a.min.x }, y: Decimal { units: a.min.y } },
        max: Coordinate { x: Decimal { units: a.max.x }, y: Decimal { units: a.max.y } },
    }
}

/// `vek::geom::repr_c::Aabr::expand_to_contain_point`, on numbers taken by
/// their units: each coordinate of the corner `min` becomes that of `p` where
/// that is smaller, and each coordinate of the corner `max` that of `p` where
/// that is greater.
#[verifier::external_body]
fn grown(b: BoundingBox, p: Coordinate) -> (r: BoundingBox)
    ensures
        r.min.x == lower(b.min.x, p.x),
        r.min.y == lower(b.min.y, p.y),
        r.max.x == upper(b.max.x, p.x),
        r.max.y == upper(b.max.y, p.y),
{
    let mut a = Aabr {
        min: Vec2::new(b.min.x.units, b.min.y.units),
        max: Vec2::new(b.max.x.units, b.max.y.units),
    };
    a.expand_to_contain_point(Vec2::new(p.x.units, p.y.units));
    BoundingBox {
        min: Coordinate { x: Decimal { units: a.min.x }, y: Decimal { units: a.min.y } },
        max: Coordinate { x: Decimal { units: a.max.x }, y: Decimal { units: a.max.y } },
    }
}

/// The box that bounds `points`: it starts as the first of them and grows to
/// hold each further one. Without points there is no box.
pub fn bounding_box(points: &Vec<Coordinate>) -> (r: Option<BoundingBox>)
    ensures
        fits(r, points@),
{
    if points.len() == 0 {
        return None;
    }
    let mut b = seeded(points[0]);
    let ghost mut left: int = 0;
    let ghost mut bottom: int = 0;
    let ghost mut right: int = 0;
    let ghost mut top: int = 0;
    let mut i: usize = 1;
    while i < points.len()
        invariant
            1 <= i <= points.len(),
            forall|j: int| 0 <= j < i ==> within(b, #[trigger] points@[j]),
            0 <= left < i && points@[left].x == b.min.x,
            0 <= bottom < i && points@[bottom].y == b.min.y,
            0 <= right < i && points@[right].x == b.max.x,
            0 <= top < i && points@[top].y == b.max.y,
        decreases points.len() - i,
    {
        let p = points[i];
        proof {
            if p.x.units < b.min.x.units {
                left = i as int;
            }
            if p.y.units < b.min.y.units {
                bottom = i as int;
            }
            if p.x.units > b.max.x.units {
                right = i as int;
            }
            if p.y.units > b.max.y.units {
                top = i as int;
            }
        }
        b = grown(b, p);
        i += 1;
    }
    Some(b)
}

/// The box of a set of points is in order: along each axis its corner `min`
/// does not lie beyond its corner `max`, so that no corners have to change
/// places once the box has grown.
pub proof fn lemma_bounds_in_order(b: BoundingBox, points: Seq<Coordinate>)
    requires
        bounds(b, points),
    ensures
        b.min.x.units <= b.max.x.units,
        b.min.y.units <= b.max.y.units,
{
    let i = choose|i: int| 0 <= i < points.len() && (#[trigger] points[i]).x == b.min.x;
    assert(within(b, points[i]));
}

/// One set of points has one box: whatever bounds it is that box.
pub proof fn lemma_bounds_unique(a: BoundingBox, b: BoundingBox, points: Seq<Coordinate>)
    requires
        bounds(a, points),
        bounds(b, points),
    ensures
        a == b,
{
    let ax = choose|i: int| 0 <= i < points.len() && (#[trigger] points[i]).x == a.min.x;
    let bx = choose|i: int| 0 <= i < points.len() && (#[trigger] points[i]).x == b.min.x;
    assert(within(b, points[ax]) && within(a, points[bx]));
    let ay = choose|i: int| 0 <= i < points.len() && (#[trigger] points[i]).y == a.min.y;
    let by = choose|i: int| 0 <= i < points.len() && (#[trigger] points[i]).y == b.min.y;
    assert(within(b, points[ay]) && within(a, points[by]));
    let cx = choose|i: int| 0 <= i < points.len() && (#[trigger] points[i]).x == a.max.x;
    let dx = choose|i: int| 0 <= i < points.len() && (#[trigger] points[i]).x == b.max.x;
    assert(within(b, points[cx]) && within(a, points[dx]));
    let cy = choose|i: int| 0 <= i < points.len() && (#[trigger] points[i]).y == a.max.y;
    let dy = choose|i: int| 0 <= i < points.len() && (#[trigger] points[i]).y == b.max.y;
    assert(within(b, points[cy]) && within(a, points[dy]));
}

} // verus!
