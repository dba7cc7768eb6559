//! What holds of every decoding.

use vstd::prelude::*;
use crate::bounds::{bounds, fits, lemma_bounds_unique, within, BoundingBox, Coordinate};
use crate::bytes::{in_class, run_end, ByteClass};
use crate::grammar::{file, sections, token};
use crate::reduce::{reduction, sections_from, DecodeFault};
use crate::token::{Rule, SyntaxError, Token};
use crate::xvi::{
    decoded, decodes, shot_points, sketchline_points, station_points, Contents, Shot,
    SketchlineView, StationView, Xvi, XviError,
};

verus! {

/// Whether `p` is a coordinate of the drawing: the position of one of its
/// stations, an end of one of its shots, or a point of one of its sketch
/// lines.
pub open spec fn is_coordinate_of(c: Contents, p: Coordinate) -> bool {
    ||| exists|i: int| 0 <= i < c.stations.len() && (#[trigger] c.stations[i]).pos == p
    ||| exists|i: int|
        0 <= i < c.shots.len() && ((#[trigger] c.shots[i]).start == p || c.shots[i].end == p)
    ||| exists|i: int, k: int|
        0 <= i < c.sketchlines.len() && 0 <= k < c.sketchlines[i].points.len()
            && #[trigger] c.sketchlines[i].points[k] == p
}

proof fn lemma_station_points(stations: Seq<StationView>, p: Coordinate)
    ensures
        station_points(stations).contains(p) <==> exists|i: int|
            0 <= i < stations.len() && (#[trigger] stations[i]).pos == p,
    decreases stations.len(),
{
    if stations.len() > 0 {
        let front = stations.drop_last();
        let points = station_points(front);
        lemma_station_points(front, p);
        if station_points(stations).contains(p) {
            let j = choose|j: int|
                0 <= j < station_points(stations).len() && station_points(stations)[j] == p;
            if j < points.len() {
                assert(points[j] == p);
                let i = choose|i: int| 0 <= i < front.len() && (#[trigger] front[i]).pos == p;
                assert(stations[i].pos == p);
            } else {
                assert(stations[stations.len() - 1].pos == p);
            }
        }
        if exists|i: int| 0 <= i < stations.len() && (#[trigger] stations[i]).pos == p {
            let i = choose|i: int| 0 <= i < stations.len() && (#[trigger] stations[i]).pos == p;
            if i < front.len() {
                assert(front[i].pos == p);
                let j = choose|j: int| 0 <= j < points.len() && points[j] == p;
                assert(station_points(stations)[j] == p);
            } else {
                assert(station_points(stations)[points.len() as int] == p);
            }
        }
    }
}

proof fn lemma_shot_points(shots: Seq<Shot>, p: Coordinate)
    ensures
        shot_points(shots).contains(p) <==> exists|i: int|
            0 <= i < shots.len() && ((#[trigger] shots[i]).start == p || shots[i].end == p),
    decreases shots.len(),
{
    if shots.len() > 0 {
        let front = shots.drop_last();
        let points = shot_points(front);
        lemma_shot_points(front, p);
        if shot_points(shots).contains(p) {
            let j = choose|j: int|
                0 <= j < shot_points(shots).len() && shot_points(shots)[j] == p;
            if j < points.len() {
                assert(points[j] == p);
                let i = choose|i: int|
                    0 <= i < front.len() && ((#[trigger] front[i]).start == p || front[i].end
                        == p);
                assert(shots[i].start == p || shots[i].end == p);
            } else {
                assert(shots[shots.len() - 1].start == p || shots[shots.len() - 1].end == p);
            }
        }
        if exists|i: int|
            0 <= i < shots.len() && ((#[trigger] shots[i]).start == p || shots[i].end == p) {
            let i = choose|i: int|
                0 <= i < shots.len() && ((#[trigger] shots[i]).start == p || shots[i].end == p);
            if i < front.len() {
                assert(front[i].start == p || front[i].end == p);
                let j = choose|j: int| 0 <= j < points.len() && points[j] == p;
                assert(shot_points(shots)[j] == p);
            } else {
                assert(shot_points(shots)[points.len() as int] == shots[i].start);
                assert(shot_points(shots)[points.len() as int + 1] == shots[i].end);
            }
        }
    }
}

proof fn lemma_sketchline_points(sketchlines: Seq<SketchlineView>, p: Coordinate)
    ensures
        sketchline_points(sketchlines).contains(p) <==> exists|i: int, k: int|
            0 <= i < sketchlines.len() && 0 <= k < sketchlines[i].points.len()
                && #[trigger] sketchlines[i].points[k] == p,
    decreases sketchlines.len(),
{
    if sketchlines.len() > 0 {
        let front = sketchlines.drop_last();
        let last = sketchlines.last().points;
        let points = sketchline_points(front);
        lemma_sketchline_points(front, p);
        if sketchline_points(sketchlines).contains(p) {
            let j = choose|j: int|
                0 <= j < sketchline_points(sketchlines).len() && sketchline_points(
                    sketchlines,
                )[j] == p;
            if j < points.len() {
                assert(points[j] == p);
                let (i, k) = choose|i: int, k: int|
                    0 <= i < front.len() && 0 <= k < front[i].points.len()
                        && #[trigger] front[i].points[k] == p;
                assert(sketchlines[i].points[k] == p);
            } else {
                assert(sketchlines[sketchlines.len() - 1].points[j - points.len()] == p);
            }
        }
        if exists|i: int, k: int|
            0 <= i < sketchlines.len() && 0 <= k < sketchlines[i].points.len()
                && #[trigger] sketchlines[i].points[k] == p {
            let (i, k) = choose|i: int, k: int|
                0 <= i < sketchlines.len() && 0 <= k < sketchlines[i].points.len()
                    && #[trigger] sketchlines[i].points[k] == p;
            if i < front.len() {
                assert(front[i].points[k] == p);
                let j = choose|j: int| 0 <= j < points.len() && points[j] == p;
                assert(sketchline_points(sketchlines)[j] == p);
            } else {
                assert(sketchline_points(sketchlines)[points.len() + k] == p);
            }
        }
    }
}

/// The coordinates of a drawing, taken as one sequence, are the positions
/// of its stations, the ends of its shots and the points of its sketch
/// lines, and nothing else.
pub proof fn lemma_points_are_coordinates(c: Contents, p: Coordinate)
    ensures
        c.points().contains(p) <==> is_coordinate_of(c, p),
{
    let a = station_points(c.stations);
    let b = shot_points(c.shots);
    let d = sketchline_points(c.sketchlines);
    lemma_station_points(c.stations, p);
    lemma_shot_points(c.shots, p);
    lemma_sketchline_points(c.sketchlines, p);
    if c.points().contains(p) {
        let j = choose|j: int| 0 <= j < c.points().len() && c.points()[j] == p;
        if j < a.len() {
            assert(a[j] == p);
        } else if j < a.len() + b.len() {
            assert(b[j - a.len()] == p);
        } else {
            assert(d[j - a.len() - b.len()] == p);
        }
    }
    if a.contains(p) {
        let j = choose|j: int| 0 <= j < a.len() && a[j] == p;
        assert(c.points()[j] == p);
    }
    if b.contains(p) {
        let j = choose|j: int| 0 <= j < b.len() && b[j] == p;
        assert(c.points()[a.len() + j] == p);
    }
    if d.contains(p) {
        let j = choose|j: int| 0 <= j < d.len() && d[j] == p;
        assert(c.points()[a.len() + b.len() + j] == p);
    }
}

/// The box of a drawing is the least one that holds its coordinates.
///
/// Every position of a station, every end of a shot and every point of a
/// sketch line lies in the box, its sides included, and on each of its four
/// sides lies one of them. A drawing has no box exactly where it has no
/// coordinate.
pub proof fn theorem_box_is_least(c: Contents, b: Option<BoundingBox>)
    requires
        fits(b, c.points()),
    ensures
        b is None <==> forall|p: Coordinate| !#[trigger] is_coordinate_of(c, p),
        b is Some ==> {
            &&& forall|p: Coordinate| #[trigger]
                is_coordinate_of(c, p) ==> within(b.unwrap(), p)
            &&& exists|p: Coordinate| #[trigger]
                is_coordinate_of(c, p) && p.x == b.unwrap().min.x
            &&& exists|p: Coordinate| #[trigger]
                is_coordinate_of(c, p) && p.y == b.unwrap().min.y
            &&& exists|p: Coordinate| #[trigger]
                is_coordinate_of(c, p) && p.x == b.unwrap().max.x
            &&& exists|p: Coordinate| #[trigger]
                is_coordinate_of(c, p) && p.y == b.unwrap().max.y
        },
{
    let points = c.points();
    assert forall|p: Coordinate| points.contains(p) == #[trigger] is_coordinate_of(c, p) by {
        lemma_points_are_coordinates(c, p);
    }
    match b {
        Some(b) => {
            let left = choose|i: int| 0 <= i < points.len() && (#[trigger] points[i]).x == b.min.x;
            let bottom = choose|i: int|
                0 <= i < points.len() && (#[trigger] points[i]).y == b.min.y;
            let right = choose|i: int|
                0 <= i < points.len() && (#[trigger] points[i]).x == b.max.x;
            let top = choose|i: int| 0 <= i < points.len() && (#[trigger] points[i]).y == b.max.y;
            assert(points.contains(points[left]));
            assert(points.contains(points[bottom]));
            assert(points.contains(points[right]));
            assert(points.contains(points[top]));
            assert(is_coordinate_of(c, points[left]));
            assert(is_coordinate_of(c, points[bottom]));
            assert(is_coordinate_of(c, points[right]));
            assert(is_coordinate_of(c, points[top]));
            assert forall|p: Coordinate| #[trigger] is_coordinate_of(c, p) implies within(
                b,
                p,
            ) by {
                let j = choose|j: int| 0 <= j < points.len() && points[j] == p;
                assert(within(b, points[j]));
            }
        },
        None => {
            assert forall|p: Coordinate| !#[trigger] is_coordinate_of(c, p) by {
                if points.contains(p) {
                    let j = choose|j: int| 0 <= j < points.len() && points[j] == p;
                }
            }
        },
    }
}

/// A text has one decoding: whatever decodings of one text there are, they
/// fail alike, or hold the same stations, shots and sketch lines in the same
/// order, with the same box.
pub proof fn theorem_one_decoding(
    bytes: Seq<u8>,
    first: Result<Xvi, XviError>,
    second: Result<Xvi, XviError>,
)
    requires
        decodes(first, bytes),
        decodes(second, bytes),
    ensures
        first is Ok <==> second is Ok,
        first is Ok ==> first.unwrap().contents() == second.unwrap().contents()
            && first.unwrap().bounds == second.unwrap().bounds,
        first is Err ==> first.unwrap_err() == second.unwrap_err(),
{
    if first is Ok {
        let points = first.unwrap().contents().points();
        let a = first.unwrap().bounds;
        let b = second.unwrap().bounds;
        if a is Some && b is Some {
            lemma_bounds_unique(a.unwrap(), b.unwrap(), points);
        }
    }
}

/// A text that does not match the grammar decodes to its first mismatch,
/// and only such a text decodes to a mismatch.
pub proof fn theorem_mismatch_is_error(bytes: Seq<u8>, r: Result<Xvi, XviError>)
    requires
        decodes(r, bytes),
    ensures
        match file(bytes) {
            Err(e) => r is Err && r.unwrap_err() == XviError::Syntax(e),
            Ok(_) => !(r is Err && r.unwrap_err() is Syntax),
        },
{
}

proof fn lemma_blank_run(s: Seq<u8>, i: int)
    requires
        0 <= i <= s.len(),
        forall|k: int| 0 <= k < s.len() ==> in_class(ByteClass::Space, #[trigger] s[k]),
    ensures
        run_end(s, ByteClass::Space, i) == s.len(),
    decreases s.len() - i,
{
    if i < s.len() {
        assert(in_class(ByteClass::Space, s[i]));
        lemma_blank_run(s, i + 1);
    }
}

/// A text that holds no section, only white space or nothing at all, is a
/// file, and decodes to a drawing that holds nothing and has no box.
pub proof fn theorem_blank_text(bytes: Seq<u8>, r: Result<Xvi, XviError>)
    requires
        forall|k: int| 0 <= k < bytes.len() ==> in_class(ByteClass::Space, #[trigger] bytes[k]),
        decodes(r, bytes),
    ensures
        decoded(bytes) == Ok::<Contents, XviError>(Contents::empty()),
        r is Ok,
        r.unwrap().contents() == Contents::empty(),
        r.unwrap().bounds is None,
{
    let n = bytes.len() as int;
    lemma_blank_run(bytes, 0);
    assert(sections(bytes, n) == Ok::<_, SyntaxError>((Seq::<Token>::empty(), n)));
    let tokens = file(bytes).unwrap().0;
    assert(tokens =~= seq![token(Rule::file, 0, n), token(Rule::EOI, n, n)]);
    assert(tokens[1].rule == Rule::EOI);
    assert(sections_from(bytes, tokens, 1) == Ok::<Contents, DecodeFault>(
        Contents::empty(),
    ));
    assert(reduction(bytes, tokens) == Ok::<Contents, DecodeFault>(
        Contents::empty(),
    ));
    assert(Contents::empty().points().len() == 0);
}

} // verus!
