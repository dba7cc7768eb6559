//! The reducer: folds the spans that the grammar found into what the drawing
//! holds.
//!
//! The spans are taken in their order. A span that holds others is followed
//! by them, so a coordinate takes three spans, a station five and a shot
//! seven. Nothing is assumed of the spans: where they are not laid out as the
//! grammar lays them out, or do not lie in the text, the result is a fault.

use vstd::prelude::*;
use vstd::slice::slice_subrange;
use vstd::string::StringSliceAdditionalSpecFns;
use vstd::utf8::{decode_utf8, is_char_boundary};
use crate::bounds::Coordinate;
use crate::decimal::{decimal_of, decode_integer, decode_number, integer_of, Decimal};
use crate::token::{Rule, Token};
use crate::xvi::{
    sketchline_views, station_views, Contents, Shot, Sketchline, SketchlineView, Station,
    StationView, Xvi,
};

verus! {

/// Why spans could not be folded into a drawing.
#[derive(Clone, Copy, Debug, PartialEq, Eq, Structural)]
pub enum DecodeFault {
    /// The spans are not those of a file: a span of another rule stands where
    /// one was looked for, or a span does not lie in the text.
    Shape,
    /// The text of a `NUMBER` span is no number that can be held.
    Number,
}

/// A value that was read from the spans, with the index of the span behind
/// those it took.
pub type Read<T> = Result<(T, int), DecodeFault>;

/// Whether the span at `i` is one of `rule` that lies in the text.
pub open spec fn spans(bytes: Seq<u8>, tokens: Seq<Token>, i: int, rule: Rule) -> bool {
    0 <= i < tokens.len() && tokens[i].rule == rule && tokens[i].start <= tokens[i].end
        <= bytes.len()
}

/// The text that the span `t` covers.
pub open spec fn text_of(bytes: Seq<u8>, t: Token) -> Seq<u8> {
    bytes.subrange(t.start as int, t.end as int)
}

/// The number that the `NUMBER` span at `i` writes.
pub open spec fn number_at(bytes: Seq<u8>, tokens: Seq<Token>, i: int) -> Result<
    Decimal,
    DecodeFault,
> {
    if !spans(bytes, tokens, i, Rule::NUMBER) {
        Err(DecodeFault::Shape)
    } else {
        match decimal_of(text_of(bytes, tokens[i])) {
            Some(d) => Ok(d),
            None => Err(DecodeFault::Number),
        }
    }
}

/// The count that the `NUMBER` span at `i` writes.
pub open spec fn integer_at(bytes: Seq<u8>, tokens: Seq<Token>, i: int) -> Result<
    i32,
    DecodeFault,
> {
    if !spans(bytes, tokens, i, Rule::NUMBER) {
        Err(DecodeFault::Shape)
    } else {
        match integer_of(text_of(bytes, tokens[i])) {
            Some(n) => Ok(n),
            None => Err(DecodeFault::Number),
        }
    }
}

/// The coordinate that the `COORDINATE` span at `i` and the two `NUMBER`
/// spans behind it write.
pub open spec fn coordinate_at(bytes: Seq<u8>, tokens: Seq<Token>, i: int) -> Result<
    Coordinate,
    DecodeFault,
> {
    if !(0 <= i < tokens.len() && tokens[i].rule == Rule::COORDINATE) {
        Err(DecodeFault::Shape)
    } else {
        match number_at(bytes, tokens, i + 1) {
            Ok(x) => match number_at(bytes, tokens, i + 2) {
                Ok(y) => Ok(Coordinate { x, y }),
                Err(e) => Err(e),
            },
            Err(e) => Err(e),
        }
    }
}

/// The word that the span of `rule` at `i` covers. The span has to start
/// and end where characters of the text do.
pub open spec fn word_at(bytes: Seq<u8>, tokens: Seq<Token>, i: int, rule: Rule) -> Result<
    Seq<char>,
    DecodeFault,
> {
    if spans(bytes, tokens, i, rule) && is_char_boundary(bytes, tokens[i].end as int)
        && is_char_boundary(bytes.subrange(0, tokens[i].end as int), tokens[i].start as int) {
        Ok(decode_utf8(text_of(bytes, tokens[i])))
    } else {
        Err(DecodeFault::Shape)
    }
}

/// The station that the five spans from `i` on write: `station`, a
/// coordinate, `NAME`.
pub open spec fn station_at(bytes: Seq<u8>, tokens: Seq<Token>, i: int) -> Result<
    StationView,
    DecodeFault,
> {
    match coordinate_at(bytes, tokens, i + 1) {
        Ok(pos) => match word_at(bytes, tokens, i + 4, Rule::NAME) {
            Ok(name) => Ok(StationView { pos, name }),
            Err(e) => Err(e),
        },
        Err(e) => Err(e),
    }
}

/// The shot that the seven spans from `i` on write: `shot` and two
/// coordinates.
pub open spec fn shot_at(bytes: Seq<u8>, tokens: Seq<Token>, i: int) -> Result<
    Shot,
    DecodeFault,
> {
    match coordinate_at(bytes, tokens, i + 1) {
        Ok(start) => match coordinate_at(bytes, tokens, i + 4) {
            Ok(end) => Ok(Shot { start, end }),
            Err(e) => Err(e),
        },
        Err(e) => Err(e),
    }
}

/// The coordinates `head`, followed by those that `rest` read.
pub open spec fn extended(head: Seq<Coordinate>, rest: Read<Seq<Coordinate>>) -> Read<
    Seq<Coordinate>,
> {
    match rest {
        Ok((tail, next)) => Ok((head + tail, next)),
        Err(e) => Err(e),
    }
}

/// The coordinates that the spans from `i` on write, as long as a
/// `COORDINATE` span stands there.
pub open spec fn points_from(bytes: Seq<u8>, tokens: Seq<Token>, i: int) -> Read<
    Seq<Coordinate>,
>
    decreases tokens.len() - i,
{
    if 0 <= i < tokens.len() && tokens[i].rule == Rule::COORDINATE {
        match coordinate_at(bytes, tokens, i) {
            Ok(c) => extended(seq![c], points_from(bytes, tokens, i + 3)),
            Err(e) => Err(e),
        }
    } else {
        Ok((Seq::empty(), i))
    }
}

/// The sketch line that the spans from `i` on write: `scetchline`, `COLOR`,
/// and every coordinate that follows.
pub open spec fn sketchline_at(bytes: Seq<u8>, tokens: Seq<Token>, i: int) -> Read<
    SketchlineView,
> {
    match word_at(bytes, tokens, i + 1, Rule::COLOR) {
        Ok(color) => match points_from(bytes, tokens, i + 2) {
            Ok((points, next)) => Ok((SketchlineView { color, points }, next)),
            Err(e) => Err(e),
        },
        Err(e) => Err(e),
    }
}

/// The rule of the records that the list of `section` holds.
pub open spec fn record_rule(section: Rule) -> Rule {
    match section {
        Rule::xvistations => Rule::station,
        Rule::xvishots => Rule::shot,
        _ => Rule::scetchline,
    }
}

/// What the record of the list of `section` holds whose first span is at `i`.
pub open spec fn record_at(bytes: Seq<u8>, tokens: Seq<Token>, section: Rule, i: int) -> Read<
    Contents,
> {
    match section {
        Rule::xvistations => match station_at(bytes, tokens, i) {
            Ok(s) => Ok(
                (
                    Contents {
                        stations: seq![s],
                        shots: Seq::empty(),
                        sketchlines: Seq::empty(),
                    },
                    i + 5,
                ),
            ),
            Err(e) => Err(e),
        },
        Rule::xvishots => match shot_at(bytes, tokens, i) {
            Ok(s) => Ok(
                (
                    Contents {
                        stations: Seq::empty(),
                        shots: seq![s],
                        sketchlines: Seq::empty(),
                    },
                    i + 7,
                ),
            ),
            Err(e) => Err(e),
        },
        _ => match sketchline_at(bytes, tokens, i) {
            Ok((l, next)) => Ok(
                (
                    Contents {
                        stations: Seq::empty(),
                        shots: Seq::empty(),
                        sketchlines: seq![l],
                    },
                    next,
                ),
            ),
            Err(e) => Err(e),
        },
    }
}

/// What `head` holds, followed by what `rest` read.
pub open spec fn joined(head: Contents, rest: Read<Contents>) -> Read<Contents> {
    match rest {
        Ok((tail, next)) => Ok((head.join(tail), next)),
        Err(e) => Err(e),
    }
}

/// What the records of the list of `section` hold, from the span at `i` on
/// and as long as the first span of such a record stands there.
pub open spec fn records_from(bytes: Seq<u8>, tokens: Seq<Token>, section: Rule, i: int) -> Read<
    Contents,
>
    decreases tokens.len() - i,
    via records_from_decreases
{
    if 0 <= i < tokens.len() && tokens[i].rule == record_rule(section) {
        match record_at(bytes, tokens, section, i) {
            Ok((r, next)) => joined(r, records_from(bytes, tokens, section, next)),
            Err(e) => Err(e),
        }
    } else {
        Ok((Contents::empty(), i))
    }
}

#[via_fn]
proof fn records_from_decreases(bytes: Seq<u8>, tokens: Seq<Token>, section: Rule, i: int) {
    if 0 <= i < tokens.len() {
        lemma_record_at_bounds(bytes, tokens, section, i);
    }
}

/// The spacing of the background grid: the number that the `NUMBER` span
/// behind the `xvigrids` span at `i` writes.
pub open spec fn grid_spacing_at(bytes: Seq<u8>, tokens: Seq<Token>, i: int) -> Result<
    Decimal,
    DecodeFault,
> {
    number_at(bytes, tokens, i + 1)
}

/// The geometry of the background grid. What the two numbers in the middle
/// mean is not known.
#[derive(Clone, Copy, Debug, PartialEq, Eq, Structural)]
pub struct GridGeometry {
    pub origin: Coordinate,
    pub gridsize1: Decimal,
    pub unknown1: Decimal,
    pub unknown2: Decimal,
    pub gridsize2: Decimal,
    pub extent_x: i32,
    pub extent_y: i32,
}

/// The geometry that the ten spans from `i` on write: `xvigrid`, a
/// coordinate, four numbers and two counts.
pub open spec fn grid_geometry_at(bytes: Seq<u8>, tokens: Seq<Token>, i: int) -> Result<
    GridGeometry,
    DecodeFault,
> {
    match coordinate_at(bytes, tokens, i + 1) {
        Ok(origin) => match number_at(bytes, tokens, i + 4) {
            Ok(gridsize1) => match number_at(bytes, tokens, i + 5) {
                Ok(unknown1) => match number_at(bytes, tokens, i + 6) {
                    Ok(unknown2) => match number_at(bytes, tokens, i + 7) {
                        Ok(gridsize2) => match integer_at(bytes, tokens, i + 8) {
                            Ok(extent_x) => match integer_at(bytes, tokens, i + 9) {
                                Ok(extent_y) => Ok(
                                    GridGeometry {
                                        origin,
                                        gridsize1,
                                        unknown1,
                                        unknown2,
                                        gridsize2,
                                        extent_x,
                                        extent_y,
                                    },
                                ),
                                Err(e) => Err(e),
                            },
                            Err(e) => Err(e),
                        },
                        Err(e) => Err(e),
                    },
                    Err(e) => Err(e),
                },
                Err(e) => Err(e),
            },
            Err(e) => Err(e),
        },
        Err(e) => Err(e),
    }
}

/// What the section holds whose first span is at `i`. The two sections on
/// the background grid are decoded and hold nothing of the drawing. A span
/// that opens no section is a fault.
pub open spec fn section_at(bytes: Seq<u8>, tokens: Seq<Token>, i: int) -> Read<Contents> {
    match tokens[i].rule {
        Rule::xvigrids => match grid_spacing_at(bytes, tokens, i) {
            Ok(_) => Ok((Contents::empty(), i + 2)),
            Err(e) => Err(e),
        },
        Rule::xvigrid => match grid_geometry_at(bytes, tokens, i) {
            Ok(_) => Ok((Contents::empty(), i + 10)),
            Err(e) => Err(e),
        },
        Rule::xvistations => records_from(bytes, tokens, Rule::xvistations, i + 1),
        Rule::xvishots => records_from(bytes, tokens, Rule::xvishots, i + 1),
        Rule::xvisketchlines => records_from(bytes, tokens, Rule::xvisketchlines, i + 1),
        _ => Err(DecodeFault::Shape),
    }
}

/// What `head` holds, followed by what `rest` is.
pub open spec fn preceded(head: Contents, rest: Result<Contents, DecodeFault>) -> Result<
    Contents,
    DecodeFault,
> {
    match rest {
        Ok(tail) => Ok(head.join(tail)),
        Err(e) => Err(e),
    }
}

/// What the sections hold from the span at `i` on, up to the `EOI` span or
/// the last span.
pub open spec fn sections_from(bytes: Seq<u8>, tokens: Seq<Token>, i: int) -> Result<
    Contents,
    DecodeFault,
>
    decreases tokens.len() - i,
    via sections_from_decreases
{
    if 0 <= i < tokens.len() && tokens[i].rule != Rule::EOI {
        match section_at(bytes, tokens, i) {
            Ok((c, next)) => preceded(c, sections_from(bytes, tokens, next)),
            Err(e) => Err(e),
        }
    } else {
        Ok(Contents::empty())
    }
}

#[via_fn]
proof fn sections_from_decreases(bytes: Seq<u8>, tokens: Seq<Token>, i: int) {
    if 0 <= i < tokens.len() {
        lemma_section_at_bounds(bytes, tokens, i);
    }
}

/// What the drawing holds that the spans `tokens` over the text `bytes`
/// write: the first span has to be `file`, and the sections follow it.
pub open spec fn reduction(bytes: Seq<u8>, tokens: Seq<Token>) -> Result<Contents, DecodeFault> {
    if tokens.len() > 0 && tokens[0].rule == Rule::file {
        sections_from(bytes, tokens, 1)
    } else {
        Err(DecodeFault::Shape)
    }
}

/// Coordinates that can be read end at a span that is there, or behind the
/// last.
proof fn lemma_points_from_bounds(bytes: Seq<u8>, tokens: Seq<Token>, i: int)
    requires
        0 <= i <= tokens.len(),
    ensures
        points_from(bytes, tokens, i) is Ok ==> i <= points_from(bytes, tokens, i).unwrap().1
            <= tokens.len(),
    decreases tokens.len() - i,
{
    if i < tokens.len() && tokens[i].rule == Rule::COORDINATE && coordinate_at(bytes, tokens, i)
        is Ok {
        lemma_points_from_bounds(bytes, tokens, i + 3);
    }
}

/// A record that can be read takes spans that are there, and at least one.
proof fn lemma_record_at_bounds(bytes: Seq<u8>, tokens: Seq<Token>, section: Rule, i: int)
    requires
        0 <= i < tokens.len(),
    ensures
        record_at(bytes, tokens, section, i) is Ok ==> i < record_at(
            bytes,
            tokens,
            section,
            i,
        ).unwrap().1 <= tokens.len(),
{
    if word_at(bytes, tokens, i + 1, Rule::COLOR) is Ok {
        lemma_points_from_bounds(bytes, tokens, i + 2);
    }
}

/// Records that can be read end at a span that is there, or behind the last.
proof fn lemma_records_from_bounds(bytes: Seq<u8>, tokens: Seq<Token>, section: Rule, i: int)
    requires
        0 <= i <= tokens.len(),
    ensures
        records_from(bytes, tokens, section, i) is Ok ==> i <= records_from(
            bytes,
            tokens,
            section,
            i,
        ).unwrap().1 <= tokens.len(),
    decreases tokens.len() - i,
{
    if i < tokens.len() && tokens[i].rule == record_rule(section) {
        lemma_record_at_bounds(bytes, tokens, section, i);
        if let Ok((r, next)) = record_at(bytes, tokens, section, i) {
            lemma_records_from_bounds(bytes, tokens, section, next);
        }
    }
}

/// A section that can be read takes spans that are there, and at least one.
proof fn lemma_section_at_bounds(bytes: Seq<u8>, tokens: Seq<Token>, i: int)
    requires
        0 <= i < tokens.len(),
    ensures
        section_at(bytes, tokens, i) is Ok ==> i < section_at(bytes, tokens, i).unwrap().1
            <= tokens.len(),
{
    lemma_records_from_bounds(bytes, tokens, Rule::xvistations, i + 1);
    lemma_records_from_bounds(bytes, tokens, Rule::xvishots, i + 1);
    lemma_records_from_bounds(bytes, tokens, Rule::xvisketchlines, i + 1);
}

/// The lists that the reducer fills.
struct Lists {
    stations: Vec<Station>,
    shots: Vec<Shot>,
    sketchlines: Vec<Sketchline>,
}

impl Lists {
    spec fn contents(&self) -> Contents {
        Contents {
            stations: station_views(self.stations@),
            shots: self.shots@,
            sketchlines: sketchline_views(self.sketchlines@),
        }
    }
}

proof fn lemma_extended_extended(
    a: Seq<Coordinate>,
    b: Seq<Coordinate>,
    rest: Read<Seq<Coordinate>>,
)
    ensures
        extended(a, extended(b, rest)) == extended(a + b, rest),
{
    if let Ok((t, n)) = rest {
        assert(a + (b + t) =~= (a + b) + t);
    }
}

proof fn lemma_join_assoc(a: Contents, b: Contents, c: Contents)
    ensures
        a.join(b.join(c)) == a.join(b).join(c),
{
    assert(a.stations + (b.stations + c.stations) =~= (a.stations + b.stations) + c.stations);
    assert(a.shots + (b.shots + c.shots) =~= (a.shots + b.shots) + c.shots);
    assert(a.sketchlines + (b.sketchlines + c.sketchlines) =~= (a.sketchlines + b.sketchlines)
        + c.sketchlines);
}

proof fn lemma_join_empty(a: Contents)
    ensures
        a.join(Contents::empty()) == a,
        Contents::empty().join(a) == a,
{
    assert(a.stations + Seq::<StationView>::empty() =~= a.stations);
    assert(a.shots + Seq::<Shot>::empty() =~= a.shots);
    assert(a.sketchlines + Seq::<SketchlineView>::empty() =~= a.sketchlines);
    assert(Seq::<StationView>::empty() + a.stations =~= a.stations);
    assert(Seq::<Shot>::empty() + a.shots =~= a.shots);
    assert(Seq::<SketchlineView>::empty() + a.sketchlines =~= a.sketchlines);
}

fn read_number(bytes: &[u8], tokens: &Vec<Token>, i: usize) -> (r: Result<Decimal, DecodeFault>)
    ensures
        r == number_at(bytes@, tokens@, i as int),
{
    if i >= tokens.len() {
        return Err(DecodeFault::Shape);
    }
    let t = tokens[i];
    match t.rule {
        Rule::NUMBER => {},
        _ => {
            return Err(DecodeFault::Shape);
        },
    }
    if t.start > t.end || t.end > bytes.len() {
        return Err(DecodeFault::Shape);
    }
    match decode_number(slice_subrange(bytes, t.start, t.end)) {
        Some(d) => Ok(d),
        None => Err(DecodeFault::Number),
    }
}

fn read_integer(bytes: &[u8], tokens: &Vec<Token>, i: usize) -> (r: Result<i32, DecodeFault>)
    ensures
        r == integer_at(bytes@, tokens@, i as int),
{
    if i >= tokens.len() {
        return Err(DecodeFault::Shape);
    }
    let t = tokens[i];
    match t.rule {
        Rule::NUMBER => {},
        _ => {
            return Err(DecodeFault::Shape);
        },
    }
    if t.start > t.end || t.end > bytes.len() {
        return Err(DecodeFault::Shape);
    }
    match decode_integer(slice_subrange(bytes, t.start, t.end)) {
        Some(n) => Ok(n),
        None => Err(DecodeFault::Number),
    }
}

fn read_coordinate(bytes: &[u8], tokens: &Vec<Token>, i: usize) -> (r: Result<
    Coordinate,
    DecodeFault,
>)
    ensures
        r == coordinate_at(bytes@, tokens@, i as int),
        r is Ok ==> i + 3 <= tokens.len(),
{
    if i >= tokens.len() {
        return Err(DecodeFault::Shape);
    }
    match tokens[i].rule {
        Rule::COORDINATE => {},
        _ => {
            return Err(DecodeFault::Shape);
        },
    }
    let x = match read_number(bytes, tokens, i + 1) {
        Ok(x) => x,
        Err(e) => {
            return Err(e);
        },
    };
    let y = match read_number(bytes, tokens, i + 2) {
        Ok(y) => y,
        Err(e) => {
            return Err(e);
        },
    };
    Ok(Coordinate { x, y })
}

fn read_word(text: &str, tokens: &Vec<Token>, i: usize, rule: Rule) -> (r: Result<
    String,
    DecodeFault,
>)
    ensures
        match word_at(text.spec_bytes(), tokens@, i as int, rule) {
            Ok(w) => r is Ok && r.unwrap()@ == w,
            Err(e) => r is Err && r.unwrap_err() == e,
        },
{
    broadcast use {vstd::utf8::encode_utf8_decode_utf8, vstd::utf8::encode_utf8_valid_utf8};

    if i >= tokens.len() {
        return Err(DecodeFault::Shape);
    }
    let t = tokens[i];
    if !(t.rule == rule) || t.start > t.end || t.end > text.as_bytes().len() {
        return Err(DecodeFault::Shape);
    }
    if !text.is_char_boundary(t.end) {
        return Err(DecodeFault::Shape);
    }
    let (head, _) = text.split_at(t.end);
    if !head.is_char_boundary(t.start) {
        return Err(DecodeFault::Shape);
    }
    let (_, word) = head.split_at(t.start);
    proof {
        let bytes = text.spec_bytes();
        assert(word.spec_bytes() =~= text_of(bytes, t));
        assert(decode_utf8(word.spec_bytes()) == word@);
    }
    Ok(word.to_owned())
}

fn read_station(text: &str, bytes: &[u8], tokens: &Vec<Token>, i: usize) -> (r: Result<
    Station,
    DecodeFault,
>)
    requires
        bytes@ == text.spec_bytes(),
        i < tokens.len(),
    ensures
        match station_at(bytes@, tokens@, i as int) {
            Ok(s) => r is Ok && r.unwrap()@ == s,
            Err(e) => r is Err && r.unwrap_err() == e,
        },
        r is Ok ==> i + 5 <= tokens.len(),
{
    let pos = match read_coordinate(bytes, tokens, i + 1) {
        Ok(c) => c,
        Err(e) => {
            return Err(e);
        },
    };
    let name = match read_word(text, tokens, i + 4, Rule::NAME) {
        Ok(w) => w,
        Err(e) => {
            return Err(e);
        },
    };
    Ok(Station { pos, name })
}

fn read_shot(bytes: &[u8], tokens: &Vec<Token>, i: usize) -> (r: Result<Shot, DecodeFault>)
    requires
        i < tokens.len(),
    ensures
        r == shot_at(bytes@, tokens@, i as int),
        r is Ok ==> i + 7 <= tokens.len(),
{
    let start = match read_coordinate(bytes, tokens, i + 1) {
        Ok(c) => c,
        Err(e) => {
            return Err(e);
        },
    };
    let end = match read_coordinate(bytes, tokens, i + 4) {
        Ok(c) => c,
        Err(e) => {
            return Err(e);
        },
    };
    Ok(Shot { start, end })
}

fn read_points(bytes: &[u8], tokens: &Vec<Token>, i: usize) -> (r: Result<
    (Vec<Coordinate>, usize),
    DecodeFault,
>)
    requires
        i <= tokens.len(),
    ensures
        match points_from(bytes@, tokens@, i as int) {
            Ok((points, next)) => r is Ok && r.unwrap().0@ == points && r.unwrap().1 == next,
            Err(e) => r is Err && r.unwrap_err() == e,
        },
        r is Ok ==> i <= r.unwrap().1 <= tokens.len(),
{
    let mut points: Vec<Coordinate> = Vec::new();
    let mut p: usize = i;
    proof {
        if let Ok((t, n)) = points_from(bytes@, tokens@, i as int) {
            assert(points@ + t =~= t);
        }
    }
    while p < tokens.len() && tokens[p].rule == Rule::COORDINATE
        invariant
            i <= p <= tokens.len(),
            points_from(bytes@, tokens@, i as int) == extended(
                points@,
                points_from(bytes@, tokens@, p as int),
            ),
        decreases tokens.len() - p,
    {
        match read_coordinate(bytes, tokens, p) {
            Ok(c) => {
                proof {
                    lemma_extended_extended(
                        points@,
                        seq![c],
                        points_from(bytes@, tokens@, p + 3),
                    );
                    assert(points@.push(c) =~= points@ + seq![c]);
                }
                points.push(c);
                p += 3;
            },
            Err(e) => {
                return Err(e);
            },
        }
    }
    proof {
        assert(points@ + Seq::<Coordinate>::empty() =~= points@);
    }
    Ok((points, p))
}

fn read_sketchline(text: &str, bytes: &[u8], tokens: &Vec<Token>, i: usize) -> (r: Result<
    (Sketchline, usize),
    DecodeFault,
>)
    requires
        bytes@ == text.spec_bytes(),
        i < tokens.len(),
    ensures
        match sketchline_at(bytes@, tokens@, i as int) {
            Ok((l, next)) => r is Ok && r.unwrap().0@ == l && r.unwrap().1 == next,
            Err(e) => r is Err && r.unwrap_err() == e,
        },
        r is Ok ==> i < r.unwrap().1 <= tokens.len(),
{
    let color = match read_word(text, tokens, i + 1, Rule::COLOR) {
        Ok(w) => w,
        Err(e) => {
            return Err(e);
        },
    };
    let (points, next) = match read_points(bytes, tokens, i + 2) {
        Ok(found) => found,
        Err(e) => {
            return Err(e);
        },
    };
    Ok((Sketchline { color, points }, next))
}

fn read_record(
    text: &str,
    bytes: &[u8],
    tokens: &Vec<Token>,
    section: Rule,
    i: usize,
    lists: &mut Lists,
) -> (r: Result<usize, DecodeFault>)
    requires
        bytes@ == text.spec_bytes(),
        i < tokens.len(),
    ensures
        match record_at(bytes@, tokens@, section, i as int) {
            Ok((c, next)) => r is Ok && r.unwrap() == next && final(lists).contents() == old(
                lists,
            ).contents().join(c),
            Err(e) => r is Err && r.unwrap_err() == e,
        },
        r is Ok ==> i < r.unwrap() <= tokens.len(),
{
    match section {
        Rule::xvistations => match read_station(text, bytes, tokens, i) {
            Ok(s) => {
                proof {
                    assert(station_views(lists.stations@.push(s)) =~= station_views(
                        lists.stations@,
                    ) + seq![s@]);
                    assert(lists.shots@ + Seq::<Shot>::empty() =~= lists.shots@);
                    assert(sketchline_views(lists.sketchlines@) + Seq::<SketchlineView>::empty()
                        =~= sketchline_views(lists.sketchlines@));
                }
                lists.stations.push(s);
                Ok(i + 5)
            },
            Err(e) => Err(e),
        },
        Rule::xvishots => match read_shot(bytes, tokens, i) {
            Ok(s) => {
                proof {
                    assert(lists.shots@.push(s) =~= lists.shots@ + seq![s]);
                    assert(station_views(lists.stations@) + Seq::<StationView>::empty()
                        =~= station_views(lists.stations@));
                    assert(sketchline_views(lists.sketchlines@) + Seq::<SketchlineView>::empty()
                        =~= sketchline_views(lists.sketchlines@));
                }
                lists.shots.push(s);
                Ok(i + 7)
            },
            Err(e) => Err(e),
        },
        _ => match read_sketchline(text, bytes, tokens, i) {
            Ok((l, next)) => {
                proof {
                    assert(sketchline_views(lists.sketchlines@.push(l)) =~= sketchline_views(
                        lists.sketchlines@,
                    ) + seq![l@]);
                    assert(station_views(lists.stations@) + Seq::<StationView>::empty()
                        =~= station_views(lists.stations@));
                    assert(lists.shots@ + Seq::<Shot>::empty() =~= lists.shots@);
                }
                lists.sketchlines.push(l);
                Ok(next)
            },
            Err(e) => Err(e),
        },
    }
}

fn is_record_of(rule: Rule, section: Rule) -> (r: bool)
    ensures
        r == (rule == record_rule(section)),
{
    match section {
        Rule::xvistations => rule == Rule::station,
        Rule::xvishots => rule == Rule::shot,
        _ => rule == Rule::scetchline,
    }
}

fn read_records(
    text: &str,
    bytes: &[u8],
    tokens: &Vec<Token>,
    section: Rule,
    i: usize,
    lists: &mut Lists,
) -> (r: Result<usize, DecodeFault>)
    requires
        bytes@ == text.spec_bytes(),
        i <= tokens.len(),
    ensures
        match records_from(bytes@, tokens@, section, i as int) {
            Ok((c, next)) => r is Ok && r.unwrap() == next && final(lists).contents() == old(
                lists,
            ).contents().join(c),
            Err(e) => r is Err && r.unwrap_err() == e,
        },
        r is Ok ==> i <= r.unwrap() <= tokens.len(),
{
    let ghost before = lists.contents();
    let ghost mut added = Contents::empty();
    let mut p: usize = i;
    proof {
        lemma_join_empty(before);
        if let Ok((c, n)) = records_from(bytes@, tokens@, section, i as int) {
            lemma_join_empty(c);
        }
    }
    while p < tokens.len() && is_record_of(tokens[p].rule, section)
        invariant
            bytes@ == text.spec_bytes(),
            i <= p <= tokens.len(),
            lists.contents() == before.join(added),
            records_from(bytes@, tokens@, section, i as int) == joined(
                added,
                records_from(bytes@, tokens@, section, p as int),
            ),
        decreases tokens.len() - p,
    {
        match read_record(text, bytes, tokens, section, p, lists) {
            Ok(next) => {
                proof {
                    let c = record_at(bytes@, tokens@, section, p as int).unwrap().0;
                    lemma_join_assoc(before, added, c);
                    if let Ok((rest, n)) = records_from(bytes@, tokens@, section, next as int) {
                        lemma_join_assoc(added, c, rest);
                    }
                    added = added.join(c);
                }
                p = next;
            },
            Err(e) => {
                return Err(e);
            },
        }
    }
    proof {
        lemma_join_empty(added);
    }
    Ok(p)
}

/// Reads the spacing of the background grid from the spans behind the
/// `xvigrids` span at `i`.
pub fn grid_spacing(text: &str, tokens: &Vec<Token>, i: usize) -> (r: Result<
    Decimal,
    DecodeFault,
>)
    ensures
        r == grid_spacing_at(text.spec_bytes(), tokens@, i as int),
{
    if i >= tokens.len() {
        return Err(DecodeFault::Shape);
    }
    read_number(text.as_bytes(), tokens, i + 1)
}

/// Reads the geometry of the background grid from the spans behind the
/// `xvigrid` span at `i`.
pub fn grid_geometry(text: &str, tokens: &Vec<Token>, i: usize) -> (r: Result<
    GridGeometry,
    DecodeFault,
>)
    ensures
        r == grid_geometry_at(text.spec_bytes(), tokens@, i as int),
        r is Ok ==> i + 10 <= tokens.len(),
{
    if i >= tokens.len() {
        return Err(DecodeFault::Shape);
    }
    let bytes = text.as_bytes();
    let origin = match read_coordinate(bytes, tokens, i + 1) {
        Ok(c) => c,
        Err(e) => {
            return Err(e);
        },
    };
    let gridsize1 = match read_number(bytes, tokens, i + 4) {
        Ok(n) => n,
        Err(e) => {
            return Err(e);
        },
    };
    let unknown1 = match read_number(bytes, tokens, i + 5) {
        Ok(n) => n,
        Err(e) => {
            return Err(e);
        },
    };
    let unknown2 = match read_number(bytes, tokens, i + 6) {
        Ok(n) => n,
        Err(e) => {
            return Err(e);
        },
    };
    let gridsize2 = match read_number(bytes, tokens, i + 7) {
        Ok(n) => n,
        Err(e) => {
            return Err(e);
        },
    };
    let extent_x = match read_integer(bytes, tokens, i + 8) {
        Ok(n) => n,
        Err(e) => {
            return Err(e);
        },
    };
    let extent_y = match read_integer(bytes, tokens, i + 9) {
        Ok(n) => n,
        Err(e) => {
            return Err(e);
        },
    };
    Ok(GridGeometry { origin, gridsize1, unknown1, unknown2, gridsize2, extent_x, extent_y })
}

proof fn lemma_sections_from_step(bytes: Seq<u8>, tokens: Seq<Token>, p: int, added: Contents)
    requires
        0 <= p < tokens.len(),
        tokens[p].rule != Rule::EOI,
    ensures
        match section_at(bytes, tokens, p) {
            Ok((c, next)) => preceded(added, sections_from(bytes, tokens, p)) == preceded(
                added.join(c),
                sections_from(bytes, tokens, next),
            ),
            Err(e) => sections_from(bytes, tokens, p) == Err::<Contents, DecodeFault>(e),
        },
{
    if let Ok((c, next)) = section_at(bytes, tokens, p) {
        if let Ok(rest) = sections_from(bytes, tokens, next) {
            lemma_join_assoc(added, c, rest);
        }
    }
}

fn is_end(rule: Rule) -> (r: bool)
    ensures
        r == (rule == Rule::EOI),
{
    match rule {
        Rule::EOI => true,
        _ => false,
    }
}

fn read_section(text: &str, bytes: &[u8], tokens: &Vec<Token>, i: usize, lists: &mut Lists) -> (r:
    Result<usize, DecodeFault>)
    requires
        bytes@ == text.spec_bytes(),
        i < tokens.len(),
    ensures
        match section_at(bytes@, tokens@, i as int) {
            Ok((c, next)) => r is Ok && r.unwrap() == next && final(lists).contents() == old(
                lists,
            ).contents().join(c),
            Err(e) => r is Err && r.unwrap_err() == e,
        },
        r is Ok ==> i < r.unwrap() <= tokens.len(),
{
    proof {
        lemma_join_empty(lists.contents());
    }
    match tokens[i].rule {
        Rule::xvigrids => match grid_spacing(text, tokens, i) {
            Ok(_) => Ok(i + 2),
            Err(e) => Err(e),
        },
        Rule::xvigrid => match grid_geometry(text, tokens, i) {
            Ok(_) => Ok(i + 10),
            Err(e) => Err(e),
        },
        Rule::xvistations => read_records(text, bytes, tokens, Rule::xvistations, i + 1, lists),
        Rule::xvishots => read_records(text, bytes, tokens, Rule::xvishots, i + 1, lists),
        Rule::xvisketchlines => read_records(
            text,
            bytes,
            tokens,
            Rule::xvisketchlines,
            i + 1,
            lists,
        ),
        _ => Err(DecodeFault::Shape),
    }
}

fn read_sections(text: &str, bytes: &[u8], tokens: &Vec<Token>, lists: &mut Lists) -> (r: Result<
    (),
    DecodeFault,
>)
    requires
        bytes@ == text.spec_bytes(),
        1 <= tokens.len(),
    ensures
        match sections_from(bytes@, tokens@, 1) {
            Ok(c) => r is Ok && final(lists).contents() == old(lists).contents().join(c),
            Err(e) => r is Err && r.unwrap_err() == e,
        },
{
    let ghost before = lists.contents();
    let ghost mut added = Contents::empty();
    let mut p: usize = 1;
    proof {
        lemma_join_empty(before);
        if let Ok(c) = sections_from(bytes@, tokens@, 1) {
            lemma_join_empty(c);
        }
    }
    while p < tokens.len() && !is_end(tokens[p].rule)
        invariant
            bytes@ == text.spec_bytes(),
            1 <= p <= tokens.len(),
            lists.contents() == before.join(added),
            sections_from(bytes@, tokens@, 1) == preceded(
                added,
                sections_from(bytes@, tokens@, p as int),
            ),
        decreases tokens.len() - p,
    {
        proof {
            lemma_sections_from_step(bytes@, tokens@, p as int, added);
        }
        match read_section(text, bytes, tokens, p, lists) {
            Ok(next) => {
                proof {
                    let c = section_at(bytes@, tokens@, p as int).unwrap().0;
                    lemma_join_assoc(before, added, c);
                    added = added.join(c);
                }
                p = next;
            },
            Err(e) => {
                return Err(e);
            },
        }
    }
    proof {
        lemma_join_empty(added);
    }
    Ok(())
}

/// Folds the spans `tokens` over `text` into a drawing.
///
/// The first span has to be `file`. Each span behind it opens a section,
/// whose stations, shots and sketch lines are added to the drawing in their
/// order, until the `EOI` span or the last span. The two sections on the
/// background grid are decoded and add nothing, and the origin of the grid
/// is no coordinate of the drawing. The result is a fault where the spans
/// are not laid out so, or where a number cannot be held.
pub fn reduce(text: &str, tokens: &Vec<Token>) -> (r: Result<Xvi, DecodeFault>)
    ensures
        match reduction(text.spec_bytes(), tokens@) {
            Ok(c) => r is Ok && r.unwrap().contents() == c && r.unwrap().bounded(),
            Err(e) => r is Err && r.unwrap_err() == e,
        },
{
    if tokens.len() == 0 {
        return Err(DecodeFault::Shape);
    }
    match tokens[0].rule {
        Rule::file => {},
        _ => {
            return Err(DecodeFault::Shape);
        },
    }
    let mut lists = Lists { stations: Vec::new(), shots: Vec::new(), sketchlines: Vec::new() };
    proof {
        assert(lists.contents().stations =~= Contents::empty().stations);
        assert(lists.contents().sketchlines =~= Contents::empty().sketchlines);
        if let Ok(c) = sections_from(text.spec_bytes(), tokens@, 1) {
            lemma_join_empty(c);
        }
    }
    match read_sections(text, text.as_bytes(), tokens, &mut lists) {
        Ok(()) => {},
        Err(e) => {
            return Err(e);
        },
    }
    Ok(Xvi::new(lists.stations, lists.shots, lists.sketchlines))
}

} // verus!
