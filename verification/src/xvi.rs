//! Drawings: what they hold, and how a text is decoded into one.

use vstd::prelude::*;
use vstd::string::StringSliceAdditionalSpecFns;
use vstd::utf8::encode_utf8;
use crate::agreement::theorem_fault_is_a_number;
use crate::bounds::{bounding_box, fits, BoundingBox, Coordinate};
use crate::grammar::{file, matched};
use crate::parser::recognise;
use crate::reduce::{reduce, reduction, DecodeFault};
use crate::token::{Rule, SyntaxError, Token};

verus! {

/// A fixed named position from which measurements are taken.
#[derive(Clone, Debug, PartialEq, Eq)]
pub struct Station {
    pub pos: Coordinate,
    pub name: String,
}

/// A measurement from a station to another station or to a wall.
#[derive(Clone, Copy, Debug, PartialEq, Eq, Structural)]
pub struct Shot {
    pub start: Coordinate,
    pub end: Coordinate,
}

/// A polyline in a certain colour, drawn by hand during the survey.
#[derive(Clone, Debug, PartialEq, Eq)]
pub struct Sketchline {
    pub color: String,
    pub points: Vec<Coordinate>,
}

/// A station as a value: its name is a sequence of characters.
pub struct StationView {
    pub pos: Coordinate,
    pub name: Seq<char>,
}

/// A sketch line as a value: its colour is a sequence of characters, its
/// points a sequence of coordinates.
pub struct SketchlineView {
    pub color: Seq<char>,
    pub points: Seq<Coordinate>,
}

impl View for Station {
    type V = StationView;

    open spec fn view(&self) -> StationView {
        StationView { pos: self.pos, name: self.name@ }
    }
}

impl View for Sketchline {
    type V = SketchlineView;

    open spec fn view(&self) -> SketchlineView {
        SketchlineView { color: self.color@, points: self.points@ }
    }
}

/// The stations, shots and sketch lines of a drawing, each kind in the order
/// of the text.
pub struct Contents {
    pub stations: Seq<StationView>,
    pub shots: Seq<Shot>,
    pub sketchlines: Seq<SketchlineView>,
}

/// The positions of `stations`, in their order.
pub open spec fn station_points(stations: Seq<StationView>) -> Seq<Coordinate>
    decreases stations.len(),
{
    if stations.len() == 0 {
        Seq::empty()
    } else {
        station_points(stations.drop_last()).push(stations.last().pos)
    }
}

/// The two ends of each of `shots`, in their order.
pub open spec fn shot_points(shots: Seq<Shot>) -> Seq<Coordinate>
    decreases shots.len(),
{
    if shots.len() == 0 {
        Seq::empty()
    } else {
        shot_points(shots.drop_last()).push(shots.last().start).push(shots.last().end)
    }
}

/// The points of each of `sketchlines`, in their order.
pub open spec fn sketchline_points(sketchlines: Seq<SketchlineView>) -> Seq<Coordinate>
    decreases sketchlines.len(),
{
    if sketchlines.len() == 0 {
        Seq::empty()
    } else {
        sketchline_points(sketchlines.drop_last()) + sketchlines.last().points
    }
}

impl Contents {
    /// A drawing that holds nothing.
    pub open spec fn empty() -> Contents {
        Contents { stations: Seq::empty(), shots: Seq::empty(), sketchlines: Seq::empty() }
    }

    /// What `self` holds, followed kind by kind by what `other` holds.
    pub open spec fn join(self, other: Contents) -> Contents {
        Contents {
            stations: self.stations + other.stations,
            shots: self.shots + other.shots,
            sketchlines: self.sketchlines + other.sketchlines,
        }
    }

    /// Every coordinate of the drawing: the positions of the stations, the
    /// ends of the shots and the points of the sketch lines.
    pub open spec fn points(self) -> Seq<Coordinate> {
        station_points(self.stations) + shot_points(self.shots) + sketchline_points(
            self.sketchlines,
        )
    }
}

/// The stations of a list as values.
pub open spec fn station_views(stations: Seq<Station>) -> Seq<StationView> {
    stations.map_values(|s: Station| s@)
}

/// The sketch lines of a list as values.
pub open spec fn sketchline_views(sketchlines: Seq<Sketchline>) -> Seq<SketchlineView> {
    sketchlines.map_values(|l: Sketchline| l@)
}

/// A decoded drawing.
#[derive(Clone, Debug, PartialEq, Eq)]
pub struct Xvi {
    pub stations: Vec<Station>,
    pub shots: Vec<Shot>,
    pub sketchlines: Vec<Sketchline>,
    /// The least box that holds every coordinate of the drawing; `None`
    /// where the drawing holds no coordinate.
    pub bounds: Option<BoundingBox>,
}

impl Xvi {
    /// What the drawing holds, as values.
    pub open spec fn contents(&self) -> Contents {
        Contents {
            stations: station_views(self.stations@),
            shots: self.shots@,
            sketchlines: sketchline_views(self.sketchlines@),
        }
    }

    /// Whether `bounds` is what bounds the coordinates of the drawing.
    pub open spec fn bounded(&self) -> bool {
        fits(self.bounds, self.contents().points())
    }

    /// The drawing that holds the given stations, shots and sketch lines, with
    /// the box that bounds them.
    pub fn new(stations: Vec<Station>, shots: Vec<Shot>, sketchlines: Vec<Sketchline>) -> (r: Xvi)
        ensures
            r.stations == stations,
            r.shots == shots,
            r.sketchlines == sketchlines,
            r.bounded(),
    {
        let mut seen: Vec<Coordinate> = Vec::new();
        let mut i: usize = 0;
        while i < stations.len()
            invariant
                i <= stations.len(),
                seen@ == station_points(station_views(stations@).take(i as int)),
            decreases stations.len() - i,
        {
            proof {
                let next = station_views(stations@).take(i + 1);
                assert(next.drop_last() =~= station_views(stations@).take(i as int));
            }
            seen.push(stations[i].pos);
            i += 1;
        }
        proof {
            assert(station_views(stations@).take(i as int) =~= station_views(stations@));
        }
        let ghost from_stations = seen@;
        let mut i: usize = 0;
        while i < shots.len()
            invariant
                i <= shots.len(),
                seen@ == from_stations + shot_points(shots@.take(i as int)),
            decreases shots.len() - i,
        {
            proof {
                let next = shots@.take(i + 1);
                assert(next.drop_last() =~= shots@.take(i as int));
                let before = shot_points(shots@.take(i as int));
                assert(from_stations + before.push(next.last().start).push(next.last().end)
                    =~= (from_stations + before).push(next.last().start).push(next.last().end));
            }
            seen.push(shots[i].start);
            seen.push(shots[i].end);
            i += 1;
        }
        proof {
            assert(shots@.take(i as int) =~= shots@);
        }
        let ghost from_shots = seen@;
        let mut i: usize = 0;
        while i < sketchlines.len()
            invariant
                i <= sketchlines.len(),
                seen@ == from_shots + sketchline_points(
                    sketchline_views(sketchlines@).take(i as int),
                ),
            decreases sketchlines.len() - i,
        {
            let ghost before = seen@;
            let line = &sketchlines[i];
            let mut k: usize = 0;
            while k < line.points.len()
                invariant
                    k <= line.points.len(),
                    seen@ == before + line.points@.take(k as int),
                decreases line.points.len() - k,
            {
                proof {
                    assert(line.points@.take(k + 1) =~= line.points@.take(k as int).push(
                        line.points@[k as int],
                    ));
                }
                seen.push(line.points[k]);
                k += 1;
            }
            proof {
                assert(line.points@.take(k as int) =~= line.points@);
                let next = sketchline_views(sketchlines@).take(i + 1);
                assert(next.drop_last() =~= sketchline_views(sketchlines@).take(i as int));
                assert(next.last().points == line.points@);
                let lines = sketchline_points(sketchline_views(sketchlines@).take(i as int));
                assert(from_shots + (lines + line.points@) =~= (from_shots + lines)
                    + line.points@);
            }
            i += 1;
        }
        proof {
            assert(sketchline_views(sketchlines@).take(i as int) =~= sketchline_views(
                sketchlines@,
            ));
        }
        let bounds = bounding_box(&seen);
        Xvi { stations, shots, sketchlines, bounds }
    }
}

/// The grammar of the format, to be run over a text.
pub struct XVIParser;

impl XVIParser {
    /// Matches `rule` at the start of `input` and hands back the spans that it
    /// found, each rule's own span before those that it holds. Every rule but
    /// `file` may leave text behind it; `file` takes the whole text. Where
    /// `input` does not match, the result is the first mismatch.
    pub fn parse(rule: Rule, input: &str) -> (r: Result<Vec<Token>, SyntaxError>)
        ensures
            match matched(rule, input.spec_bytes()) {
                Ok((tokens, end)) => r is Ok && r.unwrap()@ == tokens,
                Err(e) => r is Err && r.unwrap_err() == e,
            },
    {
        match recognise(rule, input.as_bytes()) {
            Ok((tokens, _)) => Ok(tokens),
            Err(e) => Err(e),
        }
    }
}

/// Why a text could not be decoded.
#[derive(Clone, Copy, Debug, PartialEq, Eq, Structural)]
pub enum XviError {
    /// The text does not match the grammar.
    Syntax(SyntaxError),
    /// The text matches the grammar and could still not be folded into a
    /// drawing.
    Decode(DecodeFault),
}

/// What the text `bytes` decodes to: what the drawing holds, where the text
/// is a file of the format whose numbers can be held.
pub open spec fn decoded(bytes: Seq<u8>) -> Result<Contents, XviError> {
    match file(bytes) {
        Ok((tokens, end)) => match reduction(bytes, tokens) {
            Ok(c) => Ok(c),
            Err(e) => Err(XviError::Decode(e)),
        },
        Err(e) => Err(XviError::Syntax(e)),
    }
}

/// Whether `r` is a decoding of the text `bytes`: the error that the text
/// has, or a drawing that holds what the text writes, with the box that
/// bounds it.
pub open spec fn decodes(r: Result<Xvi, XviError>, bytes: Seq<u8>) -> bool {
    match decoded(bytes) {
        Ok(c) => r is Ok && r.unwrap().contents() == c && r.unwrap().bounded(),
        Err(e) => r is Err && r.unwrap_err() == e,
    }
}

fn decode(text: &str) -> (r: Result<Xvi, XviError>)
    ensures
        decodes(r, text.spec_bytes()),
{
    let tokens = match XVIParser::parse(Rule::file, text) {
        Ok(tokens) => tokens,
        Err(e) => {
            return Err(XviError::Syntax(e));
        },
    };
    match reduce(text, &tokens) {
        Ok(xvi) => Ok(xvi),
        Err(e) => Err(XviError::Decode(e)),
    }
}

/// Decodes the text of an XVI file.
///
/// A text that does not match the grammar gives the first mismatch and no
/// drawing. A text that matches gives a drawing, unless it holds a number
/// that cannot be held. A text without any coordinate gives a drawing
/// without a box.
pub fn parse_str(text: &str) -> (r: Result<Xvi, XviError>)
    ensures
        decodes(r, text.spec_bytes()),
        r is Err ==> r.unwrap_err() is Syntax || r.unwrap_err() == XviError::Decode(
            DecodeFault::Number,
        ),
{
    let r = decode(text);
    let length = text.as_bytes().len();
    proof {
        vstd::utf8::encode_utf8_valid_utf8(text@);
        assert(text.spec_bytes().len() == length);
        theorem_fault_is_a_number(text.spec_bytes(), r);
    }
    r
}

/// Takes the contents of an XVI file and decodes them, as [`parse_str`] does.
pub fn parse_string(unparsed_file: String) -> (r: Result<Xvi, XviError>)
    ensures
        decodes(r, encode_utf8(unparsed_file@)),
        r is Err ==> r.unwrap_err() is Syntax || r.unwrap_err() == XviError::Decode(
            DecodeFault::Number,
        ),
{
    parse_str(unparsed_file.as_str())
}

} // verus!
