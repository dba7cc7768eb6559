//! What the grammar hands on: typed spans over the text, and the place where
//! a text stops matching.

use vstd::prelude::*;

verus! {

/// The rules of the grammar. Those written in capitals are lexical: their
/// spans hold no further spans.
#[allow(non_camel_case_types)]
#[derive(Clone, Copy, Debug, PartialEq, Eq, Structural)]
pub enum Rule {
    /// A number: an optional minus, digits, and optionally a point and more
    /// digits.
    NUMBER,
    /// Two numbers with white space between them.
    COORDINATE,
    /// The name of a station, a bare word.
    NAME,
    /// The colour of a sketch line, a bare word.
    COLOR,
    /// A station: a coordinate and a name, in braces.
    station,
    /// A shot: two coordinates, in braces.
    shot,
    /// A sketch line: a colour and two or more coordinates, in braces.
    scetchline,
    /// The section that gives the spacing of the background grid.
    xvigrids,
    /// The section that gives the geometry of the background grid.
    xvigrid,
    /// The section that lists the stations.
    xvistations,
    /// The section that lists the shots.
    xvishots,
    /// The section that lists the sketch lines.
    xvisketchlines,
    /// A whole file: any number of sections and then the end of the text.
    file,
    /// The end of the text.
    EOI,
}

/// A span of the text that a rule has matched, from the byte at `start` up to
/// but not including the byte at `end`.
#[derive(Clone, Copy, Debug, PartialEq, Eq, Structural)]
pub struct Token {
    pub rule: Rule,
    pub start: usize,
    pub end: usize,
}

/// What the grammar looked for at the place where the text stopped matching.
#[derive(Clone, Copy, Debug, PartialEq, Eq, Structural)]
pub enum Expected {
    /// A number.
    Number,
    /// The name of a station.
    Name,
    /// The colour of a sketch line.
    Color,
    /// White space that parts two items.
    Space,
    /// The brace that opens a section or a record.
    OpenBrace,
    /// The brace that closes a section or a record.
    CloseBrace,
    /// The keyword of a section.
    Keyword,
    /// The end of the text.
    EndOfInput,
}

/// The text does not match the grammar: at `offset` the grammar looked for
/// `expected` and the text holds something else.
#[derive(Clone, Copy, Debug, PartialEq, Eq, Structural)]
pub struct SyntaxError {
    pub offset: usize,
    pub expected: Expected,
}

} // verus!
