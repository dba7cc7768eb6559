//! Decoder for XVI files, the background vector drawings that Therion and
//! xtherion exchange: stations, shots and coloured sketch lines, with the box
//! that bounds them.
//!
//! A text is first matched against the grammar ([`grammar`], run by
//! [`XVIParser`]), which yields a sequence of typed spans, and that sequence
//! is then folded into an [`Xvi`] ([`reduce()`]). [`parse_str`] does both.
//!
//! Numbers are kept as exact decimals with eighteen decimal places
//! ([`Decimal`]), not as floating point: a number of the drawing is what the
//! file writes, and two of them compare as they do on paper.

pub mod agreement;
pub mod bounds;
pub mod bytes;
pub mod decimal;
pub mod grammar;
pub mod nesting;
pub mod parser;
pub mod reduce;
pub mod theorems;
pub mod token;
pub mod xvi;

pub use crate::bounds::{bounding_box, BoundingBox, Coordinate};
pub use crate::decimal::{decode_integer, decode_number, Decimal};
pub use crate::reduce::{grid_geometry, grid_spacing, reduce, DecodeFault, GridGeometry};
pub use crate::token::{Expected, Rule, SyntaxError, Token};
pub use crate::xvi::{
    parse_str, parse_string, Shot, Sketchline, Station, XVIParser, Xvi, XviError,
};
