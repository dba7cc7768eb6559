//! The grammar of the format, as functions from a text and a place in it to
//! what the grammar finds there.
//!
//! Each rule either matches, with the spans it found and the place where it
//! stopped, or it does not, with the first place where the text is not what
//! the rule asks for. A rule that holds other rules lists its own span first
//! and then theirs, in the order of the text.

use vstd::prelude::*;
use vstd::string::StringSliceAdditionalSpecFns;
use crate::bytes::{lemma_run_end, run_end, ByteClass, CLOSE_BRACE, MINUS, OPEN_BRACE, POINT};
use crate::token::{Expected, Rule, SyntaxError, Token};

verus! {

/// What a rule finds at a place: the spans and the end of the match, or the
/// mismatch.
pub type Parsed = Result<(Seq<Token>, int), SyntaxError>;

/// The span of `rule` from `start` to `end`.
pub open spec fn token(rule: Rule, start: int, end: int) -> Token {
    Token { rule, start: start as usize, end: end as usize }
}

/// The mismatch at `offset`, where `expected` was looked for.
pub open spec fn mismatch(offset: int, expected: Expected) -> SyntaxError {
    SyntaxError { offset: offset as usize, expected }
}

/// The spans `head`, followed by what `rest` found.
pub open spec fn after(head: Seq<Token>, rest: Parsed) -> Parsed {
    match rest {
        Ok((tail, end)) => Ok((head + tail, end)),
        Err(e) => Err(e),
    }
}

/// The span of `rule` from `start` to where `inner` ended, around what
/// `inner` found.
pub open spec fn enclosed(rule: Rule, start: int, inner: Parsed) -> Parsed {
    match inner {
        Ok((tokens, end)) => Ok((seq![token(rule, start, end)] + tokens, end)),
        Err(e) => Err(e),
    }
}

/// Whether the byte `b` stands at `i`.
pub open spec fn has_byte(s: Seq<u8>, i: int, b: u8) -> bool {
    0 <= i < s.len() && s[i] == b
}

/// Whether the bytes `k` stand at `i`.
pub open spec fn has_bytes(s: Seq<u8>, i: int, k: Seq<u8>) -> bool {
    0 <= i && i + k.len() <= s.len() && s.subrange(i, i + k.len()) == k
}

/// The end of the number that starts at `i`; `i` itself where none does.
/// A minus needs a digit behind it, and so does a point: a point that no
/// digit follows is left where it is.
pub open spec fn number_end(s: Seq<u8>, i: int) -> int {
    let a = if has_byte(s, i, MINUS) {
        i + 1
    } else {
        i
    };
    let b = run_end(s, ByteClass::Digit, a);
    if b == a {
        i
    } else if has_byte(s, b, POINT) && run_end(s, ByteClass::Digit, b + 1) > b + 1 {
        run_end(s, ByteClass::Digit, b + 1)
    } else {
        b
    }
}

/// `NUMBER` at `i`.
pub open spec fn number(s: Seq<u8>, i: int) -> Parsed {
    if number_end(s, i) > i {
        Ok((seq![token(Rule::NUMBER, i, number_end(s, i))], number_end(s, i)))
    } else {
        Err(mismatch(i, Expected::Number))
    }
}

/// A bare word at `i`, as the span of `rule`: the longest run of bytes that
/// are neither white space nor braces, and at least one.
pub open spec fn word(s: Seq<u8>, rule: Rule, i: int) -> Parsed {
    if run_end(s, ByteClass::Word, i) > i {
        Ok((seq![token(rule, i, run_end(s, ByteClass::Word, i))], run_end(s, ByteClass::Word, i)))
    } else {
        Err(
            mismatch(
                i,
                if rule == Rule::COLOR {
                    Expected::Color
                } else {
                    Expected::Name
                },
            ),
        )
    }
}

/// White space at `i`, at least one byte of it, and then `NUMBER`.
pub open spec fn spaced_number(s: Seq<u8>, i: int) -> Parsed {
    if run_end(s, ByteClass::Space, i) > i {
        number(s, run_end(s, ByteClass::Space, i))
    } else {
        Err(mismatch(i, Expected::Space))
    }
}

/// `COORDINATE` at `i`: a number, white space, a number.
pub open spec fn coordinate(s: Seq<u8>, i: int) -> Parsed {
    match number(s, i) {
        Ok((x, e)) => enclosed(Rule::COORDINATE, i, after(x, spaced_number(s, e))),
        Err(e) => Err(e),
    }
}

/// White space at `i`, at least one byte of it, and then `COORDINATE`.
pub open spec fn spaced_coordinate(s: Seq<u8>, i: int) -> Parsed {
    if run_end(s, ByteClass::Space, i) > i {
        coordinate(s, run_end(s, ByteClass::Space, i))
    } else {
        Err(mismatch(i, Expected::Space))
    }
}

/// White space at `i`, at least one byte of it, and then a bare word.
pub open spec fn spaced_word(s: Seq<u8>, rule: Rule, i: int) -> Parsed {
    if run_end(s, ByteClass::Space, i) > i {
        word(s, rule, run_end(s, ByteClass::Space, i))
    } else {
        Err(mismatch(i, Expected::Space))
    }
}

/// `count` numbers from `i` on, with white space before each.
pub open spec fn spaced_numbers(s: Seq<u8>, i: int, count: nat) -> Parsed
    decreases count,
{
    if count == 0 {
        Ok((Seq::empty(), i))
    } else {
        match spaced_number(s, i) {
            Ok((n, e)) => after(n, spaced_numbers(s, e, (count - 1) as nat)),
            Err(e) => Err(e),
        }
    }
}

/// One or more coordinates from `i` on, with white space between them. After
/// a coordinate and white space, anything but a closing brace has to be
/// another coordinate.
pub open spec fn coordinates(s: Seq<u8>, i: int) -> Parsed
    decreases s.len() - i,
    via coordinates_decreases
{
    match coordinate(s, i) {
        Ok((c, e)) => {
            let p = run_end(s, ByteClass::Space, e);
            if e < p < s.len() && s[p] != CLOSE_BRACE {
                after(c, coordinates(s, p))
            } else {
                Ok((c, e))
            }
        },
        Err(e) => Err(e),
    }
}

#[via_fn]
proof fn coordinates_decreases(s: Seq<u8>, i: int) {
}

/// The end of a record or of a section: white space, if there is any, and
/// the closing brace. `tokens` and `e` are what was found before it.
pub open spec fn closed(s: Seq<u8>, tokens: Seq<Token>, e: int) -> Parsed {
    if has_byte(s, run_end(s, ByteClass::Space, e), CLOSE_BRACE) {
        Ok((tokens, run_end(s, ByteClass::Space, e) + 1))
    } else {
        Err(mismatch(run_end(s, ByteClass::Space, e), Expected::CloseBrace))
    }
}

/// `inner`, and then the end of a record or of a section.
pub open spec fn then_closed(s: Seq<u8>, inner: Parsed) -> Parsed {
    match inner {
        Ok((tokens, e)) => closed(s, tokens, e),
        Err(e) => Err(e),
    }
}

/// `station` at `i`: `{`, a coordinate, white space, a name, `}`.
pub open spec fn station(s: Seq<u8>, i: int) -> Parsed {
    if !has_byte(s, i, OPEN_BRACE) {
        Err(mismatch(i, Expected::OpenBrace))
    } else {
        match coordinate(s, run_end(s, ByteClass::Space, i + 1)) {
            Ok((pos, e)) => enclosed(
                Rule::station,
                i,
                then_closed(s, after(pos, spaced_word(s, Rule::NAME, e))),
            ),
            Err(e) => Err(e),
        }
    }
}

/// `shot` at `i`: `{`, a coordinate, white space, a coordinate, `}`.
pub open spec fn shot(s: Seq<u8>, i: int) -> Parsed {
    if !has_byte(s, i, OPEN_BRACE) {
        Err(mismatch(i, Expected::OpenBrace))
    } else {
        match coordinate(s, run_end(s, ByteClass::Space, i + 1)) {
            Ok((from, e)) => enclosed(
                Rule::shot,
                i,
                then_closed(s, after(from, spaced_coordinate(s, e))),
            ),
            Err(e) => Err(e),
        }
    }
}

/// What follows the colour of a sketch line that ends at `e`: white space
/// and a coordinate, then white space and one or more further coordinates.
pub open spec fn polyline(s: Seq<u8>, e: int) -> Parsed {
    match spaced_coordinate(s, e) {
        Ok((first, e1)) => if run_end(s, ByteClass::Space, e1) > e1 {
            after(first, coordinates(s, run_end(s, ByteClass::Space, e1)))
        } else {
            Err(mismatch(e1, Expected::Space))
        },
        Err(e) => Err(e),
    }
}

/// `scetchline` at `i`: `{`, a colour, two or more coordinates with white
/// space before each, `}`.
pub open spec fn scetchline(s: Seq<u8>, i: int) -> Parsed {
    if !has_byte(s, i, OPEN_BRACE) {
        Err(mismatch(i, Expected::OpenBrace))
    } else {
        match word(s, Rule::COLOR, run_end(s, ByteClass::Space, i + 1)) {
            Ok((color, e)) => enclosed(
                Rule::scetchline,
                i,
                then_closed(s, after(color, polyline(s, e))),
            ),
            Err(e) => Err(e),
        }
    }
}

/// The record that the list of `section` holds, at `i`.
pub open spec fn record(s: Seq<u8>, section: Rule, i: int) -> Parsed {
    match section {
        Rule::xvistations => station(s, i),
        Rule::xvishots => shot(s, i),
        _ => scetchline(s, i),
    }
}

/// The records of the list of `section` from `i` on, with any white space
/// behind each: as long as an opening brace stands there, a record has to.
/// The match ends where the next thing starts.
pub open spec fn records(s: Seq<u8>, section: Rule, i: int) -> Parsed
    decreases s.len() - i,
    via records_decreases
{
    if has_byte(s, i, OPEN_BRACE) {
        match record(s, section, i) {
            Ok((r, e)) => after(r, records(s, section, run_end(s, ByteClass::Space, e))),
            Err(e) => Err(e),
        }
    } else {
        Ok((Seq::empty(), i))
    }
}

#[via_fn]
proof fn records_decreases(s: Seq<u8>, section: Rule, i: int) {
    if has_byte(s, i, OPEN_BRACE) && record(s, section, i) is Ok {
        lemma_record_bounds(s, section, i);
        lemma_run_end(s, ByteClass::Space, record(s, section, i).unwrap().1);
    }
}

/// The keyword that opens the section `rule`.
pub open spec fn keyword(rule: Rule) -> Seq<u8> {
    match rule {
        Rule::xvigrids => "XVIgrids".spec_bytes(),
        Rule::xvigrid => "XVIgrid".spec_bytes(),
        Rule::xvistations => "XVIstations".spec_bytes(),
        Rule::xvishots => "XVIshots".spec_bytes(),
        _ => "XVIsketchlines".spec_bytes(),
    }
}

/// The body of the section `rule` from `p` on, up to its closing brace.
pub open spec fn body(s: Seq<u8>, rule: Rule, p: int) -> Parsed {
    match rule {
        Rule::xvigrids => match number(s, p) {
            Ok((value, e)) => Ok(
                (
                    value,
                    if run_end(s, ByteClass::Space, e) > e {
                        run_end(s, ByteClass::Word, run_end(s, ByteClass::Space, e))
                    } else {
                        e
                    },
                ),
            ),
            Err(e) => Err(e),
        },
        Rule::xvigrid => match coordinate(s, p) {
            Ok((origin, e)) => after(origin, spaced_numbers(s, e, 6)),
            Err(e) => Err(e),
        },
        _ => records(s, rule, p),
    }
}

/// The section `rule` at `i`: its keyword, `{`, its body, `}`, with white
/// space as one likes around the braces.
///
/// The body of `xvigrids` is a number and, after white space, optionally a
/// bare word for the unit, which gets no span. The body of `xvigrid` is a
/// coordinate and six numbers. The body of each other section is a list of
/// its records.
pub open spec fn section(s: Seq<u8>, rule: Rule, i: int) -> Parsed {
    if !has_bytes(s, i, keyword(rule)) {
        Err(mismatch(i, Expected::Keyword))
    } else if !has_byte(s, run_end(s, ByteClass::Space, i + keyword(rule).len()), OPEN_BRACE) {
        Err(mismatch(run_end(s, ByteClass::Space, i + keyword(rule).len()), Expected::OpenBrace))
    } else {
        enclosed(
            rule,
            i,
            then_closed(
                s,
                body(
                    s,
                    rule,
                    run_end(
                        s,
                        ByteClass::Space,
                        run_end(s, ByteClass::Space, i + keyword(rule).len()) + 1,
                    ),
                ),
            ),
        )
    }
}

/// The section that starts at `i`, whichever it is.
pub open spec fn any_section(s: Seq<u8>, i: int) -> Parsed {
    if has_bytes(s, i, keyword(Rule::xvigrids)) {
        section(s, Rule::xvigrids, i)
    } else if has_bytes(s, i, keyword(Rule::xvigrid)) {
        section(s, Rule::xvigrid, i)
    } else if has_bytes(s, i, keyword(Rule::xvistations)) {
        section(s, Rule::xvistations, i)
    } else if has_bytes(s, i, keyword(Rule::xvishots)) {
        section(s, Rule::xvishots, i)
    } else {
        section(s, Rule::xvisketchlines, i)
    }
}

/// The sections from `i` up to the end of the text, with any white space
/// behind each.
pub open spec fn sections(s: Seq<u8>, i: int) -> Parsed
    decreases s.len() - i,
    via sections_decreases
{
    if 0 <= i < s.len() {
        match any_section(s, i) {
            Ok((t, e)) => after(t, sections(s, run_end(s, ByteClass::Space, e))),
            Err(e) => Err(e),
        }
    } else {
        Ok((Seq::empty(), i))
    }
}

#[via_fn]
proof fn sections_decreases(s: Seq<u8>, i: int) {
    if 0 <= i < s.len() && any_section(s, i) is Ok {
        lemma_any_section_bounds(s, i);
        lemma_run_end(s, ByteClass::Space, any_section(s, i).unwrap().1);
    }
}

/// `file`: white space if there is any, then sections up to the end of the
/// text. Its span is the whole text, and the last span in it is `EOI`.
pub open spec fn file(s: Seq<u8>) -> Parsed {
    match sections(s, run_end(s, ByteClass::Space, 0)) {
        Ok((t, e)) => Ok(
            (
                seq![token(Rule::file, 0, s.len() as int)] + t + seq![
                    token(Rule::EOI, s.len() as int, s.len() as int),
                ],
                s.len() as int,
            ),
        ),
        Err(e) => Err(e),
    }
}

/// What `rule` finds at the start of the text `s`.
pub open spec fn matched(rule: Rule, s: Seq<u8>) -> Parsed {
    match rule {
        Rule::NUMBER => number(s, 0),
        Rule::COORDINATE => coordinate(s, 0),
        Rule::NAME => word(s, Rule::NAME, 0),
        Rule::COLOR => word(s, Rule::COLOR, 0),
        Rule::station => station(s, 0),
        Rule::shot => shot(s, 0),
        Rule::scetchline => scetchline(s, 0),
        Rule::xvigrids => section(s, Rule::xvigrids, 0),
        Rule::xvigrid => section(s, Rule::xvigrid, 0),
        Rule::xvistations => section(s, Rule::xvistations, 0),
        Rule::xvishots => section(s, Rule::xvishots, 0),
        Rule::xvisketchlines => section(s, Rule::xvisketchlines, 0),
        Rule::file => file(s),
        Rule::EOI => if s.len() == 0 {
            Ok((seq![token(Rule::EOI, 0, 0)], 0))
        } else {
            Err(mismatch(0, Expected::EndOfInput))
        },
    }
}

/// A number that matches is not empty and ends inside the text.
pub proof fn lemma_number_bounds(s: Seq<u8>, i: int)
    requires
        0 <= i <= s.len(),
    ensures
        i <= number_end(s, i) <= s.len(),
        number(s, i) is Ok ==> i < number(s, i).unwrap().1 <= s.len(),
{
    let a = if has_byte(s, i, MINUS) {
        i + 1
    } else {
        i
    };
    lemma_run_end(s, ByteClass::Digit, a);
    let b = run_end(s, ByteClass::Digit, a);
    if has_byte(s, b, POINT) {
        lemma_run_end(s, ByteClass::Digit, b + 1);
    }
}

/// A number after white space that matches ends inside the text.
pub proof fn lemma_spaced_number_bounds(s: Seq<u8>, i: int)
    requires
        0 <= i <= s.len(),
    ensures
        spaced_number(s, i) is Ok ==> i < spaced_number(s, i).unwrap().1 <= s.len(),
{
    lemma_run_end(s, ByteClass::Space, i);
    lemma_number_bounds(s, run_end(s, ByteClass::Space, i));
}

/// A coordinate that matches is not empty and ends inside the text.
pub proof fn lemma_coordinate_bounds(s: Seq<u8>, i: int)
    requires
        0 <= i <= s.len(),
    ensures
        coordinate(s, i) is Ok ==> i < coordinate(s, i).unwrap().1 <= s.len(),
{
    lemma_number_bounds(s, i);
    if number(s, i) is Ok {
        lemma_spaced_number_bounds(s, number(s, i).unwrap().1);
    }
}

/// A coordinate after white space that matches ends inside the text.
pub proof fn lemma_spaced_coordinate_bounds(s: Seq<u8>, i: int)
    requires
        0 <= i <= s.len(),
    ensures
        spaced_coordinate(s, i) is Ok ==> i < spaced_coordinate(s, i).unwrap().1 <= s.len(),
{
    lemma_run_end(s, ByteClass::Space, i);
    lemma_coordinate_bounds(s, run_end(s, ByteClass::Space, i));
}

/// A bare word after white space that matches ends inside the text.
pub proof fn lemma_spaced_word_bounds(s: Seq<u8>, rule: Rule, i: int)
    requires
        0 <= i <= s.len(),
    ensures
        spaced_word(s, rule, i) is Ok ==> i < spaced_word(s, rule, i).unwrap().1 <= s.len(),
{
    lemma_run_end(s, ByteClass::Space, i);
    lemma_run_end(s, ByteClass::Word, run_end(s, ByteClass::Space, i));
}

/// A list of coordinates that matches is not empty and ends inside the text.
pub proof fn lemma_coordinates_bounds(s: Seq<u8>, i: int)
    requires
        0 <= i <= s.len(),
    ensures
        coordinates(s, i) is Ok ==> i < coordinates(s, i).unwrap().1 <= s.len(),
    decreases s.len() - i,
{
    lemma_coordinate_bounds(s, i);
    if coordinate(s, i) is Ok {
        let e = coordinate(s, i).unwrap().1;
        let p = run_end(s, ByteClass::Space, e);
        if e < p < s.len() && s[p] != CLOSE_BRACE {
            lemma_coordinates_bounds(s, p);
        }
    }
}

/// What is closed ends inside the text, behind where it ended before.
pub proof fn lemma_closed_bounds(s: Seq<u8>, inner: Parsed)
    requires
        inner is Ok ==> 0 <= inner.unwrap().1 <= s.len(),
    ensures
        then_closed(s, inner) is Ok ==> inner is Ok && inner.unwrap().1 < then_closed(
            s,
            inner,
        ).unwrap().1 <= s.len(),
{
    if inner is Ok {
        lemma_run_end(s, ByteClass::Space, inner.unwrap().1);
    }
}

/// A record that matches is not empty and ends inside the text.
pub proof fn lemma_record_bounds(s: Seq<u8>, section: Rule, i: int)
    requires
        0 <= i <= s.len(),
    ensures
        record(s, section, i) is Ok ==> i < record(s, section, i).unwrap().1 <= s.len(),
{
    if has_byte(s, i, OPEN_BRACE) {
        let p = run_end(s, ByteClass::Space, i + 1);
        lemma_run_end(s, ByteClass::Space, i + 1);
        match section {
            Rule::xvistations => {
                lemma_coordinate_bounds(s, p);
                if coordinate(s, p) is Ok {
                    let (pos, e) = coordinate(s, p).unwrap();
                    lemma_spaced_word_bounds(s, Rule::NAME, e);
                    lemma_closed_bounds(s, after(pos, spaced_word(s, Rule::NAME, e)));
                }
            },
            Rule::xvishots => {
                lemma_coordinate_bounds(s, p);
                if coordinate(s, p) is Ok {
                    let (from, e) = coordinate(s, p).unwrap();
                    lemma_spaced_coordinate_bounds(s, e);
                    lemma_closed_bounds(s, after(from, spaced_coordinate(s, e)));
                }
            },
            _ => {
                lemma_run_end(s, ByteClass::Word, p);
                if word(s, Rule::COLOR, p) is Ok {
                    let (color, e) = word(s, Rule::COLOR, p).unwrap();
                    lemma_polyline_bounds(s, e);
                    lemma_closed_bounds(s, after(color, polyline(s, e)));
                }
            },
        }
    }
}

/// The coordinates of a sketch line that match end inside the text.
pub proof fn lemma_polyline_bounds(s: Seq<u8>, e: int)
    requires
        0 <= e <= s.len(),
    ensures
        polyline(s, e) is Ok ==> e < polyline(s, e).unwrap().1 <= s.len(),
{
    lemma_spaced_coordinate_bounds(s, e);
    if spaced_coordinate(s, e) is Ok {
        let e1 = spaced_coordinate(s, e).unwrap().1;
        lemma_run_end(s, ByteClass::Space, e1);
        lemma_coordinates_bounds(s, run_end(s, ByteClass::Space, e1));
    }
}

/// Numbers with white space before each that match end inside the text.
pub proof fn lemma_spaced_numbers_bounds(s: Seq<u8>, i: int, count: nat)
    requires
        0 <= i <= s.len(),
    ensures
        spaced_numbers(s, i, count) is Ok ==> i <= spaced_numbers(s, i, count).unwrap().1
            <= s.len(),
    decreases count,
{
    lemma_spaced_number_bounds(s, i);
    if count > 0 && spaced_number(s, i) is Ok {
        lemma_spaced_numbers_bounds(s, spaced_number(s, i).unwrap().1, (count - 1) as nat);
    }
}

/// A list of records that matches ends inside the text.
pub proof fn lemma_records_bounds(s: Seq<u8>, section: Rule, i: int)
    requires
        0 <= i <= s.len(),
    ensures
        records(s, section, i) is Ok ==> i <= records(s, section, i).unwrap().1 <= s.len(),
    decreases s.len() - i,
{
    if has_byte(s, i, OPEN_BRACE) && record(s, section, i) is Ok {
        lemma_record_bounds(s, section, i);
        let e = record(s, section, i).unwrap().1;
        lemma_run_end(s, ByteClass::Space, e);
        lemma_records_bounds(s, section, run_end(s, ByteClass::Space, e));
    }
}

/// The body of a section that matches ends inside the text.
pub proof fn lemma_body_bounds(s: Seq<u8>, rule: Rule, p: int)
    requires
        0 <= p <= s.len(),
    ensures
        body(s, rule, p) is Ok ==> p <= body(s, rule, p).unwrap().1 <= s.len(),
{
    match rule {
        Rule::xvigrids => {
            lemma_number_bounds(s, p);
            if number(s, p) is Ok {
                let e = number(s, p).unwrap().1;
                lemma_run_end(s, ByteClass::Space, e);
                lemma_run_end(s, ByteClass::Word, run_end(s, ByteClass::Space, e));
            }
        },
        Rule::xvigrid => {
            lemma_coordinate_bounds(s, p);
            if coordinate(s, p) is Ok {
                lemma_spaced_numbers_bounds(s, coordinate(s, p).unwrap().1, 6);
            }
        },
        _ => {
            lemma_records_bounds(s, rule, p);
        },
    }
}

/// A section that matches is not empty and ends inside the text.
pub proof fn lemma_section_bounds(s: Seq<u8>, rule: Rule, i: int)
    requires
        0 <= i <= s.len(),
    ensures
        section(s, rule, i) is Ok ==> i < section(s, rule, i).unwrap().1 <= s.len(),
{
    let k = i + keyword(rule).len();
    if has_bytes(s, i, keyword(rule)) && has_byte(s, run_end(s, ByteClass::Space, k), OPEN_BRACE) {
        lemma_run_end(s, ByteClass::Space, k);
        lemma_run_end(s, ByteClass::Space, run_end(s, ByteClass::Space, k) + 1);
        let p = run_end(s, ByteClass::Space, run_end(s, ByteClass::Space, k) + 1);
        lemma_body_bounds(s, rule, p);
        lemma_closed_bounds(s, body(s, rule, p));
    }
}

/// Whichever section matches, it is not empty and ends inside the text.
pub proof fn lemma_any_section_bounds(s: Seq<u8>, i: int)
    requires
        0 <= i <= s.len(),
    ensures
        any_section(s, i) is Ok ==> i < any_section(s, i).unwrap().1 <= s.len(),
{
    lemma_section_bounds(s, Rule::xvigrids, i);
    lemma_section_bounds(s, Rule::xvigrid, i);
    lemma_section_bounds(s, Rule::xvistations, i);
    lemma_section_bounds(s, Rule::xvishots, i);
    lemma_section_bounds(s, Rule::xvisketchlines, i);
}

} // verus!
