//! The spans that the grammar finds are nested: what a rule holds lies in
//! the rule's own span, and every span lies in the text.

use vstd::prelude::*;
use crate::bytes::{lemma_run_end, run_end, ByteClass, CLOSE_BRACE, OPEN_BRACE};
use crate::grammar::{
    Parsed, after, any_section, body, coordinate, coordinates, enclosed, file, has_byte,
    has_bytes, keyword, lemma_any_section_bounds, lemma_coordinate_bounds, lemma_number_bounds,
    lemma_record_bounds, matched, number, polyline, record, records, section, sections,
    spaced_coordinate, spaced_number, spaced_numbers, spaced_word, then_closed, token, word,
};
use crate::token::{Rule, Token};

verus! {

/// Whether every span of `tokens` lies between `from` and `to`.
pub open spec fn lie_within(tokens: Seq<Token>, from: int, to: int) -> bool {
    forall|j: int|
        0 <= j < tokens.len() ==> from <= (#[trigger] tokens[j]).start <= tokens[j].end <= to
}

/// Whether `found` is a match from `i` on whose spans all lie between `i`
/// and its end, and its end in the text `s`; or no match.
spec fn is_nested(found: Parsed, s: Seq<u8>, i: int) -> bool {
    match found {
        Ok((tokens, end)) => i <= end <= s.len() && lie_within(tokens, i, end),
        Err(_) => true,
    }
}

proof fn lemma_lie_within_both(a: Seq<Token>, b: Seq<Token>, from: int, mid: int, to: int)
    requires
        from <= mid <= to,
        exists|e: int| from <= e <= to && lie_within(a, from, e),
        lie_within(b, mid, to),
    ensures
        lie_within(a + b, from, to),
{
    let e = choose|e: int| from <= e <= to && lie_within(a, from, e);
    assert forall|j: int| 0 <= j < (a + b).len() implies from <= (#[trigger] (a + b)[j]).start <= (a
        + b)[j].end <= to by {
        if j < a.len() {
            assert((a + b)[j] == a[j]);
        } else {
            assert((a + b)[j] == b[j - a.len()]);
        }
    }
}

proof fn lemma_number_nested(s: Seq<u8>, i: int)
    requires
        0 <= i <= s.len() <= usize::MAX,
    ensures
        is_nested(number(s, i), s, i),
{
    lemma_number_bounds(s, i);
}

proof fn lemma_spaced_number_nested(s: Seq<u8>, i: int)
    requires
        0 <= i <= s.len() <= usize::MAX,
    ensures
        is_nested(spaced_number(s, i), s, i),
{
    lemma_run_end(s, ByteClass::Space, i);
    lemma_number_bounds(s, run_end(s, ByteClass::Space, i));
}

proof fn lemma_coordinate_nested(s: Seq<u8>, i: int)
    requires
        0 <= i <= s.len() <= usize::MAX,
    ensures
        is_nested(coordinate(s, i), s, i),
{
    lemma_number_bounds(s, i);
    if let Ok((x, e)) = number(s, i) {
        lemma_spaced_number_nested(s, e);
        if let Ok((y, end)) = spaced_number(s, e) {
            let own = seq![token(Rule::COORDINATE, i, end)];
            assert(lie_within(x, i, e));
            lemma_lie_within_both(x, y, i, e, end);
            assert(lie_within(own, i, end));
            lemma_lie_within_both(own, x + y, i, i, end);
        }
    }
}

proof fn lemma_spaced_coordinate_nested(s: Seq<u8>, i: int)
    requires
        0 <= i <= s.len() <= usize::MAX,
    ensures
        is_nested(spaced_coordinate(s, i), s, i),
{
    lemma_run_end(s, ByteClass::Space, i);
    lemma_coordinate_nested(s, run_end(s, ByteClass::Space, i));
}

proof fn lemma_spaced_word_nested(s: Seq<u8>, rule: Rule, i: int)
    requires
        0 <= i <= s.len() <= usize::MAX,
    ensures
        is_nested(spaced_word(s, rule, i), s, i),
{
    lemma_run_end(s, ByteClass::Space, i);
    lemma_run_end(s, ByteClass::Word, run_end(s, ByteClass::Space, i));
}

proof fn lemma_spaced_numbers_nested(s: Seq<u8>, i: int, count: nat)
    requires
        0 <= i <= s.len() <= usize::MAX,
    ensures
        is_nested(spaced_numbers(s, i, count), s, i),
    decreases count,
{
    if count > 0 {
        lemma_spaced_number_nested(s, i);
        if let Ok((n, e)) = spaced_number(s, i) {
            lemma_spaced_numbers_nested(s, e, (count - 1) as nat);
            if let Ok((rest, end)) = spaced_numbers(s, e, (count - 1) as nat) {
                assert(lie_within(n, i, e));
                lemma_lie_within_both(n, rest, i, e, end);
            }
        }
    }
}

proof fn lemma_coordinates_nested(s: Seq<u8>, i: int)
    requires
        0 <= i <= s.len() <= usize::MAX,
    ensures
        is_nested(coordinates(s, i), s, i),
    decreases s.len() - i,
{
    lemma_coordinate_nested(s, i);
    if let Ok((c, e)) = coordinate(s, i) {
        lemma_coordinate_bounds(s, i);
        let p = run_end(s, ByteClass::Space, e);
        if e < p < s.len() && s[p] != CLOSE_BRACE {
            lemma_coordinates_nested(s, p);
            if let Ok((rest, end)) = coordinates(s, p) {
                assert(lie_within(c, i, e));
                lemma_lie_within_both(c, rest, i, p, end);
            }
        }
    }
}

proof fn lemma_polyline_nested(s: Seq<u8>, e: int)
    requires
        0 <= e <= s.len() <= usize::MAX,
    ensures
        is_nested(polyline(s, e), s, e),
{
    lemma_spaced_coordinate_nested(s, e);
    if let Ok((first, e1)) = spaced_coordinate(s, e) {
        let p = run_end(s, ByteClass::Space, e1);
        lemma_run_end(s, ByteClass::Space, e1);
        if p > e1 {
            lemma_coordinates_nested(s, p);
            if let Ok((more, end)) = coordinates(s, p) {
                assert(lie_within(first, e, e1));
                lemma_lie_within_both(first, more, e, p, end);
            }
        }
    }
}

/// What the braces of a record or of a section hold, put into the span of
/// the whole, is nested.
proof fn lemma_enclosed_nested(s: Seq<u8>, rule: Rule, i: int, p: int, inner: Parsed)
    requires
        0 <= i <= p <= s.len() <= usize::MAX,
        is_nested(inner, s, p),
    ensures
        is_nested(
            enclosed(rule, i, then_closed(s, inner)),
            s,
            i,
        ),
{
    if let Ok((tokens, e)) = inner {
        lemma_run_end(s, ByteClass::Space, e);
        let q = run_end(s, ByteClass::Space, e);
        if has_byte(s, q, CLOSE_BRACE) {
            let end = q + 1;
            let own = seq![token(rule, i, end)];
            assert(lie_within(own, i, end));
            assert(lie_within(tokens, p, end));
            lemma_lie_within_both(own, tokens, i, p, end);
        }
    }
}

proof fn lemma_record_nested(s: Seq<u8>, kind: Rule, i: int)
    requires
        0 <= i <= s.len() <= usize::MAX,
    ensures
        is_nested(record(s, kind, i), s, i),
{
    if has_byte(s, i, OPEN_BRACE) {
        let p = run_end(s, ByteClass::Space, i + 1);
        lemma_run_end(s, ByteClass::Space, i + 1);
        match kind {
            Rule::xvistations => {
                lemma_coordinate_nested(s, p);
                if let Ok((pos, e)) = coordinate(s, p) {
                    lemma_spaced_word_nested(s, Rule::NAME, e);
                    if let Ok((name, e2)) = spaced_word(s, Rule::NAME, e) {
                        assert(lie_within(pos, p, e));
                        lemma_lie_within_both(pos, name, p, e, e2);
                    }
                    lemma_enclosed_nested(
                        s,
                        Rule::station,
                        i,
                        p,
                        after(pos, spaced_word(s, Rule::NAME, e)),
                    );
                }
            },
            Rule::xvishots => {
                lemma_coordinate_nested(s, p);
                if let Ok((from, e)) = coordinate(s, p) {
                    lemma_spaced_coordinate_nested(s, e);
                    if let Ok((to, e2)) = spaced_coordinate(s, e) {
                        assert(lie_within(from, p, e));
                        lemma_lie_within_both(from, to, p, e, e2);
                    }
                    lemma_enclosed_nested(
                        s,
                        Rule::shot,
                        i,
                        p,
                        after(from, spaced_coordinate(s, e)),
                    );
                }
            },
            _ => {
                lemma_run_end(s, ByteClass::Word, p);
                if let Ok((color, e)) = word(s, Rule::COLOR, p) {
                    lemma_polyline_nested(s, e);
                    if let Ok((points, e2)) = polyline(s, e) {
                        assert(lie_within(color, p, e));
                        lemma_lie_within_both(color, points, p, e, e2);
                    }
                    lemma_enclosed_nested(
                        s,
                        Rule::scetchline,
                        i,
                        p,
                        after(color, polyline(s, e)),
                    );
                }
            },
        }
    }
}

proof fn lemma_records_nested(s: Seq<u8>, kind: Rule, i: int)
    requires
        0 <= i <= s.len() <= usize::MAX,
    ensures
        is_nested(records(s, kind, i), s, i),
    decreases s.len() - i,
{
    if has_byte(s, i, OPEN_BRACE) {
        lemma_record_nested(s, kind, i);
        if let Ok((r, e)) = record(s, kind, i) {
            lemma_record_bounds(s, kind, i);
            let p = run_end(s, ByteClass::Space, e);
            lemma_run_end(s, ByteClass::Space, e);
            lemma_records_nested(s, kind, p);
            if let Ok((rest, end)) = records(s, kind, p) {
                assert(lie_within(r, i, e));
                lemma_lie_within_both(r, rest, i, p, end);
            }
        }
    }
}

proof fn lemma_body_nested(s: Seq<u8>, rule: Rule, p: int)
    requires
        0 <= p <= s.len() <= usize::MAX,
    ensures
        is_nested(body(s, rule, p), s, p),
{
    match rule {
        Rule::xvigrids => {
            lemma_number_bounds(s, p);
            if let Ok((value, e)) = number(s, p) {
                lemma_run_end(s, ByteClass::Space, e);
                lemma_run_end(s, ByteClass::Word, run_end(s, ByteClass::Space, e));
                let end = body(s, rule, p).unwrap().1;
                assert(lie_within(value, p, end));
            }
        },
        Rule::xvigrid => {
            lemma_coordinate_nested(s, p);
            if let Ok((origin, e)) = coordinate(s, p) {
                lemma_spaced_numbers_nested(s, e, 6);
                if let Ok((fields, end)) = spaced_numbers(s, e, 6) {
                    assert(lie_within(origin, p, e));
                    lemma_lie_within_both(origin, fields, p, e, end);
                }
            }
        },
        _ => {
            lemma_records_nested(s, rule, p);
        },
    }
}

proof fn lemma_section_nested(s: Seq<u8>, rule: Rule, i: int)
    requires
        0 <= i <= s.len() <= usize::MAX,
    ensures
        is_nested(section(s, rule, i), s, i),
{
    let k = i + keyword(rule).len();
    if has_bytes(s, i, keyword(rule)) {
        lemma_run_end(s, ByteClass::Space, k);
        let b = run_end(s, ByteClass::Space, k);
        if has_byte(s, b, OPEN_BRACE) {
            lemma_run_end(s, ByteClass::Space, b + 1);
            let p = run_end(s, ByteClass::Space, b + 1);
            lemma_body_nested(s, rule, p);
            lemma_enclosed_nested(s, rule, i, p, body(s, rule, p));
        }
    }
}

proof fn lemma_any_section_nested(s: Seq<u8>, i: int)
    requires
        0 <= i <= s.len() <= usize::MAX,
    ensures
        is_nested(any_section(s, i), s, i),
{
    lemma_section_nested(s, Rule::xvigrids, i);
    lemma_section_nested(s, Rule::xvigrid, i);
    lemma_section_nested(s, Rule::xvistations, i);
    lemma_section_nested(s, Rule::xvishots, i);
    lemma_section_nested(s, Rule::xvisketchlines, i);
}

proof fn lemma_sections_nested(s: Seq<u8>, i: int)
    requires
        0 <= i <= s.len() <= usize::MAX,
    ensures
        is_nested(sections(s, i), s, i),
    decreases s.len() - i,
{
    if i < s.len() {
        lemma_any_section_nested(s, i);
        if let Ok((t, e)) = any_section(s, i) {
            lemma_any_section_bounds(s, i);
            let p = run_end(s, ByteClass::Space, e);
            lemma_run_end(s, ByteClass::Space, e);
            lemma_sections_nested(s, p);
            if let Ok((rest, end)) = sections(s, p) {
                assert(lie_within(t, i, e));
                lemma_lie_within_both(t, rest, i, p, end);
            }
        }
    }
}

/// The spans of a match are nested. The first is the span of the rule
/// itself, which starts with the text and ends where the match ends, and
/// every span lies in it. So does, by the same statement about each rule
/// that a rule holds, every span in the span of the rule that holds it.
pub proof fn theorem_spans_are_nested(rule: Rule, s: Seq<u8>)
    requires
        s.len() <= usize::MAX,
    ensures
        match matched(rule, s) {
            Ok((tokens, end)) => {
                &&& 0 <= end <= s.len()
                &&& tokens.len() > 0
                &&& tokens[0] == token(rule, 0, end)
                &&& lie_within(tokens, 0, end)
            },
            Err(_) => true,
        },
{
    let n = s.len() as int;
    match rule {
        Rule::NUMBER => {
            lemma_number_nested(s, 0);
        },
        Rule::COORDINATE => {
            lemma_coordinate_nested(s, 0);
        },
        Rule::NAME | Rule::COLOR => {
            lemma_run_end(s, ByteClass::Word, 0);
        },
        Rule::station => {
            lemma_record_nested(s, Rule::xvistations, 0);
        },
        Rule::shot => {
            lemma_record_nested(s, Rule::xvishots, 0);
        },
        Rule::scetchline => {
            lemma_record_nested(s, Rule::xvisketchlines, 0);
        },
        Rule::xvigrids | Rule::xvigrid | Rule::xvistations | Rule::xvishots
        | Rule::xvisketchlines => {
            lemma_section_nested(s, rule, 0);
        },
        Rule::file => {
            let p = run_end(s, ByteClass::Space, 0);
            lemma_run_end(s, ByteClass::Space, 0);
            lemma_sections_nested(s, p);
            if let Ok((t, e)) = sections(s, p) {
                let own = seq![token(Rule::file, 0, n)];
                let last = seq![token(Rule::EOI, n, n)];
                assert(lie_within(own, 0, n));
                assert(lie_within(last, n, n));
                assert(lie_within(t, p, n));
                lemma_lie_within_both(own, t, 0, p, n);
                lemma_lie_within_both(own + t, last, 0, n, n);
            }
        },
        Rule::EOI => {},
    }
}

} // verus!
