//! The recogniser: runs the grammar over a text and collects the spans.

use vstd::prelude::*;
use vstd::string::StringSliceAdditionalSpecFns;
use crate::bytes::{scan, ByteClass, CLOSE_BRACE, MINUS, OPEN_BRACE, POINT};
use crate::grammar::{
    after, any_section, body, closed, coordinate, coordinates, file, has_bytes, keyword, matched,
    mismatch, number, number_end, polyline, record, records, scetchline, section, sections, shot,
    spaced_coordinate, spaced_number, spaced_numbers, spaced_word, station, token, word, Parsed,
};
use crate::token::{Expected, Rule, SyntaxError, Token};

verus! {

/// What a recogniser hands back: the spans and the end of the match, or the
/// mismatch.
pub type Found = Result<(Vec<Token>, usize), SyntaxError>;

/// Whether the recogniser's result `r` is what the grammar says, `want`.
pub open spec fn agrees(r: Found, want: Parsed) -> bool {
    match want {
        Ok((tokens, end)) => r is Ok && r.unwrap().0@ == tokens && r.unwrap().1 == end,
        Err(e) => r is Err && r.unwrap_err() == e,
    }
}

/// Spans that are put behind spans that were put behind others come out as
/// if the first two had been joined before.
proof fn lemma_after_after(a: Seq<Token>, b: Seq<Token>, rest: Parsed)
    ensures
        after(a, after(b, rest)) == after(a + b, rest),
{
    if let Ok((t, e)) = rest {
        assert(a + (b + t) =~= (a + b) + t);
    }
}

fn single(rule: Rule, start: usize, end: usize) -> (v: Vec<Token>)
    ensures
        v@ == seq![token(rule, start as int, end as int)],
{
    let mut v: Vec<Token> = Vec::new();
    v.push(Token { rule, start, end });
    assert(v@ =~= seq![token(rule, start as int, end as int)]);
    v
}

fn join(a: Vec<Token>, b: Vec<Token>) -> (v: Vec<Token>)
    ensures
        v@ == a@ + b@,
{
    let mut v = a;
    let mut b = b;
    v.append(&mut b);
    v
}

fn enclose(rule: Rule, start: usize, end: usize, inner: Vec<Token>) -> (v: Vec<Token>)
    ensures
        v@ == seq![token(rule, start as int, end as int)] + inner@,
{
    join(single(rule, start, end), inner)
}

fn fail(offset: usize, expected: Expected) -> (r: Found)
    ensures
        r is Err,
        r.unwrap_err() == mismatch(offset as int, expected),
{
    Err(SyntaxError { offset, expected })
}

fn scan_number(s: &[u8], i: usize) -> (e: usize)
    requires
        i <= s.len(),
    ensures
        e == number_end(s@, i as int),
        i <= e <= s.len(),
{
    let a: usize = if i < s.len() && s[i] == MINUS {
        i + 1
    } else {
        i
    };
    let b = scan(s, ByteClass::Digit, a);
    if b == a {
        i
    } else if b < s.len() && s[b] == POINT {
        let c = scan(s, ByteClass::Digit, b + 1);
        if c > b + 1 {
            c
        } else {
            b
        }
    } else {
        b
    }
}

fn parse_number(s: &[u8], i: usize) -> (r: Found)
    requires
        i <= s.len(),
    ensures
        agrees(r, number(s@, i as int)),
        r is Ok ==> i < r.unwrap().1 <= s.len(),
{
    let e = scan_number(s, i);
    if e > i {
        Ok((single(Rule::NUMBER, i, e), e))
    } else {
        fail(i, Expected::Number)
    }
}

fn parse_word(s: &[u8], rule: Rule, i: usize) -> (r: Found)
    requires
        i <= s.len(),
    ensures
        agrees(r, word(s@, rule, i as int)),
        r is Ok ==> i < r.unwrap().1 <= s.len(),
{
    let e = scan(s, ByteClass::Word, i);
    if e > i {
        Ok((single(rule, i, e), e))
    } else {
        fail(
            i,
            match rule {
                Rule::COLOR => Expected::Color,
                _ => Expected::Name,
            },
        )
    }
}

fn parse_spaced_number(s: &[u8], i: usize) -> (r: Found)
    requires
        i <= s.len(),
    ensures
        agrees(r, spaced_number(s@, i as int)),
        r is Ok ==> i < r.unwrap().1 <= s.len(),
{
    let p = scan(s, ByteClass::Space, i);
    if p > i {
        parse_number(s, p)
    } else {
        fail(i, Expected::Space)
    }
}

fn parse_coordinate(s: &[u8], i: usize) -> (r: Found)
    requires
        i <= s.len(),
    ensures
        agrees(r, coordinate(s@, i as int)),
        r is Ok ==> i < r.unwrap().1 <= s.len(),
{
    match parse_number(s, i) {
        Ok((x, e)) => match parse_spaced_number(s, e) {
            Ok((y, end)) => Ok((enclose(Rule::COORDINATE, i, end, join(x, y)), end)),
            Err(e) => Err(e),
        },
        Err(e) => Err(e),
    }
}

fn parse_spaced_coordinate(s: &[u8], i: usize) -> (r: Found)
    requires
        i <= s.len(),
    ensures
        agrees(r, spaced_coordinate(s@, i as int)),
        r is Ok ==> i < r.unwrap().1 <= s.len(),
{
    let p = scan(s, ByteClass::Space, i);
    if p > i {
        parse_coordinate(s, p)
    } else {
        fail(i, Expected::Space)
    }
}

fn parse_spaced_word(s: &[u8], rule: Rule, i: usize) -> (r: Found)
    requires
        i <= s.len(),
    ensures
        agrees(r, spaced_word(s@, rule, i as int)),
        r is Ok ==> i < r.unwrap().1 <= s.len(),
{
    let p = scan(s, ByteClass::Space, i);
    if p > i {
        parse_word(s, rule, p)
    } else {
        fail(i, Expected::Space)
    }
}

fn parse_spaced_numbers(s: &[u8], i: usize, count: usize) -> (r: Found)
    requires
        i <= s.len(),
    ensures
        agrees(r, spaced_numbers(s@, i as int, count as nat)),
        r is Ok ==> i <= r.unwrap().1 <= s.len(),
{
    let mut out: Vec<Token> = Vec::new();
    let mut p: usize = i;
    let mut left: usize = count;
    proof {
        assert(Seq::<Token>::empty() + Seq::<Token>::empty() =~= Seq::<Token>::empty());
        if let Ok((t, e)) = spaced_numbers(s@, i as int, count as nat) {
            assert(out@ + t =~= t);
        }
    }
    while left > 0
        invariant
            i <= p <= s.len(),
            spaced_numbers(s@, i as int, count as nat) == after(
                out@,
                spaced_numbers(s@, p as int, left as nat),
            ),
        decreases left,
    {
        match parse_spaced_number(s, p) {
            Ok((mut n, e)) => {
                proof {
                    lemma_after_after(out@, n@, spaced_numbers(s@, e as int, (left - 1) as nat));
                }
                out.append(&mut n);
                p = e;
                left -= 1;
            },
            Err(e) => {
                return Err(e);
            },
        }
    }
    proof {
        assert(out@ + Seq::<Token>::empty() =~= out@);
    }
    Ok((out, p))
}

fn parse_coordinates(s: &[u8], i: usize) -> (r: Found)
    requires
        i <= s.len(),
    ensures
        agrees(r, coordinates(s@, i as int)),
        r is Ok ==> i < r.unwrap().1 <= s.len(),
{
    let mut out: Vec<Token> = Vec::new();
    let mut p: usize = i;
    proof {
        if let Ok((t, e)) = coordinates(s@, i as int) {
            assert(out@ + t =~= t);
        }
    }
    loop
        invariant
            i <= p <= s.len(),
            coordinates(s@, i as int) == after(out@, coordinates(s@, p as int)),
        decreases s.len() - p,
    {
        match parse_coordinate(s, p) {
            Ok((mut c, e)) => {
                let q = scan(s, ByteClass::Space, e);
                if e < q && q < s.len() && s[q] != CLOSE_BRACE {
                    proof {
                        lemma_after_after(out@, c@, coordinates(s@, q as int));
                    }
                    out.append(&mut c);
                    p = q;
                } else {
                    out.append(&mut c);
                    return Ok((out, e));
                }
            },
            Err(e) => {
                return Err(e);
            },
        }
    }
}

fn close(s: &[u8], tokens: Vec<Token>, e: usize) -> (r: Found)
    requires
        e <= s.len(),
    ensures
        agrees(r, closed(s@, tokens@, e as int)),
        r is Ok ==> e < r.unwrap().1 <= s.len(),
{
    let p = scan(s, ByteClass::Space, e);
    if p < s.len() && s[p] == CLOSE_BRACE {
        Ok((tokens, p + 1))
    } else {
        fail(p, Expected::CloseBrace)
    }
}

fn parse_station(s: &[u8], i: usize) -> (r: Found)
    requires
        i <= s.len(),
    ensures
        agrees(r, station(s@, i as int)),
        r is Ok ==> i < r.unwrap().1 <= s.len(),
{
    if !(i < s.len() && s[i] == OPEN_BRACE) {
        return fail(i, Expected::OpenBrace);
    }
    let p = scan(s, ByteClass::Space, i + 1);
    match parse_coordinate(s, p) {
        Ok((pos, e)) => match parse_spaced_word(s, Rule::NAME, e) {
            Ok((name, e)) => match close(s, join(pos, name), e) {
                Ok((inner, end)) => Ok((enclose(Rule::station, i, end, inner), end)),
                Err(e) => Err(e),
            },
            Err(e) => Err(e),
        },
        Err(e) => Err(e),
    }
}

fn parse_shot(s: &[u8], i: usize) -> (r: Found)
    requires
        i <= s.len(),
    ensures
        agrees(r, shot(s@, i as int)),
        r is Ok ==> i < r.unwrap().1 <= s.len(),
{
    if !(i < s.len() && s[i] == OPEN_BRACE) {
        return fail(i, Expected::OpenBrace);
    }
    let p = scan(s, ByteClass::Space, i + 1);
    match parse_coordinate(s, p) {
        Ok((from, e)) => match parse_spaced_coordinate(s, e) {
            Ok((to, e)) => match close(s, join(from, to), e) {
                Ok((inner, end)) => Ok((enclose(Rule::shot, i, end, inner), end)),
                Err(e) => Err(e),
            },
            Err(e) => Err(e),
        },
        Err(e) => Err(e),
    }
}

fn parse_polyline(s: &[u8], e: usize) -> (r: Found)
    requires
        e <= s.len(),
    ensures
        agrees(r, polyline(s@, e as int)),
        r is Ok ==> e < r.unwrap().1 <= s.len(),
{
    match parse_spaced_coordinate(s, e) {
        Ok((first, e1)) => {
            let p = scan(s, ByteClass::Space, e1);
            if p > e1 {
                match parse_coordinates(s, p) {
                    Ok((more, end)) => Ok((join(first, more), end)),
                    Err(e) => Err(e),
                }
            } else {
                fail(e1, Expected::Space)
            }
        },
        Err(e) => Err(e),
    }
}

fn parse_scetchline(s: &[u8], i: usize) -> (r: Found)
    requires
        i <= s.len(),
    ensures
        agrees(r, scetchline(s@, i as int)),
        r is Ok ==> i < r.unwrap().1 <= s.len(),
{
    if !(i < s.len() && s[i] == OPEN_BRACE) {
        return fail(i, Expected::OpenBrace);
    }
    let p = scan(s, ByteClass::Space, i + 1);
    match parse_word(s, Rule::COLOR, p) {
        Ok((color, e)) => match parse_polyline(s, e) {
            Ok((points, e)) => match close(s, join(color, points), e) {
                Ok((inner, end)) => Ok((enclose(Rule::scetchline, i, end, inner), end)),
                Err(e) => Err(e),
            },
            Err(e) => Err(e),
        },
        Err(e) => Err(e),
    }
}

fn parse_record(s: &[u8], section: Rule, i: usize) -> (r: Found)
    requires
        i <= s.len(),
    ensures
        agrees(r, record(s@, section, i as int)),
        r is Ok ==> i < r.unwrap().1 <= s.len(),
{
    match section {
        Rule::xvistations => parse_station(s, i),
        Rule::xvishots => parse_shot(s, i),
        _ => parse_scetchline(s, i),
    }
}

fn parse_records(s: &[u8], section: Rule, i: usize) -> (r: Found)
    requires
        i <= s.len(),
    ensures
        agrees(r, records(s@, section, i as int)),
        r is Ok ==> i <= r.unwrap().1 <= s.len(),
{
    let mut out: Vec<Token> = Vec::new();
    let mut p: usize = i;
    proof {
        if let Ok((t, e)) = records(s@, section, i as int) {
            assert(out@ + t =~= t);
        }
    }
    while p < s.len() && s[p] == OPEN_BRACE
        invariant
            i <= p <= s.len(),
            records(s@, section, i as int) == after(out@, records(s@, section, p as int)),
        decreases s.len() - p,
    {
        match parse_record(s, section, p) {
            Ok((mut t, e)) => {
                let q = scan(s, ByteClass::Space, e);
                proof {
                    lemma_after_after(out@, t@, records(s@, section, q as int));
                }
                out.append(&mut t);
                p = q;
            },
            Err(e) => {
                return Err(e);
            },
        }
    }
    proof {
        assert(out@ + Seq::<Token>::empty() =~= out@);
    }
    Ok((out, p))
}

/// Tells whether the bytes `k` stand in `s` at `i`.
fn starts_with(s: &[u8], i: usize, k: &[u8]) -> (r: bool)
    requires
        i <= s.len(),
    ensures
        r == has_bytes(s@, i as int, k@),
{
    if k.len() > s.len() - i {
        return false;
    }
    let mut j: usize = 0;
    while j < k.len()
        invariant
            i + k.len() <= s.len(),
            j <= k.len(),
            forall|m: int| 0 <= m < j ==> s@[i + m] == k@[m],
        decreases k.len() - j,
    {
        if s[i + j] != k[j] {
            proof {
                assert(s@.subrange(i as int, i + k.len())[j as int] == s@[i + j]);
            }
            return false;
        }
        j += 1;
    }
    proof {
        assert(s@.subrange(i as int, i + k.len()) =~= k@);
    }
    true
}

fn keyword_of(rule: Rule) -> (k: &'static str)
    ensures
        k.spec_bytes() == keyword(rule),
{
    match rule {
        Rule::xvigrids => "XVIgrids",
        Rule::xvigrid => "XVIgrid",
        Rule::xvistations => "XVIstations",
        Rule::xvishots => "XVIshots",
        _ => "XVIsketchlines",
    }
}

fn parse_body(s: &[u8], rule: Rule, p: usize) -> (r: Found)
    requires
        p <= s.len(),
    ensures
        agrees(r, body(s@, rule, p as int)),
        r is Ok ==> p <= r.unwrap().1 <= s.len(),
{
    match rule {
        Rule::xvigrids => match parse_number(s, p) {
            Ok((value, e)) => {
                let q = scan(s, ByteClass::Space, e);
                let end = if q > e {
                    scan(s, ByteClass::Word, q)
                } else {
                    e
                };
                Ok((value, end))
            },
            Err(e) => Err(e),
        },
        Rule::xvigrid => match parse_coordinate(s, p) {
            Ok((origin, e)) => match parse_spaced_numbers(s, e, 6) {
                Ok((fields, end)) => Ok((join(origin, fields), end)),
                Err(e) => Err(e),
            },
            Err(e) => Err(e),
        },
        _ => parse_records(s, rule, p),
    }
}

fn parse_section(s: &[u8], rule: Rule, i: usize) -> (r: Found)
    requires
        i <= s.len(),
    ensures
        agrees(r, section(s@, rule, i as int)),
        r is Ok ==> i < r.unwrap().1 <= s.len(),
{
    let k = keyword_of(rule).as_bytes();
    if !starts_with(s, i, k) {
        return fail(i, Expected::Keyword);
    }
    let b = scan(s, ByteClass::Space, i + k.len());
    if !(b < s.len() && s[b] == OPEN_BRACE) {
        return fail(b, Expected::OpenBrace);
    }
    let p = scan(s, ByteClass::Space, b + 1);
    match parse_body(s, rule, p) {
        Ok((inner, e)) => match close(s, inner, e) {
            Ok((inner, end)) => Ok((enclose(rule, i, end, inner), end)),
            Err(e) => Err(e),
        },
        Err(e) => Err(e),
    }
}

fn parse_any_section(s: &[u8], i: usize) -> (r: Found)
    requires
        i <= s.len(),
    ensures
        agrees(r, any_section(s@, i as int)),
        r is Ok ==> i < r.unwrap().1 <= s.len(),
{
    if starts_with(s, i, keyword_of(Rule::xvigrids).as_bytes()) {
        parse_section(s, Rule::xvigrids, i)
    } else if starts_with(s, i, keyword_of(Rule::xvigrid).as_bytes()) {
        parse_section(s, Rule::xvigrid, i)
    } else if starts_with(s, i, keyword_of(Rule::xvistations).as_bytes()) {
        parse_section(s, Rule::xvistations, i)
    } else if starts_with(s, i, keyword_of(Rule::xvishots).as_bytes()) {
        parse_section(s, Rule::xvishots, i)
    } else {
        parse_section(s, Rule::xvisketchlines, i)
    }
}

fn parse_sections(s: &[u8], i: usize) -> (r: Found)
    requires
        i <= s.len(),
    ensures
        agrees(r, sections(s@, i as int)),
        r is Ok ==> r.unwrap().1 == s.len(),
{
    let mut out: Vec<Token> = Vec::new();
    let mut p: usize = i;
    proof {
        if let Ok((t, e)) = sections(s@, i as int) {
            assert(out@ + t =~= t);
        }
    }
    while p < s.len()
        invariant
            i <= p <= s.len(),
            sections(s@, i as int) == after(out@, sections(s@, p as int)),
        decreases s.len() - p,
    {
        match parse_any_section(s, p) {
            Ok((mut t, e)) => {
                let q = scan(s, ByteClass::Space, e);
                proof {
                    lemma_after_after(out@, t@, sections(s@, q as int));
                }
                out.append(&mut t);
                p = q;
            },
            Err(e) => {
                return Err(e);
            },
        }
    }
    proof {
        assert(out@ + Seq::<Token>::empty() =~= out@);
    }
    Ok((out, p))
}

fn parse_file(s: &[u8]) -> (r: Found)
    ensures
        agrees(r, file(s@)),
{
    let p = scan(s, ByteClass::Space, 0);
    match parse_sections(s, p) {
        Ok((t, e)) => Ok(
            (join(enclose(Rule::file, 0, s.len(), t), single(Rule::EOI, s.len(), s.len())), s.len()),
        ),
        Err(e) => Err(e),
    }
}

/// Matches `rule` at the start of the text `s`.
pub fn recognise(rule: Rule, s: &[u8]) -> (r: Found)
    ensures
        agrees(r, matched(rule, s@)),
{
    match rule {
        Rule::NUMBER => parse_number(s, 0),
        Rule::COORDINATE => parse_coordinate(s, 0),
        Rule::NAME => parse_word(s, Rule::NAME, 0),
        Rule::COLOR => parse_word(s, Rule::COLOR, 0),
        Rule::station => parse_station(s, 0),
        Rule::shot => parse_shot(s, 0),
        Rule::scetchline => parse_scetchline(s, 0),
        Rule::xvigrids => parse_section(s, Rule::xvigrids, 0),
        Rule::xvigrid => parse_section(s, Rule::xvigrid, 0),
        Rule::xvistations => parse_section(s, Rule::xvistations, 0),
        Rule::xvishots => parse_section(s, Rule::xvishots, 0),
        Rule::xvisketchlines => parse_section(s, Rule::xvisketchlines, 0),
        Rule::file => parse_file(s),
        Rule::EOI => if s.len() == 0 {
            Ok((single(Rule::EOI, 0, 0), 0))
        } else {
            fail(0, Expected::EndOfInput)
        },
    }
}

} // verus!
