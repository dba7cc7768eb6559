//! The grammar and the reducer agree: the spans that the grammar finds in a
//! file are laid out as the reducer reads them.

use vstd::prelude::*;
use vstd::utf8::{
    is_char_boundary, is_char_boundary_iff_not_is_continuation_byte,
    is_char_boundary_start_end_of_seq, length_of_first_scalar, pop_first_scalar, valid_utf8,
    valid_utf8_split,
};
use crate::bytes::{in_class, lemma_run_end, run_end, ByteClass, CLOSE_BRACE, OPEN_BRACE};
use crate::decimal::{decimal_of, digits_value, is_number_text, sign_len, whole_digits, UNIT};
use crate::grammar::{
    any_section, body, coordinate, coordinates, file, has_byte, has_bytes, keyword,
    lemma_coordinate_bounds, lemma_number_bounds, lemma_record_bounds,
    lemma_spaced_coordinate_bounds, lemma_spaced_number_bounds, number, record, records, scetchline,
    section, sections, lemma_any_section_bounds, number_end, shot, spaced_coordinate, spaced_number,
    spaced_numbers, spaced_word, station, token, word,
};
use crate::reduce::{
    coordinate_at, points_from, record_at, record_rule, records_from, reduction, section_at,
    sections_from, shot_at, sketchline_at, spans, station_at, word_at, DecodeFault, Read,
};
use crate::token::{Rule, Token};
use crate::xvi::{decoded, decodes, Xvi, XviError};

verus! {

/// Whether `bytes` can be the bytes of a string.
pub open spec fn is_text(bytes: Seq<u8>) -> bool {
    valid_utf8(bytes) && bytes.len() <= usize::MAX
}

/// Whether the spans `part` stand in `all` from the index `k` on.
spec fn has_at(all: Seq<Token>, k: int, part: Seq<Token>) -> bool {
    &&& 0 <= k
    &&& k + part.len() <= all.len()
    &&& forall|j: int| 0 <= j < part.len() ==> #[trigger] part[j] == all[k + j]
}

/// How deep in a file the spans of `rule` lie: a file and its end are at
/// three, sections at two, records at one, and what records hold at zero.
spec fn height(rule: Rule) -> int {
    match rule {
        Rule::file | Rule::EOI => 3,
        Rule::xvigrids | Rule::xvigrid | Rule::xvistations | Rule::xvishots
        | Rule::xvisketchlines => 2,
        Rule::station | Rule::shot | Rule::scetchline => 1,
        _ => 0,
    }
}

/// Whether no span stands in `all` at `k`, or one of a rule that lies at
/// `least` or higher.
spec fn ends_at(all: Seq<Token>, k: int, least: int) -> bool {
    k >= all.len() || (0 <= k && height(all[k].rule) >= least)
}

/// Whether `r` is a value that was read up to the span at `next`, or the
/// fault of a number that cannot be held.
spec fn reads_to<T>(r: Read<T>, next: int) -> bool {
    match r {
        Ok((_, n)) => n == next,
        Err(e) => e == DecodeFault::Number,
    }
}

/// Whether `r` is anything but the fault of spans that are not laid out as
/// those of a file.
pub open spec fn well_shaped<T>(r: Result<T, DecodeFault>) -> bool {
    match r {
        Ok(_) => true,
        Err(e) => e != DecodeFault::Shape,
    }
}

proof fn lemma_has_at_split(all: Seq<Token>, k: int, a: Seq<Token>, b: Seq<Token>)
    requires
        has_at(all, k, a + b),
    ensures
        has_at(all, k, a),
        has_at(all, k + a.len(), b),
{
    assert forall|j: int| 0 <= j < a.len() implies #[trigger] a[j] == all[k + j] by {
        assert((a + b)[j] == a[j]);
    }
    assert forall|j: int| 0 <= j < b.len() implies #[trigger] b[j] == all[k + a.len() + j] by {
        assert((a + b)[a.len() + j] == b[j]);
    }
}

proof fn lemma_has_at_first(all: Seq<Token>, k: int, part: Seq<Token>)
    requires
        has_at(all, k, part),
        part.len() > 0,
    ensures
        all[k] == part[0],
{
    assert(part[0] == all[k + 0]);
}

/// In a text, the place behind an ASCII byte is one where a character
/// starts, or the end.
proof fn lemma_boundary_after_ascii(b: Seq<u8>, j: int)
    requires
        valid_utf8(b),
        0 < j <= b.len(),
        b[j - 1] < 0x80,
    ensures
        is_char_boundary(b, j),
    decreases b.len(),
{
    let first = length_of_first_scalar(b);
    let rest = pop_first_scalar(b);
    if j - 1 < first {
        assert(j == 1);
        assert(is_char_boundary(rest, 0));
    } else {
        assert(rest[j - 1 - first] == b[j - 1]);
        lemma_boundary_after_ascii(rest, j - first);
    }
}

/// A span that stands between ASCII bytes, or at an end of the text, starts
/// and ends where characters do.
proof fn lemma_span_on_boundaries(b: Seq<u8>, start: int, end: int)
    requires
        valid_utf8(b),
        0 <= start <= end <= b.len(),
        start == 0 || b[start - 1] < 0x80,
        end == b.len() || b[end] < 0x80,
    ensures
        is_char_boundary(b, end),
        is_char_boundary(b.subrange(0, end), start),
{
    if end == b.len() {
        is_char_boundary_start_end_of_seq(b);
    } else {
        is_char_boundary_iff_not_is_continuation_byte(b, end);
    }
    valid_utf8_split(b, end);
    let head = b.subrange(0, end);
    if start > 0 {
        assert(head[start - 1] == b[start - 1]);
        lemma_boundary_after_ascii(head, start);
    }
}

proof fn lemma_number_agrees(s: Seq<u8>, i: int, all: Seq<Token>, k: int)
    requires
        is_text(s),
        0 <= i <= s.len(),
        number(s, i) is Ok,
        has_at(all, k, number(s, i).unwrap().0),
    ensures
        number(s, i).unwrap().0.len() == 1,
        spans(s, all, k, Rule::NUMBER),
{
    lemma_number_bounds(s, i);
    lemma_has_at_first(all, k, number(s, i).unwrap().0);
}

proof fn lemma_spaced_number_agrees(s: Seq<u8>, i: int, all: Seq<Token>, k: int)
    requires
        is_text(s),
        0 <= i <= s.len(),
        spaced_number(s, i) is Ok,
        has_at(all, k, spaced_number(s, i).unwrap().0),
    ensures
        spaced_number(s, i).unwrap().0.len() == 1,
        spans(s, all, k, Rule::NUMBER),
{
    lemma_run_end(s, ByteClass::Space, i);
    lemma_number_agrees(s, run_end(s, ByteClass::Space, i), all, k);
}

proof fn lemma_coordinate_agrees(s: Seq<u8>, i: int, all: Seq<Token>, k: int)
    requires
        is_text(s),
        0 <= i <= s.len(),
        coordinate(s, i) is Ok,
        has_at(all, k, coordinate(s, i).unwrap().0),
    ensures
        coordinate(s, i).unwrap().0.len() == 3,
        all[k].rule == Rule::COORDINATE,
        well_shaped(coordinate_at(s, all, k)),
{
    let (x, e) = number(s, i).unwrap();
    let (y, end) = spaced_number(s, e).unwrap();
    lemma_number_bounds(s, i);
    let own = seq![token(Rule::COORDINATE, i, end)];
    lemma_has_at_split(all, k, own, x + y);
    lemma_has_at_first(all, k, own);
    lemma_has_at_split(all, k + 1, x, y);
    lemma_number_agrees(s, i, all, k + 1);
    lemma_spaced_number_agrees(s, e, all, k + 2);
}

proof fn lemma_spaced_coordinate_agrees(s: Seq<u8>, i: int, all: Seq<Token>, k: int)
    requires
        is_text(s),
        0 <= i <= s.len(),
        spaced_coordinate(s, i) is Ok,
        has_at(all, k, spaced_coordinate(s, i).unwrap().0),
    ensures
        spaced_coordinate(s, i).unwrap().0.len() == 3,
        all[k].rule == Rule::COORDINATE,
        well_shaped(coordinate_at(s, all, k)),
{
    lemma_run_end(s, ByteClass::Space, i);
    lemma_coordinate_agrees(s, run_end(s, ByteClass::Space, i), all, k);
}

proof fn lemma_word_agrees(s: Seq<u8>, rule: Rule, i: int, all: Seq<Token>, k: int)
    requires
        is_text(s),
        0 <= i <= s.len(),
        i == 0 || s[i - 1] < 0x80,
        word(s, rule, i) is Ok,
        has_at(all, k, word(s, rule, i).unwrap().0),
    ensures
        word(s, rule, i).unwrap().0.len() == 1,
        word_at(s, all, k, rule) is Ok,
{
    let end = run_end(s, ByteClass::Word, i);
    lemma_run_end(s, ByteClass::Word, i);
    lemma_has_at_first(all, k, word(s, rule, i).unwrap().0);
    lemma_span_on_boundaries(s, i, end);
}

proof fn lemma_spaced_word_agrees(s: Seq<u8>, rule: Rule, i: int, all: Seq<Token>, k: int)
    requires
        is_text(s),
        0 <= i <= s.len(),
        spaced_word(s, rule, i) is Ok,
        has_at(all, k, spaced_word(s, rule, i).unwrap().0),
    ensures
        spaced_word(s, rule, i).unwrap().0.len() == 1,
        word_at(s, all, k, rule) is Ok,
{
    let p = run_end(s, ByteClass::Space, i);
    lemma_run_end(s, ByteClass::Space, i);
    assert(in_class(ByteClass::Space, s[p - 1]));
    lemma_word_agrees(s, rule, p, all, k);
}

proof fn lemma_station_agrees(s: Seq<u8>, i: int, all: Seq<Token>, k: int)
    requires
        is_text(s),
        0 <= i <= s.len(),
        station(s, i) is Ok,
        has_at(all, k, station(s, i).unwrap().0),
    ensures
        station(s, i).unwrap().0.len() == 5,
        all[k].rule == Rule::station,
        well_shaped(station_at(s, all, k)),
{
    let p = run_end(s, ByteClass::Space, i + 1);
    lemma_run_end(s, ByteClass::Space, i + 1);
    let (pos, e) = coordinate(s, p).unwrap();
    lemma_coordinate_bounds(s, p);
    let (name, e2) = spaced_word(s, Rule::NAME, e).unwrap();
    let end = station(s, i).unwrap().1;
    let own = seq![token(Rule::station, i, end)];
    lemma_has_at_split(all, k, own, pos + name);
    lemma_has_at_first(all, k, own);
    lemma_has_at_split(all, k + 1, pos, name);
    lemma_coordinate_agrees(s, p, all, k + 1);
    lemma_spaced_word_agrees(s, Rule::NAME, e, all, k + 4);
}

proof fn lemma_shot_agrees(s: Seq<u8>, i: int, all: Seq<Token>, k: int)
    requires
        is_text(s),
        0 <= i <= s.len(),
        shot(s, i) is Ok,
        has_at(all, k, shot(s, i).unwrap().0),
    ensures
        shot(s, i).unwrap().0.len() == 7,
        all[k].rule == Rule::shot,
        well_shaped(shot_at(s, all, k)),
{
    let p = run_end(s, ByteClass::Space, i + 1);
    lemma_run_end(s, ByteClass::Space, i + 1);
    let (from, e) = coordinate(s, p).unwrap();
    lemma_coordinate_bounds(s, p);
    let (to, e2) = spaced_coordinate(s, e).unwrap();
    let end = shot(s, i).unwrap().1;
    let own = seq![token(Rule::shot, i, end)];
    lemma_has_at_split(all, k, own, from + to);
    lemma_has_at_first(all, k, own);
    lemma_has_at_split(all, k + 1, from, to);
    lemma_coordinate_agrees(s, p, all, k + 1);
    lemma_spaced_coordinate_agrees(s, e, all, k + 4);
}

proof fn lemma_coordinates_agree(s: Seq<u8>, i: int, all: Seq<Token>, k: int)
    requires
        is_text(s),
        0 <= i <= s.len(),
        coordinates(s, i) is Ok,
        has_at(all, k, coordinates(s, i).unwrap().0),
        ends_at(all, k + coordinates(s, i).unwrap().0.len(), 1),
    ensures
        coordinates(s, i).unwrap().0.len() >= 3,
        all[k].rule == Rule::COORDINATE,
        reads_to(points_from(s, all, k), k + coordinates(s, i).unwrap().0.len()),
    decreases s.len() - i,
{
    let (c, e) = coordinate(s, i).unwrap();
    lemma_coordinate_bounds(s, i);
    let p = run_end(s, ByteClass::Space, e);
    if e < p < s.len() && s[p] != CLOSE_BRACE {
        let (rest, end) = coordinates(s, p).unwrap();
        lemma_has_at_split(all, k, c, rest);
        lemma_coordinate_agrees(s, i, all, k);
        lemma_coordinates_agree(s, p, all, k + 3);
    } else {
        lemma_coordinate_agrees(s, i, all, k);
    }
}

proof fn lemma_scetchline_agrees(s: Seq<u8>, i: int, all: Seq<Token>, k: int)
    requires
        is_text(s),
        0 <= i <= s.len(),
        scetchline(s, i) is Ok,
        has_at(all, k, scetchline(s, i).unwrap().0),
        ends_at(all, k + scetchline(s, i).unwrap().0.len(), 1),
    ensures
        scetchline(s, i).unwrap().0.len() > 0,
        all[k].rule == Rule::scetchline,
        reads_to(sketchline_at(s, all, k), k + scetchline(s, i).unwrap().0.len()),
{
    let p = run_end(s, ByteClass::Space, i + 1);
    lemma_run_end(s, ByteClass::Space, i + 1);
    let (color, e) = word(s, Rule::COLOR, p).unwrap();
    lemma_run_end(s, ByteClass::Word, p);
    let (first, e1) = spaced_coordinate(s, e).unwrap();
    lemma_spaced_coordinate_bounds(s, e);
    let q = run_end(s, ByteClass::Space, e1);
    lemma_run_end(s, ByteClass::Space, e1);
    let (more, e2) = coordinates(s, q).unwrap();
    let end = scetchline(s, i).unwrap().1;
    let own = seq![token(Rule::scetchline, i, end)];
    lemma_has_at_split(all, k, own, color + (first + more));
    lemma_has_at_first(all, k, own);
    lemma_has_at_split(all, k + 1, color, first + more);
    assert(p == i + 1 || in_class(ByteClass::Space, s[p - 1]));
    lemma_word_agrees(s, Rule::COLOR, p, all, k + 1);
    lemma_has_at_split(all, k + 2, first, more);
    lemma_spaced_coordinate_agrees(s, e, all, k + 2);
    lemma_coordinates_agree(s, q, all, k + 5);
}

proof fn lemma_record_agrees(s: Seq<u8>, kind: Rule, i: int, all: Seq<Token>, k: int)
    requires
        is_text(s),
        0 <= i <= s.len(),
        record(s, kind, i) is Ok,
        has_at(all, k, record(s, kind, i).unwrap().0),
        ends_at(all, k + record(s, kind, i).unwrap().0.len(), 1),
    ensures
        record(s, kind, i).unwrap().0.len() > 0,
        all[k].rule == record_rule(kind),
        reads_to(record_at(s, all, kind, k), k + record(s, kind, i).unwrap().0.len()),
{
    match kind {
        Rule::xvistations => {
            lemma_station_agrees(s, i, all, k);
        },
        Rule::xvishots => {
            lemma_shot_agrees(s, i, all, k);
        },
        _ => {
            lemma_scetchline_agrees(s, i, all, k);
        },
    }
}

proof fn lemma_records_agree(s: Seq<u8>, kind: Rule, i: int, all: Seq<Token>, k: int)
    requires
        is_text(s),
        0 <= i <= s.len(),
        records(s, kind, i) is Ok,
        has_at(all, k, records(s, kind, i).unwrap().0),
        ends_at(all, k + records(s, kind, i).unwrap().0.len(), 2),
    ensures
        reads_to(records_from(s, all, kind, k), k + records(s, kind, i).unwrap().0.len()),
        records(s, kind, i).unwrap().0.len() > 0 ==> height(all[k].rule) == 1,
    decreases s.len() - i,
{
    if has_byte(s, i, OPEN_BRACE) {
        let (r, e) = record(s, kind, i).unwrap();
        lemma_record_bounds(s, kind, i);
        let p = run_end(s, ByteClass::Space, e);
        lemma_run_end(s, ByteClass::Space, e);
        let (rest, end) = records(s, kind, p).unwrap();
        lemma_has_at_split(all, k, r, rest);
        lemma_records_agree(s, kind, p, all, k + r.len());
        lemma_record_agrees(s, kind, i, all, k);
    }
}

proof fn lemma_spaced_numbers_agree(s: Seq<u8>, i: int, count: nat, all: Seq<Token>, k: int)
    requires
        is_text(s),
        0 <= i <= s.len(),
        spaced_numbers(s, i, count) is Ok,
        has_at(all, k, spaced_numbers(s, i, count).unwrap().0),
    ensures
        spaced_numbers(s, i, count).unwrap().0.len() == count,
        forall|j: int| k <= j < k + count ==> spans(s, all, j, Rule::NUMBER),
    decreases count,
{
    if count > 0 {
        let (n, e) = spaced_number(s, i).unwrap();
        lemma_spaced_number_bounds(s, i);
        let (rest, end) = spaced_numbers(s, e, (count - 1) as nat).unwrap();
        lemma_has_at_split(all, k, n, rest);
        lemma_spaced_number_agrees(s, i, all, k);
        lemma_spaced_numbers_agree(s, e, (count - 1) as nat, all, k + 1);
    }
}

proof fn lemma_section_agrees(s: Seq<u8>, rule: Rule, i: int, all: Seq<Token>, k: int)
    requires
        is_text(s),
        0 <= i <= s.len(),
        height(rule) == 2,
        section(s, rule, i) is Ok,
        has_at(all, k, section(s, rule, i).unwrap().0),
        ends_at(all, k + section(s, rule, i).unwrap().0.len(), 2),
    ensures
        section(s, rule, i).unwrap().0.len() > 0,
        all[k].rule == rule,
        reads_to(section_at(s, all, k), k + section(s, rule, i).unwrap().0.len()),
{
    let b = run_end(s, ByteClass::Space, i + keyword(rule).len());
    lemma_run_end(s, ByteClass::Space, i + keyword(rule).len());
    let p = run_end(s, ByteClass::Space, b + 1);
    lemma_run_end(s, ByteClass::Space, b + 1);
    let (inner, e) = body(s, rule, p).unwrap();
    let end = section(s, rule, i).unwrap().1;
    let own = seq![token(rule, i, end)];
    lemma_has_at_split(all, k, own, inner);
    lemma_has_at_first(all, k, own);
    match rule {
        Rule::xvigrids => {
            lemma_number_agrees(s, p, all, k + 1);
        },
        Rule::xvigrid => {
            let (origin, e1) = coordinate(s, p).unwrap();
            lemma_coordinate_bounds(s, p);
            let (fields, e2) = spaced_numbers(s, e1, 6).unwrap();
            lemma_has_at_split(all, k + 1, origin, fields);
            lemma_coordinate_agrees(s, p, all, k + 1);
            lemma_spaced_numbers_agree(s, e1, 6, all, k + 4);
            assert(spans(s, all, k + 4, Rule::NUMBER));
            assert(spans(s, all, k + 5, Rule::NUMBER));
            assert(spans(s, all, k + 6, Rule::NUMBER));
            assert(spans(s, all, k + 7, Rule::NUMBER));
            assert(spans(s, all, k + 8, Rule::NUMBER));
            assert(spans(s, all, k + 9, Rule::NUMBER));
        },
        _ => {
            lemma_records_agree(s, rule, p, all, k + 1);
        },
    }
}

proof fn lemma_any_section_agrees(s: Seq<u8>, i: int, all: Seq<Token>, k: int)
    requires
        is_text(s),
        0 <= i <= s.len(),
        any_section(s, i) is Ok,
        has_at(all, k, any_section(s, i).unwrap().0),
        ends_at(all, k + any_section(s, i).unwrap().0.len(), 2),
    ensures
        any_section(s, i).unwrap().0.len() > 0,
        height(all[k].rule) == 2,
        reads_to(section_at(s, all, k), k + any_section(s, i).unwrap().0.len()),
{
    if has_bytes(s, i, keyword(Rule::xvigrids)) {
        lemma_section_agrees(s, Rule::xvigrids, i, all, k);
    } else if has_bytes(s, i, keyword(Rule::xvigrid)) {
        lemma_section_agrees(s, Rule::xvigrid, i, all, k);
    } else if has_bytes(s, i, keyword(Rule::xvistations)) {
        lemma_section_agrees(s, Rule::xvistations, i, all, k);
    } else if has_bytes(s, i, keyword(Rule::xvishots)) {
        lemma_section_agrees(s, Rule::xvishots, i, all, k);
    } else {
        lemma_section_agrees(s, Rule::xvisketchlines, i, all, k);
    }
}

proof fn lemma_sections_agree(s: Seq<u8>, i: int, all: Seq<Token>, k: int)
    requires
        is_text(s),
        0 <= i <= s.len(),
        sections(s, i) is Ok,
        has_at(all, k, sections(s, i).unwrap().0),
        k + sections(s, i).unwrap().0.len() < all.len(),
        all[k + sections(s, i).unwrap().0.len()].rule == Rule::EOI,
    ensures
        well_shaped(sections_from(s, all, k)),
        height(all[k].rule) >= 2,
    decreases s.len() - i,
{
    if i < s.len() {
        let (t, e) = any_section(s, i).unwrap();
        lemma_any_section_bounds(s, i);
        let p = run_end(s, ByteClass::Space, e);
        lemma_run_end(s, ByteClass::Space, e);
        let (rest, end) = sections(s, p).unwrap();
        lemma_has_at_split(all, k, t, rest);
        lemma_sections_agree(s, p, all, k + t.len());
        lemma_any_section_agrees(s, i, all, k);
    }
}

/// The spans of a file can be read: folding them into a drawing fails only
/// where a number cannot be held.
pub proof fn theorem_file_can_be_read(bytes: Seq<u8>)
    requires
        is_text(bytes),
        file(bytes) is Ok,
    ensures
        well_shaped(reduction(bytes, file(bytes).unwrap().0)),
        match decoded(bytes) {
            Err(XviError::Decode(e)) => e == DecodeFault::Number,
            _ => true,
        },
{
    let n = bytes.len() as int;
    let p = run_end(bytes, ByteClass::Space, 0);
    lemma_run_end(bytes, ByteClass::Space, 0);
    let (t, e) = sections(bytes, p).unwrap();
    let all = file(bytes).unwrap().0;
    let own = seq![token(Rule::file, 0, n)];
    let last = seq![token(Rule::EOI, n, n)];
    assert(all == own + t + last);
    assert(all[0] == own[0]);
    assert(all[1 + t.len() as int] == last[0]);
    assert forall|j: int| 0 <= j < t.len() implies #[trigger] t[j] == all[1 + j] by {}
    lemma_sections_agree(bytes, p, all, 1);
}

/// A text that matches the grammar decodes to a drawing, unless it holds a
/// number that cannot be held: a decoding fails with a mismatch or with the
/// fault of such a number, and with nothing else.
pub proof fn theorem_fault_is_a_number(bytes: Seq<u8>, r: Result<Xvi, XviError>)
    requires
        is_text(bytes),
        decodes(r, bytes),
    ensures
        r is Err ==> r.unwrap_err() is Syntax || r.unwrap_err() == XviError::Decode(
            DecodeFault::Number,
        ),
{
    if file(bytes) is Ok {
        theorem_file_can_be_read(bytes);
    }
}

/// A run in a part of the text ends where it ends in the text, or with the
/// part.
proof fn lemma_run_end_in_part(s: Seq<u8>, c: ByteClass, i: int, e: int, j: int)
    requires
        0 <= i <= i + j <= e <= s.len(),
    ensures
        run_end(s.subrange(i, e), c, j) == (if run_end(s, c, i + j) < e {
            run_end(s, c, i + j)
        } else {
            e
        }) - i,
    decreases e - i - j,
{
    let part = s.subrange(i, e);
    lemma_run_end(s, c, i + j);
    if i + j < e {
        assert(part[j] == s[i + j]);
        if in_class(c, s[i + j]) {
            lemma_run_end_in_part(s, c, i, e, j + 1);
        }
    }
}

/// What the grammar takes for a number, the decoder takes for one: the text
/// of a `NUMBER` span decodes unless its whole part is too large.
pub proof fn theorem_number_span_is_number(s: Seq<u8>, i: int)
    requires
        0 <= i <= s.len(),
        number(s, i) is Ok,
    ensures
        is_number_text(s.subrange(i, number_end(s, i))),
        decimal_of(s.subrange(i, number_end(s, i))) is Some <==> digits_value(
            whole_digits(s.subrange(i, number_end(s, i))),
        ) < UNIT,
{
    let e = number_end(s, i);
    let part = s.subrange(i, e);
    lemma_number_bounds(s, i);
    assert(part[0] == s[i]);
    let a = i + sign_len(part);
    let b = run_end(s, ByteClass::Digit, a);
    lemma_run_end(s, ByteClass::Digit, a);
    lemma_run_end_in_part(s, ByteClass::Digit, i, e, sign_len(part));
    if e > b {
        lemma_run_end(s, ByteClass::Digit, b + 1);
        assert(part[b - i] == s[b]);
        lemma_run_end_in_part(s, ByteClass::Digit, i, e, b - i + 1);
    }
}

} // verus!
