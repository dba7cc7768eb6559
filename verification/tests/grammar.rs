use xvi::{Expected, Rule, SyntaxError, Token, XVIParser};

fn t(rule: Rule, start: usize, end: usize) -> Token {
    Token { rule, start, end }
}

fn mismatch(offset: usize, expected: Expected) -> SyntaxError {
    SyntaxError { offset, expected }
}

#[test]
fn successful_parse() {
    // NUMBER
    assert_eq!(XVIParser::parse(Rule::NUMBER, "1.0"), Ok(vec![t(Rule::NUMBER, 0, 3)]));

    // XVIgrids
    assert_eq!(
        XVIParser::parse(Rule::xvigrids, "XVIgrids {1.0 m}\n"),
        Ok(vec![t(Rule::xvigrids, 0, 16), t(Rule::NUMBER, 10, 13)])
    );
    assert_eq!(
        XVIParser::parse(Rule::xvigrids, "XVIgrids {1.0 m}"),
        Ok(vec![t(Rule::xvigrids, 0, 16), t(Rule::NUMBER, 10, 13)])
    );

    // XVIstations
    assert_eq!(
        XVIParser::parse(Rule::station, "{1111.22 1533.50 2.75}"),
        Ok(vec![
            t(Rule::station, 0, 22),
            t(Rule::COORDINATE, 1, 16),
            t(Rule::NUMBER, 1, 8),
            t(Rule::NUMBER, 9, 16),
            t(Rule::NAME, 17, 21),
        ])
    );
    assert_eq!(
        XVIParser::parse(
            Rule::xvistations,
            "XVIstations {\n    {1037.95 236.26 2.54}\n    {1107.91 337.68 2.55}\n}"
        ),
        Ok(vec![
            t(Rule::xvistations, 0, 67),
            t(Rule::station, 18, 39),
            t(Rule::COORDINATE, 19, 33),
            t(Rule::NUMBER, 19, 26),
            t(Rule::NUMBER, 27, 33),
            t(Rule::NAME, 34, 38),
            t(Rule::station, 44, 65),
            t(Rule::COORDINATE, 45, 59),
            t(Rule::NUMBER, 45, 52),
            t(Rule::NUMBER, 53, 59),
            t(Rule::NAME, 60, 64),
        ])
    );

    // XVIshots
    assert_eq!(
        XVIParser::parse(Rule::shot, "{3032.80 830.51 3033.19 841.42}"),
        Ok(vec![
            t(Rule::shot, 0, 31),
            t(Rule::COORDINATE, 1, 15),
            t(Rule::NUMBER, 1, 8),
            t(Rule::NUMBER, 9, 15),
            t(Rule::COORDINATE, 16, 30),
            t(Rule::NUMBER, 16, 23),
            t(Rule::NUMBER, 24, 30),
        ])
    );
    assert_eq!(
        XVIParser::parse(
            Rule::xvishots,
            "XVIshots {\n    {3032.80 830.51 3033.19 841.42}\n    {3033.19 841.42 2974.53 894.33}\n}"
        ),
        Ok(vec![
            t(Rule::xvishots, 0, 84),
            t(Rule::shot, 15, 46),
            t(Rule::COORDINATE, 16, 30),
            t(Rule::NUMBER, 16, 23),
            t(Rule::NUMBER, 24, 30),
            t(Rule::COORDINATE, 31, 45),
            t(Rule::NUMBER, 31, 38),
            t(Rule::NUMBER, 39, 45),
            t(Rule::shot, 51, 82),
            t(Rule::COORDINATE, 52, 66),
            t(Rule::NUMBER, 52, 59),
            t(Rule::NUMBER, 60, 66),
            t(Rule::COORDINATE, 67, 81),
            t(Rule::NUMBER, 67, 74),
            t(Rule::NUMBER, 75, 81),
        ])
    );

    // XVIsketchlines
    assert_eq!(
        XVIParser::parse(Rule::scetchline, "{brown  2932.87 685.63  2928.15 686.22}"),
        Ok(vec![
            t(Rule::scetchline, 0, 39),
            t(Rule::COLOR, 1, 6),
            t(Rule::COORDINATE, 8, 22),
            t(Rule::NUMBER, 8, 15),
            t(Rule::NUMBER, 16, 22),
            t(Rule::COORDINATE, 24, 38),
            t(Rule::NUMBER, 24, 31),
            t(Rule::NUMBER, 32, 38),
        ])
    );
    // The first line, of three points, matches on its own. The second holds
    // a single point, and a sketch line needs two: the list stops matching
    // at the brace that closes it too early.
    let lines = "XVIsketchlines {\n    {brown  2.3 2.6  7 3  1.81 4.17}\n    {black  39.37 6.61}\n}";
    assert_eq!(lines.len(), 79);
    assert_eq!(
        XVIParser::parse(Rule::scetchline, &lines[21..]),
        Ok(vec![
            t(Rule::scetchline, 21 - 21, 53 - 21),
            t(Rule::COLOR, 22 - 21, 27 - 21),
            t(Rule::COORDINATE, 29 - 21, 36 - 21),
            t(Rule::NUMBER, 29 - 21, 32 - 21),
            t(Rule::NUMBER, 33 - 21, 36 - 21),
            t(Rule::COORDINATE, 38 - 21, 41 - 21),
            t(Rule::NUMBER, 38 - 21, 39 - 21),
            t(Rule::NUMBER, 40 - 21, 41 - 21),
            t(Rule::COORDINATE, 43 - 21, 52 - 21),
            t(Rule::NUMBER, 43 - 21, 47 - 21),
            t(Rule::NUMBER, 48 - 21, 52 - 21),
        ])
    );
    assert_eq!(
        XVIParser::parse(Rule::xvisketchlines, lines),
        Err(mismatch(76, Expected::Space))
    );
}

#[test]
fn sketchline_list_with_two_points_each() {
    let lines = "XVIsketchlines {\n    {brown  2.3 2.6  7 3  1.81 4.17}\n    {black  39.37 6.61 1 2}\n}";
    assert_eq!(
        XVIParser::parse(Rule::xvisketchlines, lines),
        Ok(vec![
            t(Rule::xvisketchlines, 0, 83),
            t(Rule::scetchline, 21, 53),
            t(Rule::COLOR, 22, 27),
            t(Rule::COORDINATE, 29, 36),
            t(Rule::NUMBER, 29, 32),
            t(Rule::NUMBER, 33, 36),
            t(Rule::COORDINATE, 38, 41),
            t(Rule::NUMBER, 38, 39),
            t(Rule::NUMBER, 40, 41),
            t(Rule::COORDINATE, 43, 52),
            t(Rule::NUMBER, 43, 47),
            t(Rule::NUMBER, 48, 52),
            t(Rule::scetchline, 58, 81),
            t(Rule::COLOR, 59, 64),
            t(Rule::COORDINATE, 66, 76),
            t(Rule::NUMBER, 66, 71),
            t(Rule::NUMBER, 72, 76),
            t(Rule::COORDINATE, 77, 80),
            t(Rule::NUMBER, 77, 78),
            t(Rule::NUMBER, 79, 80),
        ])
    );
}

#[test]
fn number_forms() {
    assert_eq!(XVIParser::parse(Rule::NUMBER, "-128.0"), Ok(vec![t(Rule::NUMBER, 0, 6)]));
    assert_eq!(XVIParser::parse(Rule::NUMBER, "7"), Ok(vec![t(Rule::NUMBER, 0, 1)]));
    // a point without a digit behind it is left where it is
    assert_eq!(XVIParser::parse(Rule::NUMBER, "7."), Ok(vec![t(Rule::NUMBER, 0, 1)]));
    // no exponent: the number ends before the letter
    assert_eq!(XVIParser::parse(Rule::NUMBER, "1.5e3"), Ok(vec![t(Rule::NUMBER, 0, 3)]));
    assert_eq!(XVIParser::parse(Rule::NUMBER, "1.2.3"), Ok(vec![t(Rule::NUMBER, 0, 3)]));
    assert_eq!(XVIParser::parse(Rule::NUMBER, ""), Err(mismatch(0, Expected::Number)));
    assert_eq!(XVIParser::parse(Rule::NUMBER, "-"), Err(mismatch(0, Expected::Number)));
    assert_eq!(XVIParser::parse(Rule::NUMBER, ".5"), Err(mismatch(0, Expected::Number)));
    assert_eq!(XVIParser::parse(Rule::NUMBER, "+1"), Err(mismatch(0, Expected::Number)));
    assert_eq!(XVIParser::parse(Rule::NUMBER, " 1"), Err(mismatch(0, Expected::Number)));
}

#[test]
fn coordinate_needs_white_space() {
    assert_eq!(
        XVIParser::parse(Rule::COORDINATE, "1.5\t-2"),
        Ok(vec![t(Rule::COORDINATE, 0, 6), t(Rule::NUMBER, 0, 3), t(Rule::NUMBER, 4, 6)])
    );
    assert_eq!(XVIParser::parse(Rule::COORDINATE, "1.5-2"), Err(mismatch(3, Expected::Space)));
    assert_eq!(XVIParser::parse(Rule::COORDINATE, "1.5 x"), Err(mismatch(4, Expected::Number)));
    assert_eq!(XVIParser::parse(Rule::COORDINATE, "x 1"), Err(mismatch(0, Expected::Number)));
}

#[test]
fn words() {
    assert_eq!(XVIParser::parse(Rule::NAME, "2.75}"), Ok(vec![t(Rule::NAME, 0, 4)]));
    assert_eq!(XVIParser::parse(Rule::NAME, "a@b-c rest"), Ok(vec![t(Rule::NAME, 0, 5)]));
    assert_eq!(XVIParser::parse(Rule::COLOR, "brown 1 2"), Ok(vec![t(Rule::COLOR, 0, 5)]));
    assert_eq!(XVIParser::parse(Rule::NAME, "H\u{f6}hle 1"), Ok(vec![t(Rule::NAME, 0, 6)]));
    assert_eq!(XVIParser::parse(Rule::NAME, ""), Err(mismatch(0, Expected::Name)));
    assert_eq!(XVIParser::parse(Rule::NAME, "{a}"), Err(mismatch(0, Expected::Name)));
    assert_eq!(XVIParser::parse(Rule::COLOR, " red"), Err(mismatch(0, Expected::Color)));
}

#[test]
fn station_mismatches() {
    assert_eq!(
        XVIParser::parse(Rule::station, "1 2 a}"),
        Err(mismatch(0, Expected::OpenBrace))
    );
    assert_eq!(XVIParser::parse(Rule::station, "{a 2 b}"), Err(mismatch(1, Expected::Number)));
    assert_eq!(XVIParser::parse(Rule::station, "{1 2}"), Err(mismatch(4, Expected::Space)));
    assert_eq!(XVIParser::parse(Rule::station, "{1 2 }"), Err(mismatch(5, Expected::Name)));
    // the closing brace is missing
    assert_eq!(
        XVIParser::parse(Rule::station, "{1111.22 1533.50 2.75"),
        Err(mismatch(21, Expected::CloseBrace))
    );
    assert_eq!(
        XVIParser::parse(Rule::station, "{1 2 a b}"),
        Err(mismatch(7, Expected::CloseBrace))
    );
    // two decimal points
    assert_eq!(
        XVIParser::parse(Rule::station, "{1.2.3 4 a}"),
        Err(mismatch(4, Expected::Space))
    );
    // white space is free inside the braces
    assert_eq!(
        XVIParser::parse(Rule::station, "{ 1 2\n a }"),
        Ok(vec![
            t(Rule::station, 0, 10),
            t(Rule::COORDINATE, 2, 5),
            t(Rule::NUMBER, 2, 3),
            t(Rule::NUMBER, 4, 5),
            t(Rule::NAME, 7, 8),
        ])
    );
}

#[test]
fn shot_mismatches() {
    assert_eq!(XVIParser::parse(Rule::shot, "{1 2 3}"), Err(mismatch(6, Expected::Space)));
    assert_eq!(XVIParser::parse(Rule::shot, "{1 2 3 4 5}"), Err(mismatch(9, Expected::CloseBrace)));
    assert_eq!(
        XVIParser::parse(Rule::shot, "{3032.80 830.51 3033.19 841.4.2}"),
        Err(mismatch(29, Expected::CloseBrace))
    );
}

#[test]
fn sketchline_mismatches() {
    assert_eq!(XVIParser::parse(Rule::scetchline, "{}"), Err(mismatch(1, Expected::Color)));
    // a colour without points
    assert_eq!(XVIParser::parse(Rule::scetchline, "{red}"), Err(mismatch(4, Expected::Space)));
    assert_eq!(XVIParser::parse(Rule::scetchline, "{red }"), Err(mismatch(5, Expected::Number)));
    // a single point
    assert_eq!(XVIParser::parse(Rule::scetchline, "{red 1 2}"), Err(mismatch(8, Expected::Space)));
    assert_eq!(
        XVIParser::parse(Rule::scetchline, "{red 1 2 }"),
        Err(mismatch(9, Expected::Number))
    );
    // half a point
    assert_eq!(
        XVIParser::parse(Rule::scetchline, "{red 1 2 3 4 5}"),
        Err(mismatch(14, Expected::Space))
    );
    assert_eq!(
        XVIParser::parse(Rule::scetchline, "{red 1 2 3 4 x}"),
        Err(mismatch(13, Expected::Number))
    );
}

#[test]
fn grid_sections() {
    // the unit is matched and gets no span
    assert_eq!(
        XVIParser::parse(Rule::xvigrids, "XVIgrids{2}"),
        Ok(vec![t(Rule::xvigrids, 0, 11), t(Rule::NUMBER, 9, 10)])
    );
    assert_eq!(
        XVIParser::parse(Rule::xvigrids, "XVIgrids {1.0 m x}"),
        Err(mismatch(16, Expected::CloseBrace))
    );
    assert_eq!(
        XVIParser::parse(Rule::xvigrids, "XVIgrids {1.0.5 m}"),
        Err(mismatch(13, Expected::CloseBrace))
    );
    assert_eq!(XVIParser::parse(Rule::xvigrids, "XVIgrid {1.0 m}"), Err(mismatch(0, Expected::Keyword)));
    assert_eq!(XVIParser::parse(Rule::xvigrids, "XVIgrids 1.0"), Err(mismatch(9, Expected::OpenBrace)));
    let grid = "XVIgrid {738.97637795 -109.842519685 39.3700787401 0.0 0.0 39.3700787401 84 93}";
    assert_eq!(
        XVIParser::parse(Rule::xvigrid, grid),
        Ok(vec![
            t(Rule::xvigrid, 0, 79),
            t(Rule::COORDINATE, 9, 36),
            t(Rule::NUMBER, 9, 21),
            t(Rule::NUMBER, 22, 36),
            t(Rule::NUMBER, 37, 50),
            t(Rule::NUMBER, 51, 54),
            t(Rule::NUMBER, 55, 58),
            t(Rule::NUMBER, 59, 72),
            t(Rule::NUMBER, 73, 75),
            t(Rule::NUMBER, 76, 78),
        ])
    );
    // seven numbers where eight are asked for
    assert_eq!(
        XVIParser::parse(Rule::xvigrid, "XVIgrid {1 2 3 4 5 6 7}"),
        Err(mismatch(22, Expected::Space))
    );
    // nine
    assert_eq!(
        XVIParser::parse(Rule::xvigrid, "XVIgrid {1 2 3 4 5 6 7 8 9}"),
        Err(mismatch(25, Expected::CloseBrace))
    );
}

#[test]
fn whole_files() {
    assert_eq!(
        XVIParser::parse(Rule::file, ""),
        Ok(vec![t(Rule::file, 0, 0), t(Rule::EOI, 0, 0)])
    );
    assert_eq!(
        XVIParser::parse(Rule::file, " \n\t"),
        Ok(vec![t(Rule::file, 0, 3), t(Rule::EOI, 3, 3)])
    );
    let text = "XVIshots {}\nXVIgrids {1.0 m}\nXVIstations {{1 2 a}}\nXVIshots { }\n";
    assert_eq!(text.len(), 64);
    assert_eq!(
        XVIParser::parse(Rule::file, text),
        Ok(vec![
            t(Rule::file, 0, 64),
            t(Rule::xvishots, 0, 11),
            t(Rule::xvigrids, 12, 28),
            t(Rule::NUMBER, 22, 25),
            t(Rule::xvistations, 29, 50),
            t(Rule::station, 42, 49),
            t(Rule::COORDINATE, 43, 46),
            t(Rule::NUMBER, 43, 44),
            t(Rule::NUMBER, 45, 46),
            t(Rule::NAME, 47, 48),
            t(Rule::xvishots, 51, 63),
            t(Rule::EOI, 64, 64),
        ])
    );
    // nothing may follow the last section
    assert_eq!(
        XVIParser::parse(Rule::file, "XVIshots {} x"),
        Err(mismatch(12, Expected::Keyword))
    );
    assert_eq!(
        XVIParser::parse(Rule::file, "XVIshots {} }"),
        Err(mismatch(12, Expected::Keyword))
    );
    assert_eq!(
        XVIParser::parse(Rule::file, "xvishots {}"),
        Err(mismatch(0, Expected::Keyword))
    );
    // a list holds the records of its own kind only
    assert_eq!(
        XVIParser::parse(Rule::file, "XVIshots {{1 2 a}}"),
        Err(mismatch(15, Expected::Number))
    );
    assert_eq!(
        XVIParser::parse(Rule::file, "XVIstations {{1 2 a}"),
        Err(mismatch(20, Expected::CloseBrace))
    );
}

#[test]
fn end_of_input_alone() {
    assert_eq!(XVIParser::parse(Rule::EOI, ""), Ok(vec![t(Rule::EOI, 0, 0)]));
    assert_eq!(XVIParser::parse(Rule::EOI, "x"), Err(mismatch(0, Expected::EndOfInput)));
}
