use xvi::{
    bounding_box, decode_integer, decode_number, grid_geometry, grid_spacing, parse_str,
    parse_string, reduce, BoundingBox, Coordinate, Decimal, DecodeFault, Expected, GridGeometry,
    Rule, Shot, Sketchline, Station, SyntaxError, Token, XVIParser, Xvi, XviError,
};

const UNIT: i128 = 1_000_000_000_000_000_000;

/// The number `hundredths / 100`.
fn d(hundredths: i128) -> Decimal {
    Decimal { units: hundredths * (UNIT / 100) }
}

fn c(x: i128, y: i128) -> Coordinate {
    Coordinate { x: d(x), y: d(y) }
}

fn float(n: Decimal) -> f64 {
    let text = format!("{}{}.{:018}", if n.units < 0 { "-" } else { "" }, n.units.unsigned_abs() / UNIT as u128, n.units.unsigned_abs() % UNIT as u128);
    text.parse().unwrap()
}

#[test]
fn number_literals() {
    assert_eq!(decode_number(b"1.0"), Some(Decimal { units: UNIT }));
    assert_eq!(float(decode_number(b"1.0").unwrap()), 1.0);
    assert_eq!(decode_number(b"-128.0"), Some(Decimal { units: -128 * UNIT }));
    assert_eq!(float(decode_number(b"-128.0").unwrap()), -128.0);
    assert_eq!(decode_number(b"1111.22"), Some(d(111122)));
    assert_eq!(float(decode_number(b"1111.22").unwrap()), 1111.22);
    assert_eq!(decode_number(b"0"), Some(Decimal { units: 0 }));
    assert_eq!(decode_number(b"-0.0"), Some(Decimal { units: 0 }));
    assert_eq!(decode_number(b"007"), Some(Decimal { units: 7 * UNIT }));
    assert_eq!(decode_number(b"39.3700787401"), Some(Decimal { units: 39_370_078_740_100_000_000 }));
    assert_eq!(
        decode_number(b"-109.842519685"),
        Some(Decimal { units: -109_842_519_685_000_000_000 })
    );
    assert_eq!(decode_number(b"0.000000000000000001"), Some(Decimal { units: 1 }));
}

#[test]
fn decimal_places_after_the_eighteenth_are_dropped() {
    assert_eq!(
        decode_number(b"0.1234567890123456789"),
        Some(Decimal { units: 123_456_789_012_345_678 })
    );
    assert_eq!(decode_number(b"0.0000000000000000009"), Some(Decimal { units: 0 }));
    assert_eq!(
        decode_number(b"-2.9999999999999999999999"),
        Some(Decimal { units: -2_999_999_999_999_999_999 })
    );
}

#[test]
fn whole_part_has_to_fit() {
    assert_eq!(
        decode_number(b"999999999999999999.999999999999999999"),
        Some(Decimal { units: UNIT * UNIT - 1 })
    );
    assert_eq!(
        decode_number(b"-999999999999999999"),
        Some(Decimal { units: -(UNIT - 1) * UNIT })
    );
    assert_eq!(decode_number(b"1000000000000000000"), None);
    assert_eq!(decode_number(b"-1000000000000000000.5"), None);
    assert_eq!(decode_number(b"0001000000000000000000"), None);
    assert_eq!(
        decode_number(b"340282366920938463463374607431768211456"),
        None
    );
}

#[test]
fn what_is_no_number() {
    for text in ["", "-", ".", "1.", ".5", "1.2.3", "1e5", "+1", " 1", "1 ", "--1", "1-", "1,5", "0x10"] {
        assert_eq!(decode_number(text.as_bytes()), None, "{:?}", text);
    }
}

#[test]
fn counts() {
    assert_eq!(decode_integer(b"84"), Some(84));
    assert_eq!(decode_integer(b"-93"), Some(-93));
    assert_eq!(decode_integer(b"0"), Some(0));
    assert_eq!(decode_integer(b"-0"), Some(0));
    assert_eq!(decode_integer(b"2147483647"), Some(i32::MAX));
    assert_eq!(decode_integer(b"-2147483648"), Some(i32::MIN));
    assert_eq!(decode_integer(b"2147483648"), None);
    assert_eq!(decode_integer(b"-2147483649"), None);
    assert_eq!(decode_integer(b"99999999999999999999999999"), None);
    assert_eq!(decode_integer(b"84.0"), None);
    assert_eq!(decode_integer(b""), None);
    assert_eq!(decode_integer(b"-"), None);
    assert_eq!(decode_integer(b"8 4"), None);
}

#[test]
fn stations_in_document_order() {
    let xvi = parse_str("XVIstations {\n    {1037.95 236.26 2.54}\n    {1107.91 337.68 2.55}\n}")
        .unwrap();
    assert_eq!(
        xvi.stations,
        vec![
            Station { pos: c(103795, 23626), name: "2.54".to_string() },
            Station { pos: c(110791, 33768), name: "2.55".to_string() },
        ]
    );
    assert_eq!(float(xvi.stations[0].pos.x), 1037.95);
    assert_eq!(float(xvi.stations[0].pos.y), 236.26);
    assert_eq!(float(xvi.stations[1].pos.x), 1107.91);
    assert_eq!(float(xvi.stations[1].pos.y), 337.68);
    assert!(xvi.shots.is_empty());
    assert!(xvi.sketchlines.is_empty());
    assert_eq!(
        xvi.bounds,
        Some(BoundingBox { min: c(103795, 23626), max: c(110791, 33768) })
    );
}

#[test]
fn one_station() {
    let xvi = parse_str("XVIstations {{1111.22 1533.50 2.75}}").unwrap();
    assert_eq!(xvi.stations, vec![Station { pos: c(111122, 153350), name: "2.75".to_string() }]);
    assert_eq!(float(xvi.stations[0].pos.x), 1111.22);
    assert_eq!(float(xvi.stations[0].pos.y), 1533.50);
    assert_eq!(xvi.bounds, Some(BoundingBox { min: c(111122, 153350), max: c(111122, 153350) }));
}

#[test]
fn one_shot() {
    let xvi = parse_str("XVIshots {{3032.80 830.51 3033.19 841.42}}").unwrap();
    assert_eq!(xvi.shots, vec![Shot { start: c(303280, 83051), end: c(303319, 84142) }]);
    assert_eq!(float(xvi.shots[0].start.x), 3032.80);
    assert_eq!(float(xvi.shots[0].start.y), 830.51);
    assert_eq!(float(xvi.shots[0].end.x), 3033.19);
    assert_eq!(float(xvi.shots[0].end.y), 841.42);
    assert_eq!(xvi.bounds, Some(BoundingBox { min: c(303280, 83051), max: c(303319, 84142) }));
}

#[test]
fn one_sketchline() {
    let xvi = parse_str("XVIsketchlines {{brown 2932.87 685.63 2928.15 686.22}}").unwrap();
    assert_eq!(
        xvi.sketchlines,
        vec![Sketchline {
            color: "brown".to_string(),
            points: vec![c(293287, 68563), c(292815, 68622)],
        }]
    );
    assert_eq!(float(xvi.sketchlines[0].points[0].x), 2932.87);
    assert_eq!(float(xvi.sketchlines[0].points[1].y), 686.22);
    assert_eq!(xvi.bounds, Some(BoundingBox { min: c(292815, 68563), max: c(293287, 68622) }));
}

const DRAWING: &str = "XVIgrids {1.0 m}
XVIstations {
    {10.00 -5.00 1.0}
    {-20.50 7.25 1.1}
}
XVIshots {
    {10.00 -5.00 -20.50 7.25}
    {-20.50 7.25 3 40}
}
XVIsketchlines {
    {brown  2.3 2.6  7 3  1.81 4.17}
    {black  39.37 6.61 0 -12.5}
}
XVIgrid {738.97637795 -109.842519685 39.3700787401 0.0 0.0 39.3700787401 84 93}
XVIstations {
    {1 2 entrance}
}
";

#[test]
fn a_whole_drawing() {
    let xvi = parse_string(DRAWING.to_string()).unwrap();
    assert_eq!(
        xvi,
        Xvi {
            stations: vec![
                Station { pos: c(1000, -500), name: "1.0".to_string() },
                Station { pos: c(-2050, 725), name: "1.1".to_string() },
                Station { pos: c(100, 200), name: "entrance".to_string() },
            ],
            shots: vec![
                Shot { start: c(1000, -500), end: c(-2050, 725) },
                Shot { start: c(-2050, 725), end: c(300, 4000) },
            ],
            sketchlines: vec![
                Sketchline {
                    color: "brown".to_string(),
                    points: vec![c(230, 260), c(700, 300), c(181, 417)],
                },
                Sketchline { color: "black".to_string(), points: vec![c(3937, 661), c(0, -1250)] },
            ],
            // the origin of the grid, far to the right, is no part of it
            bounds: Some(BoundingBox { min: c(-2050, -1250), max: c(3937, 4000) }),
        }
    );
}

#[test]
fn box_holds_every_coordinate_and_is_least() {
    let xvi = parse_str(DRAWING).unwrap();
    let b = xvi.bounds.unwrap();
    let mut all: Vec<Coordinate> = Vec::new();
    all.extend(xvi.stations.iter().map(|s| s.pos));
    all.extend(xvi.shots.iter().flat_map(|s| [s.start, s.end]));
    all.extend(xvi.sketchlines.iter().flat_map(|l| l.points.iter().copied()));
    assert_eq!(all.len(), 3 + 4 + 5);
    for p in &all {
        assert!(b.min.x.units <= p.x.units && p.x.units <= b.max.x.units);
        assert!(b.min.y.units <= p.y.units && p.y.units <= b.max.y.units);
    }
    assert!(all.iter().any(|p| p.x == b.min.x));
    assert!(all.iter().any(|p| p.y == b.min.y));
    assert!(all.iter().any(|p| p.x == b.max.x));
    assert!(all.iter().any(|p| p.y == b.max.y));
}

#[test]
fn decoding_twice_gives_the_same() {
    assert_eq!(parse_str(DRAWING), parse_str(DRAWING));
    assert_eq!(parse_string(DRAWING.to_string()), parse_str(DRAWING));
    let broken = "XVIstations {{1 2 a}";
    assert_eq!(parse_str(broken), parse_str(broken));
}

#[test]
fn bounding_box_of_points() {
    assert_eq!(bounding_box(&vec![]), None);
    assert_eq!(bounding_box(&vec![c(1, 5)]), Some(BoundingBox { min: c(1, 5), max: c(1, 5) }));
    assert_eq!(
        bounding_box(&vec![c(1, 5), c(3, 2)]),
        Some(BoundingBox { min: c(1, 2), max: c(3, 5) })
    );
    assert_eq!(
        bounding_box(&vec![c(0, 0), c(-3, 2), c(4, -1), c(1, 1)]),
        Some(BoundingBox { min: c(-3, -1), max: c(4, 2) })
    );
    assert_eq!(
        bounding_box(&vec![c(2, 2), c(2, 2)]),
        Some(BoundingBox { min: c(2, 2), max: c(2, 2) })
    );
}

#[test]
fn drawing_from_its_parts() {
    let xvi = Xvi::new(
        vec![Station { pos: c(5, 5), name: "a".to_string() }],
        vec![Shot { start: c(5, 5), end: c(9, 1) }],
        vec![Sketchline { color: "red".to_string(), points: vec![c(-4, 6), c(0, 0)] }],
    );
    assert_eq!(xvi.stations.len(), 1);
    assert_eq!(xvi.shots.len(), 1);
    assert_eq!(xvi.sketchlines.len(), 1);
    assert_eq!(xvi.bounds, Some(BoundingBox { min: c(-4, 0), max: c(9, 6) }));
    assert_eq!(Xvi::new(vec![], vec![], vec![]).bounds, None);
}

#[test]
fn file_without_sections() {
    let empty = Xvi { stations: vec![], shots: vec![], sketchlines: vec![], bounds: None };
    assert_eq!(parse_str(""), Ok(empty.clone()));
    assert_eq!(parse_str("\n \t\r\n"), Ok(empty.clone()));
    assert_eq!(parse_string(String::new()), Ok(empty.clone()));
    // sections without coordinates leave the drawing without a box
    assert_eq!(
        parse_str("XVIgrids {1.0 m}\nXVIstations {}\nXVIshots {\n}\nXVIsketchlines { }\n"),
        Ok(empty.clone())
    );
    // the origin of the grid is no coordinate of the drawing
    assert_eq!(parse_str("XVIgrid {1 2 3 4 5 6 7 8}"), Ok(empty));
}

#[test]
fn malformed_text_is_a_syntax_error() {
    // a station without its closing brace: it takes that of the list
    assert_eq!(
        parse_str("XVIstations {\n    {1037.95 236.26 2.54\n}"),
        Err(XviError::Syntax(SyntaxError { offset: 40, expected: Expected::CloseBrace }))
    );
    assert_eq!(
        parse_str("XVIstations {\n    {1037.95 236.26 2.54"),
        Err(XviError::Syntax(SyntaxError { offset: 38, expected: Expected::CloseBrace }))
    );
    // a number with two decimal points
    assert_eq!(
        parse_str("XVIstations {{1037.95.1 236.26 2.54}}"),
        Err(XviError::Syntax(SyntaxError { offset: 21, expected: Expected::Space }))
    );
    assert_eq!(
        parse_str("XVIshots {{1 2 3 4.5.6}}"),
        Err(XviError::Syntax(SyntaxError { offset: 20, expected: Expected::CloseBrace }))
    );
    // valid sections before the mismatch do not make a drawing
    assert_eq!(
        parse_str("XVIstations {{1 2 a}}\nXVIshots {{1 2 3}}"),
        Err(XviError::Syntax(SyntaxError { offset: 38, expected: Expected::Space }))
    );
    assert_eq!(
        parse_str("set XVIgrids {1.0 m}"),
        Err(XviError::Syntax(SyntaxError { offset: 0, expected: Expected::Keyword }))
    );
}

#[test]
fn numbers_that_cannot_be_held() {
    assert_eq!(
        parse_str("XVIstations {{1000000000000000000 2 a}}"),
        Err(XviError::Decode(DecodeFault::Number))
    );
    assert_eq!(
        parse_str("XVIgrids {123456789012345678901234567890 m}"),
        Err(XviError::Decode(DecodeFault::Number))
    );
    // the extents of the grid are counts
    assert_eq!(
        parse_str("XVIgrid {1 2 3 4 5 6 84.5 93}"),
        Err(XviError::Decode(DecodeFault::Number))
    );
    assert_eq!(
        parse_str("XVIgrid {1 2 3 4 5 6 84 2147483648}"),
        Err(XviError::Decode(DecodeFault::Number))
    );
    assert!(parse_str("XVIgrid {1 2 3 4 5 6 -84 2147483647}").is_ok());
    // the mismatch comes first
    assert_eq!(
        parse_str("XVIstations {{1000000000000000000 2 a}"),
        Err(XviError::Syntax(SyntaxError { offset: 38, expected: Expected::CloseBrace }))
    );
}

#[test]
fn names_keep_their_characters() {
    let xvi = parse_str("XVIstations {{1 2 H\u{f6}hle@\u{4e2d}}}").unwrap();
    assert_eq!(xvi.stations[0].name, "H\u{f6}hle@\u{4e2d}");
    let xvi = parse_str("XVIsketchlines {{dunkelgr\u{fc}n 1 2 3 4}}").unwrap();
    assert_eq!(xvi.sketchlines[0].color, "dunkelgr\u{fc}n");
}

fn t(rule: Rule, start: usize, end: usize) -> Token {
    Token { rule, start, end }
}

#[test]
fn reducing_spans() {
    let text = "XVIstations {{1 2 a}}";
    let tokens = XVIParser::parse(Rule::file, text).unwrap();
    assert_eq!(
        reduce(text, &tokens),
        Ok(Xvi {
            stations: vec![Station { pos: c(100, 200), name: "a".to_string() }],
            shots: vec![],
            sketchlines: vec![],
            bounds: Some(BoundingBox { min: c(100, 200), max: c(100, 200) }),
        })
    );
    // the walk ends at the end marker, or with the last span
    let text = "1 2 a";
    let spans = vec![
        t(Rule::file, 0, 5),
        t(Rule::xvistations, 0, 5),
        t(Rule::station, 0, 5),
        t(Rule::COORDINATE, 0, 3),
        t(Rule::NUMBER, 0, 1),
        t(Rule::NUMBER, 2, 3),
        t(Rule::NAME, 4, 5),
    ];
    let one = reduce(text, &spans).unwrap();
    assert_eq!(one.stations, vec![Station { pos: c(100, 200), name: "a".to_string() }]);
    let mut ended = spans.clone();
    ended.push(t(Rule::EOI, 5, 5));
    ended.push(t(Rule::NUMBER, 0, 1));
    assert_eq!(reduce(text, &ended), Ok(one));
}

#[test]
fn spans_that_are_no_file() {
    let text = "1 2 a";
    assert_eq!(reduce(text, &vec![]), Err(DecodeFault::Shape));
    // the spans of a rule other than `file`
    let tokens = XVIParser::parse(Rule::COORDINATE, text).unwrap();
    assert_eq!(reduce(text, &tokens), Err(DecodeFault::Shape));
    // a span that opens no section
    assert_eq!(
        reduce(text, &vec![t(Rule::file, 0, 5), t(Rule::NUMBER, 0, 1)]),
        Err(DecodeFault::Shape)
    );
    assert_eq!(
        reduce(text, &vec![t(Rule::file, 0, 5), t(Rule::station, 0, 5)]),
        Err(DecodeFault::Shape)
    );
    // a record that is cut short
    assert_eq!(
        reduce(
            text,
            &vec![
                t(Rule::file, 0, 5),
                t(Rule::xvistations, 0, 5),
                t(Rule::station, 0, 5),
                t(Rule::COORDINATE, 0, 3),
                t(Rule::NUMBER, 0, 1),
                t(Rule::NUMBER, 2, 3),
            ]
        ),
        Err(DecodeFault::Shape)
    );
    // a record of another list
    assert_eq!(
        reduce(
            text,
            &vec![
                t(Rule::file, 0, 5),
                t(Rule::xvishots, 0, 5),
                t(Rule::shot, 0, 5),
                t(Rule::COORDINATE, 0, 3),
                t(Rule::NUMBER, 0, 1),
                t(Rule::NUMBER, 2, 3),
                t(Rule::NAME, 4, 5),
            ]
        ),
        Err(DecodeFault::Shape)
    );
    // a span that does not lie in the text
    assert_eq!(
        reduce(text, &vec![t(Rule::file, 0, 5), t(Rule::xvigrids, 0, 5), t(Rule::NUMBER, 4, 6)]),
        Err(DecodeFault::Shape)
    );
    assert_eq!(
        reduce(text, &vec![t(Rule::file, 0, 5), t(Rule::xvigrids, 0, 5), t(Rule::NUMBER, 3, 2)]),
        Err(DecodeFault::Shape)
    );
    // a NUMBER span over what is no number
    assert_eq!(
        reduce(text, &vec![t(Rule::file, 0, 5), t(Rule::xvigrids, 0, 5), t(Rule::NUMBER, 0, 3)]),
        Err(DecodeFault::Number)
    );
    // a word that starts inside a character
    let text = "1 2 \u{f6}";
    assert_eq!(
        reduce(
            text,
            &vec![
                t(Rule::file, 0, 6),
                t(Rule::xvistations, 0, 6),
                t(Rule::station, 0, 6),
                t(Rule::COORDINATE, 0, 3),
                t(Rule::NUMBER, 0, 1),
                t(Rule::NUMBER, 2, 3),
                t(Rule::NAME, 5, 6),
            ]
        ),
        Err(DecodeFault::Shape)
    );
}

#[test]
fn background_grid() {
    let text = "XVIgrids {1.5 m}\nXVIgrid {738.97637795 -109.842519685 39.3700787401 0.0 0.0 39.3700787401 84 93}";
    let tokens = XVIParser::parse(Rule::file, text).unwrap();
    assert_eq!(tokens[1].rule, Rule::xvigrids);
    assert_eq!(grid_spacing(text, &tokens, 1), Ok(Decimal { units: UNIT + UNIT / 2 }));
    assert_eq!(tokens[3].rule, Rule::xvigrid);
    assert_eq!(
        grid_geometry(text, &tokens, 3),
        Ok(GridGeometry {
            origin: Coordinate {
                x: Decimal { units: 738_976_377_950_000_000_000 },
                y: Decimal { units: -109_842_519_685_000_000_000 },
            },
            gridsize1: Decimal { units: 39_370_078_740_100_000_000 },
            unknown1: Decimal { units: 0 },
            unknown2: Decimal { units: 0 },
            gridsize2: Decimal { units: 39_370_078_740_100_000_000 },
            extent_x: 84,
            extent_y: 93,
        })
    );
    assert_eq!(grid_spacing(text, &tokens, 0), Err(DecodeFault::Shape));
    assert_eq!(grid_geometry(text, &tokens, 1), Err(DecodeFault::Shape));
    assert_eq!(grid_geometry(text, &tokens, 12), Err(DecodeFault::Shape));
}
