use durstr::{parse, Duration, Error, Parser, ParserOptions, ParserUnits, Scanner, Token};

fn parser_with(units: ParserUnits, ignore_case: bool) -> Parser {
    Parser::new(
        ParserOptions::default()
            .with_units(units)
            .ignore_case(ignore_case),
    )
}

#[test]
fn duration_constructors_and_parts() {
    assert_eq!(Duration::zero().as_secs(), 0);
    assert_eq!(Duration::zero().subsec_nanos(), 0);
    assert_eq!(Duration::max().as_secs(), u64::MAX);
    assert_eq!(Duration::max().subsec_nanos(), 999_999_999);
    assert_eq!(Duration::new(5, 2_500_000_000), Duration::new(7, 500_000_000));
    assert_eq!(Duration::from_millis(1_234).as_secs(), 1);
    assert_eq!(Duration::from_millis(1_234).subsec_nanos(), 234_000_000);
    assert_eq!(Duration::from_nanos(3_000_000_007), Duration::new(3, 7));
    assert_eq!(Duration::from_secs(42).as_secs(), 42);
    assert_eq!(Duration::from_secs(42).subsec_nanos(), 0);
}

#[test]
fn duration_checked_add() {
    assert_eq!(
        Duration::new(1, 600_000_000).checked_add(Duration::new(2, 700_000_000)),
        Some(Duration::new(4, 300_000_000))
    );
    assert_eq!(
        Duration::new(u64::MAX, 999_999_998).checked_add(Duration::from_nanos(1)),
        Some(Duration::max())
    );
    assert_eq!(Duration::max().checked_add(Duration::from_nanos(1)), None);
    assert_eq!(
        Duration::new(u64::MAX, 500_000_000).checked_add(Duration::new(0, 500_000_000)),
        None
    );
}

#[test]
fn duration_checked_mul() {
    assert_eq!(
        Duration::new(1, 600_000_000).checked_mul(3),
        Some(Duration::new(4, 800_000_000))
    );
    assert_eq!(
        Duration::from_nanos(999_999_999).checked_mul(u32::MAX),
        Some(Duration::new(4_294_967_290, 705_032_705))
    );
    assert_eq!(Duration::max().checked_mul(0), Some(Duration::zero()));
    assert_eq!(Duration::max().checked_mul(1), Some(Duration::max()));
    assert_eq!(Duration::max().checked_mul(2), None);
    assert_eq!(Duration::new(u64::MAX / 2 + 1, 0).checked_mul(2), None);
}

#[test]
fn every_error_variant() {
    assert_eq!(parse("1s?"), Err(Error::UnexpectedChar('?')));
    assert_eq!(parse("3 fortnights"), Err(Error::UnexpectedUnit("fortnights".into())));
    assert_eq!(parse("12"), Err(Error::ExpectedUnit));
    assert_eq!(parse("min"), Err(Error::ExpectedNumber));
    assert_eq!(parse("99999999999h"), Err(Error::Overflow("99999999999".into())));
    let mut big = ParserUnits::new();
    big.add_unit("eon", Duration::new(u64::MAX / 4, 0)).unwrap();
    assert_eq!(parser_with(big, false).parse("5eon"), Err(Error::DurationOverflow));
    let mut units = ParserUnits::new();
    assert_eq!(
        units.add_unit("no way", Duration::zero()),
        Err(Error::InvalidUnit("no way".into()))
    );
}

#[test]
fn first_error_wins() {
    assert_eq!(parse("1x ?"), Err(Error::UnexpectedChar('?')));
    assert_eq!(parse("1x 2s"), Err(Error::UnexpectedUnit("x".into())));
    assert_eq!(parse("5000000000s ?"), Err(Error::Overflow("5000000000".into())));
}

#[test]
fn scanner_tokens() {
    assert_eq!(Scanner::new(" ,\t").scan_tokens(), Ok(vec![]));
    assert_eq!(
        Scanner::new("007abc,Xy 3").scan_tokens(),
        Ok(vec![
            Token::Number(7),
            Token::Unit("abc".to_string()),
            Token::Unit("Xy".to_string()),
            Token::Number(3),
        ])
    );
    assert_eq!(
        Scanner::new("12 4294967296").scan_tokens(),
        Err(Error::Overflow("4294967296".into()))
    );
    assert_eq!(Scanner::new("1 é").scan_tokens(), Err(Error::UnexpectedChar('é')));
}

#[test]
fn unicode_whitespace_separates() {
    for ws in [
        '\u{9}', '\u{a}', '\u{b}', '\u{c}', '\u{d}', ' ', '\u{85}', '\u{a0}', '\u{1680}',
        '\u{2000}', '\u{200a}', '\u{2028}', '\u{2029}', '\u{202f}', '\u{205f}', '\u{3000}',
    ] {
        let input = format!("{ws}1{ws}m{ws}");
        assert_eq!(parse(&input), Ok(Duration::from_secs(60)), "{input:?}");
    }
    for not_ws in ['\u{200b}', '\u{180e}', '\u{feff}'] {
        let input = format!("1m{not_ws}");
        assert_eq!(parse(&input), Err(Error::UnexpectedChar(not_ws)), "{input:?}");
    }
}

#[test]
fn law_separators_only_give_zero() {
    for input in ["", " ", ",", "\u{3000},\n"] {
        assert_eq!(parse(input), Ok(Duration::zero()), "{input:?}");
        assert_eq!(
            parser_with(ParserUnits::new(), true).parse(input),
            Ok(Duration::zero()),
            "{input:?}"
        );
    }
}

#[test]
fn law_number_then_unit_is_a_product() {
    assert_eq!(parse("7min"), Ok(Duration::from_secs(420)));
    assert_eq!(parse("250ms"), Ok(Duration::from_millis(250)));
    assert_eq!(parse("4294967296ms"), Err(Error::Overflow("4294967296".into())));
    let mut units = ParserUnits::new();
    units.add_unit("week", Duration::from_secs(604_800)).unwrap();
    let parser = parser_with(units, false);
    assert_eq!(parser.parse("2week"), Ok(Duration::from_secs(1_209_600)));
    assert_eq!(parser.parse("2weeks"), Err(Error::UnexpectedUnit("weeks".into())));
}

#[test]
fn law_joined_strings_add_up() {
    let a = "1h 30min";
    let b = "15s";
    let joined = format!("{a},{b}");
    assert_eq!(parse(&joined), Ok(Duration::from_secs(5_415)));
    let x = parse(a).unwrap();
    let y = parse(b).unwrap();
    assert_eq!(x.checked_add(y), Some(parse(&joined).unwrap()));

    let mut units = ParserUnits::new();
    units.add_unit("max", Duration::max()).unwrap();
    let parser = parser_with(units, false);
    assert_eq!(parser.parse("1max"), Ok(Duration::max()));
    assert_eq!(parser.parse("0max"), Ok(Duration::zero()));
    assert_eq!(parser.parse("1max 1max"), Err(Error::DurationOverflow));
    assert_eq!(parser.parse("1max 0max"), Ok(Duration::max()));
}

#[test]
fn law_join_order_does_not_matter() {
    assert_eq!(parse("2h\t5ms"), parse("5ms\t2h"));
    assert_eq!(parse("3s,1min 2s"), parse("1min 2s,3s"));
    assert_eq!(parse("3s,1min 2s"), Ok(Duration::from_secs(65)));
}

#[test]
fn law_ignore_case_reads_lowercase() {
    let parser = parser_with(ParserUnits::default(), true);
    for (mixed, lower) in [("1H 2MiNs", "1h 2mins"), ("3SECOND", "3second"), ("4Days", "4days")] {
        assert_eq!(parser.parse(mixed), parser.parse(lower), "{mixed:?}");
    }
    assert_eq!(parser.parse("1H 2MiNs"), Ok(Duration::from_secs(3_720)));
    assert_eq!(parser.parse("4Days"), Err(Error::UnexpectedUnit("days".into())));
    assert_eq!(parse("1H"), Err(Error::UnexpectedUnit("H".into())));
}

#[test]
fn law_leading_zeros_do_not_count() {
    assert_eq!(parse("0000042s"), parse("42s"));
    assert_eq!(parse("0s"), parse("000s"));
    assert_eq!(parse("00004294967295s"), Ok(Duration::from_secs(4_294_967_295)));
}

#[test]
fn add_unit_replaces_and_refuses() {
    let mut units = ParserUnits::new();
    assert_eq!(units.add_unit("beat", Duration::from_millis(500)), Ok(()));
    assert_eq!(units.add_unit("beat", Duration::from_millis(750)), Ok(()));
    assert_eq!(units.add_unit("beat2", Duration::from_millis(1)), Err(Error::InvalidUnit("beat2".into())));
    assert_eq!(units.add_unit("", Duration::from_millis(1)), Err(Error::InvalidUnit("".into())));
    let parser = parser_with(units, false);
    assert_eq!(parser.parse("2beat"), Ok(Duration::from_millis(1_500)));
    assert_eq!(parser.parse("1beat2"), Err(Error::ExpectedUnit));
}

#[test]
fn default_parser_is_the_parse_function() {
    for input in ["1h", "2 MIN", "3secs, 4ms", "x", "5"] {
        assert_eq!(Parser::default().parse(input), parse(input), "{input:?}");
    }
}

#[test]
fn law_many_pieces_in_any_order() {
    let orders = [
        ["0003s", "2min", "1h", "1s"],
        ["1h", "2min", "0003s", "1s"],
        ["1s", "0003s", "1h", "2min"],
        ["2min", "1s", "1h", "0003s"],
    ];
    for pieces in orders {
        let joined = pieces.join(",");
        assert_eq!(parse(&joined), Ok(Duration::from_secs(3724)), "{joined:?}");
    }
    let mut units = ParserUnits::new();
    units.add_unit("half", Duration::new(u64::MAX / 2, 0)).unwrap();
    units.add_unit("ns", Duration::from_nanos(1)).unwrap();
    let parser = parser_with(units, false);
    assert_eq!(parser.parse("1half,1half,3ns"), parser.parse("3ns,1half,1half"));
    assert_eq!(parser.parse("1half,1half,1half"), Err(Error::DurationOverflow));
}

#[test]
fn law_joined_components_each_parse_alone() {
    let pieces = ["7min", "0030s", "2h", "15ms"];
    for sep in [",", " ", "\t"] {
        let joined = pieces.join(sep);
        assert_eq!(parse(&joined), Ok(Duration::from_millis(7_650_015)), "{joined:?}");
        let mut total = Duration::zero();
        for piece in pieces {
            let alone = parse(piece);
            assert!(alone.is_ok(), "{piece:?}");
            total = total.checked_add(alone.unwrap()).unwrap();
        }
        assert_eq!(Ok(total), parse(&joined));
        let mut reversed = pieces;
        reversed.reverse();
        assert_eq!(parse(&reversed.join(sep)), parse(&joined));
    }
    // Pieces that are not a number followed by a unit may parse only together.
    assert_eq!(parse("5,s"), Ok(Duration::from_secs(5)));
    assert_eq!(parse("5"), Err(Error::ExpectedUnit));
    assert_eq!(parse("s"), Err(Error::ExpectedNumber));
}
