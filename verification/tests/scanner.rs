use toml_parser::{ConversionError, ErrorKind, Parser, TomlPair, TomlValue};

/// Pulls every entry of a document, up to the end or the first fault.
fn pull_all(document: &str) -> (Vec<TomlPair<'_>>, Option<ErrorKind>) {
    let mut parser = Parser::new();
    let mut pairs = Vec::new();
    loop {
        match parser.read_pair(document) {
            Ok(Some(pair)) => pairs.push(pair),
            Ok(None) => return (pairs, None),
            Err(error) => return (pairs, Some(error.kind())),
        }
    }
}

fn first(document: &str) -> Result<Option<TomlPair<'_>>, ErrorKind> {
    Parser::new().read_pair(document).map_err(|error| error.kind())
}

fn integer(document: &str) -> i64 {
    match first(document) {
        Ok(Some(pair)) => match pair.value() {
            TomlValue::Integer(number) => *number,
            other => panic!("not an integer: {:?}", other),
        },
        other => panic!("no entry: {:?}", other),
    }
}

fn float_literal(document: &str) -> String {
    match first(document) {
        Ok(Some(pair)) => match pair.value() {
            TomlValue::Float(literal) => literal.clone(),
            other => panic!("not a float: {:?}", other),
        },
        other => panic!("no entry: {:?}", other),
    }
}

#[test]
fn decimal_integers_are_read_back() {
    for number in [0i64, 1, 7, 10, 99, 100, 1234, 9_007_199_254_740_993, i64::MAX, -1, -10, -46, i64::MIN] {
        let document = format!("k = {}", number);
        assert_eq!(
            first(&document),
            Ok(Some(TomlPair::new("k", TomlValue::Integer(number))))
        );
    }
}

#[test]
fn signed_zero_is_zero() {
    assert_eq!(integer("k = -0"), 0);
    assert_eq!(integer("k = +0"), 0);
    assert_eq!(integer("k = -0\n"), 0);
    assert_eq!(integer("k = -0\t"), 0);
}

#[test]
fn signed_zero_takes_nothing_behind_it() {
    assert_eq!(first("k = -01"), Err(ErrorKind::InvalidEndOfLine(1)));
    assert_eq!(first("k = -0.5"), Err(ErrorKind::InvalidEndOfLine(1)));
    assert_eq!(first("k = -0\rx"), Err(ErrorKind::InvalidEndOfLine(1)));
}

#[test]
fn comment_after_signed_zero_is_refused_by_the_next_pull() {
    let document = "k = -0# note";
    let mut parser = Parser::new();
    assert_eq!(
        parser.read_pair(document).unwrap(),
        Some(TomlPair::new("k", TomlValue::Integer(0)))
    );
    assert_eq!(
        parser.read_pair(document).unwrap_err().kind(),
        ErrorKind::InvalidValue(1)
    );
}

#[test]
fn integers_that_do_not_fit_are_invalid() {
    let error = Parser::new().read_pair("k = 9223372036854775808").unwrap_err();
    assert_eq!(error.kind(), ErrorKind::InvalidValue(1));
    assert_eq!(error.source(), Some(ConversionError::PositiveOverflow));

    let document = "a = 1\nk = -9223372036854775809\n";
    let mut parser = Parser::new();
    assert!(parser.read_pair(document).unwrap().is_some());
    let error = parser.read_pair(document).unwrap_err();
    assert_eq!(error.kind(), ErrorKind::InvalidValue(2));
    assert_eq!(error.source(), Some(ConversionError::NegativeOverflow));

    let error = Parser::new().read_pair("k = 0xFFFFFFFFFFFFFFFFF").unwrap_err();
    assert_eq!(error.kind(), ErrorKind::InvalidValue(1));
    assert_eq!(error.source(), Some(ConversionError::PositiveOverflow));
}

#[test]
fn the_largest_integers_of_each_radix_fit() {
    assert_eq!(integer("k = 0x7FFFFFFFFFFFFFFF"), i64::MAX);
    assert_eq!(integer("k = 0o777777777777777777777"), i64::MAX);
    assert_eq!(
        integer("k = 0b111111111111111111111111111111111111111111111111111111111111111"),
        i64::MAX
    );
}

#[test]
fn radix_prefixes() {
    assert_eq!(integer("k = 0x1A"), 26);
    assert_eq!(integer("k = 0o17"), 15);
    assert_eq!(integer("k = 0b101"), 5);
    assert_eq!(integer("k = 0xff"), 255);
    assert_eq!(integer("k = 0xDead_Beef"), 0xDEAD_BEEF);
    assert_eq!(integer("k = +0x10"), 16);
}

#[test]
fn a_prefix_without_digits_is_zero() {
    assert_eq!(integer("k = 0x"), 0);
    assert_eq!(integer("k = 0b_\n"), 0);
}

#[test]
fn digits_outside_the_radix_are_invalid() {
    assert_eq!(first("k = 0o18"), Err(ErrorKind::InvalidValue(1)));
    assert_eq!(first("k = 0b102"), Err(ErrorKind::InvalidValue(1)));
    assert_eq!(first("k = 0x1G"), Err(ErrorKind::InvalidValue(1)));
    assert_eq!(first("k = 12a"), Err(ErrorKind::InvalidValue(1)));
    assert_eq!(first("k = 0o1.5"), Err(ErrorKind::InvalidValue(1)));
}

#[test]
fn leading_zeros_are_invalid() {
    assert_eq!(first("k = 01"), Err(ErrorKind::InvalidValue(1)));
    assert_eq!(first("k = 0z"), Err(ErrorKind::InvalidValue(1)));
}

#[test]
fn underscores_are_passed_over() {
    assert_eq!(integer("k = 1_234"), 1234);
    assert_eq!(integer("k = 1__2_"), 12);
    assert_eq!(integer("k = -2_4"), -24);
    assert_eq!(float_literal("k = 0.4_3"), "0.43");
    assert_eq!(float_literal("k = 1_0.2_5e1_0"), "10.25e10");
    assert_eq!(float_literal("k = 0.4_3").parse::<f64>().unwrap(), 0.43);
}

#[test]
fn floats() {
    assert_eq!(float_literal("k = 123.43"), "123.43");
    assert_eq!(float_literal("k = 0.1e02"), "0.1e02");
    assert_eq!(float_literal("k = 0e5"), "0e5");
    assert_eq!(float_literal("k = 5E3 "), "5E3");
    assert_eq!(float_literal("k = 1."), "1.");
    assert_eq!(float_literal("k = +1.5\r\n"), "1.5");
    assert!((float_literal("k = 0.1e02").parse::<f64>().unwrap() - 10.0).abs() < 0.01);
    assert_eq!(float_literal("k = 6.25e2").parse::<f64>().unwrap(), 625.0);
}

#[test]
fn malformed_floats_are_invalid() {
    assert_eq!(first("k = 0.1e02e3"), Err(ErrorKind::InvalidValue(1)));
    assert_eq!(first("k = 1e2.3"), Err(ErrorKind::InvalidValue(1)));
    assert_eq!(first("k = 1.2.3"), Err(ErrorKind::InvalidValue(1)));
    assert_eq!(first("k = 1e"), Err(ErrorKind::InvalidValue(1)));
    assert_eq!(first("k = 0e"), Err(ErrorKind::InvalidValue(1)));
    assert_eq!(first("k = 1.5e"), Err(ErrorKind::InvalidValue(1)));
    assert_eq!(first("k = 1e+5"), Err(ErrorKind::InvalidValue(1)));
    assert_eq!(first("k = 1e_5"), Err(ErrorKind::InvalidValue(1)));
    assert_eq!(first("k = 1.5x"), Err(ErrorKind::InvalidValue(1)));
    assert_eq!(first("k = 1.5\r"), Err(ErrorKind::InvalidEndOfLine(1)));
}

#[test]
fn negative_floats_are_invalid() {
    assert_eq!(first("k = -1.5"), Err(ErrorKind::InvalidValue(1)));
    assert_eq!(first("k = -1e5"), Err(ErrorKind::InvalidValue(1)));
}

#[test]
fn a_sign_needs_a_digit_behind_it() {
    assert_eq!(first("k = +"), Err(ErrorKind::InvalidValue(1)));
    assert_eq!(first("k = + 5"), Err(ErrorKind::InvalidValue(1)));
    assert_eq!(first("k = +true"), Err(ErrorKind::InvalidValue(1)));
    assert_eq!(first("k = ++5"), Err(ErrorKind::InvalidValue(1)));
    assert_eq!(first("k = -"), Err(ErrorKind::InvalidValue(1)));
    assert_eq!(first("k = -x"), Err(ErrorKind::InvalidValue(1)));
    assert_eq!(first("k = --5"), Err(ErrorKind::InvalidValue(1)));
}

#[test]
fn strings() {
    assert_eq!(
        first("k = \"abc\""),
        Ok(Some(TomlPair::new("k", TomlValue::String("abc"))))
    );
    assert_eq!(
        first("k = \"\""),
        Ok(Some(TomlPair::new("k", TomlValue::String(""))))
    );
    assert_eq!(
        first("k = \"a = #b\\n\"\n"),
        Ok(Some(TomlPair::new("k", TomlValue::String("a = #b\\n"))))
    );
}

#[test]
fn unterminated_strings_are_invalid() {
    assert_eq!(first("k = \"abc"), Err(ErrorKind::InvalidValue(1)));
    assert_eq!(first("k = \"abc\nd\""), Err(ErrorKind::InvalidValue(1)));
    assert_eq!(first("k = \"abc\r\n"), Err(ErrorKind::InvalidValue(1)));
}

#[test]
fn text_outside_ascii_is_borrowed_whole() {
    let document = "na\u{ef}ve = \"h\u{e9}llo \u{4e16}\u{754c} \u{1f600}\"\n\u{e9} = 1";
    let (pairs, fault) = pull_all(document);
    assert_eq!(fault, None);
    assert_eq!(
        pairs,
        vec![
            TomlPair::new("na\u{ef}ve", TomlValue::String("h\u{e9}llo \u{4e16}\u{754c} \u{1f600}")),
            TomlPair::new("\u{e9}", TomlValue::Integer(1)),
        ]
    );
}

#[test]
fn booleans() {
    assert_eq!(
        first("k = true"),
        Ok(Some(TomlPair::new("k", TomlValue::Bool(true))))
    );
    assert_eq!(
        first("k = false\n"),
        Ok(Some(TomlPair::new("k", TomlValue::Bool(false))))
    );
    assert_eq!(first("k = f"), Err(ErrorKind::InvalidValue(1)));
    assert_eq!(first("k = tru"), Err(ErrorKind::InvalidValue(1)));
    assert_eq!(first("k = fals"), Err(ErrorKind::InvalidValue(1)));
    assert_eq!(first("k = True"), Err(ErrorKind::UnknownValueType(1)));
    assert_eq!(first("k = trve"), Err(ErrorKind::InvalidValue(1)));
}

#[test]
fn what_follows_a_value_on_its_line_is_invalid() {
    for document in ["k = true x", "k = truex", "k = \"a\" \"b\"", "k = 1 2", "k = 1 # note", "k = \"\"\""] {
        let mut parser = Parser::new();
        assert!(parser.read_pair(document).unwrap().is_some());
        assert_eq!(
            parser.read_pair(document).unwrap_err().kind(),
            ErrorKind::InvalidValue(1)
        );
    }
}

#[test]
fn missing_values() {
    assert_eq!(first("k ="), Err(ErrorKind::MissingValue(1)));
    assert_eq!(first("k =   "), Err(ErrorKind::MissingValue(1)));
    assert_eq!(first("k =\n"), Err(ErrorKind::MissingValue(1)));
    assert_eq!(first("k = \r\n"), Err(ErrorKind::MissingValue(1)));
    assert_eq!(first("k = # note"), Err(ErrorKind::MissingValue(1)));
    assert_eq!(first("\n\nk ="), Err(ErrorKind::MissingValue(3)));
}

#[test]
fn unknown_value_types() {
    assert_eq!(first("k = [1, 2]"), Err(ErrorKind::UnknownValueType(1)));
    assert_eq!(first("k = {a = 1}"), Err(ErrorKind::UnknownValueType(1)));
    assert_eq!(first("k = 'abc'"), Err(ErrorKind::UnknownValueType(1)));
    assert_eq!(first("k = _1"), Err(ErrorKind::UnknownValueType(1)));
    assert_eq!(first("k = .5"), Err(ErrorKind::UnknownValueType(1)));
    assert_eq!(first("k = \u{e9}"), Err(ErrorKind::UnknownValueType(1)));
}

#[test]
fn bare_carriage_returns_are_invalid_line_endings() {
    assert_eq!(first("\rk = 1"), Err(ErrorKind::InvalidEndOfLine(1)));
    assert_eq!(first("k = \r"), Err(ErrorKind::InvalidEndOfLine(1)));
    assert_eq!(first("k = 1\r"), Err(ErrorKind::InvalidEndOfLine(1)));
    assert_eq!(first("k = 0\rx"), Err(ErrorKind::InvalidEndOfLine(1)));
    assert_eq!(first("k = 0x1\r"), Err(ErrorKind::InvalidEndOfLine(1)));
    assert_eq!(first("\n\n\r"), Err(ErrorKind::InvalidEndOfLine(3)));
    let document = "k = \"a\"\r";
    let mut parser = Parser::new();
    assert!(parser.read_pair(document).unwrap().is_some());
    assert_eq!(
        parser.read_pair(document).unwrap_err().kind(),
        ErrorKind::InvalidEndOfLine(1)
    );
}

#[test]
fn malformed_names() {
    assert_eq!(first("fred\n = 4"), Err(ErrorKind::InvalidName(1)));
    assert_eq!(first("fred \n = 4"), Err(ErrorKind::InvalidName(1)));
    assert_eq!(first("fred\r\n = 4"), Err(ErrorKind::InvalidName(1)));
    assert_eq!(first("fred"), Err(ErrorKind::InvalidName(1)));
    assert_eq!(first("fred "), Err(ErrorKind::InvalidName(1)));
    assert_eq!(first("fred 4"), Err(ErrorKind::InvalidName(1)));
    assert_eq!(first("a = 1\n\n  fred\n = 4"), Ok(Some(TomlPair::new("a", TomlValue::Integer(1)))));
    assert_eq!(pull_all("a = 1\n\n  fred\n = 4").1, Some(ErrorKind::InvalidName(3)));
    assert_eq!(pull_all("a = 1\r\nb = 2\r\nfred jim = 4").1, Some(ErrorKind::InvalidName(3)));
}

#[test]
fn names_cannot_begin_with_a_comment_a_quote_or_equals() {
    assert_eq!(first("# note\nk = 1"), Err(ErrorKind::InvalidName(1)));
    assert_eq!(first("#=1"), Err(ErrorKind::InvalidName(1)));
    assert_eq!(first("\"k\" = 1"), Err(ErrorKind::InvalidName(1)));
    assert_eq!(first("= 1"), Err(ErrorKind::InvalidName(1)));
    assert_eq!(first("==1"), Err(ErrorKind::InvalidName(1)));
    assert_eq!(first("\n =1"), Err(ErrorKind::InvalidName(2)));
}

#[test]
fn names_take_any_other_byte() {
    assert_eq!(
        first("a.b-c_d#\"[0]=1"),
        Ok(Some(TomlPair::new("a.b-c_d#\"[0]", TomlValue::Integer(1))))
    );
    assert_eq!(
        first("\t k\t \t=\t 1"),
        Ok(Some(TomlPair::new("k", TomlValue::Integer(1))))
    );
}

#[test]
fn entries_come_in_order_over_both_line_endings() {
    let document = "a = 1\nb = \"two\"\r\n\r\n \t\nc = true\r\nd = 0x4\n e = 5.5\nf = -6";
    let (pairs, fault) = pull_all(document);
    assert_eq!(fault, None);
    assert_eq!(
        pairs,
        vec![
            TomlPair::new("a", TomlValue::Integer(1)),
            TomlPair::new("b", TomlValue::String("two")),
            TomlPair::new("c", TomlValue::Bool(true)),
            TomlPair::new("d", TomlValue::Integer(4)),
            TomlPair::new("e", TomlValue::Float("5.5".to_string())),
            TomlPair::new("f", TomlValue::Integer(-6)),
        ]
    );
}

#[test]
fn a_trailing_blank_line_yields_no_entry() {
    for document in ["k = 1\n", "k = 1\n\n", "k = 1\r\n  \t\r\n", "k = \"a\" \n \n", "k = true\n\n"] {
        let (pairs, fault) = pull_all(document);
        assert_eq!(fault, None);
        assert_eq!(pairs.len(), 1);
    }
}

#[test]
fn documents_without_entries() {
    for document in ["", " ", "\n", "\r\n\r\n", " \t\n\t \r\n "] {
        assert_eq!(first(document), Ok(None));
    }
}

#[test]
fn the_end_is_final() {
    let document = "k = 1\n";
    let mut parser = Parser::new();
    assert!(parser.read_pair(document).unwrap().is_some());
    for _ in 0..4 {
        assert_eq!(parser.read_pair(document).unwrap(), None);
    }
    assert_eq!(parser.read_pair("other = 2").unwrap(), None);
}

#[test]
fn faults_bear_the_line_on_which_they_stand() {
    assert_eq!(pull_all("a = 1\nb = 2\nc = ?").1, Some(ErrorKind::UnknownValueType(3)));
    assert_eq!(pull_all("a = 1\r\nb = 2\r\nc = 1x").1, Some(ErrorKind::InvalidValue(3)));
    assert_eq!(pull_all("a = \"x\"\n\n\n\nb = \"y").1, Some(ErrorKind::InvalidValue(5)));
    assert_eq!(pull_all("a = true\nb = false\nc").1, Some(ErrorKind::InvalidName(3)));
    assert_eq!(pull_all("a = 0\nb = -0\nc = 0\rd").1, Some(ErrorKind::InvalidEndOfLine(3)));
    assert_eq!(pull_all("a = 1.5\nb = 0x1\nc = 0o7\nd = 0b1\ne = -1\nf =").1, Some(ErrorKind::MissingValue(6)));
}

#[test]
fn a_scanner_resumes_on_a_longer_document() {
    let mut parser = Parser::new();
    assert_eq!(
        parser.read_pair("a = \"x\"").unwrap(),
        Some(TomlPair::new("a", TomlValue::String("x")))
    );
    assert_eq!(
        parser.read_pair("a = \"x\"\nb = 2").unwrap(),
        Some(TomlPair::new("b", TomlValue::Integer(2)))
    );
}

#[test]
fn a_cursor_in_the_middle_of_a_character_begins_no_name() {
    let mut parser = Parser::new();
    assert!(parser.read_pair("a = 12\n").unwrap().is_some());
    assert_eq!(
        parser.read_pair("\u{4e16}\u{754c}\u{4e16}\u{754c}").unwrap_err().kind(),
        ErrorKind::InvalidName(2)
    );
}

#[test]
fn entries_give_up_their_parts() {
    let pair = first("k = 12").unwrap().unwrap();
    assert_eq!(pair.name(), "k");
    assert_eq!(pair.value(), &TomlValue::Integer(12));
    assert_eq!(pair.into_parts(), ("k", TomlValue::Integer(12)));
}

#[test]
fn a_scanner_tells_where_it_stands() {
    let document = "a = 1\r\nb = \"x\" \nc = ?";
    let mut parser = Parser::new();
    assert_eq!((parser.position(), parser.line_number()), (0, 1));
    assert!(parser.can_resume());

    assert!(parser.read_pair(document).unwrap().is_some());
    assert_eq!((parser.position(), parser.line_number()), (7, 2));
    assert!(parser.can_resume());

    assert!(parser.read_pair(document).unwrap().is_some());
    assert_eq!((parser.position(), parser.line_number()), (14, 2));
    assert!(parser.can_resume());

    assert!(parser.read_pair(document).is_err());
    assert_eq!(parser.line_number(), 3);
    assert!(!parser.can_resume());
}

#[test]
fn a_scanner_at_the_end_stands_behind_the_document() {
    let document = "a = 1\n\n";
    let mut parser = Parser::new();
    assert!(parser.read_pair(document).unwrap().is_some());
    assert_eq!(parser.read_pair(document).unwrap(), None);
    assert_eq!((parser.position(), parser.line_number()), (7, 3));
    assert!(parser.can_resume());
}
