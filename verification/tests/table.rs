use toml_parser::{ConversionError, ErrorKind, Parser, TomlValue};

#[test]
fn a_table_holds_every_entry() {
    let document = "a = 1\nb = \"two\"\nc = true\nd = 4.5\n";
    let table = Parser::new().parse(document).unwrap();
    assert_eq!(table.len(), 4);
    assert_eq!(table.get("a"), Some(&TomlValue::Integer(1)));
    assert_eq!(table.get("b"), Some(&TomlValue::String("two")));
    assert_eq!(table.get("c"), Some(&TomlValue::Bool(true)));
    assert_eq!(table.get("d"), Some(&TomlValue::Float("4.5".to_string())));
    assert_eq!(table.get("e"), None);
    assert!(table.contains_key("a"));
    assert!(!table.contains_key("z"));
}

#[test]
fn the_last_value_of_a_name_wins() {
    let document = "k = 1\nother = 0\nk = \"two\"\nk = 3\n";
    let table = Parser::new().parse(document).unwrap();
    assert_eq!(table.len(), 2);
    assert_eq!(table.get("k"), Some(&TomlValue::Integer(3)));
    assert_eq!(table.get("other"), Some(&TomlValue::Integer(0)));
}

#[test]
fn an_empty_document_makes_an_empty_table() {
    assert!(Parser::new().parse("").unwrap().is_empty());
    assert!(Parser::new().parse("\n \r\n").unwrap().is_empty());
}

#[test]
fn the_first_fault_is_handed_on() {
    let error = Parser::new().parse("a = 1\nb = 2\nc = ]\nd").err().unwrap();
    assert_eq!(error.kind(), ErrorKind::UnknownValueType(3));
    assert_eq!(error.source(), None);

    let error = Parser::new()
        .parse("a = 1\nb = 99999999999999999999\n")
        .err()
        .unwrap();
    assert_eq!(error.kind(), ErrorKind::InvalidValue(2));
    assert_eq!(error.source(), Some(ConversionError::PositiveOverflow));
}

#[test]
fn a_comment_fails_the_whole_document() {
    let error = Parser::new().parse("a = -0# zero\nb = 1").err().unwrap();
    assert_eq!(error.kind(), ErrorKind::InvalidValue(1));
}

#[test]
fn parsing_takes_up_where_pulling_stopped() {
    let document = "a = 1\nb = 2\nc = 3";
    let mut parser = Parser::new();
    assert!(parser.read_pair(document).unwrap().is_some());
    let table = parser.parse(document).unwrap();
    assert_eq!(table.len(), 2);
    assert_eq!(table.get("a"), None);
    assert_eq!(table.get("c"), Some(&TomlValue::Integer(3)));
    assert!(parser.parse(document).unwrap().is_empty());
}
