use toml_parser::{ErrorKind, Parser, TomlPair, TomlValue};

/// The name and the number of an entry whose value is a float.
fn float_entry(pair: Option<TomlPair>) -> Option<(String, f64)> {
    let pair = pair?;
    match pair.value() {
        TomlValue::Float(literal) => Some((pair.name().to_string(), literal.parse().unwrap())),
        _ => None,
    }
}

#[test]
fn test_string_parse() {
    let toml_string = "junk = \"caveman\"";
    let mut parser = Parser::new();
    let pair = parser.read_test_pair(toml_string).unwrap();
    assert_eq!(
        pair,
        Some(TomlPair::new("junk", TomlValue::String("caveman")))
    );
}

#[test]
fn test_string_parse2() {
    let toml_string = "junk = \"caveman\" ";
    let mut parser = Parser::new();
    let pair = parser.read_test_pair(toml_string).unwrap();
    assert_eq!(
        pair,
        Some(TomlPair::new("junk", TomlValue::String("caveman")))
    );
}

// A document that ends in an empty line
#[test]
fn test_string_parse3() {
    let toml_string = "junk = \"caveman\"\n";
    println!("Length is {}", toml_string.len());
    let mut parser = Parser::new();
    let pair = parser.read_test_pair(toml_string).unwrap();
    assert_eq!(
        pair,
        Some(TomlPair::new("junk", TomlValue::String("caveman")))
    );
    let second_pair = parser.read_test_pair(toml_string).unwrap();
    assert_eq!(second_pair, None);
}

#[test]
fn test_multiline_string_parse() {
    let toml_string = "junk = \"caveman\"\naggro = \"fred\"";
    let mut parser = Parser::new();
    let pair = parser.read_test_pair(toml_string).unwrap();
    assert_eq!(
        pair,
        Some(TomlPair::new("junk", TomlValue::String("caveman")))
    );
    let second_pair = parser.read_test_pair(toml_string).unwrap();
    assert_eq!(
        second_pair,
        Some(TomlPair::new("aggro", TomlValue::String("fred")))
    );
}

#[test]
fn test_multiline_string_parse2() {
    let toml_string = "junk = \"caveman\"\n\naggro = \"fred\"";
    let mut parser = Parser::new();
    let pair = parser.read_test_pair(toml_string).unwrap();
    assert_eq!(
        pair,
        Some(TomlPair::new("junk", TomlValue::String("caveman"))),
        "First test failed"
    );
    let second_pair = parser.read_test_pair(toml_string).unwrap();
    assert_eq!(
        second_pair,
        Some(TomlPair::new("aggro", TomlValue::String("fred"))),
        "Second test failed"
    );
    assert_eq!(parser.read_test_pair(toml_string).unwrap(), None);
}

#[test]
fn test_reading_integer() {
    let toml_string = "junk = 1234";
    let mut parser = Parser::new();
    let pair = parser.read_test_pair(toml_string).unwrap();
    assert_eq!(pair, Some(TomlPair::new("junk", TomlValue::Integer(1234))));
}

#[test]
fn test_reading_integer2() {
    let toml_string = "junk = 1234\n";
    let mut parser = Parser::new();
    let pair = parser.read_test_pair(toml_string).unwrap();
    assert_eq!(pair, Some(TomlPair::new("junk", TomlValue::Integer(1234))));
}

#[test]
fn test_reading_integer3() {
    let toml_string = "junk = 1232344\n  ";
    let mut parser = Parser::new();
    let pair = parser.read_test_pair(toml_string).unwrap();
    assert_eq!(
        pair,
        Some(TomlPair::new("junk", TomlValue::Integer(1232344)))
    );
}

#[test]
fn test_reading_integer4() {
    let toml_string = "integer = 123\r\n  number=321\n";
    let mut parser = Parser::new();
    let pair = parser.read_test_pair(toml_string).unwrap();
    assert_eq!(
        pair,
        Some(TomlPair::new("integer", TomlValue::Integer(123))),
        "Failed first test"
    );
    let pair = parser.read_test_pair(toml_string).unwrap();
    assert_eq!(
        pair,
        Some(TomlPair::new("number", TomlValue::Integer(321))),
        "Failed second test"
    );
}

#[test]
fn test_reading_integer5() {
    let toml_string = "integer = 123 \n";
    let mut parser = Parser::new();
    let pair = parser.read_test_pair(toml_string).unwrap();
    assert_eq!(
        pair,
        Some(TomlPair::new("integer", TomlValue::Integer(123))),
        "Failed first test"
    );
}

#[test]
fn test_reading_integer6() {
    let toml_string = "junk = 1_234";
    let mut parser = Parser::new();
    let pair = parser.read_test_pair(toml_string).unwrap();
    assert_eq!(pair, Some(TomlPair::new("junk", TomlValue::Integer(1234))));
}

#[test]
fn test_reading_integer7() {
    let toml_string = "junk = 0";
    let mut parser = Parser::new();
    let pair = parser.read_test_pair(toml_string).unwrap();
    assert_eq!(pair, Some(TomlPair::new("junk", TomlValue::Integer(0))));
}

#[test]
fn test_reading_integer8() {
    let toml_string = "junk = 0\r\n";
    let mut parser = Parser::new();
    let pair = parser.read_test_pair(toml_string).unwrap();
    assert_eq!(pair, Some(TomlPair::new("junk", TomlValue::Integer(0))));
}

#[test]
fn test_reading_signed_integer() {
    let toml_string = "junk = +0";
    let mut parser = Parser::new();
    let pair = parser.read_test_pair(toml_string).unwrap();
    assert_eq!(pair, Some(TomlPair::new("junk", TomlValue::Integer(0))));
}

#[test]
fn test_reading_signed_integer2() {
    let toml_string = "junk = +123";
    let mut parser = Parser::new();
    let pair = parser.read_test_pair(toml_string).unwrap();
    assert_eq!(pair, Some(TomlPair::new("junk", TomlValue::Integer(123))));
}

#[test]
fn test_reading_negative_integer() {
    let toml_string = "data1 = -245_546";
    let mut parser = Parser::new();
    let pair = parser.read_test_pair(toml_string).unwrap();
    assert_eq!(
        pair,
        Some(TomlPair::new("data1", TomlValue::Integer(-245546)))
    );
}

#[test]
fn test_reading_negative_integer2() {
    let toml_string = "data1 = -46\r\n";
    let mut parser = Parser::new();
    let pair = parser.read_test_pair(toml_string).unwrap();
    assert_eq!(pair, Some(TomlPair::new("data1", TomlValue::Integer(-46))));
}

#[test]
fn test_reading_negative_integer3() {
    let toml_string = "data1 = -0\r\n";
    let mut parser = Parser::new();
    let pair = parser.read_test_pair(toml_string).unwrap();
    assert_eq!(pair, Some(TomlPair::new("data1", TomlValue::Integer(0))));
}

#[test]
fn test_reading_negative_integer4() {
    let toml_string = "data1 = -0";
    let mut parser = Parser::new();
    let pair = parser.read_test_pair(toml_string).unwrap();
    assert_eq!(pair, Some(TomlPair::new("data1", TomlValue::Integer(0))));
}

#[test]
fn test_reading_negative_integer5() {
    let toml_string = "data1 = -0 ";
    let mut parser = Parser::new();
    let pair = parser.read_test_pair(toml_string).unwrap();
    assert_eq!(pair, Some(TomlPair::new("data1", TomlValue::Integer(0))));
}

#[test]
fn test_reading_binary_integer() {
    let toml_string = "junk = 0b111";
    let mut parser = Parser::new();
    let pair = parser.read_test_pair(toml_string).unwrap();
    assert_eq!(pair, Some(TomlPair::new("junk", TomlValue::Integer(0b111))));
}

#[test]
fn test_reading_binary_integer2() {
    let toml_string = "junk = 0b11101\r\n";
    let mut parser = Parser::new();
    let pair = parser.read_test_pair(toml_string).unwrap();
    assert_eq!(
        pair,
        Some(TomlPair::new("junk", TomlValue::Integer(0b11101)))
    );
}

#[test]
fn test_reading_hex_integer() {
    let toml_string = "junk = 0x45b\r\n";
    let mut parser = Parser::new();
    let pair = parser.read_test_pair(toml_string).unwrap();
    assert_eq!(pair, Some(TomlPair::new("junk", TomlValue::Integer(0x45b))));
}

#[test]
fn test_reading_octal_integer() {
    let toml_string = "junk = 0o457\r\n";
    let mut parser = Parser::new();
    let pair = parser.read_test_pair(toml_string).unwrap();
    assert_eq!(pair, Some(TomlPair::new("junk", TomlValue::Integer(0o457))));
}

#[test]
fn test_reading_float() {
    let toml_string = "float = 123.43\n";
    let mut parser = Parser::new();
    let pair = parser.read_test_pair(toml_string).unwrap();
    assert_eq!(
        float_entry(pair),
        Some(("float".to_string(), 123.43)),
        "Failed first test"
    );
}

#[test]
fn test_reading_float2() {
    let toml_string = "float = 123.43\r\n";
    let mut parser = Parser::new();
    let pair = parser.read_test_pair(toml_string).unwrap();
    assert_eq!(
        float_entry(pair),
        Some(("float".to_string(), 123.43)),
        "Failed first test"
    );
}

#[test]
fn test_reading_float3() {
    let toml_string = "float = 0.4_3\r\n";
    let mut parser = Parser::new();
    let pair = parser.read_test_pair(toml_string).unwrap();
    assert_eq!(
        float_entry(pair),
        Some(("float".to_string(), 0.43)),
        "Failed first test"
    );
}

#[test]
fn test_reading_float4() {
    let toml_string = "float = 0.1e02";
    let mut parser = Parser::new();
    let pair = parser.read_test_pair(toml_string).unwrap().unwrap();

    assert_eq!(pair.name(), "float", "Failed first test");
    let value = match pair.value() {
        TomlValue::Float(literal) => literal.parse::<f64>().unwrap(),
        _ => unreachable!(
            "Float was parsed as not a float, value was {:?}",
            pair.value()
        ),
    };
    println!("Value is: {}", value);
    assert!((value - 0.1e02).abs() < 0.01, "Values were not equilivant");
}

#[test]
fn test_reading_float5() {
    let toml_string = "float = 0.1e02e3";
    let mut parser = Parser::new();
    let error = parser.read_test_pair(toml_string).unwrap_err();

    assert_eq!(
        error.kind(),
        ErrorKind::InvalidValue(1),
        "Failed first test"
    );
}

#[test]
fn test_reading_boolean() {
    let toml_string = "boolean = false\nboolean2 = true";
    let mut parser = Parser::new();
    let pair = parser.read_test_pair(toml_string).unwrap();
    assert_eq!(
        pair,
        Some(TomlPair::new("boolean", TomlValue::Bool(false))),
        "Failed first boolean test"
    );

    let pair = parser.read_test_pair(toml_string).unwrap();
    assert_eq!(
        pair,
        Some(TomlPair::new("boolean2", TomlValue::Bool(true))),
        "Failed second boolean test"
    );
}

#[test]
fn test_reading_boolean2() {
    let toml_string = "boolean = f";
    let mut parser = Parser::new();
    let error = parser.read_test_pair(toml_string).unwrap_err();
    assert_eq!(
        error.kind(),
        ErrorKind::InvalidValue(1),
        "Expected invalid value on the first line"
    );

    let toml_string2 = "boolean = tru";
    let mut parser2 = Parser::new();
    let error2 = parser2.read_test_pair(toml_string2).unwrap_err();
    assert_eq!(
        error2.kind(),
        ErrorKind::InvalidValue(1),
        "Expected invalid value on the first line"
    );

    let toml_string3 = "boolean = fals";
    let mut parser3 = Parser::new();
    let error3 = parser3.read_test_pair(toml_string3).unwrap_err();
    assert_eq!(
        error3.kind(),
        ErrorKind::InvalidValue(1),
        "Expected invalid value on the first line"
    );
}
