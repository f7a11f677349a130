use muon_rs::{
    chars_of, Define, Deserializer, Error, IntValue, Modifier, Node, ParseError, Separator, Type,
    Value,
};

fn node(value: &str) -> Result<Node, ParseError> {
    Node::from_define(&Define::new(0, chars_of("name"), Separator::Normal, chars_of(value)))
}

#[test]
fn schema_nodes() {
    let n = node("text").unwrap();
    assert_eq!(n.node_type, Type::Text);
    assert_eq!(n.modifier, None);
    assert_eq!(n.default, None);
    let n = node("optional int").unwrap();
    assert_eq!(n.modifier, Some(Modifier::Optional));
    assert_eq!(n.node_type, Type::Int);
    assert_eq!(n.default, None);
    let n = node("int x1F").unwrap();
    assert_eq!(n.default, Some(Value::Int(IntValue::Signed(31))));
    let n = node("bool true").unwrap();
    assert_eq!(n.default, Some(Value::Bool(true)));
    let n = node("list bool").unwrap();
    assert_eq!(n.modifier, Some(Modifier::List));
    assert_eq!(n.node_type, Type::Bool);
}

#[test]
fn schema_errors() {
    assert_eq!(node("texts").unwrap_err(), ParseError::InvalidType);
    assert_eq!(node("").unwrap_err(), ParseError::InvalidType);
    assert_eq!(node("record x").unwrap_err(), ParseError::InvalidDefault);
    assert_eq!(node("list int 5").unwrap_err(), ParseError::InvalidDefault);
    assert_eq!(node("optional int 5").unwrap_err(), ParseError::InvalidDefault);
    assert_eq!(node("bool maybe").unwrap_err(), ParseError::ExpectedBool);
    assert_eq!(node("int five").unwrap_err(), ParseError::ExpectedInt);
    assert_eq!(node("number x").unwrap_err(), ParseError::ExpectedNumber);
    assert_eq!(node("date 2019-02-30").unwrap_err(), ParseError::ExpectedDate);
}

#[test]
fn int_values() {
    assert!(matches!(IntValue::from_text("-5"), Ok(IntValue::Signed(-5))));
    assert!(matches!(
        IntValue::from_text("340282366920938463463374607431768211455"),
        Ok(IntValue::Unsigned(u128::MAX))
    ));
    assert_eq!(IntValue::from_text("1.5"), Err(ParseError::ExpectedInt));
}

#[test]
fn scalar_errors() {
    let mut de = Deserializer::new("b: yes\n");
    de.begin_struct(&vec!["b".to_string()]);
    assert_eq!(de.next_key().unwrap(), Some("b".to_string()));
    assert_eq!(de.parse_bool(), Err(Error::FailedParse(ParseError::ExpectedBool)));

    let mut de = Deserializer::new("n: 300\n");
    de.begin_struct(&vec!["n".to_string()]);
    assert_eq!(de.next_key().unwrap(), Some("n".to_string()));
    assert_eq!(de.parse_int::<u8>(), Err(Error::FailedParse(ParseError::ExpectedInt)));
}

#[test]
fn error_descriptions() {
    assert_eq!(ParseError::InvalidIndent.description(), "invalid indent");
    assert_eq!(ParseError::ExpectedMore.description(), "expected more input data");
    assert_eq!(ParseError::UnexpectedKey.description(), "unexpected key (not in schema)");
}
