use bencode::error::ParserError;
use bencode::parser::Parser;
use bencode::value::Value;

fn parse_bytes(input: &[u8]) -> Result<Vec<Value>, ParserError> {
    Parser::new(input.to_vec()).parse()
}

#[test]
fn dict_test() {
    let template = "d3:cow3:moo4:spam4:eggse";

    let parser = Parser::new(Vec::from(template.as_bytes()));

    println!("template = {:?}", template);

    let actual = parser.parse();

    println!("result {:?}", actual);
}

#[test]
fn list_test() {
    let template = "l4:spam4:eggse";

    let parser = Parser::new(Vec::from(template.as_bytes()));

    println!("template = {:?}", template);

    let actual = parser.parse();

    println!("result {:?}", actual);
}

#[test]
fn bytestring_round_trip_shape() {
    let result = parse_bytes(b"4:spam").unwrap();
    assert_eq!(result, vec![Value::ByteString(b"spam".to_vec())]);
}

#[test]
fn integer_values() {
    assert_eq!(parse_bytes(b"i42e").unwrap(), vec![Value::Integer(42)]);
    assert_eq!(parse_bytes(b"i-3e").unwrap(), vec![Value::Integer(-3)]);
}

#[test]
fn integer_extremes() {
    assert_eq!(
        parse_bytes(b"i9223372036854775807e").unwrap(),
        vec![Value::Integer(i64::MAX)]
    );
    assert_eq!(
        parse_bytes(b"i-9223372036854775808e").unwrap(),
        vec![Value::Integer(i64::MIN)]
    );
    assert_eq!(
        parse_bytes(b"i9223372036854775808e"),
        Err(ParserError::NumberParseError)
    );
    assert_eq!(
        parse_bytes(b"i-9223372036854775809e"),
        Err(ParserError::NumberParseError)
    );
}

#[test]
fn integer_malformed() {
    assert_eq!(parse_bytes(b"ie"), Err(ParserError::NumberParseError));
    assert_eq!(parse_bytes(b"i-e"), Err(ParserError::NumberParseError));
    assert_eq!(parse_bytes(b"i12x3e"), Err(ParserError::NumberParseError));
    assert_eq!(parse_bytes(b"i42"), Err(ParserError::NumberParseError));
}

#[test]
fn list_of_strings_in_order() {
    let result = parse_bytes(b"l4:spam4:eggse").unwrap();
    assert_eq!(
        result,
        vec![Value::List(vec![
            Value::ByteString(b"spam".to_vec()),
            Value::ByteString(b"eggs".to_vec()),
        ])]
    );
}

#[test]
fn dictionary_preserves_insertion_order() {
    let result = parse_bytes(b"d3:cow3:moo4:spam4:eggse").unwrap();
    assert_eq!(
        result,
        vec![Value::Dictionary(vec![
            (b"cow".to_vec(), Value::ByteString(b"moo".to_vec())),
            (b"spam".to_vec(), Value::ByteString(b"eggs".to_vec())),
        ])]
    );
    let dict = result[0].as_dictionary().unwrap();
    assert_eq!(dict[0].1.as_string().unwrap(), b"moo".to_vec());
    assert_eq!(dict[1].1.as_string().unwrap(), b"eggs".to_vec());
}

#[test]
fn dictionary_last_write_wins() {
    let result = parse_bytes(b"d1:ai1e1:ai2ee").unwrap();
    assert_eq!(
        result,
        vec![Value::Dictionary(vec![(b"a".to_vec(), Value::Integer(2))])]
    );
}

#[test]
fn nested_dictionaries() {
    let result = parse_bytes(b"d4:infod6:lengthi100eee").unwrap();
    assert_eq!(
        result,
        vec![Value::Dictionary(vec![(
            b"info".to_vec(),
            Value::Dictionary(vec![(b"length".to_vec(), Value::Integer(100))]),
        )])]
    );
}

#[test]
fn deep_nesting_without_recursion_limit() {
    let depth = 1000;
    let mut input = Vec::new();
    for _ in 0..depth {
        input.push(b'l');
    }
    input.extend_from_slice(b"4:spam");
    for _ in 0..depth {
        input.push(b'e');
    }
    let result = parse_bytes(&input).unwrap();
    assert_eq!(result.len(), 1);
    let mut current = &result[0];
    for _ in 0..depth {
        let items = current.as_array().unwrap();
        assert_eq!(items.len(), 1);
        current = &items[0];
    }
    assert_eq!(*current, Value::ByteString(b"spam".to_vec()));
}

#[test]
fn string_length_must_match_consumed_bytes() {
    // the declared length is exactly the content that is consumed
    let result = parse_bytes(b"3:abci1e").unwrap();
    assert_eq!(
        result,
        vec![Value::ByteString(b"abc".to_vec()), Value::Integer(1)]
    );
    // a declared length that overruns the buffer fails, it never panics
    assert_eq!(parse_bytes(b"10:abc"), Err(ParserError::StringParseError));
    assert_eq!(parse_bytes(b"4:"), Err(ParserError::StringParseError));
    assert_eq!(parse_bytes(b"12"), Err(ParserError::StringParseError));
    assert_eq!(parse_bytes(b"1x:ab"), Err(ParserError::StringParseError));
}

#[test]
fn unterminated_composites_fail() {
    assert_eq!(parse_bytes(b"l4:spam"), Err(ParserError::StructParseError));
    assert_eq!(parse_bytes(b"d3:cow3:moo"), Err(ParserError::StructParseError));
    assert_eq!(parse_bytes(b"li1e"), Err(ParserError::StructParseError));
}

#[test]
fn unbalanced_close_fails() {
    assert_eq!(parse_bytes(b"e"), Err(ParserError::StructParseError));
    assert_eq!(parse_bytes(b"i1ee"), Err(ParserError::StructParseError));
}

#[test]
fn non_string_dictionary_key_fails() {
    assert_eq!(parse_bytes(b"di42ei0ee"), Err(ParserError::StructParseError));
    assert_eq!(
        parse_bytes(b"dli1eei2ee"),
        Err(ParserError::StructParseError)
    );
}

#[test]
fn dictionary_with_dangling_key_fails() {
    assert_eq!(parse_bytes(b"d3:cowe"), Err(ParserError::StructParseError));
}

#[test]
fn undefined_token_fails() {
    assert_eq!(parse_bytes(b"x"), Err(ParserError::UndefinedTokenError));
    assert_eq!(parse_bytes(b"4:spamX"), Err(ParserError::UndefinedTokenError));
}

#[test]
fn empty_input_yields_no_values() {
    assert_eq!(parse_bytes(b""), Ok(Vec::new()));
}

#[test]
fn empty_composites() {
    assert_eq!(parse_bytes(b"le"), Ok(vec![Value::List(Vec::new())]));
    assert_eq!(parse_bytes(b"de"), Ok(vec![Value::Dictionary(Vec::new())]));
}

#[test]
fn multiple_top_level_values() {
    let result = parse_bytes(b"i1e3:abcle").unwrap();
    assert_eq!(
        result,
        vec![
            Value::Integer(1),
            Value::ByteString(b"abc".to_vec()),
            Value::List(Vec::new()),
        ]
    );
}

#[test]
fn parser_error_messages() {
    assert_eq!(ParserError::NumberParseError.message(), "Number parse error");
    assert_eq!(ParserError::StringParseError.message(), "String parse error");
    assert_eq!(ParserError::StructParseError.message(), "Struct parse error");
    assert_eq!(
        ParserError::UndefinedTokenError.message(),
        "Undefined token error"
    );
    assert_eq!(
        ParserError::ValueDataExtractionError.message(),
        "Value data extraction error"
    );
}
