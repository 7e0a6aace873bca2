use json_core::{Dict, Number, ParseError, Value};

fn read_float(text: &[u8]) -> Option<u64> {
    match std::str::from_utf8(text) {
        Ok(s) => match s.parse::<f64>() {
            Ok(x) => Some(x.to_bits()),
            Err(_) => None,
        },
        Err(_) => None,
    }
}

fn write_float(bits: u64) -> String {
    f64::from_bits(bits).to_string()
}

fn bits(x: f64) -> u64 {
    x.to_bits()
}

fn parse(json: &str) -> Result<Value, ParseError> {
    Value::parse(json, &read_float)
}

#[test]
fn parse_null() {
    assert_eq!(parse("null").ok().unwrap(), Value::Null);
    assert_eq!(parse(" \t\r\n\nnull").ok().unwrap(), Value::Null);
    assert_eq!(parse("null \t\r\n\n").ok().unwrap(), Value::Null);
    assert_eq!(parse(" \t\r\n\nnull \t\r\n\n").ok().unwrap(), Value::Null);
}

#[test]
fn parse_bool() {
    assert_eq!(parse("true").ok().unwrap(), Value::Bool(true));
    assert_eq!(parse(" \t\r\n\ntrue").ok().unwrap(), Value::Bool(true));
    assert_eq!(parse("true \t\r\n\n").ok().unwrap(), Value::Bool(true));
    assert_eq!(parse(" \t\r\n\ntrue \t\r\n\n").ok().unwrap(), Value::Bool(true));

    assert_eq!(parse("false").ok().unwrap(), Value::Bool(false));
    assert_eq!(parse(" \t\r\n\nfalse").ok().unwrap(), Value::Bool(false));
    assert_eq!(parse("false \t\r\n\n").ok().unwrap(), Value::Bool(false));
    assert_eq!(
        parse(" \t\r\n\nfalse \t\r\n\n").ok().unwrap(),
        Value::Bool(false)
    );
}

#[test]
fn parse_number() {
    assert_eq!(parse("0").ok().unwrap(), Value::Number(Number::Int(0)));
    assert_eq!(parse("-0").ok().unwrap(), Value::Number(Number::Int(0)));
    assert_eq!(parse("1").ok().unwrap(), Value::Number(Number::Int(1)));
    assert_eq!(parse("-1").ok().unwrap(), Value::Number(Number::Int(-1)));
    assert_eq!(parse("-0.0").ok().unwrap(), Value::Number(Number::Float(bits(0.0))));
    assert_eq!(parse("-1.5").ok().unwrap(), Value::Number(Number::Float(bits(-1.5))));
    assert_eq!(parse("1.5").ok().unwrap(), Value::Number(Number::Float(bits(1.5))));
    assert_eq!(
        parse("3.1415926").ok().unwrap(),
        Value::Number(Number::Float(bits(3.1415926)))
    );
    assert_eq!(parse("1E10").ok().unwrap(), Value::Number(Number::Float(bits(1E10))));
    assert_eq!(parse("1e10").ok().unwrap(), Value::Number(Number::Float(bits(1e10))));
    assert_eq!(parse("1E+10").ok().unwrap(), Value::Number(Number::Float(bits(1E+10))));
    assert_eq!(parse("1E-10").ok().unwrap(), Value::Number(Number::Float(bits(1E-10))));
    assert_eq!(parse("-1E10").ok().unwrap(), Value::Number(Number::Float(bits(-1E10))));
    assert_eq!(parse("-1e10").ok().unwrap(), Value::Number(Number::Float(bits(-1e10))));
    assert_eq!(
        parse("-1E+10").ok().unwrap(),
        Value::Number(Number::Float(bits(-1E+10)))
    );
    assert_eq!(
        parse("-1E-10").ok().unwrap(),
        Value::Number(Number::Float(bits(-1E-10)))
    );
    assert_eq!(
        parse("1.234E+10").ok().unwrap(),
        Value::Number(Number::Float(bits(1.234E+10)))
    );
    assert_eq!(
        parse("1.234E-10").ok().unwrap(),
        Value::Number(Number::Float(bits(1.234E-10)))
    );
    assert_eq!(
        parse("1e-10000").ok().unwrap(),
        Value::Number(Number::Float(bits(0.0)))
    );
    assert_eq!(
        parse("0.01171875").ok().unwrap(),
        Value::Number(Number::Float(bits(0.01171875)))
    );
    assert_eq!(
        parse("2e-1074").ok().unwrap(),
        Value::Number(Number::Float(bits(2.0e-1074)))
    );
    assert_eq!(
        parse("2e-1022").ok().unwrap(),
        Value::Number(Number::Float(bits(2.0e-1022)))
    );
    assert_eq!(
        parse("1.0000000000000002").ok().unwrap(),
        Value::Number(Number::Float(bits(1.0000000000000002)))
    ); /* the smallest number > 1 */
    assert_eq!(
        parse("4.9406564584124654e-324").ok().unwrap(),
        Value::Number(Number::Float(bits(4.9406564584124654e-324)))
    ); /* minimum denormal */
    assert_eq!(
        parse("-4.9406564584124654e-324").ok().unwrap(),
        Value::Number(Number::Float(bits(-4.9406564584124654e-324)))
    );
    assert_eq!(
        parse("2.2250738585072009e-308").ok().unwrap(),
        Value::Number(Number::Float(bits(2.2250738585072009e-308)))
    ); /* Max subnormal double */
    assert_eq!(
        parse("-2.2250738585072009e-308").ok().unwrap(),
        Value::Number(Number::Float(bits(-2.2250738585072009e-308)))
    );
    assert_eq!(
        parse("2.2250738585072014e-308").ok().unwrap(),
        Value::Number(Number::Float(bits(2.2250738585072014e-308)))
    ); /* Min normal positive double */
    assert_eq!(
        parse("-2.2250738585072014e-308").ok().unwrap(),
        Value::Number(Number::Float(bits(-2.2250738585072014e-308)))
    );
    assert_eq!(
        parse("1.7976931348623157e+308").ok().unwrap(),
        Value::Number(Number::Float(bits(1.7976931348623157e+308)))
    ); /* Max double */
    assert_eq!(
        parse("-1.7976931348623157e+308").ok().unwrap(),
        Value::Number(Number::Float(bits(-1.7976931348623157e+308)))
    );
}

#[test]
fn parse_string() {
    assert_eq!(parse(r#""""#).ok().unwrap(), Value::String("".to_string()));
    assert_eq!(
        parse(r#""Hello""#).ok().unwrap(),
        Value::String("Hello".to_string())
    );
    assert_eq!(
        parse(r#""Hello\nWorld""#).ok().unwrap(),
        Value::String("Hello\nWorld".to_string())
    );
    assert_eq!(
        parse(r#""\" \\ / \b \f \n \r \t""#).ok().unwrap(),
        Value::String("\" \\ / \x08 \x0c \n \r \t".to_string())
    );
    assert_eq!(
        parse(r#""\u0024""#).ok().unwrap(),
        Value::String("$".to_string())
    );
    assert_eq!(
        parse(r#""\u00A2""#).ok().unwrap(),
        Value::String("¢".to_string())
    );
    assert_eq!(
        parse(r#""\u20AC""#).ok().unwrap(),
        Value::String("€".to_string())
    );
    assert_eq!(
        parse(r#""\uD834\uDD1E""#).ok().unwrap(),
        Value::String("𝄞".to_string())
    );
    assert_eq!(
        parse(r#""\ud834\udd1e""#).ok().unwrap(),
        Value::String("𝄞".to_string())
    );
}

#[test]
fn parse_array() {
    let result = parse(r#"[ ]"#);
    assert!(result.is_ok());
    match result.ok().unwrap() {
        Value::Array(arr) => {
            assert!(true);
            assert_eq!(arr.len(), 0);
        }
        _ => assert!(false),
    };

    assert_eq!(
        parse(r#"[ null , false , true , 123 , "abc" ]"#).ok().unwrap(),
        Value::Array(vec![
            Value::Null,
            Value::Bool(false),
            Value::Bool(true),
            Value::Number(Number::Int(123)),
            Value::String("abc".to_string())
        ])
    );

    assert_eq!(
        parse(r#"[ [ ] , [ 0 ] , [ 0 , 1 ] , [ 0 , 1 , 2 ] ]"#)
            .ok()
            .unwrap(),
        Value::Array(vec![
            Value::Array(Vec::new()),
            Value::Array(vec![Value::Number(Number::Int(0))]),
            Value::Array(vec![Value::Number(Number::Int(0)), Value::Number(Number::Int(1))]),
            Value::Array(vec![
                Value::Number(Number::Int(0)),
                Value::Number(Number::Int(1)),
                Value::Number(Number::Int(2))
            ]),
        ])
    );
}

#[test]
fn parse_object() {
    let mut map = Dict::new();
    map.insert("n".to_string(), Value::Null);
    map.insert("f".to_string(), Value::Bool(false));
    map.insert("t".to_string(), Value::Bool(true));
    map.insert("i".to_string(), Value::Number(Number::Int(123)));
    map.insert("s".to_string(), Value::String("abc".to_string()));
    map.insert(
        "a".to_string(),
        Value::Array(vec![
            Value::Number(Number::Int(1)),
            Value::Number(Number::Int(2)),
            Value::Number(Number::Int(3)),
        ]),
    );
    let mut submap = Dict::new();
    submap.insert("1".to_string(), Value::Number(Number::Int(1)));
    submap.insert("2".to_string(), Value::Number(Number::Int(2)));
    submap.insert("3".to_string(), Value::Number(Number::Int(3)));
    map.insert("o".to_string(), Value::Object(submap));

    let object = Value::Object(map);
    assert_eq!(
        parse(
            r##"
    {
    "n" : null ,
    "f" : false ,
    "t" : true ,
    "i" : 123 ,
    "s" : "abc",
    "a" : [ 1, 2, 3 ],
    "o" : { "1" : 1, "2" : 2, "3" : 3 }
    }
        "##
        )
        .ok()
        .unwrap(),
        object
    );
}

#[test]
fn parse_expect_value() {
    assert_eq!(parse("").err().unwrap(), ParseError::ExpectValue);
    assert_eq!(parse(" \t\r\n\n").err().unwrap(), ParseError::ExpectValue);
}

#[test]
fn parse_invalid_value() {
    assert_eq!(parse("nul").err().unwrap(), ParseError::InvalidValue);
    assert_eq!(parse("?").err().unwrap(), ParseError::InvalidValue);

    assert_eq!(parse("+0").err().unwrap(), ParseError::InvalidValue);
    assert_eq!(parse("+1").err().unwrap(), ParseError::InvalidValue);
    assert_eq!(parse(".123").err().unwrap(), ParseError::InvalidValue);
    assert_eq!(parse("1.").err().unwrap(), ParseError::InvalidValue);
    assert_eq!(parse("INF").err().unwrap(), ParseError::InvalidValue);
    assert_eq!(parse("inf").err().unwrap(), ParseError::InvalidValue);
    assert_eq!(parse("NAN").err().unwrap(), ParseError::InvalidValue);
    assert_eq!(parse("NaN").err().unwrap(), ParseError::InvalidValue);
    assert_eq!(parse("nan").err().unwrap(), ParseError::InvalidValue);

    assert_eq!(parse("[1,]").err().unwrap(), ParseError::InvalidValue);
    assert_eq!(parse(r#"["a", nul]"#).err().unwrap(), ParseError::InvalidValue);
}

#[test]
fn parse_root_not_singular() {
    assert_eq!(parse("null x").err().unwrap(), ParseError::RootNotSingular);
    assert_eq!(
        parse(" \t\r\nnull\ntrue").err().unwrap(),
        ParseError::RootNotSingular
    );
    assert_eq!(
        parse("null\n\r \ttrue\r \t\r").err().unwrap(),
        ParseError::RootNotSingular
    );

    assert_eq!(parse("0123").err().unwrap(), ParseError::RootNotSingular);
    assert_eq!(parse("0x0").err().unwrap(), ParseError::RootNotSingular);
    assert_eq!(parse("0x123").err().unwrap(), ParseError::RootNotSingular);
}

#[test]
fn parse_number_too_big() {
    assert_eq!(parse("1e309").err().unwrap(), ParseError::NumberTooBig);
    assert_eq!(parse("-1e309").err().unwrap(), ParseError::NumberTooBig);
}

#[test]
fn parse_miss_quotation_mark() {
    assert_eq!(parse(r#"""#).err().unwrap(), ParseError::MissQuotationMark);
    assert_eq!(parse(r#""abc"#).err().unwrap(), ParseError::MissQuotationMark);
}

#[test]
fn parse_invalid_string_escape() {
    assert_eq!(parse(r#""\v""#).err().unwrap(), ParseError::InvalidStringEscape);
    assert_eq!(parse(r#""\'""#).err().unwrap(), ParseError::InvalidStringEscape);
    assert_eq!(parse(r#""\0""#).err().unwrap(), ParseError::InvalidStringEscape);
    assert_eq!(
        parse(r#""\x12""#).err().unwrap(),
        ParseError::InvalidStringEscape
    );
}

#[test]
fn parse_invalid_string_char() {
    assert_eq!(parse("\"\x01\"").err().unwrap(), ParseError::InvalidStringChar);
    assert_eq!(parse("\"\x1F\"").err().unwrap(), ParseError::InvalidStringChar);
}

#[test]
fn parse_invalid_unicode_hex() {
    assert_eq!(parse(r#""\u""#).err().unwrap(), ParseError::InvalidUnicodeHex);
    assert_eq!(parse(r#""\u0""#).err().unwrap(), ParseError::InvalidUnicodeHex);
    assert_eq!(parse(r#""\u01""#).err().unwrap(), ParseError::InvalidUnicodeHex);
    assert_eq!(parse(r#""\u012""#).err().unwrap(), ParseError::InvalidUnicodeHex);
    assert_eq!(
        parse(r#""\u/000""#).err().unwrap(),
        ParseError::InvalidUnicodeHex
    );
    assert_eq!(
        parse(r#""\uG000""#).err().unwrap(),
        ParseError::InvalidUnicodeHex
    );
    assert_eq!(
        parse(r#""\u0/00""#).err().unwrap(),
        ParseError::InvalidUnicodeHex
    );
    assert_eq!(
        parse(r#""\u0G00""#).err().unwrap(),
        ParseError::InvalidUnicodeHex
    );
    assert_eq!(
        parse(r#""\u00/0""#).err().unwrap(),
        ParseError::InvalidUnicodeHex
    );
    assert_eq!(
        parse(r#""\u00G0""#).err().unwrap(),
        ParseError::InvalidUnicodeHex
    );
    assert_eq!(
        parse(r#""\u000/""#).err().unwrap(),
        ParseError::InvalidUnicodeHex
    );
    assert_eq!(
        parse(r#""\u000G""#).err().unwrap(),
        ParseError::InvalidUnicodeHex
    );
    assert_eq!(
        parse(r#""\u 123""#).err().unwrap(),
        ParseError::InvalidUnicodeHex
    );
}

#[test]
fn parse_invalid_unicode_surrogate() {
    assert_eq!(
        parse(r#""\uD800""#).err().unwrap(),
        ParseError::InvalidUnicodeSurrogate
    );
    assert_eq!(
        parse(r#""\uDBFF""#).err().unwrap(),
        ParseError::InvalidUnicodeSurrogate
    );
    assert_eq!(
        parse(r#""\uD800\\""#).err().unwrap(),
        ParseError::InvalidUnicodeSurrogate
    );
    assert_eq!(
        parse(r#""\uD800\uDBFF""#).err().unwrap(),
        ParseError::InvalidUnicodeSurrogate
    );
    assert_eq!(
        parse(r#""\uD800""#).err().unwrap(),
        ParseError::InvalidUnicodeSurrogate
    );
    assert_eq!(
        parse(r#""\uD800\uE000""#).err().unwrap(),
        ParseError::InvalidUnicodeSurrogate
    );
}

#[test]
fn parse_miss_comma_or_square_bracket() {
    assert_eq!(parse("[1").err().unwrap(), ParseError::MissCommaOrSquareBracket);
    assert_eq!(parse("[1}").err().unwrap(), ParseError::MissCommaOrSquareBracket);
    assert_eq!(
        parse("[1 2").err().unwrap(),
        ParseError::MissCommaOrSquareBracket
    );
    assert_eq!(parse("[[]").err().unwrap(), ParseError::MissCommaOrSquareBracket);
}

#[test]
fn parse_miss_key() {
    assert_eq!(parse("{:1,").err().unwrap(), ParseError::MissKey);
    assert_eq!(parse("{1:1,").err().unwrap(), ParseError::MissKey);
    assert_eq!(parse("{true:1,").err().unwrap(), ParseError::MissKey);
    assert_eq!(parse("{false:1,").err().unwrap(), ParseError::MissKey);
    assert_eq!(parse("{null:1,").err().unwrap(), ParseError::MissKey);
    assert_eq!(parse("{[]:1,").err().unwrap(), ParseError::MissKey);
    assert_eq!(parse("{{}:1,").err().unwrap(), ParseError::MissKey);
    assert_eq!(parse(r#"{"a":1,"#).err().unwrap(), ParseError::MissKey);
}

#[test]
fn parse_miss_colon() {
    assert_eq!(parse(r#"{"a""#).err().unwrap(), ParseError::MissColon);
    assert_eq!(parse(r#"{"a","b"}"#).err().unwrap(), ParseError::MissColon);
}

#[test]
fn parse_miss_comma_or_curly_bracket() {
    assert_eq!(
        parse(r#"{"a":1"#).err().unwrap(),
        ParseError::MissCommaOrCurlyBracket
    );
    assert_eq!(
        parse(r#"{"a":1]"#).err().unwrap(),
        ParseError::MissCommaOrCurlyBracket
    );
    assert_eq!(
        parse(r#"{"a":1 "b"}"#).err().unwrap(),
        ParseError::MissCommaOrCurlyBracket
    );
    assert_eq!(
        parse(r#"{"a":{}"#).err().unwrap(),
        ParseError::MissCommaOrCurlyBracket
    );
}

fn test_roundtrip(json: &str) {
    let v1 = parse(json).unwrap();
    match parse(&v1.to_text(&write_float)) {
        Ok(v2) => assert_eq!(v1, v2),
        Err(e) => {
            println!("json:\n{}", json);
            Err(e).unwrap()
        }
    }
}

#[test]
fn stringify_literal() {
    test_roundtrip("null");
    test_roundtrip("false");
    test_roundtrip("true");
}

#[test]
fn stringify_number() {
    test_roundtrip("0");
    test_roundtrip("-0");
    test_roundtrip("1");
    test_roundtrip("-1");
    test_roundtrip("1.5");
    test_roundtrip("-1.5");
    test_roundtrip("3.25");
    test_roundtrip("1e+20");
    test_roundtrip("1.234e+20");
    test_roundtrip("1.234e-20");

    test_roundtrip("1.0000000000000002"); /* the smallest number > 1 */
    test_roundtrip("4.9406564584124654e-324"); /* minimum denormal */
    test_roundtrip("-4.9406564584124654e-324");
    test_roundtrip("2.2250738585072009e-308"); /* Max subnormal double */
    test_roundtrip("-2.2250738585072009e-308");
    test_roundtrip("2.2250738585072014e-308"); /* Min normal positive double */
    test_roundtrip("-2.2250738585072014e-308");
    test_roundtrip("1.7976931348623157e+308"); /* Max double */
    test_roundtrip("-1.7976931348623157e+308");
}

#[test]
fn stringify_string() {
    test_roundtrip(r#""""#);
    test_roundtrip(r#""Hello""#);
    test_roundtrip(r#""Hello\nWorld""#);
    test_roundtrip(r#""\" \\ / \b \f \n \r \t""#);
    test_roundtrip(r#""Hello\u0000World""#);
}

#[test]
fn stringify_array() {
    test_roundtrip("[]");
    test_roundtrip("[null,false,true,123,\"abc\",[1,2,3]]");
}

#[test]
fn stringify_object() {
    test_roundtrip("{}");
    test_roundtrip(
        "{\"n\":null,\"f\":false,\"t\":true,\"i\":123,\"s\":\"abc\",\"a\":[1,2,3],\"o\":{\"1\":1,\"2\":2,\"3\":3}}",
    );
}

#[test]
fn access_array() {
    let mut v = parse(r#"[ null , false , true , 123 , "abc" ]"#).ok().unwrap();
    assert_eq!(
        v,
        Value::Array(vec![
            Value::Null,
            Value::Bool(false),
            Value::Bool(true),
            Value::Number(Number::Int(123)),
            Value::String("abc".to_string())
        ])
    );
    *v.item_mut(1) = Value::Bool(true);
    *v.item_mut(2) = Value::Bool(false);
    *v.item_mut(3) = Value::Number(Number::Int(321));
    *v.item_mut(4) = Value::String("cba".to_string());
    assert_eq!(
        v,
        Value::Array(vec![
            Value::Null,
            Value::Bool(true),
            Value::Bool(false),
            Value::Number(Number::Int(321)),
            Value::String("cba".to_string())
        ])
    );
}

#[test]
fn access_object() {
    let mut map = Dict::new();
    map.insert("n".to_string(), Value::Null);
    map.insert("f".to_string(), Value::Bool(false));
    map.insert("t".to_string(), Value::Bool(true));
    map.insert("i".to_string(), Value::Number(Number::Int(123)));
    map.insert("s".to_string(), Value::String("abc".to_string()));
    map.insert(
        "a".to_string(),
        Value::Array(vec![
            Value::Number(Number::Int(1)),
            Value::Number(Number::Int(2)),
            Value::Number(Number::Int(3)),
        ]),
    );
    let mut submap = Dict::new();
    submap.insert("1".to_string(), Value::Number(Number::Int(1)));
    submap.insert("2".to_string(), Value::Number(Number::Int(2)));
    submap.insert("3".to_string(), Value::Number(Number::Int(3)));
    map.insert("o".to_string(), Value::Object(submap));
    let object = Value::Object(map);

    let mut v = parse(
        r##"
    {
    "n" : null ,
    "f" : false ,
    "t" : true ,
    "i" : 123 ,
    "s" : "abc",
    "a" : [ 1, 2, 3 ],
    "o" : { "1" : 1, "2" : 2, "3" : 3 }
    }
        "##,
    )
    .ok()
    .unwrap();

    assert_eq!(v, object);

    *v.member_mut("f") = Value::Bool(true);
    *v.member_mut("t") = Value::Bool(false);
    *v.member_mut("i") = Value::Number(Number::Int(321));
    *v.member_mut("a").item_mut(1) = Value::Number(Number::Int(-2));

    assert_eq!(
        v,
        parse(
            r##"
    {
    "n" : null ,
    "f" : true ,
    "t" : false ,
    "i" : 321 ,
    "s" : "abc",
    "a" : [ 1, -2, 3 ],
    "o" : { "1" : 1, "2" : 2, "3" : 3 }
    }
        "##,
        )
        .ok()
        .unwrap()
    );
}
