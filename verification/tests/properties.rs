use json_core::serde_support::JsonSerializer;
use json_core::{Context, Dict, JsonError, Number, ParseError, Stack, Value};

fn read_float(text: &[u8]) -> Option<u64> {
    match std::str::from_utf8(text) {
        Ok(s) => match s.parse::<f64>() {
            Ok(x) => Some(x.to_bits()),
            Err(_) => None,
        },
        Err(_) => None,
    }
}

fn write_float(bits: u64) -> String {
    f64::from_bits(bits).to_string()
}

fn parse(json: &str) -> Result<Value, ParseError> {
    Value::parse(json, &read_float)
}

fn text(value: &Value) -> String {
    value.to_text(&write_float)
}

#[test]
fn whitespace_padding_changes_nothing() {
    let texts = ["null", "[1, 2]", "{\"a\" : [true, \"x y\"]}", "-12", "1.5e3", "\" \""];
    let pads = ["", " ", "\t", "\n", "\r", " \t\r\n \n"];
    for t in texts {
        let plain = parse(t);
        assert!(plain.is_ok());
        for before in pads {
            for after in pads {
                assert_eq!(parse(&format!("{}{}{}", before, t, after)), plain);
            }
        }
    }
}

#[test]
fn text_of_a_value_parses_to_the_value() {
    let texts = [
        "null",
        "true",
        "false",
        "0",
        "-1",
        "9223372036854775807",
        "-9223372036854775808",
        "\"\"",
        "\"a\\\"b\\\\c\\n\\r\\t\\u0000\\u001f/\"",
        "[]",
        "[[],[null],{}]",
        "{\"a\":{\"b\":[1,2,{\"c\":\"d\"}]},\"e\":-5}",
        "{\"a\\\"b\":null,\"\\\\\":[\"\\b\\f\"],\"\\n\":{\"\\u0001\":1}}",
        "1.5",
        "[1.25,-2.5e-3]",
    ];
    for t in texts {
        let v = parse(t).unwrap();
        assert_eq!(parse(&text(&v)).unwrap(), v);
    }
}

#[test]
fn backspace_and_form_feed_read_back() {
    let v = parse("\"\\u0008\\u000c\"").unwrap();
    assert_eq!(v, Value::String("\u{8}\u{c}".to_string()));
    assert_eq!(text(&v), "\"\\b\\f\"");
    assert_eq!(parse(&text(&v)).unwrap(), v);
    assert_eq!(parse("\"\\b\\f\"").unwrap(), v);
}

#[test]
fn every_string_reads_back() {
    let mut all = String::new();
    for c in 0u32..0x100 {
        all.push(char::from_u32(c).unwrap());
    }
    all.push_str("\u{7ff}\u{800}\u{ffff}\u{10000}\u{10ffff}");
    let v = Value::String(all.clone());
    assert_eq!(parse(&text(&v)).unwrap(), v);
    let mut map = Dict::new();
    map.insert(all, Value::Null);
    map.insert("a\"b".to_string(), Value::Bool(true));
    map.insert("\\".to_string(), Value::Bool(false));
    let v = Value::Object(map);
    assert_eq!(parse(&text(&v)).unwrap(), v);
}

#[test]
fn number_equality_is_variant_sensitive() {
    assert_ne!(Value::Number(Number::Int(0)), Value::Number(Number::Float(0.0f64.to_bits())));
    assert_ne!(Number::Int(1), Number::UInt(1));
    assert_ne!(Number::UInt(1), Number::Float(1.0f64.to_bits()));
    assert_eq!(Number::Int(7), Number::Int(7));
    assert_eq!(Number::UInt(7), Number::UInt(7));
    assert!(!Number::Int(0).equals(&Number::Float(0)));
}

#[test]
fn float_equality_is_that_of_floats() {
    assert_eq!(Number::Float(0.0f64.to_bits()), Number::Float((-0.0f64).to_bits()));
    assert_ne!(Number::Float(f64::NAN.to_bits()), Number::Float(f64::NAN.to_bits()));
    assert_eq!(Number::Float(f64::INFINITY.to_bits()), Number::Float(f64::INFINITY.to_bits()));
    assert_ne!(Number::Float(1.5f64.to_bits()), Number::Float(2.5f64.to_bits()));
    assert_eq!(Number::Float(1.5f64.to_bits()), Number::Float(1.5f64.to_bits()));
}

#[test]
fn finite_bits_and_readings() {
    assert!(Number::bits_are_finite(0));
    assert!(Number::bits_are_finite(1.5f64.to_bits()));
    assert!(Number::bits_are_finite(f64::MAX.to_bits()));
    assert!(Number::bits_are_finite(f64::MIN.to_bits()));
    assert!(!Number::bits_are_finite(f64::INFINITY.to_bits()));
    assert!(!Number::bits_are_finite(f64::NEG_INFINITY.to_bits()));
    assert!(!Number::bits_are_finite(f64::NAN.to_bits()));
    assert_eq!(Number::from_reading(None), Err(ParseError::NumberTooBig));
    assert_eq!(
        Number::from_reading(Some(f64::INFINITY.to_bits())),
        Err(ParseError::NumberTooBig)
    );
    assert_eq!(Number::from_reading(Some(f64::NAN.to_bits())), Err(ParseError::NumberTooBig));
    assert_eq!(
        Number::from_reading(Some(2.5f64.to_bits())),
        Ok(Number::Float(2.5f64.to_bits()))
    );
}

#[test]
fn number_from_integers() {
    assert_eq!(Number::from(-3i64), Number::Int(-3));
    assert_eq!(Number::from(3u64), Number::UInt(3));
}

#[test]
fn object_text_is_in_key_order() {
    let v = parse("{\"b\":1,\"a\":2}").unwrap();
    assert_eq!(text(&v), "{\"a\":2,\"b\":1}");
}

#[test]
fn later_duplicate_key_wins() {
    let v = parse("{\"a\":1,\"b\":2,\"a\":3}").unwrap();
    assert_eq!(text(&v), "{\"a\":3,\"b\":2}");
    let mut map = Dict::new();
    map.insert("a".to_string(), Value::Number(Number::Int(3)));
    map.insert("b".to_string(), Value::Number(Number::Int(2)));
    assert_eq!(v, Value::Object(map));
}

#[test]
fn surrogate_pair_is_one_scalar() {
    let v = parse("\"\\uD834\\uDD1E\"").unwrap();
    match v {
        Value::String(s) => {
            assert_eq!(s.chars().count(), 1);
            assert_eq!(s.chars().next().unwrap() as u32, 0x1D11E);
        }
        _ => panic!("no string"),
    }
    assert_eq!(
        parse("\"\\uDBFF\\uDFFF\"").unwrap(),
        Value::String("\u{10FFFF}".to_string())
    );
    assert_eq!(
        parse("\"\\uD800\\uDC00\"").unwrap(),
        Value::String("\u{10000}".to_string())
    );
}

#[test]
fn literal_scenarios() {
    assert_eq!(parse("null").unwrap(), Value::Null);
    assert_eq!(parse(" \t\r\n\ntrue \t\r\n").unwrap(), Value::Bool(true));
    assert_eq!(parse("-0").unwrap(), Value::Number(Number::Int(0)));
    assert_eq!(parse("1e309").unwrap_err(), ParseError::NumberTooBig);
    assert_eq!(parse("").unwrap_err(), ParseError::ExpectValue);
    assert_eq!(parse("\"abc").unwrap_err(), ParseError::MissQuotationMark);
    assert_eq!(parse("[1,]").unwrap_err(), ParseError::InvalidValue);
    assert_eq!(parse("{\"a\":1").unwrap_err(), ParseError::MissCommaOrCurlyBracket);
    assert_eq!(parse("null true").unwrap_err(), ParseError::RootNotSingular);
}

#[test]
fn every_error_kind_has_an_input() {
    assert_eq!(parse(" ").unwrap_err(), ParseError::ExpectValue);
    assert_eq!(parse("tru").unwrap_err(), ParseError::InvalidValue);
    assert_eq!(parse("1 1").unwrap_err(), ParseError::RootNotSingular);
    assert_eq!(parse("-1e999").unwrap_err(), ParseError::NumberTooBig);
    assert_eq!(parse("\"").unwrap_err(), ParseError::MissQuotationMark);
    assert_eq!(parse("\"\\q\"").unwrap_err(), ParseError::InvalidStringEscape);
    assert_eq!(parse("\"\n\"").unwrap_err(), ParseError::InvalidStringChar);
    assert_eq!(parse("\"\\u12G4\"").unwrap_err(), ParseError::InvalidUnicodeHex);
    assert_eq!(parse("\"\\uDC00\"").unwrap_err(), ParseError::InvalidUnicodeSurrogate);
    assert_eq!(parse("[1 ").unwrap_err(), ParseError::MissCommaOrSquareBracket);
    assert_eq!(parse("{1}").unwrap_err(), ParseError::MissKey);
    assert_eq!(parse("{\"a\" 1}").unwrap_err(), ParseError::MissColon);
    assert_eq!(parse("{\"a\":1 ").unwrap_err(), ParseError::MissCommaOrCurlyBracket);
}

#[test]
fn leading_zero_is_reported_as_root_not_singular() {
    assert_eq!(parse("00").unwrap_err(), ParseError::RootNotSingular);
    assert_eq!(parse("-01").unwrap_err(), ParseError::RootNotSingular);
    assert_eq!(parse("[0123]").unwrap_err(), ParseError::RootNotSingular);
    assert_eq!(parse("0").unwrap(), Value::Number(Number::Int(0)));
    assert_eq!(parse("0.5").unwrap(), Value::Number(Number::Float(0.5f64.to_bits())));
}

#[test]
fn errors_inside_an_object_value_are_invalid_value() {
    assert_eq!(parse("{\"a\":\"x}").unwrap_err(), ParseError::InvalidValue);
    assert_eq!(parse("{\"a\":[1}").unwrap_err(), ParseError::InvalidValue);
    assert_eq!(parse("{\"a\":}").unwrap_err(), ParseError::InvalidValue);
    assert_eq!(parse("{\"a\":1e999}").unwrap_err(), ParseError::InvalidValue);
    assert_eq!(parse("{\"a\":").unwrap_err(), ParseError::InvalidValue);
    assert_eq!(parse("[\"x").unwrap_err(), ParseError::MissQuotationMark);
    assert_eq!(parse("[{\"a\" 1}]").unwrap_err(), ParseError::MissColon);
}

#[test]
fn unclosed_containers() {
    assert_eq!(parse("[").unwrap_err(), ParseError::ExpectValue);
    assert_eq!(parse("[ ").unwrap_err(), ParseError::ExpectValue);
    assert_eq!(parse("{").unwrap_err(), ParseError::MissKey);
    assert_eq!(parse("{ ").unwrap_err(), ParseError::MissKey);
    assert_eq!(parse("{\"a\":1,}").unwrap_err(), ParseError::MissKey);
}

#[test]
fn backslash_at_the_end_leaves_the_string_unclosed() {
    assert_eq!(parse("\"\\").unwrap_err(), ParseError::MissQuotationMark);
    assert_eq!(parse("\"abc\\").unwrap_err(), ParseError::MissQuotationMark);
}

#[test]
fn string_content_must_be_utf8() {
    let r = Value::parse_slice(b"\"\xff\"", &read_float);
    assert_eq!(r.unwrap_err(), ParseError::InvalidStringChar);
    let r = Value::parse_slice(b"\"\xc3\"", &read_float);
    assert_eq!(r.unwrap_err(), ParseError::InvalidStringChar);
    let r = Value::parse_slice(b"\"\xc3\xa9\"", &read_float);
    assert_eq!(r.unwrap(), Value::String("é".to_string()));
    let r = Value::parse_slice(b"[1]\xff", &read_float);
    assert_eq!(r.unwrap_err(), ParseError::RootNotSingular);
}

#[test]
fn integers_at_the_edge_of_the_range() {
    assert_eq!(
        parse("9223372036854775807").unwrap(),
        Value::Number(Number::Int(i64::MAX))
    );
    assert_eq!(
        parse("-9223372036854775808").unwrap(),
        Value::Number(Number::Int(i64::MIN))
    );
    assert_eq!(
        parse("9223372036854775808").unwrap(),
        Value::Number(Number::Float(9223372036854775808.0f64.to_bits()))
    );
    assert_eq!(
        parse("-9223372036854775809").unwrap(),
        Value::Number(Number::Float((-9223372036854775809.0f64).to_bits()))
    );
    assert_eq!(
        parse("123456789012345678901234567890").unwrap(),
        Value::Number(Number::Float(123456789012345678901234567890.0f64.to_bits()))
    );
    assert_eq!(parse("1e2").unwrap(), Value::Number(Number::Float(100.0f64.to_bits())));
    assert_eq!(parse("1.0").unwrap(), Value::Number(Number::Float(1.0f64.to_bits())));
}

#[test]
fn int_of_lexeme_values() {
    assert_eq!(json_core::number::int_of_lexeme(b"0"), Some(0));
    assert_eq!(json_core::number::int_of_lexeme(b"-0"), Some(0));
    assert_eq!(json_core::number::int_of_lexeme(b"42"), Some(42));
    assert_eq!(json_core::number::int_of_lexeme(b"-42"), Some(-42));
    assert_eq!(json_core::number::int_of_lexeme(b"9223372036854775807"), Some(i64::MAX));
    assert_eq!(json_core::number::int_of_lexeme(b"9223372036854775808"), None);
    assert_eq!(json_core::number::int_of_lexeme(b"-9223372036854775808"), Some(i64::MIN));
    assert_eq!(json_core::number::int_of_lexeme(b"-9223372036854775809"), None);
    assert_eq!(json_core::number::int_of_lexeme(b"99999999999999999999999"), None);
}

#[test]
fn integer_text() {
    let mut out = Vec::new();
    json_core::number::push_int_text(&mut out, 0);
    out.push(b' ');
    json_core::number::push_int_text(&mut out, -7);
    out.push(b' ');
    json_core::number::push_int_text(&mut out, i64::MIN);
    out.push(b' ');
    json_core::number::push_int_text(&mut out, i64::MAX);
    out.push(b' ');
    json_core::number::push_nat_text(&mut out, u64::MAX);
    out.push(b' ');
    json_core::number::push_nat_text(&mut out, 1020);
    assert_eq!(
        String::from_utf8(out).unwrap(),
        "0 -7 -9223372036854775808 9223372036854775807 18446744073709551615 1020"
    );
}

#[test]
fn number_text() {
    assert_eq!(Number::Int(-12).to_text(&write_float), "-12");
    assert_eq!(Number::UInt(12).to_text(&write_float), "12");
    assert_eq!(Number::Float(1.5f64.to_bits()).to_text(&write_float), "1.5");
    assert_eq!(Number::Float(1e20f64.to_bits()).to_text(&write_float), "100000000000000000000");
}

#[test]
fn text_of_each_kind() {
    assert_eq!(text(&Value::Null), "null");
    assert_eq!(text(&Value::Bool(true)), "true");
    assert_eq!(text(&Value::Bool(false)), "false");
    assert_eq!(text(&Value::Number(Number::Int(-5))), "-5");
    assert_eq!(text(&Value::Number(Number::UInt(u64::MAX))), "18446744073709551615");
    assert_eq!(text(&Value::Number(Number::Float(0.25f64.to_bits()))), "0.25");
    assert_eq!(text(&Value::Array(Vec::new())), "[]");
    assert_eq!(text(&Value::Object(Dict::new())), "{}");
    assert_eq!(
        text(&Value::Array(vec![Value::Null, Value::Array(vec![Value::Bool(true)])])),
        "[null,[true]]"
    );
}

#[test]
fn text_of_strings() {
    assert_eq!(text(&Value::String("abc/f".to_string())), "\"abc/f\"");
    assert_eq!(text(&Value::String("b f".to_string())), "\"b f\"");
    assert_eq!(
        text(&Value::String("\" \\ \u{8} \u{c} \n \r \t".to_string())),
        "\"\\\" \\\\ \\b \\f \\n \\r \\t\""
    );
    assert_eq!(
        text(&Value::String("\u{0}\u{1}\u{b}\u{1f}\u{7f}".to_string())),
        "\"\\u0000\\u0001\\u000B\\u001F\u{7f}\""
    );
    assert_eq!(text(&Value::String("é€𝄞".to_string())), "\"é€𝄞\"");
}

#[test]
fn keys_are_written_as_strings_are() {
    let mut map = Dict::new();
    map.insert("a\nb".to_string(), Value::Null);
    assert_eq!(text(&Value::Object(map)), "{\"a\\nb\":null}");
    let mut map = Dict::new();
    map.insert("a\"b".to_string(), Value::Null);
    let v = Value::Object(map);
    assert_eq!(text(&v), "{\"a\\\"b\":null}");
    assert_eq!(parse("{\"a\\\"b\":null}").unwrap(), v);
    assert_eq!(parse(&text(&v)).unwrap(), v);
}

#[test]
fn escapes_in_strings() {
    assert_eq!(parse("\"\\/\"").unwrap(), Value::String("/".to_string()));
    assert_eq!(parse("\"\\b\\f\"").unwrap(), Value::String("\u{8}\u{c}".to_string()));
    assert_eq!(parse("\"bf\"").unwrap(), Value::String("bf".to_string()));
    assert_eq!(parse("\"\\u0041\\u00e9\\uFFFF\"").unwrap(), Value::String("Aé\u{ffff}".to_string()));
    assert_eq!(parse("\"\\u0000\"").unwrap(), Value::String("\u{0}".to_string()));
    assert_eq!(parse("\"\\uD834\"").unwrap_err(), ParseError::InvalidUnicodeSurrogate);
    assert_eq!(parse("\"\\uD834\\u0041\"").unwrap_err(), ParseError::InvalidUnicodeSurrogate);
    assert_eq!(parse("\"\\uD834\\uZZZZ\"").unwrap_err(), ParseError::InvalidUnicodeHex);
    assert_eq!(parse("\"\\uD834\\uDD1E").unwrap_err(), ParseError::MissQuotationMark);
    assert_eq!(parse("\"\\uD834\\uDD1").unwrap_err(), ParseError::InvalidUnicodeSurrogate);
    assert_eq!(parse("\"\\uD834\\u").unwrap_err(), ParseError::InvalidUnicodeSurrogate);
    assert_eq!(parse("\"\\u0041").unwrap_err(), ParseError::MissQuotationMark);
    assert_eq!(parse("\"\\u004").unwrap_err(), ParseError::InvalidUnicodeHex);
    assert_eq!(parse("\"\\u").unwrap_err(), ParseError::InvalidUnicodeHex);
    assert_eq!(parse("\"\\u0041\"").unwrap(), Value::String("A".to_string()));
}

#[test]
fn values_of_different_kinds_are_unequal() {
    let values = [
        parse("null").unwrap(),
        parse("true").unwrap(),
        parse("1").unwrap(),
        parse("1.5").unwrap(),
        parse("\"1\"").unwrap(),
        parse("[1]").unwrap(),
        parse("{\"1\":1}").unwrap(),
    ];
    for (i, a) in values.iter().enumerate() {
        for (j, b) in values.iter().enumerate() {
            assert_eq!(a == b, i == j);
            assert_eq!(a.equals(b), i == j);
        }
    }
    assert_ne!(parse("[1,2]").unwrap(), parse("[1]").unwrap());
    assert_ne!(parse("[1,2]").unwrap(), parse("[2,1]").unwrap());
    assert_ne!(parse("{\"a\":1}").unwrap(), parse("{\"b\":1}").unwrap());
    assert_ne!(parse("{\"a\":1}").unwrap(), parse("{\"a\":2}").unwrap());
    assert_eq!(parse("{\"a\":1,\"b\":2}").unwrap(), parse("{\"b\":2,\"a\":1}").unwrap());
    assert_eq!(parse("[0.0]").unwrap(), parse("[-0.0]").unwrap());
}

#[test]
fn children_by_position_and_key() {
    let v = parse("{\"a\":[10,20],\"b\":null}").unwrap();
    assert_eq!(v["b"], Value::Null);
    assert_eq!(v["a"][1], Value::Number(Number::Int(20)));
    assert_eq!(v.get_key("a").unwrap().get_index(0), Some(&Value::Number(Number::Int(10))));
    assert_eq!(v.get_key("c"), None);
    assert_eq!(v.get_index(0), None);
    assert_eq!(v["a"].get_index(2), None);
    assert_eq!(v["a"].get_key("a"), None);
}

#[test]
fn from_str_and_from_slice() {
    assert_eq!(json_core::from_str("[1]", &read_float), parse("[1]"));
    assert_eq!(json_core::from_slice(b"[1]", &read_float), parse("[1]"));
    assert_eq!(json_core::from_slice(b"[1", &read_float), parse("[1"));
}

#[test]
fn context_steps_through_the_bytes() {
    let mut c = Context::new(b"ab");
    assert_eq!(c.bytes, b"ab");
    assert_eq!(c.step(), Some(b'a'));
    assert_eq!(c.bytes, b"b");
    assert_eq!(c.step(), Some(b'b'));
    assert_eq!(c.bytes, b"");
    assert_eq!(c.step(), None);
    assert_eq!(c.step(), None);
    assert_eq!(c.bytes, b"");
}

#[test]
fn stack_pushes_and_pops_suffixes() {
    let mut s: Stack<u8> = Stack::new();
    assert_eq!(s.len(), 0);
    s.push_byte(1);
    s.push_bytes(&[2, 3, 4]);
    s.push_byte(5);
    assert_eq!(s.len(), 5);
    assert_eq!(s.pop_bytes(2), vec![4, 5]);
    assert_eq!(s.len(), 3);
    assert_eq!(s.pop_bytes(0), Vec::<u8>::new());
    assert_eq!(s.pop_bytes(3), vec![1, 2, 3]);
    assert_eq!(s.len(), 0);
}

#[test]
fn utf8_of_a_scalar() {
    let mut s: Stack<u8> = Stack::new();
    assert_eq!(json_core::utf8::encode_utf8_into(&mut s, 0x24), Ok(()));
    assert_eq!(json_core::utf8::encode_utf8_into(&mut s, 0xA2), Ok(()));
    assert_eq!(json_core::utf8::encode_utf8_into(&mut s, 0x20AC), Ok(()));
    assert_eq!(json_core::utf8::encode_utf8_into(&mut s, 0x1D11E), Ok(()));
    assert_eq!(
        json_core::utf8::encode_utf8_into(&mut s, 0xD800),
        Err(ParseError::InvalidUnicodeSurrogate)
    );
    assert_eq!(
        json_core::utf8::encode_utf8_into(&mut s, 0x110000),
        Err(ParseError::InvalidUnicodeSurrogate)
    );
    let n = s.len();
    assert_eq!(s.pop_bytes(n), "$¢€𝄞".as_bytes().to_vec());
}

#[test]
fn serializer_output() {
    let mut s = JsonSerializer::new();
    s.serialize_map();
    s.serialize_key();
    s.serialize_str("int");
    s.serialize_value();
    s.serialize_u64(1);
    s.serialize_key();
    s.serialize_str("seq");
    s.serialize_value();
    s.serialize_seq();
    s.serialize_element();
    s.serialize_str("a");
    s.serialize_element();
    s.serialize_str("b");
    s.end_seq();
    s.end_map();
    assert_eq!(s.into_output(), "{\"int\":1,\"seq\":[\"a\",\"b\"]}");

    let mut s = JsonSerializer::new();
    s.serialize_variant("Tuple");
    s.serialize_seq();
    s.serialize_element();
    s.serialize_i64(-1);
    s.serialize_element();
    s.serialize_bool(true);
    s.serialize_element();
    s.serialize_bool(false);
    s.serialize_element();
    s.serialize_unit();
    s.serialize_element();
    s.write_raw("2.5");
    s.end_seq();
    s.end_map();
    assert_eq!(s.into_output(), "{\"Tuple\":[-1,true,false,null,2.5]}");

    let mut s = JsonSerializer::new();
    s.serialize_str("a\"b\\c\nd");
    let written = s.into_output();
    assert_eq!(written, "\"a\\\"b\\\\c\\nd\"");
    assert_eq!(parse(&written).unwrap(), Value::String("a\"b\\c\nd".to_string()));
}

#[test]
fn error_messages() {
    assert_eq!(JsonError::Eof.message(), "unexpected end of input");
    assert_eq!(JsonError::Syntax.message(), "syntax error");
    assert_eq!(JsonError::ExpectedInteger.message(), "expectedInteger");
    assert_eq!(JsonError::TrailingCharacters.message(), "trailing characters");
    assert_eq!(JsonError::custom("x y".to_string()).message(), "x y");
}

#[test]
fn a_copy_equals_the_value() {
    let v = parse("{\"a\":[1,2.5,\"x\",null,{\"b\":true}],\"c\":{}}").unwrap();
    let copy = v.clone();
    assert_eq!(copy, v);
    assert_eq!(text(&copy), text(&v));
    let mut changed = v.duplicate();
    *changed.member_mut("a").item_mut(0) = Value::Null;
    assert_ne!(changed, v);
    assert_eq!(text(&v), "{\"a\":[1,2.5,\"x\",null,{\"b\":true}],\"c\":{}}");
    assert_eq!(text(&changed), "{\"a\":[null,2.5,\"x\",null,{\"b\":true}],\"c\":{}}");
}
