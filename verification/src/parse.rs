//! The parser: recursive descent over a cursor.

use crate::context::Context;
use crate::dict::{bytes_equal, Dict};
use crate::error::ParseError;
use crate::grammar;
use crate::grammar::{digit_run, parse_document, skip_whitespace, starts_with};
use crate::grammar_lemmas::{
    lemma_digit_run_bounds, lemma_insert_member_contents, lemma_insert_member_mapped,
};
use crate::model::{json_wf, Json};
use crate::number::{int_of_lexeme, is_digit, Number};
use crate::reader::{is_float_reader, read_float, reader_model};
use crate::stack::Stack;
use crate::utf8::{encode_utf8_into, string_from_utf8};
use crate::value::{lemma_array_view, lemma_object_view, member_views, result_model, views, Value};
use vstd::prelude::*;
use vstd::slice::slice_subrange;
use vstd::utf8::{encode_utf8, is_scalar};

verus! {

/// What a parsing step did, against what the grammar says of the bytes that
/// were ahead: on success it returned the value and left the cursor on the
/// rest, and on failure it returned the error and left the cursor where it
/// was.
pub open spec fn parsed_as(
    r: Result<Value, ParseError>,
    before: Seq<u8>,
    after: Seq<u8>,
    expected: Result<(Json, Seq<u8>), ParseError>,
) -> bool {
    match expected {
        Ok((j, rest)) => r.is_ok() && r.unwrap()@ == j && after == rest,
        Err(e) => r == Err::<Value, ParseError>(e) && after == before,
    }
}

/// The value of a hexadecimal digit.
fn hex_digit(b: u8) -> (r: Option<u32>)
    ensures
        match r {
            Some(v) => grammar::hex_value(b) == Some(v as int),
            None => grammar::hex_value(b).is_none(),
        },
{
    if 0x30 <= b && b <= 0x39 {
        Some((b - 0x30) as u32)
    } else if 0x61 <= b && b <= 0x66 {
        Some((b - 0x61 + 10) as u32)
    } else if 0x41 <= b && b <= 0x46 {
        Some((b - 0x41 + 10) as u32)
    } else {
        None
    }
}

impl Value {
    /// Parses a document from text, reading floats with `reader`.
    ///
    /// The result is what the grammar says of the bytes of `json`: the one
    /// value that stands between optional whitespace, or the first error.
    pub fn parse<F: Fn(&[u8]) -> Option<u64>>(json: &str, reader: &F) -> (r: Result<
        Value,
        ParseError,
    >)
        requires
            is_float_reader(reader),
        ensures
            result_model(r) == parse_document(encode_utf8(json@), reader_model(reader)),
            r matches Ok(v) ==> json_wf(v@),
    {
        Value::parse_slice(json.as_bytes(), reader)
    }

    /// Parses a document from bytes, reading floats with `reader`. The bytes
    /// need not be UTF-8; only the content of each string must be.
    pub fn parse_slice<F: Fn(&[u8]) -> Option<u64>>(json: &[u8], reader: &F) -> (r: Result<
        Value,
        ParseError,
    >)
        requires
            is_float_reader(reader),
        ensures
            result_model(r) == parse_document(json@, reader_model(reader)),
            r matches Ok(v) ==> json_wf(v@),
    {
        let mut c: Context = Context::new(json);
        Value::parse_whitespace(&mut c);
        match Value::parse_value(&mut c, reader) {
            Ok(v) => {
                Value::parse_whitespace(&mut c);
                if c.bytes.len() == 0 {
                    Ok(v)
                } else {
                    Err(ParseError::RootNotSingular)
                }
            },
            Err(e) => Err(e),
        }
    }

    /// Moves the cursor past the whitespace ahead.
    fn parse_whitespace(context: &mut Context)
        ensures
            final(context)@ == skip_whitespace(old(context)@),
            final(context)@.len() <= old(context)@.len(),
    {
        let bytes = context.bytes;
        let mut i: usize = 0;
        proof {
            assert(bytes@.skip(0) =~= bytes@);
        }
        while i < bytes.len() && (bytes[i] == 0x20 || bytes[i] == 0x09 || bytes[i] == 0x0a
            || bytes[i] == 0x0d)
            invariant
                i <= bytes@.len(),
                skip_whitespace(bytes@) == skip_whitespace(bytes@.skip(i as int)),
            decreases bytes@.len() - i,
        {
            proof {
                assert(bytes@.skip(i as int).skip(1) =~= bytes@.skip(i + 1));
            }
            i += 1;
        }
        context.bytes = slice_subrange(bytes, i, bytes.len());
    }

    /// Reads one value, chosen by the byte ahead.
    fn parse_value<F: Fn(&[u8]) -> Option<u64>>(context: &mut Context, reader: &F) -> (r: Result<
        Value,
        ParseError,
    >)
        requires
            is_float_reader(reader),
        ensures
            parsed_as(
                r,
                old(context)@,
                final(context)@,
                grammar::parse_value(old(context)@, reader_model(reader)),
            ),
            r.is_ok() ==> final(context)@.len() < old(context)@.len(),
            r matches Ok(v) ==> json_wf(v@),
        decreases old(context)@.len(), 1int,
    {
        let bytes = context.bytes;
        if bytes.len() == 0 {
            return Err(ParseError::ExpectValue);
        }
        let first = bytes[0];
        if first == 0x6e || first == 0x74 || first == 0x66 {
            Value::parse_literal(context)
        } else if first == 0x22 {
            Value::parse_string(context)
        } else if first == 0x5b {
            Value::parse_array(context, reader)
        } else if first == 0x7b {
            Value::parse_object(context, reader)
        } else {
            Value::parse_number(context, reader)
        }
    }

    /// Moves the cursor past `literal` if it stands ahead.
    fn check_literal(context: &mut Context, literal: &[u8]) -> (r: Result<(), ParseError>)
        ensures
            starts_with(old(context)@, literal@) ==> r.is_ok() && final(context)@ == old(context)@.skip(literal@.len() as int),
            !starts_with(old(context)@, literal@) ==> r == Err::<(), ParseError>(
                ParseError::InvalidValue,
            ) && final(context)@ == old(context)@,
    {
        let bytes = context.bytes;
        if bytes.len() < literal.len() || !bytes_equal(
            slice_subrange(bytes, 0, literal.len()),
            literal,
        ) {
            return Err(ParseError::InvalidValue);
        }
        context.bytes = slice_subrange(bytes, literal.len(), bytes.len());
        Ok(())
    }

    /// Reads `null`, `true` or `false`.
    fn parse_literal(context: &mut Context) -> (r: Result<Value, ParseError>)
        requires
            old(context)@.len() > 0,
        ensures
            parsed_as(r, old(context)@, final(context)@, grammar::parse_literal(old(context)@)),
            r.is_ok() ==> final(context)@.len() < old(context)@.len(),
            r matches Ok(v) ==> json_wf(v@),
    {
        let first = context.bytes[0];
        let null: [u8; 4] = [0x6e, 0x75, 0x6c, 0x6c];
        let truth: [u8; 4] = [0x74, 0x72, 0x75, 0x65];
        let falsehood: [u8; 5] = [0x66, 0x61, 0x6c, 0x73, 0x65];
        proof {
            assert(null@ =~= grammar::null_text());
            assert(truth@ =~= grammar::true_text());
            assert(falsehood@ =~= grammar::false_text());
            let s = context@;
            if starts_with(s, grammar::null_text()) {
                assert(s[0] == s.subrange(0, 4)[0]);
            }
            if starts_with(s, grammar::true_text()) {
                assert(s[0] == s.subrange(0, 4)[0]);
            }
            if starts_with(s, grammar::false_text()) {
                assert(s[0] == s.subrange(0, 5)[0]);
            }
        }
        if first == 0x6e {
            match Value::check_literal(context, vstd::array::array_as_slice(&null)) {
                Ok(()) => Ok(Value::Null),
                Err(e) => Err(e),
            }
        } else if first == 0x74 {
            match Value::check_literal(context, vstd::array::array_as_slice(&truth)) {
                Ok(()) => Ok(Value::Bool(true)),
                Err(e) => Err(e),
            }
        } else if first == 0x66 {
            match Value::check_literal(context, vstd::array::array_as_slice(&falsehood)) {
                Ok(()) => Ok(Value::Bool(false)),
                Err(e) => Err(e),
            }
        } else {
            Err(ParseError::InvalidValue)
        }
    }

    /// The number of digits that stand in a row from index `start` on.
    fn skip_following_digits(bytes: &[u8], start: usize) -> (count: usize)
        ensures
            count == digit_run(bytes@, start as int),
            start <= bytes@.len() ==> start + count <= bytes@.len(),
    {
        if start >= bytes.len() {
            return 0;
        }
        let mut count: usize = 0;
        while start + count < bytes.len() && 0x30 <= bytes[start + count] && bytes[start + count]
            <= 0x39
            invariant
                start + count <= bytes.len(),
                digit_run(bytes@, start as int) == count + digit_run(bytes@, start + count),
            decreases bytes.len() - count,
        {
            count += 1;
        }
        count
    }

    /// Reads a number.
    fn parse_number<F: Fn(&[u8]) -> Option<u64>>(context: &mut Context, reader: &F) -> (r: Result<
        Value,
        ParseError,
    >)
        requires
            is_float_reader(reader),
            old(context)@.len() > 0,
        ensures
            parsed_as(
                r,
                old(context)@,
                final(context)@,
                grammar::parse_number(old(context)@, reader_model(reader)),
            ),
            r.is_ok() ==> final(context)@.len() < old(context)@.len(),
            r matches Ok(v) ==> json_wf(v@),
    {
        let bytes = context.bytes;
        let ghost s = bytes@;
        let mut index_end: usize = 0;
        let mut is_float: bool = false;
        if bytes[0] == 0x2d {
            index_end += 1;
        }
        let sign = index_end;
        proof {
            lemma_digit_run_bounds(s, sign as int);
        }
        let len_int = Value::skip_following_digits(bytes, index_end);
        if len_int == 0 {
            return Err(ParseError::InvalidValue);
        }
        if bytes[index_end] == 0x30 && len_int > 1 {
            return Err(ParseError::RootNotSingular);
        }
        index_end += len_int;
        let int_end = index_end;
        if index_end < bytes.len() && bytes[index_end] == 0x2e {
            index_end += 1;
            is_float = true;
            proof {
                lemma_digit_run_bounds(s, index_end as int);
            }
            let len_frac = Value::skip_following_digits(bytes, index_end);
            if len_frac == 0 {
                return Err(ParseError::InvalidValue);
            }
            index_end += len_frac;
        }
        if index_end < bytes.len() && (bytes[index_end] == 0x65 || bytes[index_end] == 0x45) {
            index_end += 1;
            is_float = true;
            if index_end < bytes.len() && (bytes[index_end] == 0x2b || bytes[index_end] == 0x2d) {
                index_end += 1;
            }
            proof {
                lemma_digit_run_bounds(s, index_end as int);
            }
            let len_exp = Value::skip_following_digits(bytes, index_end);
            if len_exp == 0 {
                return Err(ParseError::InvalidValue);
            }
            index_end += len_exp;
        }
        assert(index_end == grammar::number_end(s));
        assert(grammar::number_syntax_error(s).is_none());
        assert(is_float == (grammar::has_fraction(s) || grammar::has_exponent(s)));
        let lexeme = slice_subrange(bytes, 0, index_end);
        let number = if is_float {
            Number::from_reading(read_float(reader, lexeme))
        } else {
            proof {
                assert forall|j: int| sign <= j < lexeme@.len() implies is_digit(
                    #[trigger] lexeme@[j],
                ) by {
                    assert(lexeme@[j] == s[j]);
                }
            }
            match int_of_lexeme(lexeme) {
                Some(n) => Ok(Number::Int(n)),
                None => Number::from_reading(read_float(reader, lexeme)),
            }
        };
        match number {
            Ok(n) => {
                context.bytes = slice_subrange(bytes, index_end, bytes.len());
                Ok(Value::Number(n))
            },
            Err(e) => Err(e),
        }
    }

    /// The 16-bit value of four hexadecimal digits.
    fn hex4_to_u32(hex4: &[u8]) -> (r: Option<u32>)
        requires
            hex4@.len() == 4,
        ensures
            match r {
                Some(v) => grammar::hex4_value(hex4@) == Some(v as int),
                None => grammar::hex4_value(hex4@).is_none(),
            },
            r matches Some(v) ==> v <= 0xffff,
    {
        let mut value: u32 = 0;
        let mut i: usize = 0;
        while i < 4
            invariant
                i <= 4,
                hex4@.len() == 4,
                forall|j: int| 0 <= j < i ==> grammar::hex_value(#[trigger] hex4@[j]).is_some(),
                i == 0 ==> value == 0,
                i == 1 ==> value == grammar::hex_value(hex4@[0]).unwrap(),
                i == 2 ==> value == grammar::hex_value(hex4@[0]).unwrap() * 0x10
                    + grammar::hex_value(hex4@[1]).unwrap(),
                i == 3 ==> value == grammar::hex_value(hex4@[0]).unwrap() * 0x100
                    + grammar::hex_value(hex4@[1]).unwrap() * 0x10 + grammar::hex_value(
                    hex4@[2],
                ).unwrap(),
                i == 4 ==> value == grammar::hex_value(hex4@[0]).unwrap() * 0x1000
                    + grammar::hex_value(hex4@[1]).unwrap() * 0x100 + grammar::hex_value(
                    hex4@[2],
                ).unwrap() * 0x10 + grammar::hex_value(hex4@[3]).unwrap(),
            decreases 4 - i,
        {
            match hex_digit(hex4[i]) {
                Some(digit) => {
                    value = value * 16 + digit;
                },
                None => {
                    return None;
                },
            }
            i += 1;
        }
        Some(value)
    }

    /// Reads the `\u` escape that starts at index `i`: the scalar it stands
    /// for and the number of bytes it takes.
    fn read_unicode_escape(bytes: &[u8], i: usize) -> (r: Result<(u32, usize), ParseError>)
        requires
            i + 1 < bytes@.len(),
        ensures
            match grammar::unicode_escape(bytes@, i as int) {
                Ok((scalar, width)) => r == Ok::<(u32, usize), ParseError>((scalar, width as usize))
                    && is_scalar(scalar) && (width == 6 || width == 12) && i + width <= bytes@.len(),
                Err(e) => r == Err::<(u32, usize), ParseError>(e),
            },
    {
        if bytes.len() - i < 6 {
            return Err(ParseError::InvalidUnicodeHex);
        }
        match Value::hex4_to_u32(slice_subrange(bytes, i + 2, i + 6)) {
            Some(unit) => {
                if 0xd800 <= unit && unit <= 0xdbff {
                    if bytes.len() - i >= 12 && bytes[i + 6] == 0x5c && bytes[i + 7] == 0x75 {
                        match Value::hex4_to_u32(slice_subrange(bytes, i + 8, i + 12)) {
                            Some(low) => {
                                if !(0xdc00 <= low && low <= 0xdfff) {
                                    return Err(ParseError::InvalidUnicodeSurrogate);
                                }
                                Ok((0x10000 + (unit - 0xd800) * 0x400 + (low - 0xdc00), 12))
                            },
                            None => Err(ParseError::InvalidUnicodeHex),
                        }
                    } else {
                        Err(ParseError::InvalidUnicodeSurrogate)
                    }
                } else if 0xdc00 <= unit && unit <= 0xdfff {
                    Err(ParseError::InvalidUnicodeSurrogate)
                } else {
                    Ok((unit, 6))
                }
            },
            None => Err(ParseError::InvalidUnicodeHex),
        }
    }

    /// Takes the step at index `i` of a string's body: appends what it
    /// decodes to the buffer and returns the number of bytes it took, or 0
    /// for the closing quote.
    fn read_string_step(bytes: &[u8], i: usize, stack: &mut Stack<u8>) -> (r: Result<
        usize,
        ParseError,
    >)
        requires
            i < bytes@.len(),
        ensures
            match grammar::string_step(bytes@, i as int) {
                grammar::StringStep::Close => r == Ok::<usize, ParseError>(0) && final(stack)@
                    == old(stack)@,
                grammar::StringStep::Append(decoded, width) => r == Ok::<usize, ParseError>(
                    width as usize,
                ) && 0 < width && i + width <= bytes@.len() && final(stack)@ == old(stack)@
                    + decoded,
                grammar::StringStep::Fail(e) => r == Err::<usize, ParseError>(e),
            },
    {
        let b = bytes[i];
        if b == 0x22 {
            Ok(0)
        } else if b == 0x5c {
            if bytes.len() - i <= 1 {
                return Err(ParseError::MissQuotationMark);
            }
            let e = bytes[i + 1];
            if e == 0x75 {
                match Value::read_unicode_escape(bytes, i) {
                    Ok((scalar, width)) => {
                        match encode_utf8_into(stack, scalar) {
                            Ok(()) => Ok(width),
                            Err(e) => Err(e),
                        }
                    },
                    Err(e) => Err(e),
                }
            } else {
                let decoded: u8 = if e == 0x22 || e == 0x5c || e == 0x2f {
                    e
                } else if e == 0x62 {
                    0x08
                } else if e == 0x66 {
                    0x0c
                } else if e == 0x6e {
                    0x0a
                } else if e == 0x72 {
                    0x0d
                } else if e == 0x74 {
                    0x09
                } else {
                    return Err(ParseError::InvalidStringEscape);
                };
                stack.push_byte(decoded);
                proof {
                    assert(stack@ =~= old(stack)@ + seq![decoded]);
                }
                Ok(2)
            }
        } else if b < 0x20 {
            Err(ParseError::InvalidStringChar)
        } else {
            stack.push_byte(b);
            proof {
                assert(stack@ =~= old(stack)@ + seq![b]);
            }
            Ok(1)
        }
    }

    /// Reads a string and returns its content.
    fn parse_string_raw(context: &mut Context) -> (r: Result<String, ParseError>)
        ensures
            match grammar::parse_string_raw(old(context)@) {
                Ok((content, rest)) => r.is_ok() && encode_utf8(r.unwrap()@) == content && final(context)@ == rest,
                Err(e) => r == Err::<String, ParseError>(e) && final(context)@ == old(context)@,
            },
            r.is_ok() ==> final(context)@.len() < old(context)@.len(),
    {
        let bytes = context.bytes;
        if bytes.len() < 2 || bytes[0] != 0x22 {
            return Err(ParseError::MissQuotationMark);
        }
        let ghost s = bytes@;
        let mut stack: Stack<u8> = Stack::new();
        let mut i: usize = 1;
        loop
            invariant
                1 <= i <= bytes@.len(),
                s == bytes@,
                context@ == s,
                old(context)@ == s,
                s.len() >= 2 && s[0] == 0x22,
                grammar::string_body(s, 1, Seq::empty()) == grammar::string_body(
                    s,
                    i as int,
                    stack@,
                ),
            decreases bytes@.len() - i,
        {
            if i >= bytes.len() {
                return Err(ParseError::MissQuotationMark);
            }
            match Value::read_string_step(bytes, i, &mut stack) {
                Ok(width) => {
                    if width == 0 {
                        let ghost decoded = stack@;
                        let size = stack.len();
                        let content = stack.pop_bytes(size);
                        proof {
                            assert(content@ =~= decoded);
                        }
                        match string_from_utf8(content) {
                            Some(text) => {
                                context.bytes = slice_subrange(bytes, i + 1, bytes.len());
                                return Ok(text);
                            },
                            None => {
                                return Err(ParseError::InvalidStringChar);
                            },
                        }
                    }
                    i += width;
                },
                Err(e) => {
                    return Err(e);
                },
            }
        }
    }

    /// Reads a string as a value.
    fn parse_string(context: &mut Context) -> (r: Result<Value, ParseError>)
        requires
            old(context)@.len() > 0,
            old(context)@[0] == 0x22,
        ensures
            parsed_as(r, old(context)@, final(context)@, grammar::parse_string(old(context)@)),
            r.is_ok() ==> final(context)@.len() < old(context)@.len(),
            r matches Ok(v) ==> json_wf(v@),
    {
        match Value::parse_string_raw(context) {
            Ok(text) => {
                proof {
                    vstd::utf8::encode_utf8_valid_utf8(text@);
                }
                Ok(Value::String(text))
            },
            Err(e) => Err(e),
        }
    }

    /// Reads an array.
    fn parse_array<F: Fn(&[u8]) -> Option<u64>>(context: &mut Context, reader: &F) -> (r: Result<
        Value,
        ParseError,
    >)
        requires
            is_float_reader(reader),
            old(context)@.len() > 0,
            old(context)@[0] == 0x5b,
        ensures
            parsed_as(
                r,
                old(context)@,
                final(context)@,
                grammar::parse_array(old(context)@, reader_model(reader)),
            ),
            r.is_ok() ==> final(context)@.len() < old(context)@.len(),
            r matches Ok(v) ==> json_wf(v@),
        decreases old(context)@.len(), 0int,
    {
        let start = context.bytes;
        let ghost fl = reader_model(reader);
        context.step();
        Value::parse_whitespace(context);
        let mut arr: Vec<Value> = Vec::new();
        proof {
            lemma_array_view(arr);
            assert(views(arr@) =~= Seq::<Json>::empty());
        }
        if context.bytes.len() > 0 && context.bytes[0] == 0x5d {
            context.step();
            return Ok(Value::Array(arr));
        }
        loop
            invariant
                is_float_reader(reader),
                fl == reader_model(reader),
                start@ == old(context)@,
                context@.len() < start@.len(),
                grammar::parse_array(start@, fl) == grammar::parse_elements(
                    context@,
                    views(arr@),
                    fl,
                ),
                forall|i: int| 0 <= i < arr@.len() ==> json_wf(#[trigger] arr@[i]@),
            decreases context@.len(),
        {
            let ghost at_item = context@;
            let ghost items = arr@;
            match Value::parse_value(context, reader) {
                Ok(v) => {
                    arr.push(v);
                },
                Err(e) => {
                    context.bytes = start;
                    return Err(e);
                },
            }
            proof {
                assert(views(arr@) =~= views(items).push(arr@[arr@.len() - 1]@));
            }
            Value::parse_whitespace(context);
            match context.step() {
                Some(b) => {
                    if b == 0x2c {
                        Value::parse_whitespace(context);
                    } else if b == 0x5d {
                        proof {
                            lemma_array_view(arr);
                            assert forall|i: int| 0 <= i < views(arr@).len() implies json_wf(
                                #[trigger] views(arr@)[i],
                            ) by {
                                assert(json_wf(arr@[i]@));
                            }
                        }
                        return Ok(Value::Array(arr));
                    } else {
                        context.bytes = start;
                        return Err(ParseError::MissCommaOrSquareBracket);
                    }
                },
                None => {
                    context.bytes = start;
                    return Err(ParseError::MissCommaOrSquareBracket);
                },
            }
        }
    }

    /// Reads one member of an object: its key and its value.
    fn parse_member<F: Fn(&[u8]) -> Option<u64>>(context: &mut Context, reader: &F) -> (r: Result<
        (String, Value),
        ParseError,
    >)
        requires
            is_float_reader(reader),
        ensures
            match grammar::parse_member(old(context)@, reader_model(reader)) {
                Ok((member, rest)) => r.is_ok() && encode_utf8(r.unwrap().0@) == member.0
                    && r.unwrap().1@ == member.1 && final(context)@ == rest,
                Err(e) => r == Err::<(String, Value), ParseError>(e) && final(context)@ == old(context)@,
            },
            r.is_ok() ==> final(context)@.len() < old(context)@.len(),
            r matches Ok(m) ==> json_wf(m.1@),
        decreases old(context)@.len(), 2int,
    {
        let start = context.bytes;
        let key = match Value::parse_string_raw(context) {
            Ok(key) => key,
            Err(_) => {
                return Err(ParseError::MissKey);
            },
        };
        Value::parse_whitespace(context);
        match context.step() {
            Some(b) => {
                if b != 0x3a {
                    context.bytes = start;
                    return Err(ParseError::MissColon);
                }
            },
            None => {
                context.bytes = start;
                return Err(ParseError::MissColon);
            },
        }
        Value::parse_whitespace(context);
        match Value::parse_value(context, reader) {
            Ok(value) => Ok((key, value)),
            Err(_) => {
                context.bytes = start;
                Err(ParseError::InvalidValue)
            },
        }
    }

    /// Reads an object.
    fn parse_object<F: Fn(&[u8]) -> Option<u64>>(context: &mut Context, reader: &F) -> (r: Result<
        Value,
        ParseError,
    >)
        requires
            is_float_reader(reader),
            old(context)@.len() > 0,
            old(context)@[0] == 0x7b,
        ensures
            parsed_as(
                r,
                old(context)@,
                final(context)@,
                grammar::parse_object(old(context)@, reader_model(reader)),
            ),
            r.is_ok() ==> final(context)@.len() < old(context)@.len(),
            r matches Ok(v) ==> json_wf(v@),
        decreases old(context)@.len(), 0int,
    {
        let start = context.bytes;
        let ghost fl = reader_model(reader);
        context.step();
        Value::parse_whitespace(context);
        let mut object: Dict<String, Value> = Dict::new();
        proof {
            lemma_object_view(object);
            assert(member_views(object.members()) =~= Seq::<(Seq<u8>, Json)>::empty());
            lemma_object_wf(object);
        }
        if context.bytes.len() > 0 && context.bytes[0] == 0x7d {
            context.step();
            return Ok(Value::Object(object));
        }
        loop
            invariant
                is_float_reader(reader),
                fl == reader_model(reader),
                start@ == old(context)@,
                context@.len() < start@.len(),
                grammar::parse_object(start@, fl) == grammar::parse_members(
                    context@,
                    member_views(object.members()),
                    fl,
                ),
                object.wf(),
                values_wf(object.members()),
            decreases context@.len(),
        {
            let ghost before = object.members();
            let (key, value) = match Value::parse_member(context, reader) {
                Ok(member) => member,
                Err(e) => {
                    context.bytes = start;
                    return Err(e);
                },
            };
            proof {
                lemma_member_inserted(before, encode_utf8(key@), value);
            }
            object.insert(key, value);
            Value::parse_whitespace(context);
            match context.step() {
                Some(b) => {
                    if b == 0x2c {
                        Value::parse_whitespace(context);
                    } else if b == 0x7d {
                        proof {
                            lemma_object_view(object);
                            lemma_object_wf(object);
                        }
                        return Ok(Value::Object(object));
                    } else {
                        context.bytes = start;
                        return Err(ParseError::MissCommaOrCurlyBracket);
                    }
                },
                None => {
                    context.bytes = start;
                    return Err(ParseError::MissCommaOrCurlyBracket);
                },
            }
        }
    }
}

/// Parses a document from text, as [`Value::parse`] does.
pub fn from_str<F: Fn(&[u8]) -> Option<u64>>(json: &str, reader: &F) -> (r: Result<
    Value,
    ParseError,
>)
    requires
        is_float_reader(reader),
    ensures
        result_model(r) == parse_document(encode_utf8(json@), reader_model(reader)),
        r matches Ok(v) ==> json_wf(v@),
{
    Value::parse(json, reader)
}

/// Parses a document from bytes, as [`Value::parse_slice`] does.
pub fn from_slice<F: Fn(&[u8]) -> Option<u64>>(json: &[u8], reader: &F) -> (r: Result<
    Value,
    ParseError,
>)
    requires
        is_float_reader(reader),
    ensures
        result_model(r) == parse_document(json@, reader_model(reader)),
        r matches Ok(v) ==> json_wf(v@),
{
    Value::parse_slice(json, reader)
}

/// Every value among the members is well-formed.
pub open spec fn values_wf(members: Seq<(Seq<u8>, Value)>) -> bool {
    forall|i: int| 0 <= i < members.len() ==> json_wf((#[trigger] members[i]).1@)
}

/// An object whose keys ascend and whose values are well-formed is
/// well-formed.
pub proof fn lemma_object_wf(object: Dict<String, Value>)
    requires
        object.wf(),
        values_wf(object.members()),
    ensures
        json_wf(Value::Object(object)@),
{
    lemma_object_view(object);
    let ms = member_views(object.members());
    assert forall|i: int| 0 <= i < ms.len() implies vstd::utf8::valid_utf8((#[trigger] ms[i]).0)
        && json_wf(ms[i].1) by {
        assert(json_wf(object.members()[i].1@));
        vstd::utf8::encode_utf8_valid_utf8(object.entries@[i].0@);
    }
    assert forall|a: int, b: int| 0 <= a && b == a + 1 && b < ms.len() implies crate::model::key_less(
        (#[trigger] ms[a]).0,
        (#[trigger] ms[b]).0,
    ) by {
        assert(crate::model::key_less(object.members()[a].0, object.members()[b].0));
    }
}

/// Inserting a well-formed value among well-formed values leaves them
/// well-formed, and the models of the members after the insertion are the
/// models of the members before it with the model of the value inserted.
pub proof fn lemma_member_inserted(before: Seq<(Seq<u8>, Value)>, key: Seq<u8>, value: Value)
    requires
        values_wf(before),
        json_wf(value@),
    ensures
        values_wf(crate::model::insert_member(before, key, value)),
        member_views(crate::model::insert_member(before, key, value))
            == crate::model::insert_member(member_views(before), key, value@),
{
    let after = crate::model::insert_member(before, key, value);
    lemma_insert_member_mapped(before, key, value, |v: Value| v@);
    lemma_insert_member_contents(before, key, value);
    assert(member_views(after) =~= after.map_values(
        |m: (Seq<u8>, Value)| (m.0, (|v: Value| v@)(m.1)),
    ));
    assert(member_views(before) =~= before.map_values(
        |m: (Seq<u8>, Value)| (m.0, (|v: Value| v@)(m.1)),
    ));
    assert forall|i: int| 0 <= i < after.len() implies json_wf((#[trigger] after[i]).1@) by {
        let m = after[i];
        if before.contains(m) {
            let j = choose|j: int| 0 <= j < before.len() && before[j] == m;
            assert(json_wf(before[j].1@));
        }
    }
}

} // verus!
