//! The grammar, as functions from the bytes ahead of the cursor to the value
//! read and the bytes left, or to the error.

use crate::error::ParseError;
use crate::model::{insert_member, Json};
use crate::number::{is_digit, lexeme_int, number_of_reading, Number};
use vstd::prelude::*;
use vstd::utf8::{encode_scalar, valid_utf8};

verus! {

/// Space, tab, line feed or carriage return.
pub open spec fn is_whitespace(b: u8) -> bool {
    b == 0x20 || b == 0x09 || b == 0x0a || b == 0x0d
}

/// The input without its leading whitespace.
pub open spec fn skip_whitespace(s: Seq<u8>) -> Seq<u8>
    decreases s.len(),
{
    if s.len() > 0 && is_whitespace(s[0]) {
        skip_whitespace(s.skip(1))
    } else {
        s
    }
}

/// `s` begins with `prefix`.
pub open spec fn starts_with(s: Seq<u8>, prefix: Seq<u8>) -> bool {
    s.len() >= prefix.len() && s.subrange(0, prefix.len() as int) == prefix
}

pub open spec fn null_text() -> Seq<u8> {
    seq![0x6eu8, 0x75u8, 0x6cu8, 0x6cu8]
}

pub open spec fn true_text() -> Seq<u8> {
    seq![0x74u8, 0x72u8, 0x75u8, 0x65u8]
}

pub open spec fn false_text() -> Seq<u8> {
    seq![0x66u8, 0x61u8, 0x6cu8, 0x73u8, 0x65u8]
}

/// A literal: exactly `null`, `true` or `false`, chosen by the first byte.
pub open spec fn parse_literal(s: Seq<u8>) -> Result<(Json, Seq<u8>), ParseError> {
    if starts_with(s, null_text()) {
        Ok((Json::Null, s.skip(4)))
    } else if starts_with(s, true_text()) {
        Ok((Json::Bool(true), s.skip(4)))
    } else if starts_with(s, false_text()) {
        Ok((Json::Bool(false), s.skip(5)))
    } else {
        Err(ParseError::InvalidValue)
    }
}

/// The number of ASCII digits that stand in a row from index `from` on.
pub open spec fn digit_run(s: Seq<u8>, from: int) -> nat
    decreases s.len() - from,
{
    if 0 <= from < s.len() && is_digit(s[from]) {
        1 + digit_run(s, from + 1)
    } else {
        0
    }
}

/// 1 where the number starts with a minus sign, else 0.
pub open spec fn sign_len(s: Seq<u8>) -> int {
    if s.len() > 0 && s[0] == 0x2d {
        1
    } else {
        0
    }
}

/// The index behind the integer part.
pub open spec fn int_end(s: Seq<u8>) -> int {
    sign_len(s) + digit_run(s, sign_len(s))
}

/// A `.` follows the integer part.
pub open spec fn has_fraction(s: Seq<u8>) -> bool {
    int_end(s) < s.len() && s[int_end(s)] == 0x2e
}

/// The index behind the fraction, or behind the integer part where there is
/// no fraction.
pub open spec fn frac_end(s: Seq<u8>) -> int {
    if has_fraction(s) {
        int_end(s) + 1 + digit_run(s, int_end(s) + 1)
    } else {
        int_end(s)
    }
}

/// An `e` or `E` follows the fraction.
pub open spec fn has_exponent(s: Seq<u8>) -> bool {
    frac_end(s) < s.len() && (s[frac_end(s)] == 0x65 || s[frac_end(s)] == 0x45)
}

/// The index of the first digit of the exponent, behind its optional sign.
pub open spec fn exp_digits_start(s: Seq<u8>) -> int {
    let p = frac_end(s) + 1;
    if p < s.len() && (s[p] == 0x2b || s[p] == 0x2d) {
        p + 1
    } else {
        p
    }
}

/// The index behind the whole number.
pub open spec fn number_end(s: Seq<u8>) -> int {
    if has_exponent(s) {
        exp_digits_start(s) + digit_run(s, exp_digits_start(s))
    } else {
        frac_end(s)
    }
}

/// The rule of the number grammar that `s` breaks, if it breaks one: an
/// integer part, a fraction or an exponent without a digit is an invalid
/// value, and an integer part that goes on after a leading `0` is reported
/// as a root that is not singular.
pub open spec fn number_syntax_error(s: Seq<u8>) -> Option<ParseError> {
    if digit_run(s, sign_len(s)) == 0 {
        Some(ParseError::InvalidValue)
    } else if s[sign_len(s)] == 0x30 && digit_run(s, sign_len(s)) > 1 {
        Some(ParseError::RootNotSingular)
    } else if has_fraction(s) && digit_run(s, int_end(s) + 1) == 0 {
        Some(ParseError::InvalidValue)
    } else if has_exponent(s) && digit_run(s, exp_digits_start(s)) == 0 {
        Some(ParseError::InvalidValue)
    } else {
        None
    }
}

/// The integer lexeme denotes a value of the signed 64-bit range.
pub open spec fn int_fits(lexeme: Seq<u8>) -> bool {
    i64::MIN <= lexeme_int(lexeme) <= i64::MAX
}

/// The number that a well-formed lexeme denotes. One without fraction and
/// exponent whose value fits is that integer. Every other one is what the
/// float reader `reader` makes of it, if that is finite.
pub open spec fn number_of_lexeme(
    lexeme: Seq<u8>,
    floating: bool,
    reader: spec_fn(Seq<u8>) -> Option<u64>,
) -> Result<Number, ParseError> {
    if !floating && int_fits(lexeme) {
        Ok(Number::Int(lexeme_int(lexeme) as i64))
    } else {
        number_of_reading(reader(lexeme))
    }
}

/// A number: `-`? digits (`.` digits)? ((`e` | `E`) (`+` | `-`)? digits)?
pub open spec fn parse_number(s: Seq<u8>, reader: spec_fn(Seq<u8>) -> Option<u64>) -> Result<
    (Json, Seq<u8>),
    ParseError,
> {
    match number_syntax_error(s) {
        Some(e) => Err(e),
        None => match number_of_lexeme(
            s.subrange(0, number_end(s)),
            has_fraction(s) || has_exponent(s),
            reader,
        ) {
            Ok(n) => Ok((Json::Number(n), s.skip(number_end(s)))),
            Err(e) => Err(e),
        },
    }
}

/// The value of a hexadecimal digit.
pub open spec fn hex_value(b: u8) -> Option<int> {
    if 0x30 <= b <= 0x39 {
        Some(b - 0x30)
    } else if 0x61 <= b <= 0x66 {
        Some(b - 0x61 + 10)
    } else if 0x41 <= b <= 0x46 {
        Some(b - 0x41 + 10)
    } else {
        None
    }
}

/// The 16-bit value of four hexadecimal digits, the most significant first.
pub open spec fn hex4_value(h: Seq<u8>) -> Option<int> {
    if h.len() == 4 && hex_value(h[0]).is_some() && hex_value(h[1]).is_some() && hex_value(
        h[2],
    ).is_some() && hex_value(h[3]).is_some() {
        Some(
            hex_value(h[0]).unwrap() * 0x1000 + hex_value(h[1]).unwrap() * 0x100 + hex_value(
                h[2],
            ).unwrap() * 0x10 + hex_value(h[3]).unwrap(),
        )
    } else {
        None
    }
}

/// The byte that the escape `\` `b` stands for, for each of the eight
/// single-letter escapes: `"`, `\` and `/` stand for themselves, `b` for
/// backspace, `f` for form feed, `n` for line feed, `r` for carriage return
/// and `t` for tab.
pub open spec fn simple_escape(b: u8) -> Option<u8> {
    if b == 0x22 || b == 0x5c || b == 0x2f {
        Some(b)
    } else if b == 0x62 {
        Some(0x08u8)
    } else if b == 0x66 {
        Some(0x0cu8)
    } else if b == 0x6e {
        Some(0x0au8)
    } else if b == 0x72 {
        Some(0x0du8)
    } else if b == 0x74 {
        Some(0x09u8)
    } else {
        None
    }
}

pub open spec fn is_high_surrogate(unit: int) -> bool {
    0xd800 <= unit <= 0xdbff
}

pub open spec fn is_low_surrogate(unit: int) -> bool {
    0xdc00 <= unit <= 0xdfff
}

/// The scalar that a high and a low surrogate stand for together.
pub open spec fn surrogate_pair_scalar(high: int, low: int) -> int {
    0x10000 + (high - 0xd800) * 0x400 + (low - 0xdc00)
}

/// The `\u` escape at index `i` of `s`: the scalar it stands for and the
/// number of bytes it takes, 6 for one code unit and 12 for a surrogate
/// pair. Fewer than four bytes behind `\u`, or one that is no hexadecimal
/// digit, is an invalid hexadecimal escape. A high surrogate must be followed
/// by the escape of a low surrogate, and a low surrogate must follow a high
/// one.
pub open spec fn unicode_escape(s: Seq<u8>, i: int) -> Result<(u32, int), ParseError> {
    if i + 6 > s.len() {
        Err(ParseError::InvalidUnicodeHex)
    } else {
        match hex4_value(s.subrange(i + 2, i + 6)) {
            None => Err(ParseError::InvalidUnicodeHex),
            Some(unit) => if is_high_surrogate(unit) {
                if i + 12 <= s.len() && s[i + 6] == 0x5c && s[i + 7] == 0x75 {
                    match hex4_value(s.subrange(i + 8, i + 12)) {
                        None => Err(ParseError::InvalidUnicodeHex),
                        Some(low) => if is_low_surrogate(low) {
                            Ok((surrogate_pair_scalar(unit, low) as u32, 12))
                        } else {
                            Err(ParseError::InvalidUnicodeSurrogate)
                        },
                    }
                } else {
                    Err(ParseError::InvalidUnicodeSurrogate)
                }
            } else if is_low_surrogate(unit) {
                Err(ParseError::InvalidUnicodeSurrogate)
            } else {
                Ok((unit as u32, 6))
            },
        }
    }
}

/// What the bytes at one index of a string's body amount to.
pub ghost enum StringStep {
    /// The closing quote.
    Close,
    /// Decoded bytes, and the number of input bytes that gave them.
    Append(Seq<u8>, int),
    /// A broken rule.
    Fail(ParseError),
}

/// The step at index `i` of the string `s`: the closing quote, a raw byte, a
/// single-letter escape or a `\u` escape. A raw byte below `0x20` is an
/// invalid character, and a backslash at the very end of the input leaves the
/// string unclosed.
pub open spec fn string_step(s: Seq<u8>, i: int) -> StringStep {
    if s[i] == 0x22 {
        StringStep::Close
    } else if s[i] == 0x5c {
        if i + 1 >= s.len() {
            StringStep::Fail(ParseError::MissQuotationMark)
        } else if s[i + 1] == 0x75 {
            match unicode_escape(s, i) {
                Ok((scalar, width)) => StringStep::Append(encode_scalar(scalar), width),
                Err(e) => StringStep::Fail(e),
            }
        } else {
            match simple_escape(s[i + 1]) {
                Some(b) => StringStep::Append(seq![b], 2),
                None => StringStep::Fail(ParseError::InvalidStringEscape),
            }
        }
    } else if s[i] < 0x20 {
        StringStep::Fail(ParseError::InvalidStringChar)
    } else {
        StringStep::Append(seq![s[i]], 1)
    }
}

/// The rest of a string from index `i` on, `decoded` being what the bytes
/// before `i` have given: the decoded bytes of the whole string and the index
/// behind its closing quote. The input ending before the closing quote is a
/// missing quotation mark.
pub open spec fn string_body(s: Seq<u8>, i: int, decoded: Seq<u8>) -> Result<
    (Seq<u8>, int),
    ParseError,
>
    decreases s.len() - i,
{
    if i < 0 || i >= s.len() {
        Err(ParseError::MissQuotationMark)
    } else {
        match string_step(s, i) {
            StringStep::Close => Ok((decoded, i + 1)),
            StringStep::Append(bytes, width) => if width > 0 {
                string_body(s, i + width, decoded + bytes)
            } else {
                Err(ParseError::MissQuotationMark)
            },
            StringStep::Fail(e) => Err(e),
        }
    }
}

/// A string: the UTF-8 bytes of its content and the bytes behind its closing
/// quote. Content that is not UTF-8 is an invalid string character.
pub open spec fn parse_string_raw(s: Seq<u8>) -> Result<(Seq<u8>, Seq<u8>), ParseError> {
    if s.len() < 2 || s[0] != 0x22 {
        Err(ParseError::MissQuotationMark)
    } else {
        match string_body(s, 1, Seq::empty()) {
            Ok((content, end)) => if valid_utf8(content) {
                Ok((content, s.skip(end)))
            } else {
                Err(ParseError::InvalidStringChar)
            },
            Err(e) => Err(e),
        }
    }
}

/// A string as a value.
pub open spec fn parse_string(s: Seq<u8>) -> Result<(Json, Seq<u8>), ParseError> {
    match parse_string_raw(s) {
        Ok((content, rest)) => Ok((Json::String(content), rest)),
        Err(e) => Err(e),
    }
}

/// One value, chosen by its first byte: a literal for `n`, `t` and `f`, a
/// string for `"`, an array for `[`, an object for `{`, a number for every
/// other byte, and an error at the end of the input.
pub open spec fn parse_value(s: Seq<u8>, reader: spec_fn(Seq<u8>) -> Option<u64>) -> Result<
    (Json, Seq<u8>),
    ParseError,
>
    decreases s.len(), 1int,
{
    if s.len() == 0 {
        Err(ParseError::ExpectValue)
    } else if s[0] == 0x6e || s[0] == 0x74 || s[0] == 0x66 {
        parse_literal(s)
    } else if s[0] == 0x22 {
        parse_string(s)
    } else if s[0] == 0x5b {
        parse_array(s, reader)
    } else if s[0] == 0x7b {
        parse_object(s, reader)
    } else {
        parse_number(s, reader)
    }
}

/// An array, `s` starting with its `[`.
pub open spec fn parse_array(s: Seq<u8>, reader: spec_fn(Seq<u8>) -> Option<u64>) -> Result<
    (Json, Seq<u8>),
    ParseError,
>
    decreases s.len(), 0int,
{
    let inner = skip_whitespace(s.skip(1));
    if inner.len() > 0 && inner[0] == 0x5d {
        Ok((Json::Array(Seq::empty()), inner.skip(1)))
    } else if s.len() > 0 && inner.len() < s.len() {
        parse_elements(inner, Seq::empty(), reader)
    } else {
        Err(ParseError::ExpectValue)
    }
}

/// The elements of an array from the next one on, `items` being those read
/// so far: a value, then `,` and more elements, or `]`.
pub open spec fn parse_elements(
    s: Seq<u8>,
    items: Seq<Json>,
    reader: spec_fn(Seq<u8>) -> Option<u64>,
) -> Result<(Json, Seq<u8>), ParseError>
    decreases s.len(), 2int,
{
    match parse_value(s, reader) {
        Err(e) => Err(e),
        Ok((item, after_item)) => {
            let at_mark = skip_whitespace(after_item);
            if at_mark.len() == 0 {
                Err(ParseError::MissCommaOrSquareBracket)
            } else if at_mark[0] == 0x2c {
                let next = skip_whitespace(at_mark.skip(1));
                if next.len() < s.len() {
                    parse_elements(next, items.push(item), reader)
                } else {
                    Err(ParseError::MissCommaOrSquareBracket)
                }
            } else if at_mark[0] == 0x5d {
                Ok((Json::Array(items.push(item)), at_mark.skip(1)))
            } else {
                Err(ParseError::MissCommaOrSquareBracket)
            }
        },
    }
}

/// An object, `s` starting with its `{`.
pub open spec fn parse_object(s: Seq<u8>, reader: spec_fn(Seq<u8>) -> Option<u64>) -> Result<
    (Json, Seq<u8>),
    ParseError,
>
    decreases s.len(), 0int,
{
    let inner = skip_whitespace(s.skip(1));
    if inner.len() > 0 && inner[0] == 0x7d {
        Ok((Json::Object(Seq::empty()), inner.skip(1)))
    } else if s.len() > 0 && inner.len() < s.len() {
        parse_members(inner, Seq::empty(), reader)
    } else {
        Err(ParseError::MissKey)
    }
}

/// One member of an object: a string, `:` and a value, with whitespace
/// around the colon. A key that fails to parse is a missing key whatever the
/// reason, and a value that fails to parse is an invalid value whatever the
/// reason.
pub open spec fn parse_member(s: Seq<u8>, reader: spec_fn(Seq<u8>) -> Option<u64>) -> Result<
    ((Seq<u8>, Json), Seq<u8>),
    ParseError,
>
    decreases s.len(), 2int,
{
    match parse_string_raw(s) {
        Err(_) => Err(ParseError::MissKey),
        Ok((key, after_key)) => {
            let at_colon = skip_whitespace(after_key);
            if at_colon.len() == 0 || at_colon[0] != 0x3a {
                Err(ParseError::MissColon)
            } else {
                let at_value = skip_whitespace(at_colon.skip(1));
                if at_value.len() >= s.len() {
                    Err(ParseError::InvalidValue)
                } else {
                    match parse_value(at_value, reader) {
                        Err(_) => Err(ParseError::InvalidValue),
                        Ok((value, after_value)) => Ok(((key, value), after_value)),
                    }
                }
            }
        },
    }
}

/// The members of an object from the next one on, `members` being those
/// read so far: a member, then `,` and more members, or `}`. A key that
/// occurs again overwrites the value it had.
pub open spec fn parse_members(
    s: Seq<u8>,
    members: Seq<(Seq<u8>, Json)>,
    reader: spec_fn(Seq<u8>) -> Option<u64>,
) -> Result<(Json, Seq<u8>), ParseError>
    decreases s.len(), 3int,
{
    match parse_member(s, reader) {
        Err(e) => Err(e),
        Ok((member, after_member)) => {
            let at_mark = skip_whitespace(after_member);
            let grown = insert_member(members, member.0, member.1);
            if at_mark.len() == 0 {
                Err(ParseError::MissCommaOrCurlyBracket)
            } else if at_mark[0] == 0x2c {
                let next = skip_whitespace(at_mark.skip(1));
                if next.len() < s.len() {
                    parse_members(next, grown, reader)
                } else {
                    Err(ParseError::MissCommaOrCurlyBracket)
                }
            } else if at_mark[0] == 0x7d {
                Ok((Json::Object(grown), at_mark.skip(1)))
            } else {
                Err(ParseError::MissCommaOrCurlyBracket)
            }
        },
    }
}

/// A whole document: whitespace, one value, whitespace, and nothing more.
pub open spec fn parse_document(s: Seq<u8>, reader: spec_fn(Seq<u8>) -> Option<u64>) -> Result<
    Json,
    ParseError,
> {
    match parse_value(skip_whitespace(s), reader) {
        Ok((value, rest)) => if skip_whitespace(rest).len() == 0 {
            Ok(value)
        } else {
            Err(ParseError::RootNotSingular)
        },
        Err(e) => Err(e),
    }
}

} // verus!
