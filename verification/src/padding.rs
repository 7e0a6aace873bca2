//! Whitespace around a document does not change what it parses to.

use crate::error::ParseError;
use crate::grammar::{
    digit_run, exp_digits_start, frac_end, has_exponent, has_fraction, int_end, is_whitespace,
    number_end, number_syntax_error, parse_array, parse_document, parse_elements, parse_literal,
    parse_member, parse_members, parse_number, parse_object, parse_string_raw, parse_value,
    sign_len, skip_whitespace, starts_with, string_body, string_step, unicode_escape, StringStep,
};
use crate::grammar_lemmas::{lemma_digit_run_bounds, lemma_skip_whitespace_len};
use crate::model::Json;
use crate::number::is_digit;
use crate::round_trip::ends_number;
use vstd::prelude::*;

verus! {

/// Every byte is whitespace.
pub open spec fn all_whitespace(w: Seq<u8>) -> bool {
    forall|i: int| 0 <= i < w.len() ==> is_whitespace(#[trigger] w[i])
}

/// What a step gives when `y` stands behind its input: the same value, and
/// `y` behind what was left.
pub open spec fn followed_by<T>(
    r: Result<(T, Seq<u8>), ParseError>,
    y: Seq<u8>,
) -> Result<(T, Seq<u8>), ParseError> {
    match r {
        Ok((v, rest)) => Ok((v, rest + y)),
        Err(e) => Err(e),
    }
}

/// Whitespace in front is skipped with the rest.
pub proof fn lemma_skip_leading(w: Seq<u8>, s: Seq<u8>)
    requires
        all_whitespace(w),
    ensures
        skip_whitespace(w + s) == skip_whitespace(s),
    decreases w.len(),
{
    if w.len() == 0 {
        assert(w + s =~= s);
    } else {
        assert((w + s)[0] == w[0]);
        assert((w + s).skip(1) =~= w.skip(1) + s);
        assert forall|i: int| 0 <= i < w.skip(1).len() implies is_whitespace(
            #[trigger] w.skip(1)[i],
        ) by {
            assert(w.skip(1)[i] == w[i + 1]);
        }
        lemma_skip_leading(w.skip(1), s);
    }
}

/// Where something is left after the whitespace, what is appended stays
/// behind it.
pub proof fn lemma_skip_appended(s: Seq<u8>, y: Seq<u8>)
    requires
        skip_whitespace(s).len() > 0,
    ensures
        skip_whitespace(s + y) == skip_whitespace(s) + y,
    decreases s.len(),
{
    if s.len() > 0 {
        assert((s + y)[0] == s[0]);
        if is_whitespace(s[0]) {
            assert((s + y).skip(1) =~= s.skip(1) + y);
            lemma_skip_appended(s.skip(1), y);
        }
    }
}

/// Nothing is left of whitespace, and only of whitespace.
pub proof fn lemma_skip_all(w: Seq<u8>)
    ensures
        all_whitespace(w) <==> skip_whitespace(w).len() == 0,
    decreases w.len(),
{
    if w.len() > 0 {
        lemma_skip_all(w.skip(1));
        if is_whitespace(w[0]) {
            if all_whitespace(w.skip(1)) {
                assert forall|i: int| 0 <= i < w.len() implies is_whitespace(#[trigger] w[i]) by {
                    if i > 0 {
                        assert(w[i] == w.skip(1)[i - 1]);
                    }
                }
            }
            if all_whitespace(w) {
                assert forall|i: int| 0 <= i < w.skip(1).len() implies is_whitespace(
                    #[trigger] w.skip(1)[i],
                ) by {
                    assert(w.skip(1)[i] == w[i + 1]);
                }
            }
        } else {
            assert(!all_whitespace(w));
        }
    }
}

/// A run of digits that ends inside the input, or before something that is
/// no digit, is the same run after appending.
pub proof fn lemma_digit_run_appended(x: Seq<u8>, y: Seq<u8>, from: int)
    requires
        0 <= from <= x.len(),
        from + digit_run(x, from) < x.len() || y.len() == 0 || !is_digit(y[0]),
    ensures
        digit_run(x + y, from) == digit_run(x, from),
    decreases x.len() - from,
{
    let s = x + y;
    if from < x.len() {
        assert(s[from] == x[from]);
        if is_digit(x[from]) {
            lemma_digit_run_appended(x, y, from + 1);
        }
    } else if y.len() > 0 {
        assert(s[from] == y[0]);
    }
}

/// A number that ends inside the input, or before something that does not
/// make it go on, is the same number after appending.
pub proof fn lemma_number_appended(
    x: Seq<u8>,
    y: Seq<u8>,
    reader: spec_fn(Seq<u8>) -> Option<u64>,
)
    requires
        x.len() > 0,
        parse_number(x, reader).is_ok(),
        parse_number(x, reader).unwrap().1.len() > 0 || ends_number(y),
    ensures
        parse_number(x + y, reader) == followed_by(parse_number(x, reader), y),
{
    let s = x + y;
    let sign = sign_len(x);
    assert(s[0] == x[0]);
    lemma_digit_run_bounds(x, sign);
    let ie = int_end(x);
    if has_fraction(x) {
        lemma_digit_run_bounds(x, ie + 1);
    }
    let fe = frac_end(x);
    if has_exponent(x) {
        lemma_digit_run_bounds(x, exp_digits_start(x));
    }
    let ne = number_end(x);
    assert(ie <= fe <= ne <= x.len());
    assert(parse_number(x, reader).unwrap().1 == x.skip(ne));
    assert(ne < x.len() || ends_number(y));
    lemma_digit_run_appended(x, y, sign);
    assert(s[sign] == x[sign]);
    assert(int_end(s) == ie);
    if ie < x.len() {
        assert(s[ie] == x[ie]);
    } else if y.len() > 0 {
        assert(s[ie] == y[0]);
    }
    assert(has_fraction(s) == has_fraction(x));
    if has_fraction(x) {
        lemma_digit_run_appended(x, y, ie + 1);
    }
    assert(frac_end(s) == fe);
    if fe < x.len() {
        assert(s[fe] == x[fe]);
    } else if y.len() > 0 {
        assert(s[fe] == y[0]);
    }
    assert(has_exponent(s) == has_exponent(x));
    if has_exponent(x) {
        let p = fe + 1;
        if p < x.len() {
            assert(s[p] == x[p]);
        }
        assert(p < x.len());
        assert(exp_digits_start(s) == exp_digits_start(x));
        lemma_digit_run_appended(x, y, exp_digits_start(x));
    }
    assert(number_end(s) == ne);
    assert(number_syntax_error(s).is_none());
    assert(s.subrange(0, ne) =~= x.subrange(0, ne));
    assert(s.skip(ne) =~= x.skip(ne) + y);
}

/// A literal is the same literal after appending.
pub proof fn lemma_literal_appended(x: Seq<u8>, y: Seq<u8>)
    requires
        parse_literal(x).is_ok(),
    ensures
        parse_literal(x + y) == followed_by(parse_literal(x), y),
{
    let s = x + y;
    let n = crate::grammar::null_text();
    let t = crate::grammar::true_text();
    let f = crate::grammar::false_text();
    if x.len() >= 4 {
        assert(s.subrange(0, 4) =~= x.subrange(0, 4));
        assert(s.skip(4) =~= x.skip(4) + y);
    }
    if x.len() >= 5 {
        assert(s.subrange(0, 5) =~= x.subrange(0, 5));
        assert(s.skip(5) =~= x.skip(5) + y);
    }
    if starts_with(x, n) {
    } else if starts_with(x, t) {
        assert(s.subrange(0, 4)[0] == 0x74);
        assert(n[0] == 0x6e);
    } else {
        assert(starts_with(x, f));
        assert(s.subrange(0, 5)[0] == 0x66);
        assert(s.subrange(0, 4)[0] == s[0]);
        assert(s.subrange(0, 5)[0] == s[0]);
        assert(n[0] == 0x6e);
        assert(t[0] == 0x74);
    }
}

/// A `\\u` escape that is read is the same escape after appending.
pub proof fn lemma_unicode_escape_appended(x: Seq<u8>, y: Seq<u8>, i: int)
    requires
        0 <= i,
        unicode_escape(x, i).is_ok(),
    ensures
        unicode_escape(x + y, i) == unicode_escape(x, i),
{
    let s = x + y;
    assert(s.subrange(i + 2, i + 6) =~= x.subrange(i + 2, i + 6));
    if i + 12 < x.len() {
        assert(s[i + 6] == x[i + 6]);
        assert(s[i + 7] == x[i + 7]);
        assert(s.subrange(i + 8, i + 12) =~= x.subrange(i + 8, i + 12));
    }
}

/// A step that does not fail is the same step after appending.
pub proof fn lemma_string_step_appended(x: Seq<u8>, y: Seq<u8>, i: int)
    requires
        0 <= i < x.len(),
        !(string_step(x, i) is Fail),
    ensures
        string_step(x + y, i) == string_step(x, i),
{
    let s = x + y;
    assert(s[i] == x[i]);
    if x[i] == 0x5c {
        assert(i + 1 < x.len());
        assert(s[i + 1] == x[i + 1]);
        if x[i + 1] == 0x75 {
            lemma_unicode_escape_appended(x, y, i);
        }
    }
}

/// The body of a string that is closed is the same body after appending.
pub proof fn lemma_string_body_appended(x: Seq<u8>, y: Seq<u8>, i: int, decoded: Seq<u8>)
    requires
        0 <= i,
        string_body(x, i, decoded).is_ok(),
    ensures
        string_body(x + y, i, decoded) == string_body(x, i, decoded),
        i < string_body(x, i, decoded).unwrap().1 <= x.len(),
    decreases x.len() - i,
{
    lemma_string_step_appended(x, y, i);
    match string_step(x, i) {
        StringStep::Append(bytes, width) => {
            lemma_string_body_appended(x, y, i + width, decoded + bytes);
        },
        _ => {},
    }
}

/// A string is the same string after appending.
pub proof fn lemma_string_appended(x: Seq<u8>, y: Seq<u8>)
    requires
        parse_string_raw(x).is_ok(),
    ensures
        parse_string_raw(x + y) == followed_by(parse_string_raw(x), y),
{
    let s = x + y;
    assert(s[0] == x[0]);
    lemma_string_body_appended(x, y, 1, Seq::empty());
    let end = string_body(x, 1, Seq::empty()).unwrap().1;
    assert(s.skip(end) =~= x.skip(end) + y);
}

/// A value is the same value after appending, where the value does not end
/// with the input or what is appended does not make a number go on.
pub proof fn lemma_value_appended(x: Seq<u8>, y: Seq<u8>, reader: spec_fn(Seq<u8>) -> Option<u64>)
    requires
        parse_value(x, reader).is_ok(),
        parse_value(x, reader).unwrap().1.len() > 0 || ends_number(y),
    ensures
        parse_value(x + y, reader) == followed_by(parse_value(x, reader), y),
    decreases x.len(), 1int,
{
    let s = x + y;
    assert(s[0] == x[0]);
    if x[0] == 0x6e || x[0] == 0x74 || x[0] == 0x66 {
        lemma_literal_appended(x, y);
    } else if x[0] == 0x22 {
        lemma_string_appended(x, y);
    } else if x[0] == 0x5b {
        lemma_array_appended(x, y, reader);
    } else if x[0] == 0x7b {
        lemma_object_appended(x, y, reader);
    } else {
        lemma_number_appended(x, y, reader);
    }
}

/// An array is the same array after appending.
pub proof fn lemma_array_appended(x: Seq<u8>, y: Seq<u8>, reader: spec_fn(Seq<u8>) -> Option<u64>)
    requires
        x.len() > 0,
        parse_array(x, reader).is_ok(),
    ensures
        parse_array(x + y, reader) == followed_by(parse_array(x, reader), y),
    decreases x.len(), 0int,
{
    let s = x + y;
    let inner = skip_whitespace(x.skip(1));
    lemma_skip_whitespace_len(x.skip(1));
    assert(s.skip(1) =~= x.skip(1) + y);
    if inner.len() > 0 {
        lemma_skip_appended(x.skip(1), y);
        assert((inner + y)[0] == inner[0]);
        if inner[0] == 0x5d {
            assert((inner + y).skip(1) =~= inner.skip(1) + y);
        } else {
            lemma_elements_appended(inner, Seq::empty(), y, reader);
        }
    }
}

/// The elements of an array are the same elements after appending.
pub proof fn lemma_elements_appended(
    x: Seq<u8>,
    items: Seq<Json>,
    y: Seq<u8>,
    reader: spec_fn(Seq<u8>) -> Option<u64>,
)
    requires
        parse_elements(x, items, reader).is_ok(),
    ensures
        parse_elements(x + y, items, reader) == followed_by(parse_elements(x, items, reader), y),
    decreases x.len(), 2int,
{
    let (item, after_item) = parse_value(x, reader).unwrap();
    let at_mark = skip_whitespace(after_item);
    lemma_skip_whitespace_len(after_item);
    lemma_value_appended(x, y, reader);
    lemma_skip_appended(after_item, y);
    assert((at_mark + y)[0] == at_mark[0]);
    assert((at_mark + y).skip(1) =~= at_mark.skip(1) + y);
    if at_mark[0] == 0x2c {
        let next = skip_whitespace(at_mark.skip(1));
        assert(parse_elements(x, items, reader) == parse_elements(
            next,
            items.push(item),
            reader,
        ));
        assert(parse_value(next, reader).is_ok());
        lemma_skip_appended(at_mark.skip(1), y);
        lemma_elements_appended(next, items.push(item), y, reader);
    }
}

/// An object is the same object after appending.
pub proof fn lemma_object_appended(x: Seq<u8>, y: Seq<u8>, reader: spec_fn(Seq<u8>) -> Option<u64>)
    requires
        x.len() > 0,
        parse_object(x, reader).is_ok(),
    ensures
        parse_object(x + y, reader) == followed_by(parse_object(x, reader), y),
    decreases x.len(), 0int,
{
    let s = x + y;
    let inner = skip_whitespace(x.skip(1));
    lemma_skip_whitespace_len(x.skip(1));
    assert(s.skip(1) =~= x.skip(1) + y);
    if inner.len() > 0 {
        lemma_skip_appended(x.skip(1), y);
        assert((inner + y)[0] == inner[0]);
        if inner[0] == 0x7d {
            assert((inner + y).skip(1) =~= inner.skip(1) + y);
        } else {
            lemma_members_appended(inner, Seq::empty(), y, reader);
        }
    }
}

/// A member is the same member after appending, where something follows it.
pub proof fn lemma_member_appended(x: Seq<u8>, y: Seq<u8>, reader: spec_fn(Seq<u8>) -> Option<u64>)
    requires
        parse_member(x, reader).is_ok(),
        parse_member(x, reader).unwrap().1.len() > 0,
    ensures
        parse_member(x + y, reader) == followed_by(parse_member(x, reader), y),
    decreases x.len(), 2int,
{
    let (key, after_key) = parse_string_raw(x).unwrap();
    lemma_string_appended(x, y);
    let at_colon = skip_whitespace(after_key);
    lemma_skip_appended(after_key, y);
    assert((at_colon + y)[0] == at_colon[0]);
    assert((at_colon + y).skip(1) =~= at_colon.skip(1) + y);
    let at_value = skip_whitespace(at_colon.skip(1));
    lemma_skip_appended(at_colon.skip(1), y);
    lemma_value_appended(at_value, y, reader);
}

/// The members of an object are the same members after appending.
pub proof fn lemma_members_appended(
    x: Seq<u8>,
    members: Seq<(Seq<u8>, Json)>,
    y: Seq<u8>,
    reader: spec_fn(Seq<u8>) -> Option<u64>,
)
    requires
        parse_members(x, members, reader).is_ok(),
    ensures
        parse_members(x + y, members, reader) == followed_by(
            parse_members(x, members, reader),
            y,
        ),
    decreases x.len(), 3int,
{
    let (member, after_member) = parse_member(x, reader).unwrap();
    let at_mark = skip_whitespace(after_member);
    lemma_skip_whitespace_len(after_member);
    lemma_member_appended(x, y, reader);
    lemma_skip_appended(after_member, y);
    assert((at_mark + y)[0] == at_mark[0]);
    assert((at_mark + y).skip(1) =~= at_mark.skip(1) + y);
    if at_mark[0] == 0x2c {
        let next = skip_whitespace(at_mark.skip(1));
        let grown = crate::model::insert_member(members, member.0, member.1);
        assert(parse_members(x, members, reader) == parse_members(next, grown, reader));
        assert(parse_member(next, reader).is_ok());
        assert(parse_string_raw(next).is_ok());
        lemma_skip_appended(at_mark.skip(1), y);
        lemma_members_appended(next, grown, y, reader);
    }
}

/// Whitespace padding: a text that parses parses to the same value with
/// any whitespace before it and after it.
pub proof fn lemma_whitespace_padding(
    text: Seq<u8>,
    leading: Seq<u8>,
    trailing: Seq<u8>,
    reader: spec_fn(Seq<u8>) -> Option<u64>,
)
    requires
        parse_document(text, reader).is_ok(),
        all_whitespace(leading),
        all_whitespace(trailing),
    ensures
        parse_document(leading + text + trailing, reader) == parse_document(text, reader),
{
    let start = skip_whitespace(text);
    let (value, rest) = parse_value(start, reader).unwrap();
    assert(leading + text + trailing =~= leading + (text + trailing));
    lemma_skip_leading(leading, text + trailing);
    lemma_skip_appended(text, trailing);
    if trailing.len() > 0 {
        assert(is_whitespace(trailing[0]));
    }
    lemma_value_appended(start, trailing, reader);
    lemma_skip_all(rest);
    lemma_skip_leading(rest, trailing);
    lemma_skip_all(trailing);
}

} // verus!
