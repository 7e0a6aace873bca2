//! Parsing the canonical text of a value gives the value back.

use crate::dict::{lemma_key_less_asymmetric, lemma_key_less_irreflexive};
use crate::error::ParseError;
use crate::grammar::{
    digit_run, frac_end, has_exponent, has_fraction, hex4_value, hex_value, int_end,
    is_whitespace, number_end, number_syntax_error, parse_document, parse_elements, parse_member,
    parse_members, parse_number, parse_string_raw, parse_value, sign_len, string_body,
    string_step, unicode_escape, StringStep,
};
use crate::model::{insert_member, key_less, keys_ascend, Json};
use crate::number::{digits_value, int_text, is_digit, lexeme_int, nat_text, Number};
use crate::text::{
    escape_byte, escape_bytes, hex_upper, items_text, json_text, member_text, members_text,
    string_text,
};
use vstd::prelude::*;
use vstd::utf8::{encode_scalar, valid_utf8};

verus! {

/// The byte would make a number that ends before it go on.
pub open spec fn continues_number(b: u8) -> bool {
    is_digit(b) || b == 0x2e || b == 0x65 || b == 0x45
}

/// A number that stands before `rest` ends there.
pub open spec fn ends_number(rest: Seq<u8>) -> bool {
    rest.len() == 0 || !continues_number(rest[0])
}

/// The decimal text of a natural number is made of digits, has no leading
/// zero, and has the number as its value.
pub proof fn lemma_nat_text_value(n: nat)
    ensures
        digits_value(nat_text(n)) == n,
        nat_text(n).len() >= 1,
        forall|i: int| 0 <= i < nat_text(n).len() ==> is_digit(#[trigger] nat_text(n)[i]),
        nat_text(n)[0] == 0x30 ==> nat_text(n).len() == 1,
    decreases n,
{
    if n < 10 {
        assert(nat_text(n).drop_last() =~= Seq::<u8>::empty());
        assert(digits_value(Seq::<u8>::empty()) == 0);
    } else {
        lemma_nat_text_value(n / 10);
        assert(nat_text(n).drop_last() =~= nat_text(n / 10));
        assert(nat_text(n)[0] == nat_text(n / 10)[0]);
        if nat_text(n / 10)[0] == 0x30 {
            assert(nat_text(n / 10) =~= seq![0x30u8]);
            assert(nat_text(n / 10).drop_last() =~= Seq::<u8>::empty());
            assert(digits_value(Seq::<u8>::empty()) == 0);
            assert(digits_value(nat_text(n / 10)) == 0);
        }
    }
}

/// A stretch of digits that is followed by no digit is a run of digits.
pub proof fn lemma_digit_run_all(s: Seq<u8>, from: int, k: int)
    requires
        0 <= from,
        0 <= k,
        from + k <= s.len(),
        forall|j: int| from <= j < from + k ==> is_digit(#[trigger] s[j]),
        from + k == s.len() || !is_digit(s[from + k]),
    ensures
        digit_run(s, from) == k,
    decreases k,
{
    if k > 0 {
        lemma_digit_run_all(s, from + 1, k - 1);
    }
}

/// The decimal text of a 64-bit integer, followed by nothing that makes a
/// number go on, is read as that integer.
pub proof fn lemma_int_text_parses(
    n: int,
    rest: Seq<u8>,
    reader: spec_fn(Seq<u8>) -> Option<u64>,
)
    requires
        i64::MIN <= n <= i64::MAX,
        ends_number(rest),
    ensures
        parse_number(int_text(n) + rest, reader) == Ok::<(Json, Seq<u8>), ParseError>(
            (Json::Number(Number::Int(n as i64)), rest),
        ),
        int_text(n).len() >= 1,
        is_digit(int_text(n)[0]) || int_text(n)[0] == 0x2d,
{
    let t = int_text(n);
    let s = t + rest;
    let magnitude: nat = if n < 0 {
        (-n) as nat
    } else {
        n as nat
    };
    let mag = nat_text(magnitude);
    lemma_nat_text_value(magnitude);
    let sign: int = if n < 0 {
        1
    } else {
        0
    };
    assert(is_digit(mag[0]));
    assert(t.len() == sign + mag.len());
    assert forall|j: int| sign <= j < sign + mag.len() implies is_digit(#[trigger] s[j]) by {
        assert(s[j] == mag[j - sign]);
    }
    assert(sign_len(s) == sign);
    if rest.len() > 0 {
        assert(s[t.len() as int] == rest[0]);
    }
    lemma_digit_run_all(s, sign, mag.len() as int);
    assert(s[sign] == mag[0]);
    assert(int_end(s) == t.len());
    assert(!has_fraction(s));
    assert(frac_end(s) == t.len());
    assert(!has_exponent(s));
    assert(number_end(s) == t.len());
    assert(number_syntax_error(s).is_none());
    assert(s.subrange(0, t.len() as int) =~= t);
    assert(s.skip(t.len() as int) =~= rest);
    if n < 0 {
        assert(t.skip(1) =~= mag);
    } else {
        assert(t =~= mag);
    }
    assert(lexeme_int(t) == n);
}

/// The value of the upper-case hexadecimal digit for `d` is `d`.
pub proof fn lemma_hex_upper_value(d: int)
    requires
        0 <= d < 16,
    ensures
        hex_value(hex_upper(d)) == Some(d),
{
}

/// A byte below `0x80` is its own UTF-8 encoding.
pub proof fn lemma_encode_ascii(b: u8)
    requires
        b < 0x80,
    ensures
        encode_scalar(b as u32) == seq![b],
{
    let c = b as u32;
    assert((c & 0x7F) as u8 == b) by (bit_vector)
        requires
            c == b as u32,
            b < 0x80,
    ;
    assert(encode_scalar(c) =~= seq![b]);
}

/// The step at the escaped form of a byte decodes that byte.
pub proof fn lemma_escape_step(full: Seq<u8>, i: int, b: u8)
    requires
        0 <= i,
        i + escape_byte(b).len() < full.len(),
        forall|k: int| 0 <= k < escape_byte(b).len() ==> full[i + k] == #[trigger] escape_byte(b)[k],
    ensures
        string_step(full, i) == StringStep::Append(seq![b], escape_byte(b).len() as int),
{
    let e = escape_byte(b);
    assert(full[i] == e[0]);
    if b == 0x22 || b == 0x5c || b == 0x08 || b == 0x0c || b == 0x0a || b == 0x0d || b == 0x09 {
        assert(full[i + 1] == e[1]);
    } else if b < 0x20 {
        assert(full[i + 1] == e[1]);
        assert(full[i + 2] == e[2]);
        assert(full[i + 3] == e[3]);
        assert(full[i + 4] == e[4]);
        assert(full[i + 5] == e[5]);
        let h = full.subrange(i + 2, i + 6);
        assert(h[0] == 0x30 && h[1] == 0x30);
        assert(h[2] == hex_upper(b as int / 16));
        assert(h[3] == hex_upper(b as int % 16));
        lemma_hex_upper_value(b as int / 16);
        lemma_hex_upper_value(b as int % 16);
        assert(hex4_value(h) == Some(b as int));
        assert(unicode_escape(full, i) == Ok::<(u32, int), ParseError>((b as u32, 6)));
        lemma_encode_ascii(b);
    } else {
    }
}

/// The body of a string that holds the escaped form of `todo` and then the
/// closing quote decodes to `todo`.
pub proof fn lemma_escaped_body(full: Seq<u8>, i: int, todo: Seq<u8>, decoded: Seq<u8>)
    requires
        0 <= i,
        i + escape_bytes(todo).len() < full.len(),
        forall|k: int|
            0 <= k < escape_bytes(todo).len() ==> full[i + k] == #[trigger] escape_bytes(todo)[k],
        full[i + escape_bytes(todo).len()] == 0x22,
    ensures
        string_body(full, i, decoded) == Ok::<(Seq<u8>, int), ParseError>(
            (decoded + todo, i + escape_bytes(todo).len() + 1),
        ),
    decreases todo.len(),
{
    if todo.len() == 0 {
        assert(decoded + todo =~= decoded);
    } else {
        let b = todo[0];
        let e = escape_byte(b);
        let tail = todo.skip(1);
        assert(escape_bytes(todo) == e + escape_bytes(tail));
        assert forall|k: int| 0 <= k < e.len() implies full[i + k] == #[trigger] e[k] by {
            assert(escape_bytes(todo)[k] == e[k]);
        }
        lemma_escape_step(full, i, b);
        assert forall|k: int| 0 <= k < escape_bytes(tail).len() implies full[i + e.len() + k]
            == #[trigger] escape_bytes(tail)[k] by {
            assert(escape_bytes(todo)[e.len() + k] == escape_bytes(tail)[k]);
        }
        lemma_escaped_body(full, i + e.len(), tail, decoded + seq![b]);
        assert(decoded + seq![b] + tail =~= decoded + todo);
    }
}

/// The text of a string is read as that string.
pub proof fn lemma_string_text_parses(s: Seq<u8>, rest: Seq<u8>)
    requires
        valid_utf8(s),
    ensures
        parse_string_raw(string_text(s) + rest) == Ok::<(Seq<u8>, Seq<u8>), ParseError>((s, rest)),
{
    let full = string_text(s) + rest;
    let n = escape_bytes(s).len() as int;
    assert forall|k: int| 0 <= k < n implies full[1 + k] == #[trigger] escape_bytes(s)[k] by {}
    assert(full[1 + n] == 0x22);
    lemma_escaped_body(full, 1, s, Seq::empty());
    assert(Seq::<u8>::empty() + s =~= s);
    assert(full.skip(n + 2) =~= rest);
}

/// The float with these bits is written as text that is read back as the
/// same float, whatever follows it that does not make a number go on.
pub open spec fn float_reads_back(
    bits: u64,
    reader: spec_fn(Seq<u8>) -> Option<u64>,
    writer: spec_fn(u64) -> Seq<u8>,
) -> bool {
    &&& writer(bits).len() > 0
    &&& is_digit(writer(bits)[0]) || writer(bits)[0] == 0x2d
    &&& forall|rest: Seq<u8>|
        ends_number(rest) ==> #[trigger] parse_number(writer(bits) + rest, reader) == Ok::<
            (Json, Seq<u8>),
            ParseError,
        >((Json::Number(Number::Float(bits)), rest))
}

/// The values whose text is read back as the value itself. These are all
/// well-formed values but two kinds: an unsigned integer, which is read back
/// as a signed one, and a float whose text is not read back as that float,
/// as a float without a fraction is whose text is that of an integer.
pub open spec fn round_trips(
    j: Json,
    reader: spec_fn(Seq<u8>) -> Option<u64>,
    writer: spec_fn(u64) -> Seq<u8>,
) -> bool
    decreases j,
{
    match j {
        Json::Null => true,
        Json::Bool(_) => true,
        Json::Number(Number::Int(_)) => true,
        Json::Number(Number::UInt(_)) => false,
        Json::Number(Number::Float(bits)) => float_reads_back(bits, reader, writer),
        Json::String(s) => valid_utf8(s),
        Json::Array(items) => forall|i: int|
            0 <= i < items.len() ==> round_trips(#[trigger] items[i], reader, writer),
        Json::Object(members) => {
            &&& keys_ascend(members)
            &&& forall|i: int|
                0 <= i < members.len() ==> valid_utf8((#[trigger] members[i]).0) && round_trips(
                    members[i].1,
                    reader,
                    writer,
                )
        },
    }
}

/// The byte is one that a value's text starts with.
pub open spec fn starts_value(b: u8) -> bool {
    is_digit(b) || b == 0x2d || b == 0x6e || b == 0x74 || b == 0x66 || b == 0x22 || b == 0x5b || b
        == 0x7b
}

/// The text of a value is not empty and starts with a byte that is no
/// whitespace and tells the kind of the value.
pub proof fn lemma_text_start(
    j: Json,
    reader: spec_fn(Seq<u8>) -> Option<u64>,
    writer: spec_fn(u64) -> Seq<u8>,
)
    requires
        round_trips(j, reader, writer),
    ensures
        json_text(j, writer).len() > 0,
        starts_value(json_text(j, writer)[0]),
        json_text(j, writer)[0] == 0x6e <==> j is Null,
        json_text(j, writer)[0] == 0x74 || json_text(j, writer)[0] == 0x66 <==> j is Bool,
        json_text(j, writer)[0] == 0x22 <==> j is String,
        json_text(j, writer)[0] == 0x5b <==> j is Array,
        json_text(j, writer)[0] == 0x7b <==> j is Object,
{
    match j {
        Json::Number(Number::Int(i)) => {
            lemma_nat_text_value(
                if i < 0 {
                    (-i) as nat
                } else {
                    i as nat
                },
            );
        },
        _ => {},
    }
}

/// The joined text of two or more items is the text of the first, a comma,
/// and the joined text of the others.
pub proof fn lemma_items_text_front(items: Seq<Json>, writer: spec_fn(u64) -> Seq<u8>)
    requires
        items.len() >= 2,
    ensures
        items_text(items, writer) == json_text(items[0], writer) + seq![0x2cu8] + items_text(
            items.skip(1),
            writer,
        ),
    decreases items.len(),
{
    let shorter = items.drop_last();
    let tail = items.skip(1);
    assert(tail.last() == items.last());
    assert(items_text(items, writer) == items_text(shorter, writer) + seq![0x2cu8] + json_text(
        items.last(),
        writer,
    ));
    if items.len() == 2 {
        assert(shorter[0] == items[0]);
        assert(tail[0] == items[1]);
        assert(items_text(shorter, writer) == json_text(shorter[0], writer));
        assert(items_text(tail, writer) == json_text(tail[0], writer));
    } else {
        assert(items_text(tail, writer) == items_text(tail.drop_last(), writer) + seq![0x2cu8]
            + json_text(tail.last(), writer));
        lemma_items_text_front(shorter, writer);
        assert(shorter.skip(1) =~= tail.drop_last());
        assert(shorter[0] == items[0]);
        assert((json_text(items[0], writer) + seq![0x2cu8] + items_text(tail.drop_last(), writer))
            + seq![0x2cu8] + json_text(items.last(), writer) =~= json_text(items[0], writer)
            + seq![0x2cu8] + (items_text(tail.drop_last(), writer) + seq![0x2cu8] + json_text(
            items.last(),
            writer,
        )));
    }
}

/// The joined text of two or more members is the text of the first, a
/// comma, and the joined text of the others.
pub proof fn lemma_members_text_front(
    members: Seq<(Seq<u8>, Json)>,
    writer: spec_fn(u64) -> Seq<u8>,
)
    requires
        members.len() >= 2,
    ensures
        members_text(members, writer) == member_text(
            members[0].0,
            json_text(members[0].1, writer),
        ) + seq![0x2cu8] + members_text(members.skip(1), writer),
    decreases members.len(),
{
    let shorter = members.drop_last();
    let tail = members.skip(1);
    let last_text = member_text(members.last().0, json_text(members.last().1, writer));
    let first_text = member_text(members[0].0, json_text(members[0].1, writer));
    assert(tail.last() == members.last());
    assert(members_text(members, writer) == members_text(shorter, writer) + seq![0x2cu8]
        + last_text);
    if members.len() == 2 {
        assert(shorter[0] == members[0]);
        assert(tail[0] == members[1]);
        assert(members_text(shorter, writer) == member_text(
            shorter[0].0,
            json_text(shorter[0].1, writer),
        ));
        assert(members_text(tail, writer) == member_text(
            tail[0].0,
            json_text(tail[0].1, writer),
        ));
    } else {
        assert(members_text(tail, writer) == members_text(tail.drop_last(), writer) + seq![0x2cu8]
            + member_text(tail.last().0, json_text(tail.last().1, writer)));
        lemma_members_text_front(shorter, writer);
        assert(shorter.skip(1) =~= tail.drop_last());
        assert(shorter[0] == members[0]);
        assert((first_text + seq![0x2cu8] + members_text(tail.drop_last(), writer)) + seq![0x2cu8]
            + last_text =~= first_text + seq![0x2cu8] + (members_text(tail.drop_last(), writer)
            + seq![0x2cu8] + last_text));
    }
}

/// A key greater than every key so far is inserted at the end.
pub proof fn lemma_insert_at_end<V>(members: Seq<(Seq<u8>, V)>, key: Seq<u8>, value: V)
    requires
        members.len() > 0 ==> key_less(members.last().0, key),
    ensures
        insert_member(members, key, value) == members.push((key, value)),
{
    if members.len() > 0 {
        lemma_key_less_asymmetric(members.last().0, key);
        lemma_key_less_irreflexive(key);
    }
}

/// The text of a null or of a boolean is read as that value.
pub proof fn lemma_literal_text_parses(
    j: Json,
    rest: Seq<u8>,
    reader: spec_fn(Seq<u8>) -> Option<u64>,
    writer: spec_fn(u64) -> Seq<u8>,
)
    requires
        j is Null || j is Bool,
    ensures
        parse_value(json_text(j, writer) + rest, reader) == Ok::<(Json, Seq<u8>), ParseError>(
            (j, rest),
        ),
{
    let s = json_text(j, writer) + rest;
    match j {
        Json::Bool(b) => {
            if b {
                assert(s.subrange(0, 4) =~= crate::grammar::true_text());
                assert(s.subrange(0, 4)[0] == 0x74);
                assert(s.skip(4) =~= rest);
            } else {
                assert(s.subrange(0, 5) =~= crate::grammar::false_text());
                assert(s.subrange(0, 4)[0] == 0x66);
                assert(s.skip(5) =~= rest);
            }
        },
        _ => {
            assert(s.subrange(0, 4) =~= crate::grammar::null_text());
            assert(s.skip(4) =~= rest);
        },
    }
}

/// The text of a number that reads back, followed by nothing that makes a
/// number go on, is read as that number.
pub proof fn lemma_number_text_parses(
    n: Number,
    rest: Seq<u8>,
    reader: spec_fn(Seq<u8>) -> Option<u64>,
    writer: spec_fn(u64) -> Seq<u8>,
)
    requires
        round_trips(Json::Number(n), reader, writer),
        ends_number(rest),
    ensures
        parse_value(json_text(Json::Number(n), writer) + rest, reader) == Ok::<
            (Json, Seq<u8>),
            ParseError,
        >((Json::Number(n), rest)),
{
    let t = json_text(Json::Number(n), writer);
    let s = t + rest;
    match n {
        Number::Int(i) => {
            lemma_int_text_parses(i as int, rest, reader);
        },
        _ => {},
    }
    assert(s[0] == t[0]);
}

/// The text of a string is read as that string, as a value.
pub proof fn lemma_string_value_parses(
    text: Seq<u8>,
    rest: Seq<u8>,
    reader: spec_fn(Seq<u8>) -> Option<u64>,
)
    requires
        valid_utf8(text),
    ensures
        parse_value(string_text(text) + rest, reader) == Ok::<(Json, Seq<u8>), ParseError>(
            (Json::String(text), rest),
        ),
{
    lemma_string_text_parses(text, rest);
    assert((string_text(text) + rest)[0] == 0x22);
}

/// The text of an array is read as that array.
pub proof fn lemma_array_text_parses(
    items: Seq<Json>,
    rest: Seq<u8>,
    reader: spec_fn(Seq<u8>) -> Option<u64>,
    writer: spec_fn(u64) -> Seq<u8>,
)
    requires
        forall|i: int| 0 <= i < items.len() ==> round_trips(#[trigger] items[i], reader, writer),
    ensures
        parse_value(json_text(Json::Array(items), writer) + rest, reader) == Ok::<
            (Json, Seq<u8>),
            ParseError,
        >((Json::Array(items), rest)),
    decreases items, 1int,
{
    let s = json_text(Json::Array(items), writer) + rest;
    let body = items_text(items, writer) + seq![0x5du8] + rest;
    assert(s[0] == 0x5b);
    assert(s.skip(1) =~= body);
    if items.len() == 0 {
        assert(body[0] == 0x5d);
        assert(body.skip(1) =~= rest);
        assert(items =~= Seq::<Json>::empty());
    } else {
        lemma_items_start(items, reader, writer);
        assert(body[0] == items_text(items, writer)[0]);
        lemma_elements_text_parse(items, Seq::empty(), rest, reader, writer);
        assert(Seq::<Json>::empty() + items =~= items);
    }
}

/// The text of an object is read as that object.
pub proof fn lemma_object_text_parses(
    members: Seq<(Seq<u8>, Json)>,
    rest: Seq<u8>,
    reader: spec_fn(Seq<u8>) -> Option<u64>,
    writer: spec_fn(u64) -> Seq<u8>,
)
    requires
        round_trips(Json::Object(members), reader, writer),
    ensures
        parse_value(json_text(Json::Object(members), writer) + rest, reader) == Ok::<
            (Json, Seq<u8>),
            ParseError,
        >((Json::Object(members), rest)),
    decreases members, 1int,
{
    let s = json_text(Json::Object(members), writer) + rest;
    let body = members_text(members, writer) + seq![0x7du8] + rest;
    assert(s[0] == 0x7b);
    assert(s.skip(1) =~= body);
    if members.len() == 0 {
        assert(body[0] == 0x7d);
        assert(body.skip(1) =~= rest);
        assert(members =~= Seq::<(Seq<u8>, Json)>::empty());
    } else {
        lemma_members_start(members, writer);
        assert(body[0] == members_text(members, writer)[0]);
        assert(Seq::<(Seq<u8>, Json)>::empty() + members =~= members);
        lemma_members_text_parse(members, Seq::empty(), rest, reader, writer);
    }
}

/// The text of a value, followed by nothing that makes a number go on, is
/// read as that value.
pub proof fn lemma_value_text_parses(
    j: Json,
    rest: Seq<u8>,
    reader: spec_fn(Seq<u8>) -> Option<u64>,
    writer: spec_fn(u64) -> Seq<u8>,
)
    requires
        round_trips(j, reader, writer),
        ends_number(rest),
    ensures
        parse_value(json_text(j, writer) + rest, reader) == Ok::<(Json, Seq<u8>), ParseError>(
            (j, rest),
        ),
    decreases j, 0int,
{
    match j {
        Json::Null => {
            lemma_literal_text_parses(j, rest, reader, writer);
        },
        Json::Bool(_) => {
            lemma_literal_text_parses(j, rest, reader, writer);
        },
        Json::Number(n) => {
            lemma_number_text_parses(n, rest, reader, writer);
        },
        Json::String(text) => {
            lemma_string_value_parses(text, rest, reader);
        },
        Json::Array(items) => {
            lemma_array_text_parses(items, rest, reader, writer);
        },
        Json::Object(members) => {
            lemma_object_text_parses(members, rest, reader, writer);
        },
    }
}

/// The joined text of one or more items starts as the text of the first.
pub proof fn lemma_items_start(
    items: Seq<Json>,
    reader: spec_fn(Seq<u8>) -> Option<u64>,
    writer: spec_fn(u64) -> Seq<u8>,
)
    requires
        items.len() >= 1,
        round_trips(items[0], reader, writer),
    ensures
        items_text(items, writer).len() > 0,
        items_text(items, writer)[0] == json_text(items[0], writer)[0],
        starts_value(items_text(items, writer)[0]),
{
    lemma_text_start(items[0], reader, writer);
    if items.len() >= 2 {
        lemma_items_text_front(items, writer);
    }
}

/// The joined text of one or more members starts with a quote.
pub proof fn lemma_members_start(members: Seq<(Seq<u8>, Json)>, writer: spec_fn(u64) -> Seq<u8>)
    requires
        members.len() >= 1,
    ensures
        members_text(members, writer).len() > 0,
        members_text(members, writer)[0] == 0x22,
{
    if members.len() >= 2 {
        lemma_members_text_front(members, writer);
    }
}

/// An item that is followed by the closing bracket ends the array.
pub proof fn lemma_elements_close(
    s: Seq<u8>,
    done: Seq<Json>,
    item: Json,
    tail: Seq<u8>,
    reader: spec_fn(Seq<u8>) -> Option<u64>,
)
    requires
        parse_value(s, reader) == Ok::<(Json, Seq<u8>), ParseError>((item, tail)),
        tail.len() > 0,
        tail[0] == 0x5d,
    ensures
        parse_elements(s, done, reader) == Ok::<(Json, Seq<u8>), ParseError>(
            (Json::Array(done.push(item)), tail.skip(1)),
        ),
{
}

/// An item that is followed by a comma is followed by more items.
pub proof fn lemma_elements_comma(
    s: Seq<u8>,
    done: Seq<Json>,
    item: Json,
    tail: Seq<u8>,
    reader: spec_fn(Seq<u8>) -> Option<u64>,
)
    requires
        parse_value(s, reader) == Ok::<(Json, Seq<u8>), ParseError>((item, tail)),
        tail.len() > 1,
        tail[0] == 0x2c,
        !is_whitespace(tail[1]),
        tail.len() <= s.len(),
    ensures
        parse_elements(s, done, reader) == parse_elements(tail.skip(1), done.push(item), reader),
{
    assert(tail.skip(1)[0] == tail[1]);
}

/// A member that is followed by the closing brace ends the object.
pub proof fn lemma_members_close(
    s: Seq<u8>,
    done: Seq<(Seq<u8>, Json)>,
    member: (Seq<u8>, Json),
    tail: Seq<u8>,
    reader: spec_fn(Seq<u8>) -> Option<u64>,
)
    requires
        parse_member(s, reader) == Ok::<((Seq<u8>, Json), Seq<u8>), ParseError>((member, tail)),
        tail.len() > 0,
        tail[0] == 0x7d,
    ensures
        parse_members(s, done, reader) == Ok::<(Json, Seq<u8>), ParseError>(
            (Json::Object(insert_member(done, member.0, member.1)), tail.skip(1)),
        ),
{
}

/// A member that is followed by a comma is followed by more members.
pub proof fn lemma_members_comma(
    s: Seq<u8>,
    done: Seq<(Seq<u8>, Json)>,
    member: (Seq<u8>, Json),
    tail: Seq<u8>,
    reader: spec_fn(Seq<u8>) -> Option<u64>,
)
    requires
        parse_member(s, reader) == Ok::<((Seq<u8>, Json), Seq<u8>), ParseError>((member, tail)),
        tail.len() > 1,
        tail[0] == 0x2c,
        !is_whitespace(tail[1]),
        tail.len() <= s.len(),
    ensures
        parse_members(s, done, reader) == parse_members(
            tail.skip(1),
            insert_member(done, member.0, member.1),
            reader,
        ),
{
    assert(tail.skip(1)[0] == tail[1]);
}

/// A key, a colon and a value make a member.
pub proof fn lemma_member_parts(
    s: Seq<u8>,
    key: Seq<u8>,
    after_key: Seq<u8>,
    value: Json,
    tail: Seq<u8>,
    reader: spec_fn(Seq<u8>) -> Option<u64>,
)
    requires
        parse_string_raw(s) == Ok::<(Seq<u8>, Seq<u8>), ParseError>((key, after_key)),
        after_key.len() > 1,
        after_key[0] == 0x3a,
        !is_whitespace(after_key[1]),
        after_key.len() <= s.len(),
        parse_value(after_key.skip(1), reader) == Ok::<(Json, Seq<u8>), ParseError>((value, tail)),
    ensures
        parse_member(s, reader) == Ok::<((Seq<u8>, Json), Seq<u8>), ParseError>(
            ((key, value), tail),
        ),
{
    assert(after_key.skip(1)[0] == after_key[1]);
}

/// The joined text of one or more items and the closing bracket are read
/// as those items, after the items read before.
pub proof fn lemma_elements_text_parse(
    items: Seq<Json>,
    done: Seq<Json>,
    rest: Seq<u8>,
    reader: spec_fn(Seq<u8>) -> Option<u64>,
    writer: spec_fn(u64) -> Seq<u8>,
)
    requires
        items.len() >= 1,
        forall|i: int| 0 <= i < items.len() ==> round_trips(#[trigger] items[i], reader, writer),
    ensures
        parse_elements(items_text(items, writer) + seq![0x5du8] + rest, done, reader) == Ok::<
            (Json, Seq<u8>),
            ParseError,
        >((Json::Array(done + items), rest)),
    decreases items, 0int,
{
    let s = items_text(items, writer) + seq![0x5du8] + rest;
    let first = items[0];
    let first_text = json_text(first, writer);
    if items.len() == 1 {
        let tail = seq![0x5du8] + rest;
        assert(s =~= first_text + tail);
        lemma_value_text_parses(first, tail, reader, writer);
        lemma_elements_close(s, done, first, tail, reader);
        assert(tail.skip(1) =~= rest);
        assert(done.push(first) =~= done + items);
    } else {
        let others = items.skip(1);
        lemma_items_text_front(items, writer);
        let next = items_text(others, writer) + seq![0x5du8] + rest;
        let tail = seq![0x2cu8] + next;
        assert(s =~= first_text + tail);
        lemma_value_text_parses(first, tail, reader, writer);
        assert(tail.skip(1) =~= next);
        assert(others[0] == items[1]);
        lemma_items_start(others, reader, writer);
        assert(tail[1] == items_text(others, writer)[0]);
        lemma_elements_comma(s, done, first, tail, reader);
        assert forall|i: int| 0 <= i < others.len() implies round_trips(
            #[trigger] others[i],
            reader,
            writer,
        ) by {
            assert(others[i] == items[i + 1]);
        }
        lemma_elements_text_parse(others, done.push(first), rest, reader, writer);
        assert(done.push(first) + others =~= done + items);
    }
}

/// What follows the first member in the text of an object: the closing
/// brace, or a comma and the other members with the closing brace.
pub open spec fn after_first_member(
    members: Seq<(Seq<u8>, Json)>,
    rest: Seq<u8>,
    writer: spec_fn(u64) -> Seq<u8>,
) -> Seq<u8> {
    if members.len() == 1 {
        seq![0x7du8] + rest
    } else {
        seq![0x2cu8] + (members_text(members.skip(1), writer) + seq![0x7du8] + rest)
    }
}

/// The text of one or more members and the closing brace is the text of
/// the first member and what follows it.
pub proof fn lemma_members_text_split(
    members: Seq<(Seq<u8>, Json)>,
    rest: Seq<u8>,
    writer: spec_fn(u64) -> Seq<u8>,
)
    requires
        members.len() >= 1,
    ensures
        members_text(members, writer) + seq![0x7du8] + rest == member_text(
            members[0].0,
            json_text(members[0].1, writer),
        ) + after_first_member(members, rest, writer),
        ends_number(after_first_member(members, rest, writer)),
        after_first_member(members, rest, writer).len() > 0,
        members.len() == 1 ==> after_first_member(members, rest, writer)[0] == 0x7d
            && after_first_member(members, rest, writer).skip(1) == rest,
        members.len() > 1 ==> after_first_member(members, rest, writer)[0] == 0x2c
            && after_first_member(members, rest, writer)[1] == 0x22 && after_first_member(
            members,
            rest,
            writer,
        ).skip(1) == members_text(members.skip(1), writer) + seq![0x7du8] + rest,
{
    let first_text = member_text(members[0].0, json_text(members[0].1, writer));
    let tail = after_first_member(members, rest, writer);
    if members.len() == 1 {
        assert(members_text(members, writer) + seq![0x7du8] + rest =~= first_text + tail);
        assert(tail.skip(1) =~= rest);
    } else {
        let others = members.skip(1);
        lemma_members_text_front(members, writer);
        lemma_members_start(others, writer);
        let next = members_text(others, writer) + seq![0x7du8] + rest;
        assert(members_text(members, writer) + seq![0x7du8] + rest =~= first_text + tail);
        assert(tail.skip(1) =~= next);
        assert(tail[1] == next[0]);
    }
}

/// Among ascending members the first of those still to come is inserted at
/// the end of those already there.
pub proof fn lemma_first_member_appends(
    done: Seq<(Seq<u8>, Json)>,
    members: Seq<(Seq<u8>, Json)>,
)
    requires
        members.len() >= 1,
        keys_ascend(done + members),
    ensures
        insert_member(done, members[0].0, members[0].1) == done.push(members[0]),
        done.push(members[0]) + members.skip(1) == done + members,
{
    let all = done + members;
    if done.len() > 0 {
        assert(all[done.len() - 1] == done.last());
        assert(all[done.len() as int] == members[0]);
        assert(key_less(all[done.len() - 1].0, all[done.len() as int].0));
    }
    lemma_insert_at_end(done, members[0].0, members[0].1);
    assert(done.push(members[0]) + members.skip(1) =~= done + members);
}

/// The joined text of one or more members and the closing brace are read
/// as those members, after the members read before.
pub proof fn lemma_members_text_parse(
    members: Seq<(Seq<u8>, Json)>,
    done: Seq<(Seq<u8>, Json)>,
    rest: Seq<u8>,
    reader: spec_fn(Seq<u8>) -> Option<u64>,
    writer: spec_fn(u64) -> Seq<u8>,
)
    requires
        members.len() >= 1,
        keys_ascend(done + members),
        forall|i: int|
            0 <= i < members.len() ==> valid_utf8((#[trigger] members[i]).0) && round_trips(
                members[i].1,
                reader,
                writer,
            ),
    ensures
        parse_members(members_text(members, writer) + seq![0x7du8] + rest, done, reader) == Ok::<
            (Json, Seq<u8>),
            ParseError,
        >((Json::Object(done + members), rest)),
    decreases members, 0int,
{
    let s = members_text(members, writer) + seq![0x7du8] + rest;
    let first = members[0];
    let tail = after_first_member(members, rest, writer);
    lemma_members_text_split(members, rest, writer);
    lemma_first_member_appends(done, members);
    lemma_member_text_parses(first.0, first.1, tail, reader, writer);
    if members.len() == 1 {
        lemma_members_close(s, done, first, tail, reader);
        assert(members.skip(1) =~= Seq::<(Seq<u8>, Json)>::empty());
        assert(done.push(first) + members.skip(1) =~= done.push(first));
    } else {
        let others = members.skip(1);
        lemma_members_comma(s, done, first, tail, reader);
        assert forall|i: int| 0 <= i < others.len() implies valid_utf8((#[trigger] others[i]).0)
            && round_trips(others[i].1, reader, writer) by {
            assert(others[i] == members[i + 1]);
        }
        lemma_members_text_parse(others, done.push(first), rest, reader, writer);
    }
}

/// The text of a member, followed by a comma or a closing brace, is read
/// as that member.
pub proof fn lemma_member_text_parses(
    key: Seq<u8>,
    value: Json,
    tail: Seq<u8>,
    reader: spec_fn(Seq<u8>) -> Option<u64>,
    writer: spec_fn(u64) -> Seq<u8>,
)
    requires
        valid_utf8(key),
        round_trips(value, reader, writer),
        ends_number(tail),
    ensures
        parse_member(member_text(key, json_text(value, writer)) + tail, reader) == Ok::<
            ((Seq<u8>, Json), Seq<u8>),
            ParseError,
        >(((key, value), tail)),
    decreases value, 1int,
{
    let value_text = json_text(value, writer);
    let s = member_text(key, value_text) + tail;
    let at_value = value_text + tail;
    let after_key = seq![0x3au8] + at_value;
    assert(s =~= string_text(key) + after_key);
    lemma_string_text_parses(key, after_key);
    assert(after_key.skip(1) =~= at_value);
    lemma_text_start(value, reader, writer);
    assert(after_key[1] == value_text[0]);
    lemma_value_text_parses(value, tail, reader, writer);
    lemma_member_parts(s, key, after_key, value, tail, reader);
}

/// Round trip: the canonical text of a value is a document that parses to
/// the value itself.
///
/// This holds of every value that [`round_trips`] admits.
pub proof fn lemma_round_trip(
    j: Json,
    reader: spec_fn(Seq<u8>) -> Option<u64>,
    writer: spec_fn(u64) -> Seq<u8>,
)
    requires
        round_trips(j, reader, writer),
    ensures
        parse_document(json_text(j, writer), reader) == Ok::<Json, ParseError>(j),
{
    let t = json_text(j, writer);
    lemma_text_start(j, reader, writer);
    lemma_value_text_parses(j, Seq::empty(), reader, writer);
    assert(t + Seq::<u8>::empty() =~= t);
}

} // verus!
