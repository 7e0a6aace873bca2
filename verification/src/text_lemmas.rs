//! The canonical text of a value is UTF-8.

use crate::model::Json;
use crate::number::{int_text, nat_text};
use crate::text::{
    escape_byte, escape_bytes, items_text, json_text, member_text, members_text, string_text,
};
use crate::value::{entries_model, items_model, lemma_entries_model, lemma_items_model, Value};
use vstd::prelude::*;
use vstd::utf8::{
    encode_utf8_valid_utf8, length_of_first_scalar, partial_valid_utf8_extend_ascii_block,
    pop_first_scalar, take_first_scalar, valid_utf8, valid_utf8_concat,
};

verus! {

/// Every byte is below `0x80`.
pub open spec fn is_ascii_text(s: Seq<u8>) -> bool {
    forall|i: int| 0 <= i < s.len() ==> #[trigger] s[i] < 0x80
}

/// Every string and every key in the value is UTF-8.
pub open spec fn strings_utf8(j: Json) -> bool
    decreases j,
{
    match j {
        Json::String(s) => valid_utf8(s),
        Json::Array(items) => forall|i: int|
            0 <= i < items.len() ==> strings_utf8(#[trigger] items[i]),
        Json::Object(members) => forall|i: int|
            0 <= i < members.len() ==> valid_utf8((#[trigger] members[i]).0) && strings_utf8(
                members[i].1,
            ),
        _ => true,
    }
}

/// ASCII text is UTF-8.
pub proof fn lemma_ascii_valid(s: Seq<u8>)
    requires
        is_ascii_text(s),
    ensures
        valid_utf8(s),
{
    assert(s.subrange(0, 0) =~= Seq::<u8>::empty());
    assert forall|i: int| 0 <= 0 <= i < s.len() <= s.len() implies #[trigger] vstd::utf8::is_leading_byte_width_1(s[i]) by {
        assert(s[i] < 0x80);
    }
    partial_valid_utf8_extend_ascii_block(s, 0, s.len() as int);
    assert(s.subrange(0, s.len() as int) =~= s);
}

/// The decimal text of a natural number is made of digits.
pub proof fn lemma_nat_text_digits(n: nat)
    ensures
        nat_text(n).len() >= 1,
        forall|i: int| 0 <= i < nat_text(n).len() ==> crate::number::is_digit(#[trigger] nat_text(n)[i]),
    decreases n,
{
    if n >= 10 {
        lemma_nat_text_digits(n / 10);
    }
}

/// Escaping distributes over appending a byte.
pub proof fn lemma_escape_bytes_push(s: Seq<u8>, b: u8)
    ensures
        escape_bytes(s.push(b)) == escape_bytes(s) + escape_byte(b),
    decreases s.len(),
{
    if s.len() == 0 {
        assert(s.push(b).skip(1) =~= Seq::<u8>::empty());
        assert(escape_bytes(Seq::<u8>::empty()) =~= Seq::<u8>::empty());
        assert(escape_bytes(s.push(b)) =~= escape_byte(b) + Seq::<u8>::empty());
        assert(escape_bytes(s) + escape_byte(b) =~= escape_byte(b));
        assert(escape_byte(b) + Seq::<u8>::empty() =~= escape_byte(b));
    } else {
        lemma_escape_bytes_push(s.skip(1), b);
        assert(s.push(b).skip(1) =~= s.skip(1).push(b));
        assert(escape_byte(s[0]) + (escape_bytes(s.skip(1)) + escape_byte(b)) =~= (escape_byte(
            s[0],
        ) + escape_bytes(s.skip(1))) + escape_byte(b));
    }
}

/// Bytes from `0x80` on are written as they are.
pub proof fn lemma_escape_high_bytes(s: Seq<u8>, k: int)
    requires
        0 <= k <= s.len(),
        forall|i: int| 0 <= i < k ==> #[trigger] s[i] >= 0x80,
    ensures
        escape_bytes(s) == s.take(k) + escape_bytes(s.skip(k)),
    decreases k,
{
    if k == 0 {
        assert(s.skip(0) =~= s);
        assert(s.take(0) + escape_bytes(s) =~= escape_bytes(s));
    } else {
        assert(s[0] >= 0x80);
        let t = s.skip(1);
        assert forall|i: int| 0 <= i < k - 1 implies #[trigger] t[i] >= 0x80 by {
            assert(t[i] == s[i + 1]);
        }
        lemma_escape_high_bytes(t, k - 1);
        assert(t.skip(k - 1) =~= s.skip(k));
        assert(seq![s[0]] + (t.take(k - 1) + escape_bytes(s.skip(k))) =~= s.take(k) + escape_bytes(
            s.skip(k),
        ));
    }
}

/// Escaped UTF-8 is UTF-8.
pub proof fn lemma_escape_bytes_valid(s: Seq<u8>)
    requires
        valid_utf8(s),
    ensures
        valid_utf8(escape_bytes(s)),
    decreases s.len(),
{
    if s.len() > 0 {
        let k = length_of_first_scalar(s);
        let rest = pop_first_scalar(s);
        assert(rest == s.skip(k));
        lemma_escape_bytes_valid(rest);
        if k == 1 {
            assert(is_ascii_text(escape_byte(s[0])));
            lemma_ascii_valid(escape_byte(s[0]));
            valid_utf8_concat(escape_byte(s[0]), escape_bytes(rest));
        } else {
            lemma_escape_high_bytes(s, k);
            assert(valid_utf8(take_first_scalar(s))) by {
                reveal_with_fuel(valid_utf8, 2);
                assert(pop_first_scalar(take_first_scalar(s)) =~= Seq::<u8>::empty());
            }
            assert(take_first_scalar(s) == s.take(k));
            valid_utf8_concat(s.take(k), escape_bytes(rest));
        }
    }
}

/// A string between quotes is UTF-8.
pub proof fn lemma_string_text_valid(s: Seq<u8>)
    requires
        valid_utf8(s),
    ensures
        valid_utf8(string_text(s)),
{
    lemma_escape_bytes_valid(s);
    lemma_ascii_valid(seq![0x22u8]);
    valid_utf8_concat(seq![0x22u8], escape_bytes(s));
    valid_utf8_concat(seq![0x22u8] + escape_bytes(s), seq![0x22u8]);
}

/// A member is UTF-8 where its key and the text of its value are.
pub proof fn lemma_member_text_valid(key: Seq<u8>, value_text: Seq<u8>)
    requires
        valid_utf8(key),
        valid_utf8(value_text),
    ensures
        valid_utf8(member_text(key, value_text)),
{
    lemma_string_text_valid(key);
    lemma_ascii_valid(seq![0x3au8]);
    valid_utf8_concat(string_text(key), seq![0x3au8]);
    valid_utf8_concat(string_text(key) + seq![0x3au8], value_text);
}

/// The text of a value is UTF-8 where its strings and keys are and the
/// writer writes UTF-8.
pub proof fn lemma_json_text_valid(j: Json, writer: spec_fn(u64) -> Seq<u8>)
    requires
        strings_utf8(j),
        forall|bits: u64| valid_utf8(#[trigger] writer(bits)),
    ensures
        valid_utf8(json_text(j, writer)),
    decreases j,
{
    match j {
        Json::Null => {
            lemma_ascii_valid(crate::grammar::null_text());
        },
        Json::Bool(b) => {
            lemma_ascii_valid(crate::grammar::true_text());
            lemma_ascii_valid(crate::grammar::false_text());
        },
        Json::Number(n) => {
            match n {
                crate::number::Number::Int(i) => {
                    if i < 0 {
                        lemma_nat_text_digits((-i) as nat);
                    } else {
                        lemma_nat_text_digits(i as nat);
                    }
                    assert(is_ascii_text(int_text(i as int)));
                    lemma_ascii_valid(int_text(i as int));
                },
                crate::number::Number::UInt(u) => {
                    lemma_nat_text_digits(u as nat);
                    lemma_ascii_valid(nat_text(u as nat));
                },
                crate::number::Number::Float(bits) => {},
            }
        },
        Json::String(s) => {
            lemma_string_text_valid(s);
        },
        Json::Array(items) => {
            lemma_items_text_valid(items, writer);
            lemma_ascii_valid(seq![0x5bu8]);
            lemma_ascii_valid(seq![0x5du8]);
            valid_utf8_concat(seq![0x5bu8], items_text(items, writer));
            valid_utf8_concat(seq![0x5bu8] + items_text(items, writer), seq![0x5du8]);
        },
        Json::Object(members) => {
            lemma_members_text_valid(members, writer);
            lemma_ascii_valid(seq![0x7bu8]);
            lemma_ascii_valid(seq![0x7du8]);
            valid_utf8_concat(seq![0x7bu8], members_text(members, writer));
            valid_utf8_concat(seq![0x7bu8] + members_text(members, writer), seq![0x7du8]);
        },
    }
}

/// The joined texts of items are UTF-8 where the text of each is.
pub proof fn lemma_items_text_valid(items: Seq<Json>, writer: spec_fn(u64) -> Seq<u8>)
    requires
        forall|i: int| 0 <= i < items.len() ==> strings_utf8(#[trigger] items[i]),
        forall|bits: u64| valid_utf8(#[trigger] writer(bits)),
    ensures
        valid_utf8(items_text(items, writer)),
    decreases items,
{
    if items.len() == 0 {
    } else if items.len() == 1 {
        lemma_json_text_valid(items[0], writer);
    } else {
        let shorter = items.drop_last();
        assert forall|i: int| 0 <= i < shorter.len() implies strings_utf8(#[trigger] shorter[i]) by {
            assert(shorter[i] == items[i]);
        }
        lemma_items_text_valid(shorter, writer);
        lemma_json_text_valid(items.last(), writer);
        lemma_ascii_valid(seq![0x2cu8]);
        valid_utf8_concat(items_text(shorter, writer), seq![0x2cu8]);
        valid_utf8_concat(
            items_text(shorter, writer) + seq![0x2cu8],
            json_text(items.last(), writer),
        );
    }
}

/// The joined texts of members are UTF-8 where each key and the text of
/// each value is.
pub proof fn lemma_members_text_valid(
    members: Seq<(Seq<u8>, Json)>,
    writer: spec_fn(u64) -> Seq<u8>,
)
    requires
        forall|i: int|
            0 <= i < members.len() ==> valid_utf8((#[trigger] members[i]).0) && strings_utf8(
                members[i].1,
            ),
        forall|bits: u64| valid_utf8(#[trigger] writer(bits)),
    ensures
        valid_utf8(members_text(members, writer)),
    decreases members,
{
    if members.len() == 0 {
    } else if members.len() == 1 {
        lemma_json_text_valid(members[0].1, writer);
        lemma_member_text_valid(members[0].0, json_text(members[0].1, writer));
    } else {
        let shorter = members.drop_last();
        assert forall|i: int| 0 <= i < shorter.len() implies valid_utf8((#[trigger] shorter[i]).0)
            && strings_utf8(shorter[i].1) by {
            assert(shorter[i] == members[i]);
        }
        lemma_members_text_valid(shorter, writer);
        lemma_json_text_valid(members.last().1, writer);
        lemma_member_text_valid(members.last().0, json_text(members.last().1, writer));
        lemma_ascii_valid(seq![0x2cu8]);
        valid_utf8_concat(members_text(shorter, writer), seq![0x2cu8]);
        valid_utf8_concat(
            members_text(shorter, writer) + seq![0x2cu8],
            member_text(members.last().0, json_text(members.last().1, writer)),
        );
    }
}

/// In the model of a value every string and every key is UTF-8.
pub proof fn lemma_value_strings_utf8(v: Value)
    ensures
        strings_utf8(v@),
    decreases v,
{
    match v {
        Value::String(s) => {
            encode_utf8_valid_utf8(s@);
        },
        Value::Array(items) => {
            lemma_items_model(items@);
            assert forall|i: int| 0 <= i < items@.len() implies strings_utf8(
                #[trigger] items_model(items@)[i],
            ) by {
                lemma_value_strings_utf8(items@[i]);
            }
        },
        Value::Object(members) => {
            lemma_entries_model(members.entries@);
            assert forall|i: int| 0 <= i < members.entries@.len() implies valid_utf8(
                (#[trigger] entries_model(members.entries@)[i]).0,
            ) && strings_utf8(entries_model(members.entries@)[i].1) by {
                lemma_value_strings_utf8(members.entries@[i].1);
                encode_utf8_valid_utf8(members.entries@[i].0@);
            }
        },
        _ => {},
    }
}

} // verus!
