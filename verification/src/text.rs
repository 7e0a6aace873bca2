//! The canonical text of a value: no whitespace, members in key order.

use crate::model::Json;
use crate::number::{int_text, nat_text, Number};
use vstd::prelude::*;

verus! {

/// The upper-case hexadecimal digit for `d`.
pub open spec fn hex_upper(d: int) -> u8 {
    if d < 10 {
        (0x30 + d) as u8
    } else {
        (0x41 + d - 10) as u8
    }
}

/// How one byte of a string is written: `"` and `\` behind a backslash;
/// backspace, form feed, line feed, carriage return and tab as `\b`, `\f`,
/// `\n`, `\r` and `\t`; every other byte below `0x20` as `\u00` and two
/// upper-case hexadecimal digits; every other byte as it is.
pub open spec fn escape_byte(b: u8) -> Seq<u8> {
    if b == 0x22 {
        seq![0x5cu8, 0x22u8]
    } else if b == 0x5c {
        seq![0x5cu8, 0x5cu8]
    } else if b == 0x08 {
        seq![0x5cu8, 0x62u8]
    } else if b == 0x0c {
        seq![0x5cu8, 0x66u8]
    } else if b == 0x0a {
        seq![0x5cu8, 0x6eu8]
    } else if b == 0x0d {
        seq![0x5cu8, 0x72u8]
    } else if b == 0x09 {
        seq![0x5cu8, 0x74u8]
    } else if b < 0x20 {
        seq![0x5cu8, 0x75u8, 0x30u8, 0x30u8, hex_upper(b as int / 16), hex_upper(b as int % 16)]
    } else {
        seq![b]
    }
}

/// The bytes of a string, each written as [`escape_byte`] says.
pub open spec fn escape_bytes(s: Seq<u8>) -> Seq<u8>
    decreases s.len(),
{
    if s.len() == 0 {
        Seq::empty()
    } else {
        escape_byte(s[0]) + escape_bytes(s.skip(1))
    }
}

/// A string between quotes, with its bytes escaped.
pub open spec fn string_text(s: Seq<u8>) -> Seq<u8> {
    seq![0x22u8] + escape_bytes(s) + seq![0x22u8]
}

/// A number: an integer in decimal, a float as the writer writes it.
pub open spec fn number_text(n: Number, writer: spec_fn(u64) -> Seq<u8>) -> Seq<u8> {
    match n {
        Number::Int(i) => int_text(i as int),
        Number::UInt(u) => nat_text(u as nat),
        Number::Float(bits) => writer(bits),
    }
}

/// A member: the key written as a string is, then `:` and the value.
pub open spec fn member_text(key: Seq<u8>, value_text: Seq<u8>) -> Seq<u8> {
    string_text(key) + seq![0x3au8] + value_text
}

/// The canonical text of a value.
pub open spec fn json_text(j: Json, writer: spec_fn(u64) -> Seq<u8>) -> Seq<u8>
    decreases j,
{
    match j {
        Json::Null => crate::grammar::null_text(),
        Json::Bool(b) => if b {
            crate::grammar::true_text()
        } else {
            crate::grammar::false_text()
        },
        Json::Number(n) => number_text(n, writer),
        Json::String(s) => string_text(s),
        Json::Array(items) => seq![0x5bu8] + items_text(items, writer) + seq![0x5du8],
        Json::Object(members) => seq![0x7bu8] + members_text(members, writer) + seq![0x7du8],
    }
}

/// The texts of the items, with a comma between each two.
pub open spec fn items_text(items: Seq<Json>, writer: spec_fn(u64) -> Seq<u8>) -> Seq<u8>
    decreases items,
{
    if items.len() == 0 {
        Seq::empty()
    } else if items.len() == 1 {
        json_text(items[0], writer)
    } else {
        items_text(items.drop_last(), writer) + seq![0x2cu8] + json_text(items.last(), writer)
    }
}

/// The texts of the members, with a comma between each two.
pub open spec fn members_text(
    members: Seq<(Seq<u8>, Json)>,
    writer: spec_fn(u64) -> Seq<u8>,
) -> Seq<u8>
    decreases members,
{
    if members.len() == 0 {
        Seq::empty()
    } else if members.len() == 1 {
        member_text(members[0].0, json_text(members[0].1, writer))
    } else {
        members_text(members.drop_last(), writer) + seq![0x2cu8] + member_text(
            members.last().0,
            json_text(members.last().1, writer),
        )
    }
}

} // verus!
