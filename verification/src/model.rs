use crate::number::{number_equal, Number};
use vstd::prelude::*;
use vstd::utf8::valid_utf8;

verus! {

/// The mathematical model of a JSON value.
///
/// A string is the sequence of its UTF-8 bytes. An object is the sequence of
/// its members in the order in which they are walked and rendered, which is
/// the order of their keys.
pub ghost enum Json {
    Null,
    Bool(bool),
    Number(Number),
    String(Seq<u8>),
    Array(Seq<Json>),
    Object(Seq<(Seq<u8>, Json)>),
}

/// The order of keys: byte by byte, a proper prefix before its extensions.
/// This is the order in which `String` compares.
pub open spec fn key_less(a: Seq<u8>, b: Seq<u8>) -> bool
    decreases a.len(),
{
    if b.len() == 0 {
        false
    } else if a.len() == 0 {
        true
    } else if a[0] != b[0] {
        a[0] < b[0]
    } else {
        key_less(a.skip(1), b.skip(1))
    }
}

/// Each key is less than the one after it, so no key occurs twice.
pub open spec fn keys_ascend<V>(members: Seq<(Seq<u8>, V)>) -> bool {
    forall|i: int, j: int|
        0 <= i && j == i + 1 && j < members.len() ==> key_less(
            (#[trigger] members[i]).0,
            (#[trigger] members[j]).0,
        )
}

/// The members after `key` has been given the value `value`: a member with
/// that key is overwritten in place, and a new key takes its place in the
/// order of keys.
pub open spec fn insert_member<V>(members: Seq<(Seq<u8>, V)>, key: Seq<u8>, value: V) -> Seq<
    (Seq<u8>, V),
>
    decreases members.len(),
{
    if members.len() == 0 {
        seq![(key, value)]
    } else if key_less(key, members.last().0) {
        insert_member(members.drop_last(), key, value).push(members.last())
    } else if members.last().0 == key {
        members.drop_last().push((key, value))
    } else {
        members.push((key, value))
    }
}

/// The value of the member with key `key`, if there is one.
pub open spec fn member_value<V>(members: Seq<(Seq<u8>, V)>, key: Seq<u8>) -> Option<V>
    decreases members.len(),
{
    if members.len() == 0 {
        None
    } else if members.last().0 == key {
        Some(members.last().1)
    } else {
        member_value(members.drop_last(), key)
    }
}

/// The members with the value under `key` replaced by `value`, and as they
/// are where no member has that key.
pub open spec fn replace_member<V>(members: Seq<(Seq<u8>, V)>, key: Seq<u8>, value: V) -> Seq<
    (Seq<u8>, V),
>
    decreases members.len(),
{
    if members.len() == 0 {
        members
    } else if members.last().0 == key {
        members.drop_last().push((key, value))
    } else {
        replace_member(members.drop_last(), key, value).push(members.last())
    }
}

/// What every value made by this library satisfies: strings and keys are
/// UTF-8, and the keys of an object ascend.
pub open spec fn json_wf(j: Json) -> bool
    decreases j,
{
    match j {
        Json::String(s) => valid_utf8(s),
        Json::Array(items) => forall|i: int|
            0 <= i < items.len() ==> json_wf(#[trigger] items[i]),
        Json::Object(members) => {
            &&& keys_ascend(members)
            &&& forall|i: int|
                0 <= i < members.len() ==> valid_utf8((#[trigger] members[i]).0) && json_wf(
                    members[i].1,
                )
        },
        _ => true,
    }
}

/// Equality of values. Two values of different variants are never equal.
/// Arrays are equal when they have the same length and equal items at each
/// position; objects when they have the same keys and an equal value under
/// each key; numbers as [`number_equal`] says.
pub open spec fn json_equal(a: Json, b: Json) -> bool
    decreases a,
{
    match (a, b) {
        (Json::Null, Json::Null) => true,
        (Json::Bool(x), Json::Bool(y)) => x == y,
        (Json::Number(x), Json::Number(y)) => number_equal(x, y),
        (Json::String(x), Json::String(y)) => x == y,
        (Json::Array(x), Json::Array(y)) => {
            &&& x.len() == y.len()
            &&& forall|i: int| 0 <= i < x.len() ==> json_equal(#[trigger] x[i], y[i])
        },
        (Json::Object(x), Json::Object(y)) => {
            &&& x.len() == y.len()
            &&& forall|i: int|
                0 <= i < x.len() ==> (#[trigger] x[i]).0 == y[i].0 && json_equal(x[i].1, y[i].1)
        },
        _ => false,
    }
}

} // verus!
