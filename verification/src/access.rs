//! Reading and replacing the children of a value.

use crate::dict::Dict;
use crate::model::{member_value, replace_member, Json};
use crate::value::{lemma_array_view, lemma_object_view, member_views, views, Value};
use std::ops::Index;
use vstd::prelude::*;
use vstd::utf8::encode_utf8;

verus! {

/// The item at position `index` of an array, if `j` is an array that long.
pub open spec fn json_item(j: Json, index: int) -> Option<Json> {
    match j {
        Json::Array(items) => if 0 <= index < items.len() {
            Some(items[index])
        } else {
            None
        },
        _ => None,
    }
}

/// The value under `key` in an object, if `j` is an object with that key.
pub open spec fn json_member(j: Json, key: Seq<u8>) -> Option<Json> {
    match j {
        Json::Object(members) => member_value(members, key),
        _ => None,
    }
}

impl Value {
    /// The item at position `index`, or nothing where the value is no array
    /// or the array is shorter.
    pub fn get_index(&self, index: usize) -> (r: Option<&Value>)
        ensures
            match r {
                Some(v) => json_item(self@, index as int) == Some(v@),
                None => json_item(self@, index as int).is_none(),
            },
    {
        match self {
            Value::Array(items) => {
                proof {
                    lemma_array_view(*items);
                }
                if index < items.len() {
                    Some(&items[index])
                } else {
                    None
                }
            },
            _ => None,
        }
    }

    /// The value under `key`, or nothing where the value is no object or
    /// the object has no such key.
    pub fn get_key(&self, key: &str) -> (r: Option<&Value>)
        ensures
            match r {
                Some(v) => json_member(self@, encode_utf8(key@)) == Some(v@),
                None => json_member(self@, encode_utf8(key@)).is_none(),
            },
    {
        match self {
            Value::Object(members) => {
                proof {
                    lemma_object_view(*members);
                    lemma_member_value_views(
                        members.members(),
                        encode_utf8(key@),
                    );
                }
                members.get(key)
            },
            _ => None,
        }
    }
}

/// Looking a key up among the models of the members gives the model of what
/// looking it up among the members gives.
pub proof fn lemma_member_value_views(members: Seq<(Seq<u8>, Value)>, key: Seq<u8>)
    ensures
        member_value(member_views(members), key) == match member_value(members, key) {
            Some(v) => Some(v@),
            None => None,
        },
    decreases members.len(),
{
    if members.len() > 0 {
        lemma_member_value_views(members.drop_last(), key);
        assert(member_views(members).drop_last() =~= member_views(members.drop_last()));
    }
}

impl Index<usize> for Value {
    type Output = Value;

    /// The item at position `index` of an array.
    fn index(&self, index: usize) -> (r: &Value)
        ensures
            json_item(self@, index as int) == Some(r@),
    {
        match self.get_index(index) {
            Some(v) => v,
            None => vstd::pervasive::unreached(),
        }
    }
}

impl vstd::std_specs::core::IndexSpecImpl<usize> for Value {
    open spec fn index_req(&self, index: &usize) -> bool {
        json_item(self@, *index as int).is_some()
    }
}

impl<'a> Index<&'a str> for Value {
    type Output = Value;

    /// The value under `key` in an object.
    fn index(&self, key: &'a str) -> (r: &Value)
        ensures
            json_member(self@, encode_utf8(key@)) == Some(r@),
    {
        match self.get_key(key) {
            Some(v) => v,
            None => vstd::pervasive::unreached(),
        }
    }
}

impl<'a> vstd::std_specs::core::IndexSpecImpl<&'a str> for Value {
    open spec fn index_req(&self, key: &&'a str) -> bool {
        json_member(self@, encode_utf8(key@)).is_some()
    }
}

impl Value {
    /// The item at position `index` of an array, to be changed in place.
    pub fn item_mut(&mut self, index: usize) -> (r: &mut Value)
        requires
            json_item(old(self)@, index as int).is_some(),
        ensures
            json_item(old(self)@, index as int) == Some(r@),
            final(self)@ == Json::Array(old(self)@->Array_0.update(index as int, final(r)@)),
    {
        match self {
            Value::Array(items) => {
                proof {
                    lemma_array_view(*items);
                }
                let ghost before = items@;
                proof {
                    assert forall|v: Vec<Value>| #[trigger]
                        Value::Array(v)@ == Json::Array(views(v@)) by {
                        lemma_array_view(v);
                    }
                    assert forall|x: Value| #[trigger]
                        views(before.update(index as int, x)) == views(before).update(
                            index as int,
                            x@,
                        ) by {
                        assert(views(before.update(index as int, x)) =~= views(before).update(
                            index as int,
                            x@,
                        ));
                    }
                }
                &mut items[index]
            },
            _ => vstd::pervasive::unreached(),
        }
    }

    /// The value under `key` in an object, to be changed in place.
    pub fn member_mut(&mut self, key: &str) -> (r: &mut Value)
        requires
            json_member(old(self)@, encode_utf8(key@)).is_some(),
        ensures
            json_member(old(self)@, encode_utf8(key@)) == Some(r@),
            final(self)@ == Json::Object(
                replace_member(old(self)@->Object_0, encode_utf8(key@), final(r)@),
            ),
    {
        match self {
            Value::Object(members) => {
                proof {
                    lemma_object_view(*members);
                    lemma_member_value_views(members.members(), encode_utf8(key@));
                }
                let ghost before = members.members();
                let ghost entries = members.entries@;
                match members.position(key) {
                    Some(i) => {
                        proof {
                            let kb = encode_utf8(key@);
                            assert forall|d: Dict<String, Value>| #[trigger]
                                Value::Object(d)@ == Json::Object(member_views(d.members())) by {
                                lemma_object_view(d);
                            }
                            assert forall|d: Dict<String, Value>, x: Value|
                                d.entries@ == #[trigger] entries.update(
                                    i as int,
                                    (entries[i as int].0, x),
                                ) implies member_views(#[trigger] d.members()) == replace_member(
                                member_views(before),
                                kb,
                                x@,
                            ) by {
                                assert(d.members() =~= before.update(i as int, (kb, x)));
                                lemma_replace_member_views(before, kb, x);
                            }
                        }
                        &mut members.entries[i].1
                    },
                    None => vstd::pervasive::unreached(),
                }
            },
            _ => vstd::pervasive::unreached(),
        }
    }
}

/// Replacing among the models of the members gives the models of what
/// replacing among the members gives.
pub proof fn lemma_replace_member_views(members: Seq<(Seq<u8>, Value)>, key: Seq<u8>, value: Value)
    ensures
        member_views(replace_member(members, key, value)) == replace_member(
            member_views(members),
            key,
            value@,
        ),
    decreases members.len(),
{
    if members.len() == 0 {
        assert(member_views(members) =~= Seq::<(Seq<u8>, Json)>::empty());
        assert(member_views(replace_member(members, key, value)) =~= replace_member(
            member_views(members),
            key,
            value@,
        ));
    } else {
        let shorter = members.drop_last();
        assert(member_views(members).drop_last() =~= member_views(shorter));
        if members.last().0 == key {
            assert(member_views(shorter.push((key, value))) =~= member_views(shorter).push(
                (key, value@),
            ));
        } else {
            lemma_replace_member_views(shorter, key, value);
            assert(member_views(replace_member(shorter, key, value).push(members.last()))
                =~= member_views(replace_member(shorter, key, value)).push(
                member_views(members).last(),
            ));
        }
    }
}

} // verus!
