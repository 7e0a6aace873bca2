use crate::dict::Dict;
use crate::error::ParseError;
use crate::model::Json;
use crate::number::Number;
use vstd::prelude::*;
use vstd::utf8::encode_utf8;

verus! {

/// A JSON value. An array or an object owns its children.
#[derive(Debug)]
pub enum Value {
    Null,
    Bool(bool),
    Number(Number),
    String(String),
    Array(Vec<Value>),
    Object(Dict<String, Value>),
}

impl View for Value {
    type V = Json;

    /// The model of the value.
    open(crate) spec fn view(&self) -> Json {
        value_model(*self)
    }
}

/// The model of a value: each string as its UTF-8 bytes, each array as the
/// models of its items, each object as the models of its members.
pub open(crate) spec fn value_model(v: Value) -> Json
    decreases v,
{
    match v {
        Value::Null => Json::Null,
        Value::Bool(b) => Json::Bool(b),
        Value::Number(n) => Json::Number(n),
        Value::String(s) => Json::String(encode_utf8(s@)),
        Value::Array(items) => Json::Array(items_model(items@)),
        Value::Object(members) => Json::Object(entries_model(members.entries@)),
    }
}

/// The models of the items of an array, in order.
pub open(crate) spec fn items_model(items: Seq<Value>) -> Seq<Json>
    decreases items,
{
    if items.len() == 0 {
        Seq::empty()
    } else {
        items_model(items.drop_last()).push(value_model(items.last()))
    }
}

/// The models of the entries of an object, in order.
pub open(crate) spec fn entries_model(entries: Seq<(String, Value)>) -> Seq<(Seq<u8>, Json)>
    decreases entries,
{
    if entries.len() == 0 {
        Seq::empty()
    } else {
        entries_model(entries.drop_last()).push(
            (encode_utf8(entries.last().0@), value_model(entries.last().1)),
        )
    }
}

/// The model of the items is made item by item.
pub proof fn lemma_items_model(items: Seq<Value>)
    ensures
        items_model(items) == views(items),
    decreases items.len(),
{
    if items.len() > 0 {
        lemma_items_model(items.drop_last());
        assert(views(items.drop_last()).push(items.last()@) =~= views(items));
    } else {
        assert(views(items) =~= Seq::<Json>::empty());
    }
}

/// The model of the entries is made entry by entry.
pub proof fn lemma_entries_model(entries: Seq<(String, Value)>)
    ensures
        entries_model(entries) == Seq::new(
            entries.len(),
            |i: int| (encode_utf8(entries[i].0@), entries[i].1@),
        ),
    decreases entries.len(),
{
    let expected = Seq::new(entries.len(), |i: int| (encode_utf8(entries[i].0@), entries[i].1@));
    if entries.len() > 0 {
        let shorter = entries.drop_last();
        lemma_entries_model(shorter);
        assert(entries_model(shorter).push(
            (encode_utf8(entries.last().0@), entries.last().1@),
        ) =~= expected);
    } else {
        assert(expected =~= Seq::<(Seq<u8>, Json)>::empty());
    }
}

/// The models of the items of an array.
pub open spec fn views(items: Seq<Value>) -> Seq<Json> {
    Seq::new(items.len(), |i: int| items[i]@)
}

/// The models of the members of an object.
pub open spec fn member_views(members: Seq<(Seq<u8>, Value)>) -> Seq<(Seq<u8>, Json)> {
    members.map_values(|m: (Seq<u8>, Value)| (m.0, m.1@))
}

/// The model of what a parse returned.
pub open spec fn result_model(r: Result<Value, ParseError>) -> Result<Json, ParseError> {
    match r {
        Ok(v) => Ok(v@),
        Err(e) => Err(e),
    }
}

/// The model of a value without children: a null, a boolean and a number
/// as they are, a string as its UTF-8 bytes.
pub proof fn lemma_scalar_view(v: Value)
    ensures
        v is Null ==> v@ == Json::Null,
        v matches Value::Bool(b) ==> v@ == Json::Bool(b),
        v matches Value::Number(n) ==> v@ == Json::Number(n),
        v matches Value::String(s) ==> v@ == Json::String(encode_utf8(s@)),
        v is Array <==> v@ is Array,
        v is Object <==> v@ is Object,
{
}

/// The model of an array is the array of the models of its items.
pub proof fn lemma_array_view(items: Vec<Value>)
    ensures
        Value::Array(items)@ == Json::Array(views(items@)),
{
    lemma_items_model(items@);
}

/// The model of an object is the object of the models of its members.
pub proof fn lemma_object_view(members: Dict<String, Value>)
    ensures
        Value::Object(members)@ == Json::Object(member_views(members.members())),
{
    lemma_entries_model(members.entries@);
    assert(entries_model(members.entries@) =~= member_views(members.members()));
}

impl PartialEq for Value {
    fn eq(&self, other: &Value) -> (r: bool) {
        self.equals(other)
    }
}

impl Eq for Value {

}

impl vstd::std_specs::cmp::PartialEqSpecImpl for Value {
    open spec fn obeys_eq_spec() -> bool {
        true
    }

    open spec fn eq_spec(&self, other: &Value) -> bool {
        crate::model::json_equal(self@, other@)
    }
}

} // verus!
