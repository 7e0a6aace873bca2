//! Equality of values.

use crate::dict::{bytes_equal, Dict};
use crate::model::{json_equal, Json};
use crate::value::{lemma_array_view, lemma_object_view, member_views, views, Value};
use vstd::prelude::*;

verus! {

impl Value {
    /// Whether two values are equal: of the same variant, with equal
    /// content. Arrays are compared position by position, objects key by
    /// key, and numbers as numbers, so that a float never equals an integer.
    pub fn equals(&self, other: &Value) -> (r: bool)
        ensures
            r == json_equal(self@, other@),
        decreases self,
    {
        match (self, other) {
            (Value::Null, Value::Null) => true,
            (Value::Bool(a), Value::Bool(b)) => *a == *b,
            (Value::Number(a), Value::Number(b)) => a.equals(b),
            (Value::String(a), Value::String(b)) => bytes_equal(
                a.as_str().as_bytes(),
                b.as_str().as_bytes(),
            ),
            (Value::Array(a), Value::Array(b)) => {
                proof {
                    lemma_array_view(*a);
                    lemma_array_view(*b);
                }
                Value::items_equal(a, b)
            },
            (Value::Object(a), Value::Object(b)) => {
                proof {
                    lemma_object_view(*a);
                    lemma_object_view(*b);
                }
                Value::members_equal(a, b)
            },
            _ => false,
        }
    }

    /// Whether two arrays have the same length and equal items at each
    /// position.
    fn items_equal(a: &Vec<Value>, b: &Vec<Value>) -> (r: bool)
        ensures
            r == json_equal(Json::Array(views(a@)), Json::Array(views(b@))),
        decreases a,
    {
        if a.len() != b.len() {
            return false;
        }
        let mut i: usize = 0;
        while i < a.len()
            invariant
                i <= a@.len(),
                a@.len() == b@.len(),
                forall|j: int| 0 <= j < i ==> json_equal(#[trigger] views(a@)[j], views(b@)[j]),
            decreases a@.len() - i,
        {
            if !a[i].equals(&b[i]) {
                proof {
                    assert(!json_equal(views(a@)[i as int], views(b@)[i as int]));
                }
                return false;
            }
            i += 1;
        }
        true
    }

    /// Whether two objects have the same keys and an equal value under each.
    fn members_equal(a: &Dict<String, Value>, b: &Dict<String, Value>) -> (r: bool)
        ensures
            r == json_equal(
                Json::Object(member_views(a.members())),
                Json::Object(member_views(b.members())),
            ),
        decreases a,
    {
        let ghost x = member_views(a.members());
        let ghost y = member_views(b.members());
        if a.entries.len() != b.entries.len() {
            return false;
        }
        let mut i: usize = 0;
        while i < a.entries.len()
            invariant
                i <= a.entries@.len(),
                a.entries@.len() == b.entries@.len(),
                x == member_views(a.members()),
                y == member_views(b.members()),
                forall|j: int|
                    0 <= j < i ==> (#[trigger] x[j]).0 == y[j].0 && json_equal(x[j].1, y[j].1),
            decreases a.entries@.len() - i,
        {
            if !bytes_equal(a.entries[i].0.as_str().as_bytes(), b.entries[i].0.as_str().as_bytes())
                || !a.entries[i].1.equals(&b.entries[i].1) {
                proof {
                    assert(!(x[i as int].0 == y[i as int].0 && json_equal(
                        x[i as int].1,
                        y[i as int].1,
                    )));
                }
                return false;
            }
            i += 1;
        }
        true
    }
}

impl Value {
    /// A copy of the value, children and all.
    pub fn duplicate(&self) -> (r: Value)
        ensures
            r@ == self@,
        decreases self,
    {
        match self {
            Value::Null => Value::Null,
            Value::Bool(b) => Value::Bool(*b),
            Value::Number(n) => Value::Number(*n),
            Value::String(s) => Value::String(s.clone()),
            Value::Array(items) => {
                let copies = Value::duplicate_items(items);
                proof {
                    lemma_array_view(*items);
                    lemma_array_view(copies);
                }
                Value::Array(copies)
            },
            Value::Object(members) => {
                let copies = Value::duplicate_members(members);
                proof {
                    lemma_object_view(*members);
                    lemma_object_view(copies);
                }
                Value::Object(copies)
            },
        }
    }

    /// Copies of the items, in order.
    fn duplicate_items(items: &Vec<Value>) -> (r: Vec<Value>)
        ensures
            views(r@) == views(items@),
        decreases items,
    {
        let mut copies: Vec<Value> = Vec::new();
        let mut i: usize = 0;
        while i < items.len()
            invariant
                i <= items@.len(),
                copies@.len() == i,
                forall|j: int| 0 <= j < i ==> (#[trigger] copies@[j])@ == items@[j]@,
            decreases items@.len() - i,
        {
            copies.push(items[i].duplicate());
            i += 1;
        }
        proof {
            assert(views(copies@) =~= views(items@));
        }
        copies
    }

    /// Copies of the members, in order.
    fn duplicate_members(members: &Dict<String, Value>) -> (r: Dict<String, Value>)
        ensures
            member_views(r.members()) == member_views(members.members()),
        decreases members,
    {
        let mut copies: Vec<(String, Value)> = Vec::new();
        let mut i: usize = 0;
        while i < members.entries.len()
            invariant
                i <= members.entries@.len(),
                copies@.len() == i,
                forall|j: int|
                    0 <= j < i ==> (#[trigger] copies@[j]).0@ == members.entries@[j].0@
                        && copies@[j].1@ == members.entries@[j].1@,
            decreases members.entries@.len() - i,
        {
            copies.push((members.entries[i].0.clone(), members.entries[i].1.duplicate()));
            i += 1;
        }
        let r = Dict { entries: copies };
        proof {
            assert(member_views(r.members()) =~= member_views(members.members()));
        }
        r
    }
}

impl Clone for Value {
    fn clone(&self) -> (r: Value) {
        self.duplicate()
    }
}

} // verus!
