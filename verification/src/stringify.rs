//! The stringifier: the canonical text of a value.

use crate::dict::Dict;
use crate::model::Json;
use crate::number::{push_int_text, push_nat_text, Number};
use crate::text::{escape_byte, escape_bytes, hex_upper, items_text, json_text, member_text,
    members_text, string_text};
use crate::text_lemmas::{lemma_escape_bytes_push, lemma_json_text_valid, lemma_value_strings_utf8};
use crate::utf8::string_from_utf8;
use crate::value::{lemma_array_view, lemma_object_view, member_views, views, Value};
use crate::writer::{is_float_writer, write_float, writer_model};
use vstd::prelude::*;
use vstd::utf8::encode_utf8;

verus! {

/// Appends `bytes` to `out`.
pub fn push_all(out: &mut Vec<u8>, bytes: &[u8])
    ensures
        final(out)@ == old(out)@ + bytes@,
{
    let mut i: usize = 0;
    while i < bytes.len()
        invariant
            i <= bytes@.len(),
            out@ =~= old(out)@ + bytes@.take(i as int),
        decreases bytes@.len() - i,
    {
        out.push(bytes[i]);
        i += 1;
    }
    proof {
        assert(bytes@.take(bytes@.len() as int) =~= bytes@);
    }
}

/// The upper-case hexadecimal digit for `d`.
fn hex_upper_digit(d: u8) -> (r: u8)
    requires
        d < 16,
    ensures
        r == hex_upper(d as int),
{
    if d < 10 {
        0x30 + d
    } else {
        0x41 + (d - 10)
    }
}

impl Number {
    /// The text of the number: an integer in decimal, a float as `writer`
    /// writes it.
    pub fn to_text<G: Fn(u64) -> String>(&self, writer: &G) -> (text: String)
        requires
            is_float_writer(writer),
        ensures
            encode_utf8(text@) == crate::text::number_text(*self, writer_model(writer)),
    {
        let mut out: Vec<u8> = Vec::new();
        match self {
            Number::Int(i) => {
                push_int_text(&mut out, *i);
            },
            Number::UInt(u) => {
                push_nat_text(&mut out, *u);
            },
            Number::Float(bits) => {
                return write_float(writer, *bits);
            },
        }
        proof {
            let wm = writer_model(writer);
            assert(out@ =~= crate::text::number_text(*self, wm));
            assert forall|bits: u64| vstd::utf8::valid_utf8(#[trigger] wm(bits)) by {
                let s = choose|s: String| call_ensures(*writer, (bits,), s);
                vstd::utf8::encode_utf8_valid_utf8(s@);
            }
            lemma_json_text_valid(Json::Number(*self), wm);
        }
        match string_from_utf8(out) {
            Some(text) => text,
            None => String::new(),
        }
    }
}

impl Value {
    /// The canonical text of the value, with floats written by `writer`:
    /// no whitespace, the members of each object in key order.
    pub fn to_text<G: Fn(u64) -> String>(&self, writer: &G) -> (text: String)
        requires
            is_float_writer(writer),
        ensures
            encode_utf8(text@) == json_text(self@, writer_model(writer)),
    {
        let mut out: Vec<u8> = Vec::new();
        Value::stringify_value(self, writer, &mut out);
        proof {
            let wm = writer_model(writer);
            lemma_value_strings_utf8(*self);
            assert forall|bits: u64| vstd::utf8::valid_utf8(#[trigger] wm(bits)) by {
                let s = choose|s: String| call_ensures(*writer, (bits,), s);
                vstd::utf8::encode_utf8_valid_utf8(s@);
            }
            lemma_json_text_valid(self@, wm);
            assert(out@ =~= json_text(self@, wm));
        }
        match string_from_utf8(out) {
            Some(text) => text,
            None => String::new(),
        }
    }

    /// Appends the text of `value` to `out`.
    fn stringify_value<G: Fn(u64) -> String>(value: &Value, writer: &G, out: &mut Vec<u8>)
        requires
            is_float_writer(writer),
        ensures
            final(out)@ == old(out)@ + json_text(value@, writer_model(writer)),
        decreases value,
    {
        match value {
            Value::Null => {
                out.push(0x6e);
                out.push(0x75);
                out.push(0x6c);
                out.push(0x6c);
                proof {
                    assert(out@ =~= old(out)@ + crate::grammar::null_text());
                }
            },
            Value::Bool(b) => {
                if *b {
                    out.push(0x74);
                    out.push(0x72);
                    out.push(0x75);
                    out.push(0x65);
                    proof {
                        assert(out@ =~= old(out)@ + crate::grammar::true_text());
                    }
                } else {
                    out.push(0x66);
                    out.push(0x61);
                    out.push(0x6c);
                    out.push(0x73);
                    out.push(0x65);
                    proof {
                        assert(out@ =~= old(out)@ + crate::grammar::false_text());
                    }
                }
            },
            Value::Number(n) => {
                match n {
                    Number::Int(i) => push_int_text(out, *i),
                    Number::UInt(u) => push_nat_text(out, *u),
                    Number::Float(bits) => {
                        let text = write_float(writer, *bits);
                        push_all(out, text.as_str().as_bytes());
                    },
                }
            },
            Value::String(s) => Value::stringify_string(s.as_str(), out),
            Value::Array(arr) => {
                Value::stringify_array(arr, writer, out);
                proof {
                    let wm = writer_model(writer);
                    lemma_array_view(*arr);
                    assert(out@ =~= old(out)@ + (seq![0x5bu8] + items_text(views(arr@), wm) + seq![
                        0x5du8,
                    ]));
                }
            },
            Value::Object(object) => {
                Value::stringify_object(object, writer, out);
                proof {
                    let wm = writer_model(writer);
                    lemma_object_view(*object);
                    assert(out@ =~= old(out)@ + (seq![0x7bu8] + members_text(
                        member_views(object.members()),
                        wm,
                    ) + seq![0x7du8]));
                }
            },
        }
    }

    /// Appends the string between quotes, with its bytes escaped.
    pub(crate) fn stringify_string(s: &str, out: &mut Vec<u8>)
        ensures
            final(out)@ == old(out)@ + string_text(encode_utf8(s@)),
    {
        let bytes = s.as_bytes();
        out.push(0x22);
        let mut i: usize = 0;
        proof {
            assert(bytes@.take(0) =~= Seq::<u8>::empty());
        }
        while i < bytes.len()
            invariant
                i <= bytes@.len(),
                out@ =~= old(out)@ + seq![0x22u8] + escape_bytes(bytes@.take(i as int)),
            decreases bytes@.len() - i,
        {
            let byte = bytes[i];
            let ghost before = out@;
            if byte == 0x22 {
                out.push(0x5c);
                out.push(0x22);
            } else if byte == 0x5c {
                out.push(0x5c);
                out.push(0x5c);
            } else if byte == 0x08 {
                out.push(0x5c);
                out.push(0x62);
            } else if byte == 0x0c {
                out.push(0x5c);
                out.push(0x66);
            } else if byte == 0x0a {
                out.push(0x5c);
                out.push(0x6e);
            } else if byte == 0x0d {
                out.push(0x5c);
                out.push(0x72);
            } else if byte == 0x09 {
                out.push(0x5c);
                out.push(0x74);
            } else if byte < 0x20 {
                out.push(0x5c);
                out.push(0x75);
                out.push(0x30);
                out.push(0x30);
                out.push(hex_upper_digit(byte / 16));
                out.push(hex_upper_digit(byte % 16));
            } else {
                out.push(byte);
            }
            proof {
                assert(out@ =~= before + escape_byte(byte));
                lemma_escape_bytes_push(bytes@.take(i as int), byte);
                assert(bytes@.take(i as int).push(byte) =~= bytes@.take(i + 1));
            }
            i += 1;
        }
        out.push(0x22);
        proof {
            assert(bytes@.take(bytes@.len() as int) =~= bytes@);
        }
    }

    /// Appends the items between brackets, with a comma between each two.
    fn stringify_array<G: Fn(u64) -> String>(arr: &Vec<Value>, writer: &G, out: &mut Vec<u8>)
        requires
            is_float_writer(writer),
        ensures
            final(out)@ == old(out)@ + seq![0x5bu8] + items_text(
                views(arr@),
                writer_model(writer),
            ) + seq![0x5du8],
        decreases arr,
    {
        let ghost wm = writer_model(writer);
        out.push(0x5b);
        let mut i: usize = 0;
        proof {
            assert(views(arr@).take(0) =~= Seq::<Json>::empty());
        }
        while i < arr.len()
            invariant
                is_float_writer(writer),
                wm == writer_model(writer),
                i <= arr@.len(),
                out@ =~= old(out)@ + seq![0x5bu8] + items_text(views(arr@).take(i as int), wm),
            decreases arr@.len() - i,
        {
            let ghost before = out@;
            if i > 0 {
                out.push(0x2c);
            }
            Value::stringify_value(&arr[i], writer, out);
            proof {
                let done = views(arr@).take(i as int);
                let next = views(arr@).take(i + 1);
                assert(next.drop_last() =~= done);
                assert(next.last() == arr@[i as int]@);
                if i > 0 {
                    assert(out@ =~= before + seq![0x2cu8] + json_text(arr@[i as int]@, wm));
                } else {
                    assert(out@ =~= before + json_text(arr@[i as int]@, wm));
                    assert(next[0] == arr@[i as int]@);
                }
            }
            i += 1;
        }
        out.push(0x5d);
        proof {
            assert(views(arr@).take(arr@.len() as int) =~= views(arr@));
        }
    }

    /// Appends the members between braces, in key order, with a comma
    /// between each two. A key is written as a string is.
    fn stringify_object<G: Fn(u64) -> String>(
        object: &Dict<String, Value>,
        writer: &G,
        out: &mut Vec<u8>,
    )
        requires
            is_float_writer(writer),
        ensures
            final(out)@ == old(out)@ + seq![0x7bu8] + members_text(
                member_views(object.members()),
                writer_model(writer),
            ) + seq![0x7du8],
        decreases object,
    {
        let ghost wm = writer_model(writer);
        let ghost ms = member_views(object.members());
        out.push(0x7b);
        let mut i: usize = 0;
        proof {
            assert(ms.take(0) =~= Seq::<(Seq<u8>, Json)>::empty());
        }
        while i < object.entries.len()
            invariant
                is_float_writer(writer),
                wm == writer_model(writer),
                ms == member_views(object.members()),
                i <= object.entries@.len(),
                out@ =~= old(out)@ + seq![0x7bu8] + members_text(ms.take(i as int), wm),
            decreases object.entries@.len() - i,
        {
            let ghost before = out@;
            if i > 0 {
                out.push(0x2c);
            }
            Value::stringify_string(object.entries[i].0.as_str(), out);
            out.push(0x3a);
            let ghost at_value = out@;
            Value::stringify_value(&object.entries[i].1, writer, out);
            proof {
                let done = ms.take(i as int);
                let next = ms.take(i + 1);
                let key = encode_utf8(object.entries@[i as int].0@);
                let value = object.entries@[i as int].1@;
                assert(next.drop_last() =~= done);
                assert(next.last() == (key, value));
                let m = member_text(key, json_text(value, wm));
                if i > 0 {
                    assert(at_value =~= before + seq![0x2cu8] + string_text(key) + seq![0x3au8]);
                    assert(out@ =~= before + seq![0x2cu8] + m);
                } else {
                    assert(at_value =~= before + string_text(key) + seq![0x3au8]);
                    assert(out@ =~= before + m);
                    assert(next[0] == (key, value));
                }
            }
            i += 1;
        }
        out.push(0x7d);
        proof {
            assert(ms.take(ms.len() as int) =~= ms);
        }
    }
}

} // verus!
