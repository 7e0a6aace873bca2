//! The text side of an adapter to a serialization framework: the output
//! that a serializer builds piece by piece, and the errors it reports.

use crate::number::{int_text, nat_text, push_int_text, push_nat_text};
use crate::stringify::push_all;
use crate::text::string_text;
use crate::text_lemmas::{lemma_ascii_valid, lemma_nat_text_digits, lemma_string_text_valid};
use crate::value::Value;
use crate::utf8::string_from_utf8;
use vstd::prelude::*;
use vstd::string::StringExecFns;
use vstd::utf8::{encode_utf8, encode_utf8_valid_utf8, valid_utf8, valid_utf8_concat};

verus! {

/// An error of the serialization adapter.
#[derive(Debug)]
pub enum JsonError {
    /// A message made by a data structure that could not be written or read.
    Message(String),
    Eof,
    Syntax,
    ExpectedBoolean,
    ExpectedInteger,
    ExpectedString,
    ExpectedNull,
    ExpectedArray,
    ExpectedArrayComma,
    ExpectedArrayEnd,
    ExpectedMap,
    ExpectedMapColon,
    ExpectedMapComma,
    ExpectedMapEnd,
    ExpectedEnum,
    TrailingCharacters,
}

/// The words that describe an error.
pub open spec fn error_text(e: JsonError) -> Seq<char> {
    match e {
        JsonError::Message(msg) => msg@,
        JsonError::Eof => "unexpected end of input"@,
        JsonError::Syntax => "syntax error"@,
        JsonError::ExpectedBoolean => "expected boolean"@,
        JsonError::ExpectedInteger => "expectedInteger"@,
        JsonError::ExpectedString => "expected string"@,
        JsonError::ExpectedNull => "expected null"@,
        JsonError::ExpectedArray => "expected array"@,
        JsonError::ExpectedArrayComma => "expected array comma"@,
        JsonError::ExpectedArrayEnd => "expected array end"@,
        JsonError::ExpectedMap => "expected map"@,
        JsonError::ExpectedMapColon => "expected map colon"@,
        JsonError::ExpectedMapComma => "expected map comma"@,
        JsonError::ExpectedMapEnd => "expected map end"@,
        JsonError::ExpectedEnum => "expected enum"@,
        JsonError::TrailingCharacters => "trailing characters"@,
    }
}

impl JsonError {
    /// The error that carries `msg`.
    pub fn custom(msg: String) -> (e: JsonError)
        ensures
            e == JsonError::Message(msg),
    {
        JsonError::Message(msg)
    }

    /// The words that describe the error.
    pub fn message(&self) -> (text: String)
        ensures
            text@ == error_text(*self),
    {
        match self {
            JsonError::Message(msg) => msg.clone(),
            JsonError::Eof => String::from_str("unexpected end of input"),
            JsonError::Syntax => String::from_str("syntax error"),
            JsonError::ExpectedBoolean => String::from_str("expected boolean"),
            JsonError::ExpectedInteger => String::from_str("expectedInteger"),
            JsonError::ExpectedString => String::from_str("expected string"),
            JsonError::ExpectedNull => String::from_str("expected null"),
            JsonError::ExpectedArray => String::from_str("expected array"),
            JsonError::ExpectedArrayComma => String::from_str("expected array comma"),
            JsonError::ExpectedArrayEnd => String::from_str("expected array end"),
            JsonError::ExpectedMap => String::from_str("expected map"),
            JsonError::ExpectedMapColon => String::from_str("expected map colon"),
            JsonError::ExpectedMapComma => String::from_str("expected map comma"),
            JsonError::ExpectedMapEnd => String::from_str("expected map end"),
            JsonError::ExpectedEnum => String::from_str("expected enum"),
            JsonError::TrailingCharacters => String::from_str("trailing characters"),
        }
    }
}

/// The output of a serializer: text that grows at its end.
///
/// A serializer writes a scalar as one piece and a composite as an opening
/// piece, its parts, and a closing piece. Before each part but the first it
/// writes a comma; whether a part is the first is read off the output, which
/// then ends with the opening bracket or brace.
pub struct JsonSerializer {
    output: Vec<u8>,
}

impl View for JsonSerializer {
    type V = Seq<u8>;

    /// The UTF-8 bytes written so far.
    closed spec fn view(&self) -> Seq<u8> {
        self.output@
    }
}

/// A comma, unless the output ends with `open`.
pub open spec fn separator_after(output: Seq<u8>, open: u8) -> Seq<u8> {
    if output.len() > 0 && output.last() == open {
        Seq::empty()
    } else {
        seq![0x2cu8]
    }
}

/// The text of an integer is ASCII.
proof fn lemma_int_text_valid(n: int)
    ensures
        valid_utf8(int_text(n)),
        valid_utf8(nat_text(n as nat)),
{
    lemma_nat_text_digits(n as nat);
    lemma_ascii_valid(nat_text(n as nat));
    if n < 0 {
        lemma_nat_text_digits((-n) as nat);
        assert(crate::text_lemmas::is_ascii_text(int_text(n)));
    }
    lemma_ascii_valid(int_text(n));
}

impl JsonSerializer {
    /// What has been written is UTF-8. Every serializer made by [`new`]
    /// and changed by the methods below is well-formed.
    ///
    /// [`new`]: JsonSerializer::new
    pub closed spec fn wf(&self) -> bool {
        valid_utf8(self.output@)
    }

    /// A serializer that has written nothing.
    pub fn new() -> (s: Self)
        ensures
            s@ == Seq::<u8>::empty(),
            s.wf(),
    {
        JsonSerializer { output: Vec::new() }
    }

    /// Writes `text` as it is.
    pub fn write_raw(&mut self, text: &str)
        requires
            old(self).wf(),
        ensures
            final(self).wf(),
            final(self)@ == old(self)@ + encode_utf8(text@),
    {
        proof {
            encode_utf8_valid_utf8(text@);
            valid_utf8_concat(self.output@, encode_utf8(text@));
        }
        push_all(&mut self.output, text.as_bytes());
    }

    /// Writes one ASCII byte.
    fn write_byte(&mut self, b: u8)
        requires
            old(self).wf(),
            b < 0x80,
        ensures
            final(self).wf(),
            final(self)@ == old(self)@ + seq![b],
    {
        proof {
            lemma_ascii_valid(seq![b]);
            valid_utf8_concat(self.output@, seq![b]);
            assert(self.output@.push(b) =~= self.output@ + seq![b]);
        }
        self.output.push(b);
    }

    /// Writes `true` or `false`.
    pub fn serialize_bool(&mut self, v: bool)
        requires
            old(self).wf(),
        ensures
            final(self).wf(),
            final(self)@ == old(self)@ + if v {
                crate::grammar::true_text()
            } else {
                crate::grammar::false_text()
            },
    {
        if v {
            self.write_byte(0x74);
            self.write_byte(0x72);
            self.write_byte(0x75);
            self.write_byte(0x65);
            proof {
                assert(self@ =~= old(self)@ + crate::grammar::true_text());
            }
        } else {
            self.write_byte(0x66);
            self.write_byte(0x61);
            self.write_byte(0x6c);
            self.write_byte(0x73);
            self.write_byte(0x65);
            proof {
                assert(self@ =~= old(self)@ + crate::grammar::false_text());
            }
        }
    }

    /// Writes a signed integer in decimal.
    pub fn serialize_i64(&mut self, v: i64)
        requires
            old(self).wf(),
        ensures
            final(self).wf(),
            final(self)@ == old(self)@ + int_text(v as int),
    {
        proof {
            lemma_int_text_valid(v as int);
            valid_utf8_concat(self.output@, int_text(v as int));
        }
        push_int_text(&mut self.output, v);
    }

    /// Writes an unsigned integer in decimal.
    pub fn serialize_u64(&mut self, v: u64)
        requires
            old(self).wf(),
        ensures
            final(self).wf(),
            final(self)@ == old(self)@ + nat_text(v as nat),
    {
        proof {
            lemma_int_text_valid(v as int);
            valid_utf8_concat(self.output@, nat_text(v as nat));
        }
        push_nat_text(&mut self.output, v);
    }

    /// Writes `v` as a string value is written: between quotes, with the
    /// bytes that need it escaped.
    pub fn serialize_str(&mut self, v: &str)
        requires
            old(self).wf(),
        ensures
            final(self).wf(),
            final(self)@ == old(self)@ + string_text(encode_utf8(v@)),
    {
        proof {
            encode_utf8_valid_utf8(v@);
            lemma_string_text_valid(encode_utf8(v@));
            valid_utf8_concat(self.output@, string_text(encode_utf8(v@)));
        }
        Value::stringify_string(v, &mut self.output);
    }

    /// Writes `null`.
    pub fn serialize_unit(&mut self)
        requires
            old(self).wf(),
        ensures
            final(self).wf(),
            final(self)@ == old(self)@ + crate::grammar::null_text(),
    {
        self.write_byte(0x6e);
        self.write_byte(0x75);
        self.write_byte(0x6c);
        self.write_byte(0x6c);
        proof {
            assert(self@ =~= old(self)@ + crate::grammar::null_text());
        }
    }

    /// Opens a sequence: writes `[`.
    pub fn serialize_seq(&mut self)
        requires
            old(self).wf(),
        ensures
            final(self).wf(),
            final(self)@ == old(self)@ + seq![0x5bu8],
    {
        self.write_byte(0x5b);
    }

    /// Opens a map: writes `{`.
    pub fn serialize_map(&mut self)
        requires
            old(self).wf(),
        ensures
            final(self).wf(),
            final(self)@ == old(self)@ + seq![0x7bu8],
    {
        self.write_byte(0x7b);
    }

    /// Opens a variant that wraps a value: writes `{`, the name of the
    /// variant between quotes, and `:`.
    pub fn serialize_variant(&mut self, variant: &str)
        requires
            old(self).wf(),
        ensures
            final(self).wf(),
            final(self)@ == old(self)@ + seq![0x7bu8] + string_text(encode_utf8(variant@)) + seq![
                0x3au8,
            ],
    {
        self.write_byte(0x7b);
        self.serialize_str(variant);
        self.write_byte(0x3a);
    }

    /// Before an element of a sequence: writes a comma unless the element
    /// is the first, that is unless the output ends with `[`.
    pub fn serialize_element(&mut self)
        requires
            old(self).wf(),
        ensures
            final(self).wf(),
            final(self)@ == old(self)@ + separator_after(old(self)@, 0x5b),
    {
        let n = self.output.len();
        if n > 0 && self.output[n - 1] == 0x5b {
            proof {
                assert(self@ + Seq::<u8>::empty() =~= self@);
            }
        } else {
            self.write_byte(0x2c);
        }
    }

    /// Before a key of a map: writes a comma unless the key is the first,
    /// that is unless the output ends with `{`.
    pub fn serialize_key(&mut self)
        requires
            old(self).wf(),
        ensures
            final(self).wf(),
            final(self)@ == old(self)@ + separator_after(old(self)@, 0x7b),
    {
        let n = self.output.len();
        if n > 0 && self.output[n - 1] == 0x7b {
            proof {
                assert(self@ + Seq::<u8>::empty() =~= self@);
            }
        } else {
            self.write_byte(0x2c);
        }
    }

    /// Between a key and its value: writes `:`.
    pub fn serialize_value(&mut self)
        requires
            old(self).wf(),
        ensures
            final(self).wf(),
            final(self)@ == old(self)@ + seq![0x3au8],
    {
        self.write_byte(0x3a);
    }

    /// Closes a sequence: writes `]`.
    pub fn end_seq(&mut self)
        requires
            old(self).wf(),
        ensures
            final(self).wf(),
            final(self)@ == old(self)@ + seq![0x5du8],
    {
        self.write_byte(0x5d);
    }

    /// Closes a map or a variant: writes `}`.
    pub fn end_map(&mut self)
        requires
            old(self).wf(),
        ensures
            final(self).wf(),
            final(self)@ == old(self)@ + seq![0x7du8],
    {
        self.write_byte(0x7d);
    }

    /// The text written.
    pub fn into_output(self) -> (text: String)
        requires
            self.wf(),
        ensures
            encode_utf8(text@) == self@,
    {
        match string_from_utf8(self.output) {
            Some(text) => text,
            None => String::new(),
        }
    }
}

} // verus!
