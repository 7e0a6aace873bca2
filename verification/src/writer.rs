//! The float writer: the one step of stringifying that the caller supplies.
//!
//! A float is handed to the writer as its bit pattern. The writer answers
//! with the decimal text of that float.

use vstd::prelude::*;
use vstd::utf8::encode_utf8;

verus! {

/// The UTF-8 bytes of what the writer answers for `bits`.
pub open spec fn writing_of<G: Fn(u64) -> String>(writer: &G, bits: u64) -> Seq<u8> {
    encode_utf8((choose|s: String| call_ensures(*writer, (bits,), s))@)
}

/// The writer as a function from bit patterns to text.
pub open spec fn writer_model<G: Fn(u64) -> String>(writer: &G) -> spec_fn(u64) -> Seq<u8> {
    |bits: u64| writing_of(writer, bits)
}

/// The writer can be called on every bit pattern, and its answer depends on
/// the pattern alone.
pub open spec fn is_float_writer<G: Fn(u64) -> String>(writer: &G) -> bool {
    &&& forall|bits: u64| call_requires(*writer, (bits,))
    &&& forall|bits: u64, s: String|
        call_ensures(*writer, (bits,), s) ==> encode_utf8(s@) == writing_of(writer, bits)
}

/// A writer that can be called on every bit pattern and whose answers are
/// those of a function of the pattern is a float writer.
pub proof fn lemma_is_float_writer<G: Fn(u64) -> String>(
    writer: &G,
    answers: spec_fn(u64) -> Seq<char>,
)
    requires
        forall|bits: u64| call_requires(*writer, (bits,)),
        forall|bits: u64, s: String| call_ensures(*writer, (bits,), s) ==> s@ == answers(bits),
    ensures
        is_float_writer(writer),
{
}

/// Calls the writer on `bits`.
pub fn write_float<G: Fn(u64) -> String>(writer: &G, bits: u64) -> (s: String)
    requires
        is_float_writer(writer),
    ensures
        encode_utf8(s@) == writer_model(writer)(bits),
{
    (*writer)(bits)
}

} // verus!
