//! The float reader: the one step of parsing that the caller supplies.
//!
//! A number with a fraction or an exponent, or an integer too large for 64
//! bits, is handed to the reader as its lexeme. The reader answers with the
//! bit pattern of the nearest 64-bit float, or with nothing where it cannot
//! read the lexeme.

use vstd::prelude::*;

verus! {

/// What the reader answers for `text`.
pub open spec fn reading_of<F: Fn(&[u8]) -> Option<u64>>(reader: &F, text: Seq<u8>) -> Option<u64> {
    (choose|p: (&[u8], Option<u64>)| p.0@ == text && call_ensures(*reader, (p.0,), p.1)).1
}

/// The reader as a function from lexemes to answers.
pub open spec fn reader_model<F: Fn(&[u8]) -> Option<u64>>(reader: &F) -> spec_fn(Seq<u8>) -> Option<
    u64,
> {
    |text: Seq<u8>| reading_of(reader, text)
}

/// The reader can be called on every text, and its answer depends on the
/// text alone.
pub open spec fn is_float_reader<F: Fn(&[u8]) -> Option<u64>>(reader: &F) -> bool {
    &&& forall|s: &[u8]| call_requires(*reader, (s,))
    &&& forall|s: &[u8], r: Option<u64>|
        call_ensures(*reader, (s,), r) ==> r == reading_of(reader, s@)
}

/// A reader that can be called on every text and whose answers are those of
/// a function of the text is a float reader.
pub proof fn lemma_is_float_reader<F: Fn(&[u8]) -> Option<u64>>(
    reader: &F,
    answers: spec_fn(Seq<u8>) -> Option<u64>,
)
    requires
        forall|s: &[u8]| call_requires(*reader, (s,)),
        forall|s: &[u8], r: Option<u64>| call_ensures(*reader, (s,), r) ==> r == answers(s@),
    ensures
        is_float_reader(reader),
{
    assert forall|s: &[u8], r: Option<u64>| call_ensures(*reader, (s,), r) implies r == reading_of(
        reader,
        s@,
    ) by {
        let p = (s, r);
        assert(p.0@ == s@ && call_ensures(*reader, (p.0,), p.1));
    }
}

/// Calls the reader on `text`.
pub fn read_float<F: Fn(&[u8]) -> Option<u64>>(reader: &F, text: &[u8]) -> (r: Option<u64>)
    requires
        is_float_reader(reader),
    ensures
        r == reader_model(reader)(text@),
{
    (*reader)(text)
}

} // verus!
