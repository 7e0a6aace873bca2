use vstd::prelude::*;
use vstd::slice::slice_subrange;

verus! {

/// A cursor over the bytes that have not been consumed yet.
///
/// The cursor borrows its input and never copies it: consuming a byte moves
/// the start of the borrowed slice forward.
pub struct Context<'a> {
    pub bytes: &'a [u8],
}

impl<'a> View for Context<'a> {
    type V = Seq<u8>;

    /// The bytes still ahead of the cursor.
    open spec fn view(&self) -> Seq<u8> {
        self.bytes@
    }
}

impl<'a> Context<'a> {
    /// A cursor at the start of `json`.
    pub fn new(json: &'a [u8]) -> (c: Self)
        ensures
            c@ == json@,
    {
        Self { bytes: json }
    }

    /// Yields the next byte and moves past it, or yields nothing at the end
    /// of the input and stays there.
    pub fn step(&mut self) -> (b: Option<u8>)
        ensures
            old(self)@.len() == 0 ==> b.is_none() && final(self)@ == old(self)@,
            old(self)@.len() > 0 ==> b == Some(old(self)@[0]) && final(self)@ == old(self)@.skip(1),
    {
        let bytes = self.bytes;
        if bytes.len() == 0 {
            None
        } else {
            let b = bytes[0];
            self.bytes = slice_subrange(bytes, 1, bytes.len());
            Some(b)
        }
    }
}

} // verus!
