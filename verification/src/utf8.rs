//! UTF-8: making a `String` of bytes, and encoding one scalar.

use crate::error::ParseError;
use crate::stack::Stack;
use vstd::prelude::*;
use vstd::utf8::{encode_scalar, encode_utf8, is_scalar, valid_utf8};

verus! {

/// `String::from_utf8`, with its error dropped: the string whose UTF-8
/// encoding is `bytes`, if `bytes` is the UTF-8 encoding of a string, and
/// nothing otherwise.
#[verifier::external_body]
pub(crate) fn string_from_utf8(bytes: Vec<u8>) -> (r: Option<String>)
    ensures
        r.is_some() == valid_utf8(bytes@),
        r matches Some(s) ==> encode_utf8(s@) == bytes@,
{
    String::from_utf8(bytes).ok()
}

/// Appends the UTF-8 encoding of the scalar `c` to the buffer. A value that
/// is no scalar, that is a surrogate or one beyond `0x10ffff`, is refused and
/// the buffer left as it was.
pub fn encode_utf8_into(stack: &mut Stack<u8>, c: u32) -> (r: Result<(), ParseError>)
    ensures
        is_scalar(c) ==> r.is_ok() && final(stack)@ == old(stack)@ + encode_scalar(c),
        !is_scalar(c) ==> r == Err::<(), ParseError>(ParseError::InvalidUnicodeSurrogate),
        !is_scalar(c) ==> final(stack)@ == old(stack)@,
{
    if c <= 0x7f {
        stack.push_byte((c & 0x7F) as u8);
        proof {
            assert(stack@ =~= old(stack)@ + encode_scalar(c));
        }
        Ok(())
    } else if c <= 0x7ff {
        stack.push_byte(0xC0 | ((c >> 6) & 0x1F) as u8);
        stack.push_byte(0x80 | (c & 0x3F) as u8);
        proof {
            assert(stack@ =~= old(stack)@ + encode_scalar(c));
        }
        Ok(())
    } else if c <= 0xffff {
        if 0xd800 <= c && c <= 0xdfff {
            return Err(ParseError::InvalidUnicodeSurrogate);
        }
        stack.push_byte(0xE0 | ((c >> 12) & 0x0F) as u8);
        stack.push_byte(0x80 | ((c >> 6) & 0x3F) as u8);
        stack.push_byte(0x80 | (c & 0x3F) as u8);
        proof {
            assert(stack@ =~= old(stack)@ + encode_scalar(c));
        }
        Ok(())
    } else if c <= 0x10ffff {
        stack.push_byte(0xF0 | ((c >> 18) & 0x7) as u8);
        stack.push_byte(0x80 | ((c >> 12) & 0x3F) as u8);
        stack.push_byte(0x80 | ((c >> 6) & 0x3F) as u8);
        stack.push_byte(0x80 | (c & 0x3F) as u8);
        proof {
            assert(stack@ =~= old(stack)@ + encode_scalar(c));
        }
        Ok(())
    } else {
        Err(ParseError::InvalidUnicodeSurrogate)
    }
}

} // verus!
