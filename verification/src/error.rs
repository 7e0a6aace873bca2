use vstd::prelude::*;

verus! {

/// The grammar rule that an input broke first.
///
/// Parsing stops at the first violation and reports exactly one kind; there
/// is no recovery and no partial result.
#[derive(Clone, Copy, Debug, PartialEq, Eq, Structural)]
pub enum ParseError {
    /// The input holds nothing but whitespace where a value must start.
    ExpectValue,
    /// A literal or a number is malformed.
    InvalidValue,
    /// Something other than whitespace follows the top-level value, or an
    /// integer part starts with `0` and goes on with further digits.
    RootNotSingular,
    /// A number does not fit a finite 64-bit float.
    NumberTooBig,
    /// A string does not start with `"`, or the input ends before it is closed.
    MissQuotationMark,
    /// A backslash is followed by a byte that names no escape.
    InvalidStringEscape,
    /// A string holds a raw byte below `0x20`, or its decoded content is not
    /// UTF-8.
    InvalidStringChar,
    /// `\u` is not followed by four hexadecimal digits.
    InvalidUnicodeHex,
    /// A surrogate code unit stands alone or is paired wrongly.
    InvalidUnicodeSurrogate,
    /// An array element is followed by neither `,` nor `]`.
    MissCommaOrSquareBracket,
    /// An object member does not start with a string.
    MissKey,
    /// An object key is not followed by `:`.
    MissColon,
    /// An object member is followed by neither `,` nor `}`.
    MissCommaOrCurlyBracket,
}

} // verus!
