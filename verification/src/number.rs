use vstd::prelude::*;

verus! {

/// A JSON number: an exact integer or a 64-bit float.
///
/// A float is held as its IEEE 754 binary64 bit pattern, so that a number is
/// made of integers only. Turning decimal text into such a pattern and back
/// is left to the reader and the writer that the caller hands to the parser
/// and to the stringifier.
#[derive(Clone, Copy, Debug)]
pub enum Number {
    /// A signed 64-bit integer.
    Int(i64),
    /// An unsigned 64-bit integer.
    UInt(u64),
    /// The bit pattern of a 64-bit float.
    Float(u64),
}

/// The bit pattern without its sign bit.
pub open spec fn float_magnitude(bits: u64) -> int {
    bits as int % 0x8000_0000_0000_0000
}

/// The pattern stands for a number, not for an infinity or a NaN: its
/// exponent field is not all ones.
pub open spec fn float_is_finite(bits: u64) -> bool {
    float_magnitude(bits) < 0x7ff0_0000_0000_0000
}

/// The pattern stands for a NaN: its exponent field is all ones and its
/// fraction field is not zero.
pub open spec fn float_is_nan(bits: u64) -> bool {
    float_magnitude(bits) > 0x7ff0_0000_0000_0000
}

/// Equality of two floats given by their bit patterns: a NaN equals nothing,
/// the two zeros equal each other, and otherwise the patterns must agree.
pub open spec fn float_equal(a: u64, b: u64) -> bool {
    &&& !float_is_nan(a)
    &&& !float_is_nan(b)
    &&& (a == b || (float_magnitude(a) == 0 && float_magnitude(b) == 0))
}

/// Equality of numbers: by value within a variant, never across variants.
pub open spec fn number_equal(a: Number, b: Number) -> bool {
    match (a, b) {
        (Number::Int(x), Number::Int(y)) => x == y,
        (Number::UInt(x), Number::UInt(y)) => x == y,
        (Number::Float(x), Number::Float(y)) => float_equal(x, y),
        _ => false,
    }
}

/// Numbers of different variants are never equal, whatever they hold: an
/// integer is not equal to the float of the same magnitude.
pub proof fn lemma_variants_never_equal(a: Number, b: Number)
    requires
        (a is Int) != (b is Int) || (a is UInt) != (b is UInt) || (a is Float) != (b is Float),
    ensures
        !number_equal(a, b),
        !number_equal(b, a),
{
}

/// The number that a float reader's answer stands for: a finite float, or
/// the error for everything else.
pub open spec fn number_of_reading(reading: Option<u64>) -> Result<Number, crate::error::ParseError> {
    match reading {
        Some(bits) => if float_is_finite(bits) {
            Ok(Number::Float(bits))
        } else {
            Err(crate::error::ParseError::NumberTooBig)
        },
        None => Err(crate::error::ParseError::NumberTooBig),
    }
}

/// The ASCII digit for `d`.
pub open spec fn digit_byte(d: int) -> u8 {
    (0x30 + d) as u8
}

/// The decimal text of a natural number, without leading zeros.
pub open spec fn nat_text(n: nat) -> Seq<u8>
    decreases n,
{
    if n < 10 {
        seq![digit_byte(n as int)]
    } else {
        nat_text(n / 10).push(digit_byte((n % 10) as int))
    }
}

/// The decimal text of an integer: a minus sign for a negative one, then
/// the text of its magnitude.
pub open spec fn int_text(n: int) -> Seq<u8> {
    if n < 0 {
        seq![0x2du8] + nat_text((-n) as nat)
    } else {
        nat_text(n as nat)
    }
}

/// The byte is an ASCII digit.
pub open spec fn is_digit(b: u8) -> bool {
    0x30 <= b <= 0x39
}

/// The value of a run of decimal digits.
pub open spec fn digits_value(s: Seq<u8>) -> nat
    decreases s.len(),
{
    if s.len() == 0 {
        0
    } else {
        (digits_value(s.drop_last()) * 10 + (s.last() - 0x30)) as nat
    }
}

/// The integer that the lexeme `-`? digits denotes.
pub open spec fn lexeme_int(lexeme: Seq<u8>) -> int {
    if lexeme.len() > 0 && lexeme[0] == 0x2d {
        -(digits_value(lexeme.skip(1)) as int)
    } else {
        digits_value(lexeme) as int
    }
}

/// The decimal text of `n`, appended to `out`.
pub fn push_nat_text(out: &mut Vec<u8>, n: u64)
    ensures
        final(out)@ == old(out)@ + nat_text(n as nat),
{
    let mut digits: Vec<u8> = Vec::new();
    let mut m: u64 = n;
    while m >= 10
        invariant
            nat_text(n as nat) =~= nat_text(m as nat) + Seq::new(
                digits@.len(),
                |i: int| digits@[digits@.len() - 1 - i],
            ),
        decreases m,
    {
        let ghost before = digits@;
        digits.push(0x30 + (m % 10) as u8);
        proof {
            let r = Seq::new(before.len(), |i: int| before[before.len() - 1 - i]);
            let r2 = Seq::new(digits@.len(), |i: int| digits@[digits@.len() - 1 - i]);
            assert(r2 =~= seq![digit_byte((m % 10) as int)] + r);
            assert(nat_text(m as nat) == nat_text((m / 10) as nat).push(
                digit_byte((m % 10) as int),
            ));
        }
        m = m / 10;
    }
    let ghost start = out@;
    out.push(0x30 + m as u8);
    let mut k: usize = digits.len();
    while k > 0
        invariant
            k <= digits@.len(),
            out@ =~= start + nat_text(m as nat) + Seq::new(
                (digits@.len() - k) as nat,
                |i: int| digits@[digits@.len() - 1 - i],
            ),
        decreases k,
    {
        k -= 1;
        out.push(digits[k]);
    }
}

/// The decimal text of `n`, appended to `out`.
pub fn push_int_text(out: &mut Vec<u8>, n: i64)
    ensures
        final(out)@ == old(out)@ + int_text(n as int),
{
    if n < 0 {
        out.push(0x2d);
        let magnitude: u64 = (-(n + 1)) as u64 + 1;
        push_nat_text(out, magnitude);
        proof {
            assert(out@ =~= old(out)@ + int_text(n as int));
        }
    } else {
        push_nat_text(out, n as u64);
    }
}

/// The integer that the lexeme `-`? digits denotes, if it fits 64 bits.
pub fn int_of_lexeme(lexeme: &[u8]) -> (r: Option<i64>)
    requires
        lexeme@.len() > 0,
        lexeme@[0] == 0x2d ==> lexeme@.len() > 1,
        forall|j: int|
            (if lexeme@[0] == 0x2d {
                1int
            } else {
                0int
            }) <= j < lexeme@.len() ==> is_digit(#[trigger] lexeme@[j]),
    ensures
        r == if i64::MIN <= lexeme_int(lexeme@) <= i64::MAX {
            Some(lexeme_int(lexeme@) as i64)
        } else {
            None
        },
{
    let negative = lexeme[0] == 0x2d;
    let start: usize = if negative {
        1
    } else {
        0
    };
    let limit: u64 = if negative {
        0x8000_0000_0000_0000
    } else {
        0x7fff_ffff_ffff_ffff
    };
    let ghost digits = lexeme@.skip(start as int);
    let mut acc: u64 = 0;
    let mut i: usize = start;
    proof {
        assert(digits.take(0) =~= Seq::<u8>::empty());
        assert(lexeme@.skip(0) =~= lexeme@);
    }
    while i < lexeme.len()
        invariant
            start <= i <= lexeme@.len(),
            digits == lexeme@.skip(start as int),
            forall|j: int| 0 <= j < digits.len() ==> is_digit(#[trigger] digits[j]),
            acc == digits_value(digits.take(i - start)),
            acc <= limit,
            lexeme@.len() > 0,
            negative == (lexeme@[0] == 0x2d),
            start == if negative { 1int } else { 0int },
            limit == if negative { 0x8000_0000_0000_0000u64 } else { 0x7fff_ffff_ffff_ffffu64 },
            lexeme@.skip(0) == lexeme@,
        decreases lexeme@.len() - i,
    {
        proof {
            assert(is_digit(digits[i - start]));
            assert(digits[i - start] == lexeme@[i as int]);
        }
        let d: u64 = (lexeme[i] - 0x30) as u64;
        proof {
            assert(digits.take(i - start + 1).drop_last() =~= digits.take(i - start));
            assert(digits.take(i - start + 1).last() == lexeme@[i as int]);
            crate::grammar_lemmas::lemma_digits_value_prefix(digits, i - start + 1);
        }
        if acc > (limit - d) / 10 {
            proof {
                assert(digits_value(digits.take(i - start + 1)) == acc * 10 + d);
                assert(acc * 10 + d > limit);
                assert(digits_value(digits) > limit);
            }
            return None;
        }
        acc = acc * 10 + d;
        i += 1;
    }
    proof {
        assert(digits.take(i - start) =~= digits);
    }
    if negative {
        if acc == 0x8000_0000_0000_0000 {
            Some(i64::MIN)
        } else {
            Some(-(acc as i64))
        }
    } else {
        Some(acc as i64)
    }
}

impl Number {
    /// Whether the float with these bits is finite.
    pub fn bits_are_finite(bits: u64) -> (r: bool)
        ensures
            r == float_is_finite(bits),
    {
        bits % 0x8000_0000_0000_0000 < 0x7ff0_0000_0000_0000
    }

    /// What a float reader's answer becomes: `Float` for a finite pattern,
    /// and `NumberTooBig` where the reader gave none or an infinity or a NaN.
    pub fn from_reading(reading: Option<u64>) -> (r: Result<Number, crate::error::ParseError>)
        ensures
            r == number_of_reading(reading),
    {
        match reading {
            Some(bits) => if Number::bits_are_finite(bits) {
                Ok(Number::Float(bits))
            } else {
                Err(crate::error::ParseError::NumberTooBig)
            },
            None => Err(crate::error::ParseError::NumberTooBig),
        }
    }

    /// Variant-sensitive equality, with floats compared as floats.
    pub fn equals(&self, other: &Number) -> (r: bool)
        ensures
            r == number_equal(*self, *other),
    {
        match (self, other) {
            (Number::Int(x), Number::Int(y)) => *x == *y,
            (Number::UInt(x), Number::UInt(y)) => *x == *y,
            (Number::Float(x), Number::Float(y)) => {
                let mx = *x % 0x8000_0000_0000_0000;
                let my = *y % 0x8000_0000_0000_0000;
                mx <= 0x7ff0_0000_0000_0000 && my <= 0x7ff0_0000_0000_0000 && (*x == *y || (mx == 0
                    && my == 0))
            },
            _ => false,
        }
    }
}

impl PartialEq for Number {
    fn eq(&self, other: &Number) -> (r: bool) {
        self.equals(other)
    }
}

impl vstd::std_specs::cmp::PartialEqSpecImpl for Number {
    open spec fn obeys_eq_spec() -> bool {
        true
    }

    open spec fn eq_spec(&self, other: &Number) -> bool {
        number_equal(*self, *other)
    }
}

impl From<i64> for Number {
    fn from(n: i64) -> (r: Number) {
        Number::Int(n)
    }
}

impl vstd::std_specs::convert::FromSpecImpl<i64> for Number {
    open spec fn obeys_from_spec() -> bool {
        true
    }

    open spec fn from_spec(n: i64) -> Number {
        Number::Int(n)
    }
}

impl From<u64> for Number {
    fn from(n: u64) -> (r: Number) {
        Number::UInt(n)
    }
}

impl vstd::std_specs::convert::FromSpecImpl<u64> for Number {
    open spec fn obeys_from_spec() -> bool {
        true
    }

    open spec fn from_spec(n: u64) -> Number {
        Number::UInt(n)
    }
}

} // verus!
