//! Arbitrary-precision integers as plain data (sign and base-2^32 digits).
//! Arithmetic that only the `num` crate computes is reached through small
//! wrappers whose contracts state the exact mathematical result.

use num::bigint::Sign;
use num::BigInt;
use num::ToPrimitive;
use num::traits::Euclid;
use vstd::prelude::*;

verus! {

/// Value of a little-endian sequence of base-2^32 digits.
pub open spec fn magnitude_value(s: Seq<u32>) -> nat
    decreases s.len(),
{
    if s.len() == 0 {
        0
    } else {
        s[0] as nat + 4294967296 * magnitude_value(s.drop_first())
    }
}

/// An integer of any size: a sign flag and little-endian base-2^32 digits.
/// Any digit sequence is allowed; leading zero digits and a negative zero
/// denote the same values as their normal forms.
pub struct Integer {
    negative: bool,
    magnitude: Vec<u32>,
}

impl View for Integer {
    type V = int;

    closed spec fn view(&self) -> int {
        if self.negative {
            -(magnitude_value(self.magnitude@) as int)
        } else {
            magnitude_value(self.magnitude@) as int
        }
    }
}

/// Integer quotient rounded toward zero, as Rust's `/` computes it.
pub open spec fn div_toward_zero(a: int, b: int) -> int
    recommends
        b != 0,
{
    let q = (if a >= 0 { a } else { -a }) / (if b >= 0 { b } else { -b });
    if (a >= 0) == (b >= 0) {
        q
    } else {
        -q
    }
}

/// The absolute value of `v` modulo 2^32.
pub open spec fn low_part(v: int) -> int {
    (if v < 0 {
        -v
    } else {
        v
    }) % 4294967296
}

/// The ASCII decimal digit for `d` (0 to 9).
pub open spec fn digit_char(d: nat) -> char {
    ((48 + d) as u32) as char
}

/// Decimal digits of a natural number, most significant first.
pub open spec fn nat_decimal(n: nat) -> Seq<char>
    decreases n,
{
    if n < 10 {
        seq![digit_char(n)]
    } else {
        nat_decimal(n / 10).push(digit_char(n % 10))
    }
}

/// Decimal representation of an integer, with a leading `-` when negative.
pub open spec fn int_decimal(v: int) -> Seq<char> {
    if v < 0 {
        seq!['-'] + nat_decimal((-v) as nat)
    } else {
        nat_decimal(v as nat)
    }
}

impl Integer {
    /// The integer equal to `x`.
    pub fn from_i64(x: i64) -> (r: Integer)
        ensures
            r@ == x as int,
    {
        let negative = x < 0;
        let wide: i128 = x as i128;
        let m: u64 = if negative { (-wide) as u64 } else { wide as u64 };
        let lo: u32 = (m % 4294967296) as u32;
        let hi: u32 = (m / 4294967296) as u32;
        let mut magnitude: Vec<u32> = Vec::new();
        magnitude.push(lo);
        magnitude.push(hi);
        proof {
            let s = magnitude@;
            assert(s.drop_first().drop_first() =~= Seq::<u32>::empty());
            assert(magnitude_value(s.drop_first()) == hi as nat + 4294967296 * magnitude_value(
                s.drop_first().drop_first(),
            ));
            assert(magnitude_value(s) == lo as nat + 4294967296 * magnitude_value(s.drop_first()));
            assert(m == lo + 4294967296 * hi);
        }
        Integer { negative, magnitude }
    }

    /// The integer equal to `x`.
    pub fn from_usize(x: usize) -> (r: Integer)
        ensures
            r@ == x as int,
    {
        let m: u64 = x as u64;
        let lo: u32 = (m % 4294967296) as u32;
        let hi: u32 = (m / 4294967296) as u32;
        let mut magnitude: Vec<u32> = Vec::new();
        magnitude.push(lo);
        magnitude.push(hi);
        proof {
            let s = magnitude@;
            assert(s.drop_first().drop_first() =~= Seq::<u32>::empty());
            assert(magnitude_value(s.drop_first()) == hi as nat + 4294967296 * magnitude_value(
                s.drop_first().drop_first(),
            ));
            assert(magnitude_value(s) == lo as nat + 4294967296 * magnitude_value(s.drop_first()));
        }
        Integer { negative: false, magnitude }
    }

    /// The lowest base-2^32 digit of the magnitude: `|self| mod 2^32`.
    pub fn low_digit(&self) -> (r: u32)
        ensures
            r as int == low_part(self@),
    {
        if self.magnitude.len() == 0 {
            0
        } else {
            let d = self.magnitude[0];
            proof {
                let m = self.magnitude@;
                let rest = magnitude_value(m.drop_first()) as int;
                assert(magnitude_value(m) == d as nat + 4294967296 * magnitude_value(m.drop_first()));
                assert((d + 4294967296 * rest) % 4294967296 == d as int) by (nonlinear_arith)
                    requires
                        0 <= d < 4294967296,
                        rest >= 0,
                ;
            }
            d
        }
    }

    /// A copy with the same value.
    pub fn copy(&self) -> (r: Integer)
        ensures
            r@ == self@,
    {
        let magnitude = self.magnitude.clone();
        assert(magnitude@ =~= self.magnitude@);
        Integer { negative: self.negative, magnitude }
    }

    /// Sum, computed by `num::BigInt`'s `+`; exact.
    #[verifier::external_body]
    pub(crate) fn add(&self, other: &Integer) -> (r: Integer)
        ensures
            r@ == self@ + other@,
    {
        let x = BigInt::from_slice(if self.negative { Sign::Minus } else { Sign::Plus }, &self.magnitude);
        let y = BigInt::from_slice(if other.negative { Sign::Minus } else { Sign::Plus }, &other.magnitude);
        let (s, m) = (x + y).to_u32_digits();
        Integer { negative: s == Sign::Minus, magnitude: m }
    }

    /// Difference, computed by `num::BigInt`'s `-`; exact.
    #[verifier::external_body]
    pub(crate) fn sub(&self, other: &Integer) -> (r: Integer)
        ensures
            r@ == self@ - other@,
    {
        let x = BigInt::from_slice(if self.negative { Sign::Minus } else { Sign::Plus }, &self.magnitude);
        let y = BigInt::from_slice(if other.negative { Sign::Minus } else { Sign::Plus }, &other.magnitude);
        let (s, m) = (x - y).to_u32_digits();
        Integer { negative: s == Sign::Minus, magnitude: m }
    }

    /// Product, computed by `num::BigInt`'s `*`; exact.
    #[verifier::external_body]
    pub(crate) fn mul(&self, other: &Integer) -> (r: Integer)
        ensures
            r@ == self@ * other@,
    {
        let x = BigInt::from_slice(if self.negative { Sign::Minus } else { Sign::Plus }, &self.magnitude);
        let y = BigInt::from_slice(if other.negative { Sign::Minus } else { Sign::Plus }, &other.magnitude);
        let (s, m) = (x * y).to_u32_digits();
        Integer { negative: s == Sign::Minus, magnitude: m }
    }

    /// Quotient rounded toward zero, computed by `num::BigInt`'s `/`, which
    /// panics on a zero divisor (excluded here).
    #[verifier::external_body]
    pub(crate) fn div_trunc(&self, other: &Integer) -> (r: Integer)
        requires
            other@ != 0,
        ensures
            r@ == div_toward_zero(self@, other@),
    {
        let x = BigInt::from_slice(if self.negative { Sign::Minus } else { Sign::Plus }, &self.magnitude);
        let y = BigInt::from_slice(if other.negative { Sign::Minus } else { Sign::Plus }, &other.magnitude);
        let (s, m) = (x / y).to_u32_digits();
        Integer { negative: s == Sign::Minus, magnitude: m }
    }

    /// Least non-negative remainder, computed by `num::BigInt`'s
    /// `rem_euclid`, which panics on a zero divisor (excluded here).
    #[verifier::external_body]
    pub(crate) fn rem_euclid(&self, other: &Integer) -> (r: Integer)
        requires
            other@ != 0,
        ensures
            r@ == self@ % other@,
    {
        let x = BigInt::from_slice(if self.negative { Sign::Minus } else { Sign::Plus }, &self.magnitude);
        let y = BigInt::from_slice(if other.negative { Sign::Minus } else { Sign::Plus }, &other.magnitude);
        let (s, m) = x.rem_euclid(&y).to_u32_digits();
        Integer { negative: s == Sign::Minus, magnitude: m }
    }

    /// Whether `self < other`, computed by `num::BigInt`'s `<`.
    #[verifier::external_body]
    pub(crate) fn less_than(&self, other: &Integer) -> (r: bool)
        ensures
            r == (self@ < other@),
    {
        let x = BigInt::from_slice(if self.negative { Sign::Minus } else { Sign::Plus }, &self.magnitude);
        let y = BigInt::from_slice(if other.negative { Sign::Minus } else { Sign::Plus }, &other.magnitude);
        x < y
    }

    /// Whether the two values are equal, computed by `num::BigInt`'s `==`.
    #[verifier::external_body]
    pub(crate) fn equals(&self, other: &Integer) -> (r: bool)
        ensures
            r == (self@ == other@),
    {
        let x = BigInt::from_slice(if self.negative { Sign::Minus } else { Sign::Plus }, &self.magnitude);
        let y = BigInt::from_slice(if other.negative { Sign::Minus } else { Sign::Plus }, &other.magnitude);
        x == y
    }

    /// The value in decimal, with a leading `-` when negative.
    pub fn to_text(&self) -> (r: String)
        ensures
            r@ == int_decimal(self@),
    {
        crate::text::chars_to_string(&self.to_decimal_chars())
    }

    /// The value as a `usize`, computed by `ToPrimitive::to_usize`: `None`
    /// exactly when the value is negative or above `usize::MAX`.
    #[verifier::external_body]
    pub(crate) fn to_usize(&self) -> (r: Option<usize>)
        ensures
            r is Some <==> 0 <= self@ <= usize::MAX,
            r matches Some(u) ==> u as int == self@,
    {
        BigInt::from_slice(if self.negative { Sign::Minus } else { Sign::Plus }, &self.magnitude).to_usize()
    }

    /// The value as an `isize`, computed by `ToPrimitive::to_isize`: `None`
    /// exactly when the value is outside the range of `isize`.
    #[verifier::external_body]
    pub(crate) fn to_isize(&self) -> (r: Option<isize>)
        ensures
            r is Some <==> isize::MIN <= self@ <= isize::MAX,
            r matches Some(u) ==> u as int == self@,
    {
        BigInt::from_slice(if self.negative { Sign::Minus } else { Sign::Plus }, &self.magnitude).to_isize()
    }

    /// The value as a `u32`, computed by `ToPrimitive::to_u32`: `None`
    /// exactly when the value is negative or above `u32::MAX`.
    #[verifier::external_body]
    pub(crate) fn to_u32(&self) -> (r: Option<u32>)
        ensures
            r is Some <==> 0 <= self@ <= u32::MAX,
            r matches Some(u) ==> u as int == self@,
    {
        BigInt::from_slice(if self.negative { Sign::Minus } else { Sign::Plus }, &self.magnitude).to_u32()
    }

    /// Decimal text of the value, as `num::BigInt`'s `Display` writes it.
    #[verifier::external_body]
    pub(crate) fn to_decimal_chars(&self) -> (r: Vec<char>)
        ensures
            r@ == int_decimal(self@),
    {
        let x = BigInt::from_slice(if self.negative { Sign::Minus } else { Sign::Plus }, &self.magnitude);
        x.to_string().chars().collect()
    }
}

} // verus!
