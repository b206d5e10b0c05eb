//! Checks on configuration values, each with the refusal that it makes.

use vstd::prelude::*;

use crate::error::{
    self, cap_exceeded, not_divisible, out_of_range, overflow, Error, ErrorModel,
    UnknownEnumValuePayload,
};

verus! {

/// The refusal of a value that is not positive.
pub open spec fn positive(context: &'static str, value: i32) -> Option<ErrorModel> {
    error::refusal(value > 0, out_of_range(context, "must be positive (> 0)", value as i128))
}

/// Requires a positive value.
pub fn require_positive(context: &'static str, value: i32) -> (r: Result<(), Error>)
    ensures
        error::answers(r, positive(context, value)),
        value > 0 <==> r is Ok,
{
    if value > 0 {
        Ok(())
    } else {
        Err(out_of_range(context, "must be positive (> 0)", value as i128))
    }
}

/// The refusal of a dimension that is zero.
pub open spec fn positive_dimension(context: &'static str, value: u32) -> Option<ErrorModel> {
    error::refusal(value > 0, out_of_range(context, "must be a positive dimension (> 0)", 0))
}

/// Requires a dimension that is not zero.
pub fn require_positive_u32(context: &'static str, value: u32) -> (r: Result<(), Error>)
    ensures
        error::answers(r, positive_dimension(context, value)),
        match r {
            Ok(_) => value > 0,
            Err(e) => value == 0 && e == out_of_range(
                context,
                "must be a positive dimension (> 0)",
                0,
            ),
        },
{
    if value > 0 {
        Ok(())
    } else {
        Err(out_of_range(context, "must be a positive dimension (> 0)", 0))
    }
}

/// The refusal of a value outside `low..=high`.
pub open spec fn in_range(context: &'static str, value: i32, low: i32, high: i32) -> Option<
    ErrorModel,
> {
    error::refusal(
        low <= value <= high,
        out_of_range(context, "must lie in the admitted range", value as i128),
    )
}

/// Requires a value in `low..=high`.
pub fn require_in_range(context: &'static str, value: i32, low: i32, high: i32) -> (r: Result<
    (),
    Error,
>)
    ensures
        error::answers(r, in_range(context, value, low, high)),
        low <= value <= high <==> r is Ok,
{
    if low <= value && value <= high {
        Ok(())
    } else {
        Err(out_of_range(context, "must lie in the admitted range", value as i128))
    }
}

/// The refusal of a count that is not positive, or that is over its ceiling.
pub open spec fn cardinality(context: &'static str, value: i32, cap: i32) -> Option<ErrorModel> {
    if value <= 0 {
        positive(context, value)
    } else {
        error::refusal(
            value <= cap,
            cap_exceeded(context, "cardinality cap", cap as u64, value as u64),
        )
    }
}

/// Requires a positive count of at most `cap`.
pub fn require_cardinality(context: &'static str, value: i32, cap: i32) -> (r: Result<(), Error>)
    requires
        cap >= 0,
    ensures
        error::answers(r, cardinality(context, value, cap)),
        0 < value <= cap <==> r is Ok,
{
    if value <= 0 {
        return require_positive(context, value);
    }
    if value <= cap {
        Ok(())
    } else {
        Err(cap_exceeded(context, "cardinality cap", cap as u64, value as u64))
    }
}

/// The refusal of a value that is not a multiple of a positive divisor.
pub open spec fn divisible(context: &'static str, value: i32, divisor: i32) -> Option<ErrorModel> {
    error::refusal(
        value as int % divisor as int == 0,
        not_divisible(context, value as i128, divisor as i128),
    )
}

/// Requires a value that is a multiple of a divisor.
pub fn require_divisible(context: &'static str, value: i32, divisor: i32) -> (r: Result<(), Error>)
    requires
        value >= 0,
        divisor > 0,
    ensures
        error::answers(r, divisible(context, value, divisor)),
        value as int % divisor as int == 0 <==> r is Ok,
{
    if value % divisor == 0 {
        Ok(())
    } else {
        Err(not_divisible(context, value as i128, divisor as i128))
    }
}

/// The refusal of a value other than the one that is supported.
pub open spec fn pinned(context: &'static str, value: i32, expected: i32) -> Option<ErrorModel> {
    error::refusal(
        value == expected,
        out_of_range(context, "must be the supported value", value as i128),
    )
}

/// Requires one particular value.
pub fn pin_i32(context: &'static str, value: i32, expected: i32) -> (r: Result<(), Error>)
    ensures
        error::answers(r, pinned(context, value, expected)),
        value == expected <==> r is Ok,
{
    if value == expected {
        Ok(())
    } else {
        Err(out_of_range(context, "must be the supported value", value as i128))
    }
}

/// The refusal of a text that is none of the supported ones.
pub open spec fn pinned_text(
    context: &'static str,
    supported_text: bool,
    value: Seq<char>,
    supported: &'static str,
) -> Option<ErrorModel> {
    if supported_text {
        None
    } else {
        Some(ErrorModel::UnknownEnumValue { context, value, supported })
    }
}

/// Requires a text that is one of the supported ones, as `supported_text` says.
pub fn pin_str(
    context: &'static str,
    supported_text: bool,
    value: &str,
    supported: &'static str,
) -> (r: Result<(), Error>)
    ensures
        error::answers(r, pinned_text(context, supported_text, value@, supported)),
        supported_text <==> r is Ok,
{
    if supported_text {
        Ok(())
    } else {
        Err(
            Error::UnknownEnumValue(
                UnknownEnumValuePayload { context, value: value.to_owned(), supported },
            ),
        )
    }
}

/// The product of two `i32`, or an overflow.
pub open spec fn product_i32(context: &'static str, a: i32, b: i32) -> Result<i32, Error> {
    if i32::MIN <= a * b <= i32::MAX {
        Ok((a * b) as i32)
    } else {
        Err(overflow(context, "i32", a as i128, b as i128))
    }
}

/// Multiplies two `i32`.
pub fn checked_mul(context: &'static str, a: i32, b: i32) -> (r: Result<i32, Error>)
    ensures
        r == product_i32(context, a, b),
{
    match a.checked_mul(b) {
        Some(n) => Ok(n),
        None => Err(overflow(context, "i32", a as i128, b as i128)),
    }
}

/// The sum of two `i32`, or an overflow.
pub open spec fn sum_i32(context: &'static str, a: i32, b: i32) -> Result<i32, Error> {
    if i32::MIN <= a + b <= i32::MAX {
        Ok((a + b) as i32)
    } else {
        Err(overflow(context, "i32", a as i128, b as i128))
    }
}

/// Adds two `i32`.
pub fn checked_add(context: &'static str, a: i32, b: i32) -> (r: Result<i32, Error>)
    ensures
        r == sum_i32(context, a, b),
{
    match a.checked_add(b) {
        Some(n) => Ok(n),
        None => Err(overflow(context, "i32", a as i128, b as i128)),
    }
}

/// Whether a number is the square of a positive one.
pub open spec fn is_square(value: int) -> bool {
    exists|side: int| 0 < side && #[trigger] (side * side) == value
}

/// The refusal of a value that is not a positive perfect square.
pub open spec fn perfect_square(context: &'static str, value: i32) -> Option<ErrorModel> {
    if value <= 0 {
        positive(context, value)
    } else {
        error::refusal(
            is_square(value as int),
            out_of_range(
                context,
                "must be a perfect square (the trained position grid is square)",
                value as i128,
            ),
        )
    }
}

/// The positive side of a square of the given area; a value that is no positive
/// perfect square is refused.
pub fn isqrt_exact(context: &'static str, value: i32) -> (r: Result<i32, Error>)
    ensures
        error::answers(r, perfect_square(context, value)),
        r matches Ok(side) ==> 0 < side && side * side == value,
        r is Ok <==> is_square(value as int),
{
    if value <= 0 {
        assert(!is_square(value as int)) by {
            if is_square(value as int) {
                let side = choose|side: int| 0 < side && #[trigger] (side * side) == value;
                assert(side * side > 0) by (nonlinear_arith)
                    requires
                        side > 0,
                ;
            }
        }
        return Err(out_of_range(context, "must be positive (> 0)", value as i128));
    }
    let mut side: i32 = 1;
    while side < 46340 && side * side < value
        invariant
            1 <= side <= 46340,
            side * side <= 46340 * 46340,
            value > 0,
            (side - 1) * (side - 1) < value,
        decreases 46340 - side,
    {
        assert((side + 1 - 1) * (side + 1 - 1) == side * side);
        side += 1;
        assert(side * side <= 46340 * 46340) by (nonlinear_arith)
            requires
                1 <= side <= 46340,
        ;
    }
    if side * side == value {
        assert(is_square(value as int)) by {
            assert((side as int) * (side as int) == value);
        }
        Ok(side)
    } else {
        assert(!is_square(value as int)) by {
            if is_square(value as int) {
                let other = choose|other: int| 0 < other && #[trigger] (other * other) == value;
                let s = side as int;
                assert(other > s - 1) by (nonlinear_arith)
                    requires
                        (s - 1) * (s - 1) < other * other,
                        other > 0,
                        s >= 1,
                ;
                if s * s > value {
                    assert(other < s) by (nonlinear_arith)
                        requires
                            s * s > other * other,
                            other > 0,
                            s >= 1,
                    ;
                } else {
                    assert(s == 46340);
                    assert(other * other >= 46341 * 46341) by (nonlinear_arith)
                        requires
                            other >= 46341,
                    ;
                }
            }
        }
        Err(
            out_of_range(
                context,
                "must be a perfect square (the trained position grid is square)",
                value as i128,
            ),
        )
    }
}

/// A number in single precision as the configuration rules see it.
///
/// What is positive and finite is `mantissa * 2^exponent` exactly.
#[derive(Debug, Clone, Copy, PartialEq, Eq, Structural)]
pub enum Single {
    /// Infinite, or not a number.
    NonFinite,
    /// Zero or below.
    NonPositive,
    /// A positive finite number.
    Positive {
        /// The integral significand.
        mantissa: u32,
        /// The power of two that scales it.
        exponent: i32,
    },
}

/// The sign, the biased exponent and the fraction of a single-precision pattern.
pub open spec fn single_of_bits(bits: u32) -> Single {
    let negative = bits as int / 0x8000_0000 == 1;
    let biased = (bits as int / 0x80_0000) % 256;
    let fraction = bits as int % 0x80_0000;
    if biased == 255 {
        Single::NonFinite
    } else if negative || (biased == 0 && fraction == 0) {
        Single::NonPositive
    } else if biased == 0 {
        Single::Positive { mantissa: fraction as u32, exponent: -149i32 }
    } else {
        Single::Positive {
            mantissa: (fraction + 0x80_0000) as u32,
            exponent: (biased - 150) as i32,
        }
    }
}

impl Single {
    /// Decodes the bit pattern of an IEEE 754 single-precision number.
    pub fn from_bits(bits: u32) -> (r: Single)
        ensures
            r == single_of_bits(bits),
    {
        let negative: bool = bits / 0x8000_0000 == 1;
        let biased: u32 = (bits / 0x80_0000) % 256;
        let fraction: u32 = bits % 0x80_0000;
        if biased == 255 {
            Single::NonFinite
        } else if negative || (biased == 0 && fraction == 0) {
            Single::NonPositive
        } else if biased == 0 {
            Single::Positive { mantissa: fraction, exponent: -149 }
        } else {
            Single::Positive { mantissa: fraction + 0x80_0000, exponent: biased as i32 - 150 }
        }
    }
}

/// The refusal of a number that is not positive and finite.
pub open spec fn positive_finite(context: &'static str, value: Single) -> Option<ErrorModel> {
    match value {
        Single::NonFinite => Some(ErrorModel::Plain(Error::NonFiniteScalar { context })),
        Single::NonPositive => error::refusal(
            false,
            out_of_range(context, "must be positive and finite", 0),
        ),
        Single::Positive { .. } => None,
    }
}

/// Requires a positive finite number.
pub fn require_positive_finite(context: &'static str, value: Single) -> (r: Result<(), Error>)
    ensures
        error::answers(r, positive_finite(context, value)),
        value is Positive <==> r is Ok,
{
    match value {
        Single::NonFinite => Err(Error::NonFiniteScalar { context }),
        Single::NonPositive => Err(out_of_range(context, "must be positive and finite", 0)),
        Single::Positive { .. } => Ok(()),
    }
}


/// Each check admits what its name says, and nothing else.
pub proof fn law_checks_admit_what_they_name(
    context: &'static str,
    value: i32,
    low: i32,
    high: i32,
    number: Single,
)
    ensures
        positive(context, value) is None <==> 0 < value,
        positive_dimension(context, high as u32) is None <==> high as u32 != 0,
        in_range(context, value, low, high) is None <==> low <= value && value <= high,
        cardinality(context, value, high) is None <==> 0 < value && value <= high,
        low > 0 ==> (divisible(context, value, low) is None <==> exists|k: int| value == #[trigger] (
        low * k)),
        pinned(context, value, low) is None <==> value == low,
        perfect_square(context, value) is None <==> exists|side: int|
            0 < side && #[trigger] (side * side) == value,
        positive_finite(context, number) is None <==> number is Positive,
{
    if low > 0 {
        vstd::arithmetic::div_mod::lemma_fundamental_div_mod(value as int, low as int);
        if value as int % low as int == 0 {
            assert(value == low * (value as int / low as int));
        }
        if exists|k: int| value == #[trigger] (low * k) {
            let k = choose|k: int| value == #[trigger] (low * k);
            assert(low * k == k * low) by (nonlinear_arith);
            vstd::arithmetic::div_mod::lemma_fundamental_div_mod_converse(
                value as int,
                low as int,
                k,
                0,
            );
        }
    }
    if value <= 0 {
        assert forall|side: int| 0 < side implies #[trigger] (side * side) != value by {
            assert(side * side > 0) by (nonlinear_arith)
                requires
                    side > 0,
            ;
        }
    }
}

/// A product and a sum are those of the numbers, or an overflow where they do not fit.
pub proof fn law_products_and_sums_are_exact(context: &'static str, a: i32, b: i32)
    ensures
        product_i32(context, a, b) is Ok <==> -2147483648 <= a * b <= 2147483647,
        product_i32(context, a, b) matches Ok(n) ==> n == a * b,
        product_i32(context, a, b) matches Err(e) ==> e is ArithmeticOverflow,
        sum_i32(context, a, b) is Ok <==> -2147483648 <= a + b <= 2147483647,
        sum_i32(context, a, b) matches Ok(n) ==> n == a + b,
        sum_i32(context, a, b) matches Err(e) ==> e is ArithmeticOverflow,
{
}

/// A pattern of sign, biased exponent and fraction is the number that IEEE 754 gives it:
/// one above zero is `(2^23 + fraction) * 2^(biased - 150)`, or without the leading bit
/// where it is subnormal.
pub proof fn law_patterns_are_their_numbers(sign: int, biased: int, fraction: int, bits: u32)
    requires
        0 <= sign <= 1,
        0 <= biased <= 255,
        0 <= fraction < 8388608,
        bits == sign * 2147483648 + biased * 8388608 + fraction,
    ensures
        ({
            let r = single_of_bits(bits);
            &&& r is NonFinite <==> biased == 255
            &&& r is NonPositive <==> biased < 255 && (sign == 1 || biased == 0 && fraction == 0)
            &&& r matches Single::Positive { mantissa, exponent } ==> {
                &&& biased > 0 ==> mantissa == 8388608 + fraction && exponent == biased - 150
                &&& biased == 0 ==> mantissa == fraction && exponent == -149
            }
        }),
{
    assert(bits as int / 0x8000_0000 == sign);
    assert(bits as int / 0x80_0000 == sign * 256 + biased);
}

} // verus!
