//! Video preprocessing: how many frames are sampled, which ones, to what size they
//! are resized, and how they are stacked.
//!
//! Sides and frame counts are aligned to a factor. A frame is resized so that its
//! pixel count lands in a budget while its aspect ratio is kept. Where a rule
//! scales by a square root or by a frame rate, the scaled and rounded numbers come
//! from floating point and are handed in.

use vstd::prelude::*;

use crate::array::{self, Array, ArrayModel};
use crate::buffer::{push_range, try_with_capacity};
use crate::error::{
    shape_length, shape_out_of_range, shape_overflow, shape_violation, Cause, Error,
    InvariantViolationPayload,
};

verus! {

/// The factor that both sides of a resized frame are multiples of.
pub const IMAGE_FACTOR: i64 = 28;

/// The smallest pixel count of an image.
pub const MIN_PIXELS: i64 = 4 * 28 * 28;

/// The largest pixel count of an image.
pub const MAX_PIXELS: i64 = 16384 * 28 * 28;

/// The largest aspect ratio that is resized.
pub const MAX_RATIO: i64 = 200;

/// The smallest pixel count of a video frame.
pub const VIDEO_MIN_PIXELS: i64 = 128 * 28 * 28;

/// The largest pixel count of a video frame.
pub const VIDEO_MAX_PIXELS: i64 = 768 * 28 * 28;

/// The factor that a frame count is a multiple of.
pub const FRAME_FACTOR: i64 = 2;

/// The default sampling rate in frames per second.
pub const FPS: i64 = 2;

/// The default lower limit of a frame count that follows from a rate.
pub const FPS_MIN_FRAMES: i64 = 4;

/// The default upper limit of a frame count that follows from a rate.
pub const FPS_MAX_FRAMES: i64 = 768;

/// The largest magnitude up to which every integer has an exact double-precision
/// value.
pub const EXACT_INT_MAX: i64 = 9007199254740992;

// ---------------------------------------------------------------------------
// Multiples of a factor
// ---------------------------------------------------------------------------

/// `n / f`, rounded down.
pub open spec fn floor_quotient(n: int, f: int) -> int {
    if f > 0 {
        n / f
    } else {
        (-n) / (-f)
    }
}

/// `n / f`, rounded up.
pub open spec fn ceil_quotient(n: int, f: int) -> int {
    -floor_quotient(-n, f)
}

/// `n / f`, rounded to the nearest integer, and to the even one of two.
pub open spec fn round_quotient(n: int, f: int) -> int {
    let q = floor_quotient(n, f);
    let twice = 2 * (n - q * f);
    let size = if f > 0 {
        twice
    } else {
        -twice
    };
    let unit = if f > 0 {
        f
    } else {
        -f
    };
    if size < unit || (size == unit && q % 2 == 0) {
        q
    } else {
        q + 1
    }
}

/// A multiple of `factor`, or why it is refused: the number is beyond
/// [`EXACT_INT_MAX`], the factor is zero, or the multiple does not fit `i64`.
pub open spec fn multiple(
    number: i64,
    factor: i64,
    quotient: int,
    context: &'static str,
) -> Result<i64, Error> {
    if number > EXACT_INT_MAX || number < -EXACT_INT_MAX {
        Err(shape_out_of_range(context, "number must be within +-2^53", number as i128))
    } else if factor == 0 {
        Err(shape_out_of_range(context, "factor must be non-zero", 0))
    } else if quotient * factor > i64::MAX || quotient * factor < i64::MIN {
        Err(shape_overflow(context, "i64", quotient as i128, factor as i128))
    } else {
        Ok((quotient * factor) as i64)
    }
}

/// `number / factor` rounded down, in exact arithmetic.
fn floor_div(number: i64, factor: i64) -> (r: i128)
    requires
        factor != 0,
    ensures
        r == floor_quotient(number as int, factor as int),
        -9223372036854775808 <= r <= 9223372036854775808,
        factor > 0 ==> 0 <= number - r * factor < factor,
        factor < 0 ==> factor < number - r * factor <= 0,
{
    let n: i128 = if factor > 0 {
        number as i128
    } else {
        -(number as i128)
    };
    let f: i128 = if factor > 0 {
        factor as i128
    } else {
        -(factor as i128)
    };
    let t: i128 = if n >= 0 {
        n / f
    } else {
        -((-n + f - 1) / f)
    };
    proof {
        let (ni, fi) = (n as int, f as int);
        if ni < 0 {
            let m = -ni;
            let u = (m + fi - 1) / fi;
            vstd::arithmetic::div_mod::lemma_fundamental_div_mod(m + fi - 1, fi);
            vstd::arithmetic::div_mod::lemma_mod_bound(m + fi - 1, fi);
            let rem = (m + fi - 1) % fi;
            assert(-u * fi == -(fi * u)) by (nonlinear_arith);
            vstd::arithmetic::div_mod::lemma_fundamental_div_mod_converse(
                ni,
                fi,
                -u,
                fi - 1 - rem,
            );
        }
        vstd::arithmetic::div_mod::lemma_fundamental_div_mod(ni, fi);
        vstd::arithmetic::div_mod::lemma_mod_bound(ni, fi);
        assert(t == ni / fi);
        assert(-9223372036854775808 <= t <= 9223372036854775808) by (nonlinear_arith)
            requires
                t == ni / fi,
                fi >= 1,
                -9223372036854775808 <= ni <= 9223372036854775808,
        ;
        let q = t as int;
        assert(q * fi == fi * q) by (nonlinear_arith);
        assert(q * (-fi) == -(q * fi)) by (nonlinear_arith);
    }
    t
}

/// Checks the number and the factor of a rounding.
fn check_factor_input(number: i64, factor: i64, context: &'static str) -> (r: Result<(), Error>)
    ensures
        r == (if number > EXACT_INT_MAX || number < -EXACT_INT_MAX {
            Err(shape_out_of_range(context, "number must be within +-2^53", number as i128))
        } else if factor == 0 {
            Err(shape_out_of_range(context, "factor must be non-zero", 0))
        } else {
            Ok(())
        }),
{
    if number > EXACT_INT_MAX || number < -EXACT_INT_MAX {
        Err(shape_out_of_range(context, "number must be within +-2^53", number as i128))
    } else if factor == 0 {
        Err(shape_out_of_range(context, "factor must be non-zero", 0))
    } else {
        Ok(())
    }
}

/// `quotient * factor`, where it fits `i64`.
fn factor_product(quotient: i128, factor: i64, context: &'static str) -> (r: Result<i64, Error>)
    requires
        -9223372036854775809 <= quotient <= 9223372036854775809,
    ensures
        r == (if quotient * factor > i64::MAX || quotient * factor < i64::MIN {
            Err(shape_overflow(context, "i64", quotient, factor as i128))
        } else {
            Ok((quotient * factor) as i64)
        }),
{
    proof {
        assert(-100000000000000000000000000000000000000 <= quotient * factor
            <= 100000000000000000000000000000000000000) by (nonlinear_arith)
            requires
                -9223372036854775809 <= quotient <= 9223372036854775809,
                -9223372036854775808 <= factor <= 9223372036854775807,
        ;
    }
    let p: i128 = quotient * factor as i128;
    if p > i64::MAX as i128 || p < i64::MIN as i128 {
        Err(shape_overflow(context, "i64", quotient, factor as i128))
    } else {
        Ok(p as i64)
    }
}

/// The multiple of `factor` that is closest to `number`; of two, the one with the
/// even quotient.
pub fn round_by_factor(number: i64, factor: i64) -> (r: Result<i64, Error>)
    ensures
        r == multiple(
            number,
            factor,
            round_quotient(number as int, factor as int),
            "round_by_factor",
        ),
{
    check_factor_input(number, factor, "round_by_factor")?;
    let q: i128 = floor_div(number, factor);
    let f: i128 = factor as i128;
    let rest: i128 = number as i128 - q * f;
    let size: i128 = if factor > 0 {
        2 * rest
    } else {
        -(2 * rest)
    };
    let unit: i128 = if factor > 0 {
        f
    } else {
        -f
    };
    let rounded: i128 = if size < unit || (size == unit && q % 2 == 0) {
        q
    } else {
        q + 1
    };
    factor_product(rounded, factor, "round_by_factor")
}

/// The smallest multiple of `factor` that is not below `number`.
pub fn ceil_by_factor(number: i64, factor: i64) -> (r: Result<i64, Error>)
    ensures
        r == multiple(
            number,
            factor,
            ceil_quotient(number as int, factor as int),
            "ceil_by_factor",
        ),
{
    check_factor_input(number, factor, "ceil_by_factor")?;
    let q: i128 = -floor_div(-number, factor);
    factor_product(q, factor, "ceil_by_factor")
}

/// The largest multiple of `factor` that is not above `number`.
pub fn floor_by_factor(number: i64, factor: i64) -> (r: Result<i64, Error>)
    ensures
        r == multiple(
            number,
            factor,
            floor_quotient(number as int, factor as int),
            "floor_by_factor",
        ),
{
    check_factor_input(number, factor, "floor_by_factor")?;
    factor_product(floor_div(number, factor), factor, "floor_by_factor")
}

/// With a positive factor, rounding down gives the largest multiple up to the
/// number, rounding up the smallest one from it on, and rounding to the nearest one
/// of the two that is at most half a factor away.
pub proof fn law_multiples_bracket_the_number(n: int, f: int)
    requires
        f > 0,
    ensures
        floor_quotient(n, f) * f <= n < floor_quotient(n, f) * f + f,
        ceil_quotient(n, f) * f - f < n <= ceil_quotient(n, f) * f,
        -f <= 2 * (round_quotient(n, f) * f - n) <= f,
        round_quotient(n, f) == floor_quotient(n, f) || round_quotient(n, f) == ceil_quotient(
            n,
            f,
        ),
        2 * (round_quotient(n, f) * f - n) == f || 2 * (n - round_quotient(n, f) * f) == f
            ==> round_quotient(n, f) % 2 == 0,
{
    let q = n / f;
    vstd::arithmetic::div_mod::lemma_fundamental_div_mod(n, f);
    vstd::arithmetic::div_mod::lemma_mod_bound(n, f);
    assert(q * f == f * q) by (nonlinear_arith);
    let m = (-n) / f;
    vstd::arithmetic::div_mod::lemma_fundamental_div_mod(-n, f);
    vstd::arithmetic::div_mod::lemma_mod_bound(-n, f);
    assert((-m) * f == -(f * m)) by (nonlinear_arith);
    assert((q + 1) * f == q * f + f) by (nonlinear_arith);
    assert(-m == q || -m == q + 1) by (nonlinear_arith)
        requires
            f * q <= n < f * q + f,
            f * m <= -n < f * m + f,
            f > 0,
    ;
    if 2 * (n - q * f) > f || (2 * (n - q * f) == f && q % 2 != 0) {
        assert(-m == q + 1) by (nonlinear_arith)
            requires
                f * m <= -n < f * m + f,
                n > f * q,
                n < f * q + f,
                f > 0,
        ;
    }
}

// ---------------------------------------------------------------------------
// Frame size
// ---------------------------------------------------------------------------

/// What has to be done to the sides of a frame, once they are multiples of the
/// factor.
#[derive(Debug, Clone, Copy, PartialEq, Eq, Structural)]
pub enum ResizeStep {
    /// The aligned sides are within the budget.
    Keep {
        /// The aligned height.
        height: i64,
        /// The aligned width.
        width: i64,
    },
    /// The sides shrink by `sqrt(height * width / max_pixels)` and are aligned
    /// downwards.
    Shrink,
    /// The sides grow by `sqrt(min_pixels / (height * width))` and are aligned
    /// upwards.
    Grow,
}

/// The scaled sides of a frame in units of the factor, rounded as the step
/// demands; `None` for a side that is not a number in the range of `i64`.
#[derive(Debug, Clone, Copy)]
pub struct Quotients {
    /// The height in units of the factor.
    pub height: Option<i64>,
    /// The width in units of the factor.
    pub width: Option<i64>,
}

/// The aligned side: the closest multiple of the factor, and at least the factor.
pub open spec fn aligned_side(side: i64, factor: i64) -> Result<i64, Error> {
    match multiple(
        side,
        factor,
        round_quotient(side as int, factor as int),
        "round_by_factor",
    ) {
        Err(e) => Err(e),
        Ok(m) => Ok(
            if m < factor {
                factor
            } else {
                m
            },
        ),
    }
}

/// What has to be done to the sides of a frame, or why the frame is refused.
pub open spec fn resize_step(
    height: i64,
    width: i64,
    factor: i64,
    min_pixels: i64,
    max_pixels: i64,
) -> Result<ResizeStep, Error> {
    let longer = if height > width {
        height
    } else {
        width
    };
    let shorter = if height > width {
        width
    } else {
        height
    };
    if height <= 0 || width <= 0 {
        Err(
            shape_out_of_range(
                "smart_resize: height, width",
                "must be positive",
                shorter as i128,
            ),
        )
    } else if factor <= 0 {
        Err(shape_out_of_range("smart_resize: factor", "must be positive", factor as i128))
    } else if max_pixels <= 0 || min_pixels < 0 || min_pixels > max_pixels {
        Err(
            shape_violation(
                "smart_resize: pixel budget",
                "0 <= min_pixels <= max_pixels and max_pixels > 0",
            ),
        )
    } else if factor * factor > max_pixels {
        Err(
            shape_out_of_range(
                "smart_resize: max_pixels",
                "must hold the smallest aligned size, factor * factor",
                max_pixels as i128,
            ),
        )
    } else if longer > MAX_RATIO * shorter {
        Err(
            shape_out_of_range(
                "smart_resize: longer side",
                "must be at most 200 times the shorter side",
                longer as i128,
            ),
        )
    } else {
        match aligned_side(height, factor) {
            Err(e) => Err(e),
            Ok(h) => match aligned_side(width, factor) {
                Err(e) => Err(e),
                Ok(w) => if h * w > max_pixels {
                    if height * width > EXACT_INT_MAX || max_pixels > EXACT_INT_MAX {
                        Err(
                            shape_out_of_range(
                                "smart_resize (scale-down): height * width, max_pixels",
                                "must be <= 2^53",
                                (height * width) as i128,
                            ),
                        )
                    } else {
                        Ok(ResizeStep::Shrink)
                    }
                } else if h * w < min_pixels {
                    if height * width > EXACT_INT_MAX || min_pixels > EXACT_INT_MAX {
                        Err(
                            shape_out_of_range(
                                "smart_resize (scale-up): height * width, min_pixels",
                                "must be <= 2^53",
                                (height * width) as i128,
                            ),
                        )
                    } else {
                        Ok(ResizeStep::Grow)
                    }
                } else {
                    Ok(ResizeStep::Keep { height: h, width: w })
                },
            },
        }
    }
}

/// A side of `quotient` units of the factor.
pub open spec fn scaled_side(quotient: Option<i64>, factor: i64, context: &'static str) -> Result<
    i64,
    Error,
> {
    match quotient {
        None => Err(shape_violation(context, "the quotient must be within the range of i64")),
        Some(q) => if q * factor > i64::MAX || q * factor < i64::MIN {
            Err(shape_overflow(context, "i64", q as i128, factor as i128))
        } else {
            Ok((q * factor) as i64)
        },
    }
}

/// The two sides, where both are positive and their product fits `i64`.
pub open spec fn sound_size(height: i64, width: i64) -> Result<(i64, i64), Error> {
    if height <= 0 || width <= 0 || height * width > i64::MAX {
        Err(
            shape_violation(
                "smart_resize: resized height, width",
                "a positive aligned size must fit the pixel budget",
            ),
        )
    } else {
        Ok((height, width))
    }
}

/// The size of a scaled frame, or why it is refused.
pub open spec fn scaled_size(quotients: Quotients, factor: i64, context: &'static str) -> Result<
    (i64, i64),
    Error,
> {
    match scaled_side(quotients.height, factor, context) {
        Err(e) => Err(e),
        Ok(h) => match scaled_side(quotients.width, factor, context) {
            Err(e) => Err(e),
            Ok(w) => sound_size(h, w),
        },
    }
}

/// The size that a frame is resized to, or why it is refused.
pub open spec fn resized_frame(
    height: i64,
    width: i64,
    factor: i64,
    min_pixels: i64,
    max_pixels: i64,
    shrunk: Quotients,
    grown: Quotients,
) -> Result<(i64, i64), Error> {
    match resize_step(height, width, factor, min_pixels, max_pixels) {
        Err(e) => Err(e),
        Ok(step) => match step {
            ResizeStep::Keep { height, width } => sound_size(height, width),
            ResizeStep::Shrink => scaled_size(shrunk, factor, "floor_by_factor"),
            ResizeStep::Grow => scaled_size(grown, factor, "ceil_by_factor"),
        },
    }
}

/// Aligns one side; see [`aligned_side`].
fn align_side(side: i64, factor: i64) -> (r: Result<i64, Error>)
    ensures
        r == aligned_side(side, factor),
{
    match round_by_factor(side, factor) {
        Ok(m) => Ok(
            if m < factor {
                factor
            } else {
                m
            },
        ),
        Err(e) => Err(e),
    }
}

/// The product of two `i64` values.
fn wide_product(a: i64, b: i64) -> (r: i128)
    ensures
        r == a * b,
{
    proof {
        assert(-85070591730234615865843651857942052864 <= a * b
            <= 85070591730234615865843651857942052864) by (nonlinear_arith)
            requires
                -9223372036854775808 <= a <= 9223372036854775807,
                -9223372036854775808 <= b <= 9223372036854775807,
        ;
    }
    a as i128 * b as i128
}

/// Decides how a frame is resized; see [`resize_step`].
pub fn plan_frame_size(
    height: i64,
    width: i64,
    factor: i64,
    min_pixels: i64,
    max_pixels: i64,
) -> (r: Result<ResizeStep, Error>)
    ensures
        r == resize_step(height, width, factor, min_pixels, max_pixels),
{
    let longer: i64 = if height > width {
        height
    } else {
        width
    };
    let shorter: i64 = if height > width {
        width
    } else {
        height
    };
    if height <= 0 || width <= 0 {
        return Err(
            shape_out_of_range(
                "smart_resize: height, width",
                "must be positive",
                shorter as i128,
            ),
        );
    }
    if factor <= 0 {
        return Err(
            shape_out_of_range("smart_resize: factor", "must be positive", factor as i128),
        );
    }
    if max_pixels <= 0 || min_pixels < 0 || min_pixels > max_pixels {
        return Err(
            shape_violation(
                "smart_resize: pixel budget",
                "0 <= min_pixels <= max_pixels and max_pixels > 0",
            ),
        );
    }
    if wide_product(factor, factor) > max_pixels as i128 {
        return Err(
            shape_out_of_range(
                "smart_resize: max_pixels",
                "must hold the smallest aligned size, factor * factor",
                max_pixels as i128,
            ),
        );
    }
    if longer as i128 > wide_product(MAX_RATIO, shorter) {
        return Err(
            shape_out_of_range(
                "smart_resize: longer side",
                "must be at most 200 times the shorter side",
                longer as i128,
            ),
        );
    }
    let h: i64 = align_side(height, factor)?;
    let w: i64 = align_side(width, factor)?;
    let area: i128 = wide_product(h, w);
    let source: i128 = wide_product(height, width);
    if area > max_pixels as i128 {
        if source > EXACT_INT_MAX as i128 || max_pixels > EXACT_INT_MAX {
            return Err(
                shape_out_of_range(
                    "smart_resize (scale-down): height * width, max_pixels",
                    "must be <= 2^53",
                    source,
                ),
            );
        }
        return Ok(ResizeStep::Shrink);
    }
    if area < min_pixels as i128 {
        if source > EXACT_INT_MAX as i128 || min_pixels > EXACT_INT_MAX {
            return Err(
                shape_out_of_range(
                    "smart_resize (scale-up): height * width, min_pixels",
                    "must be <= 2^53",
                    source,
                ),
            );
        }
        return Ok(ResizeStep::Grow);
    }
    Ok(ResizeStep::Keep { height: h, width: w })
}

/// A side of `quotient` units; see [`scaled_side`].
fn scale_side(quotient: Option<i64>, factor: i64, context: &'static str) -> (r: Result<i64, Error>)
    ensures
        r == scaled_side(quotient, factor, context),
{
    match quotient {
        None => Err(shape_violation(context, "the quotient must be within the range of i64")),
        Some(q) => factor_product(q as i128, factor, context),
    }
}

/// Accepts a positive size; see [`sound_size`].
fn check_size(height: i64, width: i64) -> (r: Result<(i64, i64), Error>)
    ensures
        r == sound_size(height, width),
{
    if height <= 0 || width <= 0 || wide_product(height, width) > i64::MAX as i128 {
        Err(
            shape_violation(
                "smart_resize: resized height, width",
                "a positive aligned size must fit the pixel budget",
            ),
        )
    } else {
        Ok((height, width))
    }
}

/// The size of a scaled frame; see [`scaled_size`].
fn scale_size(quotients: Quotients, factor: i64, context: &'static str) -> (r: Result<
    (i64, i64),
    Error,
>)
    ensures
        r == scaled_size(quotients, factor, context),
{
    let h: i64 = scale_side(quotients.height, factor, context)?;
    let w: i64 = scale_side(quotients.width, factor, context)?;
    check_size(h, w)
}

/// The size that a frame is resized to: both sides multiples of `factor`, the
/// aspect ratio kept, and the pixel count aimed at `min_pixels` to `max_pixels`.
///
/// `shrunk` holds `height / beta / factor` and `width / beta / factor`, rounded
/// down, for `beta = sqrt(height * width / max_pixels)`; `grown` holds
/// `height * beta / factor` and `width * beta / factor`, rounded up, for
/// `beta = sqrt(min_pixels / (height * width))`. Which of them is used, if any, is
/// what [`plan_frame_size`] says.
pub fn smart_resize(
    height: i64,
    width: i64,
    factor: i64,
    min_pixels: i64,
    max_pixels: i64,
    shrunk: Quotients,
    grown: Quotients,
) -> (r: Result<(i64, i64), Error>)
    ensures
        r == resized_frame(height, width, factor, min_pixels, max_pixels, shrunk, grown),
{
    match plan_frame_size(height, width, factor, min_pixels, max_pixels) {
        Err(e) => Err(e),
        Ok(step) => match step {
            ResizeStep::Keep { height, width } => check_size(height, width),
            ResizeStep::Shrink => scale_size(shrunk, factor, "floor_by_factor"),
            ResizeStep::Grow => scale_size(grown, factor, "ceil_by_factor"),
        },
    }
}

/// An accepted size is positive, and both of its sides are multiples of the
/// factor.
pub proof fn law_resized_frames_are_aligned(
    height: i64,
    width: i64,
    factor: i64,
    min_pixels: i64,
    max_pixels: i64,
    shrunk: Quotients,
    grown: Quotients,
)
    requires
        resized_frame(height, width, factor, min_pixels, max_pixels, shrunk, grown) is Ok,
    ensures
        ({
            let size = resized_frame(
                height,
                width,
                factor,
                min_pixels,
                max_pixels,
                shrunk,
                grown,
            )->Ok_0;
            &&& size.0 > 0 && size.1 > 0
            &&& size.0 as int % factor as int == 0
            &&& size.1 as int % factor as int == 0
        }),
{
    let f = factor as int;
    let step = resize_step(height, width, factor, min_pixels, max_pixels)->Ok_0;
    let (qh, qw) = match step {
        ResizeStep::Keep { .. } => (
            round_quotient(height as int, f),
            round_quotient(width as int, f),
        ),
        ResizeStep::Shrink => (shrunk.height->Some_0 as int, shrunk.width->Some_0 as int),
        ResizeStep::Grow => (grown.height->Some_0 as int, grown.width->Some_0 as int),
    };
    lemma_multiple_divides(qh, f);
    lemma_multiple_divides(qw, f);
    lemma_multiple_divides(1, f);
}

proof fn lemma_multiple_divides(q: int, f: int)
    requires
        f > 0,
    ensures
        (q * f) % f == 0,
{
    vstd::arithmetic::div_mod::lemma_mod_multiples_basic(q, f);
}

/// The quotients of a frame that is laid on its side.
pub open spec fn transposed(quotients: Quotients) -> Quotients {
    Quotients { height: quotients.width, width: quotients.height }
}

/// A frame laid on its side is resized to the same size laid on its side, and is
/// refused where the upright frame is.
pub proof fn law_transposed_frames_are_resized_alike(
    height: i64,
    width: i64,
    factor: i64,
    min_pixels: i64,
    max_pixels: i64,
    shrunk: Quotients,
    grown: Quotients,
)
    ensures
        ({
            let upright = resized_frame(
                height,
                width,
                factor,
                min_pixels,
                max_pixels,
                shrunk,
                grown,
            );
            let lying = resized_frame(
                width,
                height,
                factor,
                min_pixels,
                max_pixels,
                transposed(shrunk),
                transposed(grown),
            );
            match upright {
                Ok(size) => lying == Ok::<(i64, i64), Error>((size.1, size.0)),
                Err(_) => lying is Err,
            }
        }),
{
    assert(height * width == width * height) by (nonlinear_arith);
    assert forall|a: i64, b: i64| #[trigger] (a * b) == b * a by {
        assert(a * b == b * a) by (nonlinear_arith);
    }
}

/// Aligned sides that are within the budget are kept as they are.
pub proof fn law_frames_within_the_budget_are_kept(
    height: i64,
    width: i64,
    factor: i64,
    min_pixels: i64,
    max_pixels: i64,
    shrunk: Quotients,
    grown: Quotients,
)
    requires
        0 < factor,
        0 < height <= EXACT_INT_MAX,
        0 < width <= EXACT_INT_MAX,
        height as int % factor as int == 0,
        width as int % factor as int == 0,
        0 <= min_pixels <= height * width <= max_pixels,
        height <= MAX_RATIO * width,
        width <= MAX_RATIO * height,
    ensures
        resized_frame(height, width, factor, min_pixels, max_pixels, shrunk, grown) == Ok::<
            (i64, i64),
            Error,
        >((height, width)),
{
    let f = factor as int;
    lemma_exact_quotient(height as int, f);
    lemma_exact_quotient(width as int, f);
    assert(0 < f * f <= height * width) by (nonlinear_arith)
        requires
            0 < f <= height,
            f <= width,
    ;
    assert(aligned_side(height, factor) == Ok::<i64, Error>(height));
    assert(aligned_side(width, factor) == Ok::<i64, Error>(width));
}

proof fn lemma_exact_quotient(n: int, f: int)
    requires
        0 < f,
        0 < n,
        n % f == 0,
    ensures
        round_quotient(n, f) * f == n,
        f <= n,
{
    vstd::arithmetic::div_mod::lemma_fundamental_div_mod(n, f);
    let q = n / f;
    assert(q * f == f * q) by (nonlinear_arith);
    assert(f <= n) by (nonlinear_arith)
        requires
            n == f * q,
            0 < n,
            0 < f,
    ;
}

/// Where the shrunk quotients are exactly rounded down, the pixel count of a
/// shrunk frame stays within the budget.
pub proof fn law_exactly_shrunk_frames_fit_the_budget(
    height: int,
    width: int,
    factor: int,
    max_pixels: int,
    qh: int,
    qw: int,
)
    requires
        height > 0,
        width > 0,
        factor > 0,
        max_pixels > 0,
        qh >= 0,
        qw >= 0,
        (qh * factor) * (qh * factor) * width <= height * max_pixels,
        (qw * factor) * (qw * factor) * height <= width * max_pixels,
    ensures
        (qh * factor) * (qw * factor) <= max_pixels,
{
    let a = qh * factor;
    let b = qw * factor;
    assert(a >= 0 && b >= 0) by (nonlinear_arith)
        requires
            a == qh * factor,
            b == qw * factor,
            qh >= 0,
            qw >= 0,
            factor > 0,
    ;
    let p = a * b;
    let x = a * a * width;
    let y = b * b * height;
    let s = height * max_pixels;
    let t = width * max_pixels;
    assert(0 <= x && 0 <= y) by (nonlinear_arith)
        requires
            x == a * a * width,
            y == b * b * height,
            width > 0,
            height > 0,
    ;
    assert(x * y <= s * t) by (nonlinear_arith)
        requires
            0 <= x <= s,
            0 <= y <= t,
    ;
    let area = height * width;
    assert(x * y == (p * p) * area) by (nonlinear_arith)
        requires
            x == a * a * width,
            y == b * b * height,
            p == a * b,
            area == height * width,
    ;
    assert(s * t == (max_pixels * max_pixels) * area) by (nonlinear_arith)
        requires
            s == height * max_pixels,
            t == width * max_pixels,
            area == height * width,
    ;
    assert(area > 0) by (nonlinear_arith)
        requires
            area == height * width,
            height > 0,
            width > 0,
    ;
    assert(p * p <= max_pixels * max_pixels) by (nonlinear_arith)
        requires
            (p * p) * area <= (max_pixels * max_pixels) * area,
            area > 0,
    ;
    assert(p <= max_pixels) by (nonlinear_arith)
        requires
            p * p <= max_pixels * max_pixels,
            max_pixels > 0,
    ;
}

/// Where the grown quotients are exactly rounded up, the pixel count of a grown
/// frame reaches the budget.
pub proof fn law_exactly_grown_frames_reach_the_budget(
    height: int,
    width: int,
    factor: int,
    min_pixels: int,
    qh: int,
    qw: int,
)
    requires
        height > 0,
        width > 0,
        factor > 0,
        min_pixels >= 0,
        qh >= 0,
        qw >= 0,
        (qh * factor) * (qh * factor) * width >= height * min_pixels,
        (qw * factor) * (qw * factor) * height >= width * min_pixels,
    ensures
        (qh * factor) * (qw * factor) >= min_pixels,
{
    let a = qh * factor;
    let b = qw * factor;
    let p = a * b;
    assert(0 <= p) by (nonlinear_arith)
        requires
            p == (qh * factor) * (qw * factor),
            qh >= 0,
            qw >= 0,
            factor > 0,
    ;
    let x = a * a * width;
    let y = b * b * height;
    let s = height * min_pixels;
    let t = width * min_pixels;
    assert(x * y >= s * t) by (nonlinear_arith)
        requires
            x >= s,
            y >= t,
            s == height * min_pixels,
            t == width * min_pixels,
            height > 0,
            width > 0,
            min_pixels >= 0,
    ;
    let area = height * width;
    assert(x * y == (p * p) * area) by (nonlinear_arith)
        requires
            x == a * a * width,
            y == b * b * height,
            p == a * b,
            area == height * width,
    ;
    assert(s * t == (min_pixels * min_pixels) * area) by (nonlinear_arith)
        requires
            s == height * min_pixels,
            t == width * min_pixels,
            area == height * width,
    ;
    assert(area > 0) by (nonlinear_arith)
        requires
            area == height * width,
            height > 0,
            width > 0,
    ;
    assert(p * p >= min_pixels * min_pixels) by (nonlinear_arith)
        requires
            (p * p) * area >= (min_pixels * min_pixels) * area,
            area > 0,
    ;
    assert(p >= min_pixels) by (nonlinear_arith)
        requires
            p * p >= min_pixels * min_pixels,
            0 <= p,
            0 <= min_pixels,
    ;
}

// ---------------------------------------------------------------------------
// Frame count
// ---------------------------------------------------------------------------

/// What a sampling rate comes to for a given video.
#[derive(Debug, Clone, Copy, PartialEq, Eq, Structural)]
pub enum RateBudget {
    /// The sampling rate is not a positive finite number.
    InvalidRate,
    /// `total_frames / video_fps * fps`, rounded down and clamped to `i64`.
    Frames(i64),
}

/// How the number of sampled frames is chosen.
#[derive(Debug, Clone, Copy, PartialEq, Eq, Structural)]
pub enum FrameSampling {
    /// A fixed number of frames.
    Fixed {
        /// The number of frames, before it is aligned.
        nframes: i64,
    },
    /// As many frames as a sampling rate gives, between two limits.
    Fps {
        /// What the rate comes to.
        budget: RateBudget,
        /// The lower limit, before it is aligned upwards.
        min_frames: i64,
        /// The upper limit, before it is aligned downwards; without one it is
        /// [`FPS_MAX_FRAMES`] or the number of frames of the video, whichever is
        /// less.
        max_frames: Option<i64>,
    },
}

/// The smaller of two numbers.
pub open spec fn min_of(a: i64, b: i64) -> i64 {
    if a < b {
        a
    } else {
        b
    }
}

/// The larger of two numbers.
pub open spec fn max_of(a: i64, b: i64) -> i64 {
    if a > b {
        a
    } else {
        b
    }
}

/// A multiple of [`FRAME_FACTOR`] not above `number`.
pub open spec fn floor_frames(number: i64) -> Result<i64, Error> {
    multiple(number, FRAME_FACTOR, floor_quotient(number as int, 2), "floor_by_factor")
}

/// The number of frames before the final check.
pub open spec fn proposed_frames(sampling: FrameSampling, total_frames: i64) -> Result<
    i64,
    Error,
> {
    match sampling {
        FrameSampling::Fixed { nframes } => multiple(
            nframes,
            FRAME_FACTOR,
            round_quotient(nframes as int, 2),
            "round_by_factor",
        ),
        FrameSampling::Fps { budget, min_frames, max_frames } => match budget {
            RateBudget::InvalidRate => Err(
                shape_violation("smart_nframes: fps", "must be a positive finite number"),
            ),
            RateBudget::Frames(frames) => match multiple(
                min_frames,
                FRAME_FACTOR,
                ceil_quotient(min_frames as int, 2),
                "ceil_by_factor",
            ) {
                Err(e) => Err(e),
                Ok(low) => match floor_frames(
                    match max_frames {
                        Some(n) => n,
                        None => min_of(FPS_MAX_FRAMES, total_frames),
                    },
                ) {
                    Err(e) => Err(e),
                    Ok(high) => floor_frames(
                        min_of(min_of(max_of(frames, low), high), total_frames),
                    ),
                },
            },
        },
    }
}

/// The number of frames to sample, or why there is none.
pub open spec fn sampled_frames(
    sampling: FrameSampling,
    total_frames: i64,
    video_rate_is_valid: bool,
) -> Result<i64, Error> {
    if total_frames <= 0 {
        Err(
            shape_out_of_range(
                "smart_nframes: total_frames",
                "must be positive",
                total_frames as i128,
            ),
        )
    } else if !video_rate_is_valid {
        Err(shape_violation("smart_nframes: video_fps", "must be a positive finite number"))
    } else {
        match proposed_frames(sampling, total_frames) {
            Err(e) => Err(e),
            Ok(n) => if FRAME_FACTOR <= n <= total_frames {
                Ok(n)
            } else {
                Err(
                    shape_out_of_range(
                        "smart_nframes: nframes",
                        "must be in [FRAME_FACTOR, total_frames]",
                        n as i128,
                    ),
                )
            },
        }
    }
}

/// The number of frames before the final check; see [`proposed_frames`].
fn propose_frames(sampling: FrameSampling, total_frames: i64) -> (r: Result<i64, Error>)
    ensures
        r == proposed_frames(sampling, total_frames),
{
    match sampling {
        FrameSampling::Fixed { nframes } => round_by_factor(nframes, FRAME_FACTOR),
        FrameSampling::Fps { budget, min_frames, max_frames } => {
            let frames: i64 = match budget {
                RateBudget::InvalidRate => {
                    return Err(
                        shape_violation("smart_nframes: fps", "must be a positive finite number"),
                    );
                },
                RateBudget::Frames(frames) => frames,
            };
            let low: i64 = ceil_by_factor(min_frames, FRAME_FACTOR)?;
            let limit: i64 = match max_frames {
                Some(n) => n,
                None => if FPS_MAX_FRAMES < total_frames {
                    FPS_MAX_FRAMES
                } else {
                    total_frames
                },
            };
            let high: i64 = floor_by_factor(limit, FRAME_FACTOR)?;
            let mut n: i64 = frames;
            if !(n > low) {
                n = low;
            }
            if !(n < high) {
                n = high;
            }
            if !(n < total_frames) {
                n = total_frames;
            }
            floor_by_factor(n, FRAME_FACTOR)
        },
    }
}

/// The number of frames to sample: a fixed number, or what a rate gives between
/// two limits and up to the length of the video; in either case a multiple of
/// [`FRAME_FACTOR`].
///
/// `video_rate_is_valid` says whether the rate of the video is a positive finite
/// number. Where it is not, the video is refused however its frames are to be
/// sampled.
pub fn smart_nframes(sampling: FrameSampling, total_frames: i64, video_rate_is_valid: bool) -> (r:
    Result<i64, Error>)
    ensures
        r == sampled_frames(sampling, total_frames, video_rate_is_valid),
{
    if total_frames <= 0 {
        return Err(
            shape_out_of_range(
                "smart_nframes: total_frames",
                "must be positive",
                total_frames as i128,
            ),
        );
    }
    if !video_rate_is_valid {
        return Err(
            shape_violation("smart_nframes: video_fps", "must be a positive finite number"),
        );
    }
    match propose_frames(sampling, total_frames) {
        Err(e) => Err(e),
        Ok(n) => if FRAME_FACTOR <= n && n <= total_frames {
            Ok(n)
        } else {
            Err(
                shape_out_of_range(
                    "smart_nframes: nframes",
                    "must be in [FRAME_FACTOR, total_frames]",
                    n as i128,
                ),
            )
        },
    }
}

/// An accepted number of frames is even, at least [`FRAME_FACTOR`] and no more
/// than the video has.
pub proof fn law_frame_counts_are_even_and_available(
    sampling: FrameSampling,
    total_frames: i64,
    video_rate_is_valid: bool,
)
    requires
        sampled_frames(sampling, total_frames, video_rate_is_valid) is Ok,
    ensures
        ({
            let n = sampled_frames(sampling, total_frames, video_rate_is_valid)->Ok_0;
            FRAME_FACTOR <= n <= total_frames && n % 2 == 0
        }),
{
}

/// A video without frames, or without a valid rate, is refused as a shape
/// mismatch, however its frames are to be sampled.
pub proof fn law_unusable_videos_are_refused(
    sampling: FrameSampling,
    total_frames: i64,
    video_rate_is_valid: bool,
)
    requires
        total_frames <= 0 || !video_rate_is_valid,
    ensures
        sampled_frames(sampling, total_frames, video_rate_is_valid) matches Err(e)
            && e is ShapeMismatch,
{
}

// ---------------------------------------------------------------------------
// Frame indices
// ---------------------------------------------------------------------------

/// `v` clamped to the frames of a video.
pub open spec fn clamped_index(v: i64, total_frames: i64) -> i64 {
    if v < 0 {
        0
    } else if v > total_frames - 1 {
        (total_frames - 1) as i64
    } else {
        v
    }
}

/// The indices of the sampled frames, or why there are none.
pub open spec fn frame_indices(total_frames: i64, nframes: i64, points: Seq<i64>) -> Result<
    Seq<i64>,
    Error,
> {
    if total_frames <= 0 {
        Err(
            shape_out_of_range(
                "sample_frame_indices: total_frames",
                "must be positive",
                total_frames as i128,
            ),
        )
    } else if nframes <= 0 {
        Err(
            shape_out_of_range(
                "sample_frame_indices: nframes",
                "must be positive",
                nframes as i128,
            ),
        )
    } else if nframes > usize::MAX {
        Err(Error::OutOfMemory)
    } else if nframes == 1 {
        Ok(seq![0i64])
    } else if points.len() != nframes - 1 {
        Err(
            shape_length(
                "sample_frame_indices: points vs nframes - 1",
                (nframes - 1) as usize,
                points.len() as usize,
            ),
        )
    } else {
        Ok(
            Seq::new(
                nframes as nat,
                |i: int|
                    if i == 0 {
                        0
                    } else if i == nframes - 1 {
                        (total_frames - 1) as i64
                    } else {
                        clamped_index(points[i], total_frames)
                    },
            ),
        )
    }
}

/// Writes the indices of the sampled frames into `buffer`.
pub fn push_frame_indices(
    total_frames: i64,
    nframes: i64,
    points: &[i64],
    buffer: Vec<i64>,
) -> (r: Vec<i64>)
    requires
        frame_indices(total_frames, nframes, points@) is Ok,
        buffer@.len() == 0,
    ensures
        r@ == frame_indices(total_frames, nframes, points@)->Ok_0,
{
    let mut out: Vec<i64> = buffer;
    out.push(0);
    if nframes == 1 {
        assert(out@ =~= seq![0i64]);
        return out;
    }
    let mut i: usize = 1;
    while i < points.len()
        invariant
            1 <= i <= points@.len(),
            total_frames > 0,
            out@.len() == i,
            out@[0] == 0,
            forall|j: int| 1 <= j < i ==> out@[j] == clamped_index(points@[j], total_frames),
        decreases points@.len() - i,
    {
        let v: i64 = points[i];
        if v < 0 {
            out.push(0);
        } else if v > total_frames - 1 {
            out.push(total_frames - 1);
        } else {
            out.push(v);
        }
        i += 1;
    }
    out.push(total_frames - 1);
    assert(out@ =~= frame_indices(total_frames, nframes, points@)->Ok_0);
    out
}

/// The indices of `nframes` frames, spread evenly from the first to the last of a
/// video.
///
/// `points` holds `step * i`, rounded half to even, for each `i` below
/// `nframes - 1`, with `step = (total_frames - 1) / (nframes - 1)`; the first index
/// is the first frame itself and the last index the last. Where only one frame is
/// sampled it is the first.
pub fn sample_frame_indices(total_frames: i64, nframes: i64, points: &[i64]) -> (r: Result<
    Vec<i64>,
    Error,
>)
    ensures
        match frame_indices(total_frames, nframes, points@) {
            Ok(indices) => match r {
                Ok(out) => out@ == indices,
                Err(e) => e == Error::OutOfMemory,
            },
            Err(e) => r == Err::<Vec<i64>, Error>(e),
        },
{
    if total_frames <= 0 {
        return Err(
            shape_out_of_range(
                "sample_frame_indices: total_frames",
                "must be positive",
                total_frames as i128,
            ),
        );
    }
    if nframes <= 0 {
        return Err(
            shape_out_of_range(
                "sample_frame_indices: nframes",
                "must be positive",
                nframes as i128,
            ),
        );
    }
    if nframes as u64 > usize::MAX as u64 {
        return Err(Error::OutOfMemory);
    }
    if nframes != 1 && points.len() != (nframes - 1) as usize {
        return Err(
            shape_length(
                "sample_frame_indices: points vs nframes - 1",
                (nframes - 1) as usize,
                points.len(),
            ),
        );
    }
    match try_with_capacity(nframes as usize) {
        Ok(buffer) => Ok(push_frame_indices(total_frames, nframes, points, buffer)),
        Err(e) => Err(e),
    }
}

/// Every sampled index is a frame of the video, the first one is the first frame,
/// the last of several is the last frame, and the indices never go back where the
/// points do not.
pub proof fn law_sampled_indices_are_frames_in_order(
    total_frames: i64,
    nframes: i64,
    points: Seq<i64>,
)
    requires
        frame_indices(total_frames, nframes, points) is Ok,
        forall|i: int, j: int|
            #![trigger points[i], points[j]]
            0 <= i < j < points.len() ==> points[i] <= points[j],
    ensures
        ({
            let indices = frame_indices(total_frames, nframes, points)->Ok_0;
            &&& indices.len() == nframes
            &&& forall|i: int| 0 <= i < indices.len() ==> 0 <= #[trigger] indices[i] < total_frames
            &&& indices[0] == 0
            &&& nframes > 1 ==> indices[nframes - 1] == total_frames - 1
            &&& forall|i: int, j: int|
                #![trigger indices[i], indices[j]]
                0 <= i < j < indices.len() ==> indices[i] <= indices[j]
        }),
{
}

// ---------------------------------------------------------------------------
// Stacking frames
// ---------------------------------------------------------------------------

/// The order of the axes of a preprocessed image.
#[derive(Debug, Clone, Copy, PartialEq, Eq, Structural)]
pub enum Layout {
    /// Height, width, channels.
    Hwc,
    /// Channels, height, width.
    Chw,
    /// A batch axis of extent one, channels, height, width.
    Bchw,
}

/// What the preprocessing of a frame comes to: its array, or why it was refused.
pub type Frame<T> = Result<Array<T>, Error>;

/// Why the first refused frame was refused.
pub open spec fn first_refused<T>(frames: Seq<Frame<T>>) -> Option<Error>
    decreases frames.len(),
{
    if frames.len() == 0 {
        None
    } else {
        match first_refused(frames.drop_last()) {
            Some(e) => Some(e),
            None => match frames.last() {
                Ok(_) => None,
                Err(e) => Some(e),
            },
        }
    }
}

/// The array of the frame at `i`.
pub open spec fn frame_at<T>(frames: Seq<Frame<T>>, i: int) -> ArrayModel<T> {
    frames[i]->Ok_0@
}

/// The items of the first `n` frames, one frame behind the other.
pub open spec fn joined<T>(frames: Seq<Frame<T>>, n: int) -> Seq<T>
    decreases n,
{
    if n <= 0 {
        Seq::empty()
    } else {
        joined(frames, n - 1) + frame_at(frames, n - 1).data
    }
}

/// Whether every frame has the shape of the first.
pub open spec fn same_shapes<T>(frames: Seq<Frame<T>>) -> bool {
    forall|i: int|
        0 <= i < frames.len() ==> #[trigger] frame_at(frames, i).shape == frame_at(frames, 0).shape
}

/// The stack of preprocessed frames, or why they are refused.
pub open spec fn stacked<T>(frames: Seq<Frame<T>>, layout: Layout) -> Result<
    ArrayModel<T>,
    Error,
> {
    if frames.len() == 0 {
        Err(Error::ShapeMismatch { cause: Cause::EmptyInput { context: "process_frames: frames" } })
    } else if layout != Layout::Hwc {
        Err(
            Error::Backend {
                cause: Cause::InvariantViolation(
                    InvariantViolationPayload {
                        context: "process_frames: cfg.layout",
                        requirement: "only Layout::Hwc frames are stacked",
                    },
                ),
            },
        )
    } else {
        match first_refused(frames) {
            Some(e) => Err(e),
            None => if !same_shapes(frames) {
                Err(
                    shape_violation(
                        "process_frames: frames",
                        "every frame must have the same shape",
                    ),
                )
            } else {
                Ok(
                    ArrayModel {
                        shape: seq![frames.len() as usize] + frame_at(frames, 0).shape,
                        data: joined(frames, frames.len() as int),
                    },
                )
            },
        }
    }
}

proof fn lemma_none_refused<T>(frames: Seq<Frame<T>>)
    ensures
        first_refused(frames) is None <==> forall|i: int|
            0 <= i < frames.len() ==> (#[trigger] frames[i]) is Ok,
    decreases frames.len(),
{
    if frames.len() > 0 {
        let rest = frames.drop_last();
        lemma_none_refused(rest);
        assert(forall|i: int| 0 <= i < rest.len() ==> rest[i] == #[trigger] frames[i]);
        if first_refused(frames) is None {
            assert forall|i: int| 0 <= i < frames.len() implies (#[trigger] frames[i]) is Ok by {
                if i < rest.len() {
                    assert(rest[i] is Ok);
                }
            }
        } else if first_refused(rest) is Some {
            let k = choose|i: int| 0 <= i < rest.len() && (#[trigger] rest[i]) is Err;
            assert(frames[k] is Err);
        } else {
            assert(frames[frames.len() - 1] is Err);
        }
    }
}

proof fn lemma_first_refused<T>(frames: Seq<Frame<T>>, k: int)
    requires
        0 <= k < frames.len(),
        frames[k] is Err,
        forall|i: int| 0 <= i < k ==> (#[trigger] frames[i]) is Ok,
    ensures
        first_refused(frames) == Some(frames[k]->Err_0),
    decreases frames.len(),
{
    let rest = frames.drop_last();
    if k < rest.len() {
        lemma_first_refused(rest, k);
    } else {
        lemma_none_refused(rest);
    }
}

/// Whether two shapes are the same.
fn equal_shapes(a: &Vec<usize>, b: &Vec<usize>) -> (r: bool)
    ensures
        r == (a@ == b@),
{
    if a.len() != b.len() {
        return false;
    }
    let mut i: usize = 0;
    while i < a.len()
        invariant
            i <= a@.len() == b@.len(),
            forall|j: int| 0 <= j < i ==> a@[j] == b@[j],
        decreases a@.len() - i,
    {
        if a[i] != b[i] {
            return false;
        }
        i += 1;
    }
    assert(a@ =~= b@);
    true
}

/// Where the first refused frame stands.
fn find_refused<T>(frames: &[Frame<T>]) -> (r: Option<usize>)
    ensures
        match r {
            Some(k) => k < frames@.len() && frames@[k as int] is Err && first_refused(frames@)
                == Some(frames@[k as int]->Err_0),
            None => first_refused(frames@) is None,
        },
{
    let mut i: usize = 0;
    while i < frames.len()
        invariant
            i <= frames@.len(),
            forall|j: int| 0 <= j < i ==> (#[trigger] frames@[j]) is Ok,
        decreases frames@.len() - i,
    {
        if frames[i].is_err() {
            proof {
                lemma_first_refused(frames@, i as int);
            }
            return Some(i);
        }
        i += 1;
    }
    proof {
        lemma_none_refused(frames@);
    }
    None
}

/// The array of an accepted frame.
fn accepted<T>(frame: &Frame<T>) -> (r: &Array<T>)
    requires
        frame is Ok,
    ensures
        *r == frame->Ok_0,
{
    frame.as_ref().unwrap()
}

/// Whether every frame has the shape of the first; see [`same_shapes`].
fn check_shapes<T>(frames: &[Frame<T>]) -> (r: bool)
    requires
        frames@.len() > 0,
        first_refused(frames@) is None,
    ensures
        r == same_shapes(frames@),
{
    proof {
        lemma_none_refused(frames@);
    }
    let mut i: usize = 0;
    while i < frames.len()
        invariant
            0 < frames@.len(),
            i <= frames@.len(),
            forall|j: int| 0 <= j < frames@.len() ==> (#[trigger] frames@[j]) is Ok,
            forall|j: int|
                0 <= j < i ==> #[trigger] frame_at(frames@, j).shape == frame_at(frames@, 0).shape,
        decreases frames@.len() - i,
    {
        if !equal_shapes(accepted(&frames[i]).shape(), accepted(&frames[0]).shape()) {
            assert(frame_at(frames@, i as int).shape != frame_at(frames@, 0).shape);
            return false;
        }
        i += 1;
    }
    true
}

proof fn lemma_product_prepend(n: usize, shape: Seq<usize>)
    ensures
        array::product(seq![n] + shape) == n * array::product(shape),
    decreases shape.len(),
{
    let full = seq![n] + shape;
    if shape.len() == 0 {
        assert(full =~= seq![n]);
        crate::array::lemma_product_1(n);
        assert(n * 1 == n) by (nonlinear_arith);
    } else {
        assert(full.drop_last() =~= seq![n] + shape.drop_last());
        lemma_product_prepend(n, shape.drop_last());
        let p = array::product(shape.drop_last()) as int;
        let d = shape.last() as int;
        assert((n * p) * d == n * (p * d)) by (nonlinear_arith);
    }
}

proof fn lemma_joined_len<T>(frames: Seq<Frame<T>>, n: int, size: int)
    requires
        0 <= n <= frames.len(),
        forall|i: int| 0 <= i < frames.len() ==> #[trigger] frame_at(frames, i).data.len() == size,
    ensures
        joined(frames, n).len() == n * size,
    decreases n,
{
    if n > 0 {
        lemma_joined_len(frames, n - 1, size);
        assert(frame_at(frames, n - 1).data.len() == size);
        assert(n * size == (n - 1) * size + size) by (nonlinear_arith);
    } else {
        assert(0 * size == 0) by (nonlinear_arith);
    }
}

/// Stacks preprocessed frames along a new leading axis, in the given buffer.
pub fn fill_stack<T: Copy>(frames: &[Frame<T>], layout: Layout, buffer: Vec<T>) -> (r: Array<T>)
    requires
        stacked(frames@, layout) is Ok,
        buffer@.len() == 0,
    ensures
        r@ == stacked(frames@, layout)->Ok_0,
{
    proof {
        lemma_none_refused(frames@);
    }
    let first: &Array<T> = accepted(&frames[0]);
    let size: usize = first.len();
    let mut data: Vec<T> = buffer;
    let mut i: usize = 0;
    assert(data@ =~= joined(frames@, 0));
    while i < frames.len()
        invariant
            0 < frames@.len(),
            i <= frames@.len(),
            same_shapes(frames@),
            forall|j: int| 0 <= j < frames@.len() ==> (#[trigger] frames@[j]) is Ok,
            size == array::product(frame_at(frames@, 0).shape),
            forall|j: int| 0 <= j < i ==> #[trigger] frame_at(frames@, j).data.len() == size,
            data@ == joined(frames@, i as int),
        decreases frames@.len() - i,
    {
        let frame: &Array<T> = accepted(&frames[i]);
        let n: usize = frame.len();
        assert(frame_at(frames@, i as int).shape == frame_at(frames@, 0).shape);
        push_range(&mut data, frame.data().as_slice(), 0, n);
        i += 1;
        assert(frame@.data.subrange(0, n as int) =~= frame@.data);
    }
    let mut shape: Vec<usize> = Vec::new();
    shape.push(frames.len());
    push_range(&mut shape, first.shape().as_slice(), 0, first.shape().len());
    proof {
        let extents = first@.shape;
        assert(extents.subrange(0, extents.len() as int) =~= extents);
        assert(shape@ =~= seq![frames@.len() as usize] + extents);
        lemma_product_prepend(frames@.len() as usize, extents);
        lemma_joined_len(frames@, frames@.len() as int, size as int);
    }
    Array::of(data, shape)
}

/// Stacks preprocessed frames of height, width and channels into an array with a
/// leading time axis.
///
/// The only refusal that is not stated in [`stacked`] is `Error::OutOfMemory`,
/// where the allocator declines the result, or where the result would have more
/// items than can be counted. A result without items is never declined.
pub fn process_frames<T: Copy>(frames: Vec<Frame<T>>, layout: Layout) -> (r: Result<
    Array<T>,
    Error,
>)
    ensures
        match stacked(frames@, layout) {
            Ok(model) => match r {
                Ok(out) => out@ == model,
                Err(e) => e == Error::OutOfMemory,
            },
            Err(e) => r == Err::<Array<T>, Error>(e),
        },
        stacked(frames@, layout) is Ok && frame_at(frames@, 0).data.len() == 0 ==> r is Ok,
{
    if frames.len() == 0 {
        return Err(
            Error::ShapeMismatch { cause: Cause::EmptyInput { context: "process_frames: frames" } },
        );
    }
    if layout != Layout::Hwc {
        return Err(
            Error::Backend {
                cause: Cause::InvariantViolation(
                    InvariantViolationPayload {
                        context: "process_frames: cfg.layout",
                        requirement: "only Layout::Hwc frames are stacked",
                    },
                ),
            },
        );
    }
    if let Some(k) = find_refused(frames.as_slice()) {
        let mut frames: Vec<Frame<T>> = frames;
        return match frames.swap_remove(k) {
            Err(e) => Err(e),
            Ok(array) => Ok(array),
        };
    }
    if !check_shapes(frames.as_slice()) {
        return Err(
            shape_violation("process_frames: frames", "every frame must have the same shape"),
        );
    }
    proof {
        lemma_none_refused(frames@);
        assert(frames@.len() * 0 == 0) by (nonlinear_arith);
    }
    let total: usize = match frames.len().checked_mul(accepted(&frames[0]).len()) {
        Some(n) => n,
        None => {
            return Err(Error::OutOfMemory);
        },
    };
    match try_with_capacity(total) {
        Ok(buffer) => Ok(fill_stack(frames.as_slice(), layout, buffer)),
        Err(e) => Err(e),
    }
}

proof fn lemma_joined_item<T>(frames: Seq<Frame<T>>, n: int, size: int, i: int)
    requires
        0 <= i < n <= frames.len(),
        forall|j: int| 0 <= j < frames.len() ==> #[trigger] frame_at(frames, j).data.len() == size,
    ensures
        0 <= i * size <= (i + 1) * size <= joined(frames, n).len(),
        joined(frames, n).subrange(i * size, (i + 1) * size) == frame_at(frames, i).data,
    decreases n,
{
    let before = joined(frames, n - 1);
    let last = frame_at(frames, n - 1).data;
    lemma_joined_len(frames, n - 1, size);
    assert(last.len() == size);
    assert((i + 1) * size == i * size + size) by (nonlinear_arith);
    assert(0 <= i * size <= (n - 1) * size) by (nonlinear_arith)
        requires
            0 <= i <= n - 1,
            0 <= size,
    ;
    if i == n - 1 {
        assert((before + last).subrange(i * size, (i + 1) * size) =~= last);
    } else {
        lemma_joined_item(frames, n - 1, size, i);
        assert((before + last).subrange(i * size, (i + 1) * size) =~= before.subrange(
            i * size,
            (i + 1) * size,
        ));
    }
}

/// No frames are refused as a shape mismatch, and frames in another order of axes
/// than height, width and channels as a backend error. A stack of `t` frames has
/// `t` in front of the shape of each frame, and its `i`-th item along that axis is
/// the `i`-th frame.
pub proof fn law_stacks_hold_the_frames_in_order<T>(frames: Seq<Frame<T>>, layout: Layout)
    requires
        forall|i: int|
            0 <= i < frames.len() && frames[i] is Ok ==> #[trigger] frame_at(
                frames,
                i,
            ).data.len() == array::product(frame_at(frames, i).shape),
    ensures
        frames.len() == 0 ==> (stacked(frames, layout) matches Err(e) && e is ShapeMismatch),
        frames.len() > 0 && layout != Layout::Hwc ==> (stacked(frames, layout) matches Err(e)
            && e is Backend),
        stacked(frames, layout) matches Ok(stack) ==> {
            let size = array::product(frame_at(frames, 0).shape) as int;
            &&& stack.shape == seq![frames.len() as usize] + frame_at(frames, 0).shape
            &&& stack.data.len() == frames.len() * size
            &&& forall|i: int|
                0 <= i < frames.len() ==> {
                    &&& frames[i] is Ok
                    &&& stack.data.subrange(i * size, (i + 1) * size) == (#[trigger] frame_at(
                        frames,
                        i,
                    )).data
                    &&& frame_at(frames, i).shape == frame_at(frames, 0).shape
                }
        },
{
    if stacked(frames, layout) is Ok {
        let size = array::product(frame_at(frames, 0).shape) as int;
        lemma_none_refused(frames);
        assert forall|i: int| 0 <= i < frames.len() implies #[trigger] frame_at(
            frames,
            i,
        ).data.len() == size by {
            assert(frames[i] is Ok);
            assert(frame_at(frames, i).shape == frame_at(frames, 0).shape);
        }
        lemma_joined_len(frames, frames.len() as int, size);
        assert forall|i: int| 0 <= i < frames.len() implies frames[i] is Ok && joined(
            frames,
            frames.len() as int,
        ).subrange(i * size, (i + 1) * size) == (#[trigger] frame_at(frames, i)).data by {
            lemma_joined_item(frames, frames.len() as int, size, i);
        }
    }
}

/// Frames of which one was refused are refused for the reason of the first such
/// frame.
pub proof fn law_a_refused_frame_refuses_the_stack<T>(frames: Seq<Frame<T>>, k: int)
    requires
        0 <= k < frames.len(),
        frames[k] is Err,
        forall|i: int| 0 <= i < k ==> (#[trigger] frames[i]) is Ok,
    ensures
        stacked(frames, Layout::Hwc) == Err::<ArrayModel<T>, Error>(frames[k]->Err_0),
{
    lemma_first_refused(frames, k);
}


/// A number rounded by a factor is a multiple of it: the last one not above the number, the
/// first one not below it, or the nearest, which of two is the even one. With a negative
/// factor, the quotient is what is rounded. A number beyond `2^53`, a factor of zero and a
/// multiple that does not fit are refused.
pub proof fn law_rounded_numbers_are_multiples(number: i64, factor: i64, context: &'static str)
    ensures
        ({
            let n = number as int;
            let f = factor as int;
            let fits = -9007199254740992 <= n <= 9007199254740992 && f != 0;
            &&& !fits ==> multiple(number, factor, floor_quotient(n, f), context) is Err
            &&& !fits ==> multiple(number, factor, ceil_quotient(n, f), context) is Err
            &&& !fits ==> multiple(number, factor, round_quotient(n, f), context) is Err
            &&& fits && f > i64::MIN ==> {
                &&& multiple(number, factor, floor_quotient(n, f), context) is Ok
                &&& multiple(number, factor, ceil_quotient(n, f), context) is Ok
                &&& multiple(number, factor, round_quotient(n, f), context) is Ok
            }
        }),
        multiple(
            number,
            factor,
            floor_quotient(number as int, factor as int),
            context,
        ) matches Ok(m) ==> {
            &&& exists|q: int| m == #[trigger] (q * factor)
            &&& factor > 0 ==> m <= number < m + factor
            &&& factor < 0 ==> m >= number > m + factor
        },
        multiple(
            number,
            factor,
            ceil_quotient(number as int, factor as int),
            context,
        ) matches Ok(m) ==> {
            &&& exists|q: int| m == #[trigger] (q * factor)
            &&& factor > 0 ==> m - factor < number <= m
            &&& factor < 0 ==> m - factor > number >= m
        },
        multiple(
            number,
            factor,
            round_quotient(number as int, factor as int),
            context,
        ) matches Ok(m) ==> exists|q: int|
            m == #[trigger] (q * factor) && is_nearest(number as int, factor as int, q),
{
    let n = number as int;
    let f = factor as int;
    if f != 0 {
        lemma_floor_of(n, f);
        lemma_floor_of(-n, f);
        let q = floor_quotient(n, f);
        let c = ceil_quotient(n, f);
        let r = round_quotient(n, f);
        assert(c * f == -(floor_quotient(-n, f) * f)) by (nonlinear_arith)
            requires
                c == -floor_quotient(-n, f),
        ;
        assert((q + 1) * f == q * f + f) by (nonlinear_arith);
        assert(multiple(number, factor, q, context) matches Ok(m) ==> m == q * factor);
        assert(multiple(number, factor, c, context) matches Ok(m) ==> m == c * factor);
        assert(multiple(number, factor, r, context) matches Ok(m) ==> m == r * factor);
        assert(is_nearest(n, f, r));
        if -9007199254740992 <= n <= 9007199254740992 && f > i64::MIN {
            lemma_multiples_fit(n, f, q);
            lemma_multiples_fit(n, f, c);
            lemma_multiples_fit(n, f, r);
        }
    }
}

/// Whether `q` units of a factor are as near to a number as any, and an even number of
/// units where two are as near.
pub open spec fn is_nearest(number: int, factor: int, q: int) -> bool {
    let size = if factor > 0 {
        factor
    } else {
        -factor
    };
    let off = 2 * (q * factor - number);
    -size <= off <= size && ((off == size || off == -size) ==> q % 2 == 0)
}

proof fn lemma_floor_of(n: int, f: int)
    requires
        f != 0,
    ensures
        f > 0 ==> floor_quotient(n, f) * f <= n < floor_quotient(n, f) * f + f,
        f < 0 ==> floor_quotient(n, f) * f >= n > floor_quotient(n, f) * f + f,
{
    let q = floor_quotient(n, f);
    if f > 0 {
        vstd::arithmetic::div_mod::lemma_fundamental_div_mod(n, f);
        assert(f * q == q * f) by (nonlinear_arith);
    } else {
        vstd::arithmetic::div_mod::lemma_fundamental_div_mod(-n, -f);
        assert((-f) * q == -(q * f)) by (nonlinear_arith);
    }
}

proof fn lemma_multiples_fit(n: int, f: int, q: int)
    requires
        f != 0,
        -9007199254740992 <= n <= 9007199254740992,
        i64::MIN < f <= i64::MAX,
        f > 0 ==> -f < q * f - n < f,
        f < 0 ==> f < q * f - n < -f,
    ensures
        i64::MIN <= q * f <= i64::MAX,
{
    let size = if f > 0 {
        f
    } else {
        -f
    };
    if size > 9007199254740992 {
        assert(-2 < q < 2) by (nonlinear_arith)
            requires
                f > 0 ==> -f < q * f - n < f,
                f < 0 ==> f < q * f - n < -f,
                f > 9007199254740992 || f < -9007199254740992,
                -9007199254740992 <= n <= 9007199254740992,
        ;
        assert(q == -1 || q == 0 || q == 1);
        assert(q * f == -f || q * f == 0 || q * f == f) by (nonlinear_arith)
            requires
                q == -1 || q == 0 || q == 1,
        ;
    }
}

/// Whether `m` is the multiple of a factor that is nearest to a side, of two the one of an
/// even number of units, but no less than the factor itself.
pub open spec fn is_aligned(side: int, factor: int, m: int) -> bool {
    exists|q: int|
        m == #[trigger] (q * factor) && 1 <= q && (is_nearest(side, factor, q) || q == 1 && 2 * side
            <= factor)
}

/// A frame is kept at its aligned sides where these are within the budget; it shrinks where
/// they are over it, and grows where they are under it.
pub proof fn law_the_budget_decides_on_the_step(
    height: i64,
    width: i64,
    factor: i64,
    min_pixels: i64,
    max_pixels: i64,
    h: int,
    w: int,
)
    requires
        0 < factor,
        is_aligned(height as int, factor as int, h),
        is_aligned(width as int, factor as int, w),
    ensures
        resize_step(height, width, factor, min_pixels, max_pixels) is Ok <==> {
            &&& 0 < height <= 9007199254740992
            &&& 0 < width <= 9007199254740992
            &&& height <= 200 * width
            &&& width <= 200 * height
            &&& 0 < max_pixels
            &&& 0 <= min_pixels <= max_pixels
            &&& factor * factor <= max_pixels
            &&& h * w > max_pixels ==> height * width <= 9007199254740992 && max_pixels
                <= 9007199254740992
            &&& h * w < min_pixels ==> height * width <= 9007199254740992 && min_pixels
                <= 9007199254740992
        },
        resize_step(height, width, factor, min_pixels, max_pixels) matches Ok(step) ==> {
            &&& step is Shrink <==> h * w > max_pixels
            &&& step is Grow <==> h * w < min_pixels
            &&& step matches ResizeStep::Keep { height: kept_h, width: kept_w } ==> kept_h == h
                && kept_w == w
        },
{
    if 0 < height <= 9007199254740992 && 0 < width <= 9007199254740992 && factor * factor
        <= max_pixels {
        assert(factor < 4000000000) by (nonlinear_arith)
            requires
                factor * factor <= max_pixels,
                max_pixels <= i64::MAX,
                0 < factor,
        ;
        lemma_aligned_sides(height, factor, h);
        lemma_aligned_sides(width, factor, w);
    }
}

proof fn lemma_aligned_sides(side: i64, factor: i64, m: int)
    requires
        0 < factor < 4000000000,
        0 < side <= 9007199254740992,
        is_aligned(side as int, factor as int, m),
    ensures
        aligned_side(side, factor) == Ok::<i64, Error>(m as i64),
        0 < m <= i64::MAX,
{
    let s = side as int;
    let f = factor as int;
    let q = choose|q: int|
        m == #[trigger] (q * f) && 1 <= q && (is_nearest(s, f, q) || q == 1 && 2 * s <= f);
    law_multiples_bracket_the_number(s, f);
    let r = round_quotient(s, f);
    assert(0 < q * f) by (nonlinear_arith)
        requires
            1 <= q,
            0 < f,
    ;
    let d = q - r;
    assert(q * f - r * f == d * f) by (nonlinear_arith)
        requires
            d == q - r,
    ;
    assert(r <= 0 ==> r * f <= 0) by (nonlinear_arith)
        requires
            0 < f,
    ;
    assert(r >= 1 ==> r * f >= f) by (nonlinear_arith)
        requires
            0 < f,
    ;
    if is_nearest(s, f, q) {
        assert(-f <= d * f <= f);
        assert(-1 <= d <= 1) by (nonlinear_arith)
            requires
                -f <= d * f <= f,
                0 < f,
        ;
        if d == 1 {
            assert(d * f == f) by (nonlinear_arith)
                requires
                    d == 1,
            ;
            assert(q % 2 == 0 && r % 2 == 0);
        }
        if d == -1 {
            assert(d * f == -f) by (nonlinear_arith)
                requires
                    d == -1,
            ;
            assert(q % 2 == 0 && r % 2 == 0);
        }
        assert(d == 0);
    } else {
        assert(r <= 1) by (nonlinear_arith)
            requires
                2 * (r * f - s) <= f,
                2 * s <= f,
                0 < f,
        ;
        assert(q * f == f) by (nonlinear_arith)
            requires
                q == 1,
        ;
    }
}

/// A shrunk or grown frame has the sides of its own quotients in units of the factor, the
/// height first, where both are positive and fit; a kept one has its aligned sides.
pub proof fn law_resized_frames_follow_their_quotients(
    height: i64,
    width: i64,
    factor: i64,
    min_pixels: i64,
    max_pixels: i64,
    shrunk: Quotients,
    grown: Quotients,
)
    ensures
        ({
            let r = resized_frame(height, width, factor, min_pixels, max_pixels, shrunk, grown);
            match resize_step(height, width, factor, min_pixels, max_pixels) {
                Err(e) => r == Err::<(i64, i64), Error>(e),
                Ok(ResizeStep::Keep { height: h, width: w }) => {
                    &&& r is Ok <==> 0 < h && 0 < w && h * w <= i64::MAX
                    &&& r matches Ok(size) ==> size == (h, w)
                },
                Ok(step) => {
                    let quotients = if step is Shrink {
                        shrunk
                    } else {
                        grown
                    };
                    &&& r is Ok <==> {
                        &&& quotients.height matches Some(qh) && 0 < qh * factor <= i64::MAX
                        &&& quotients.width matches Some(qw) && 0 < qw * factor <= i64::MAX
                        &&& (quotients.height->Some_0 * factor) * (quotients.width->Some_0 * factor)
                            <= i64::MAX
                    }
                    &&& r matches Ok(size) ==> size.0 == quotients.height->Some_0 * factor && size.1
                        == quotients.width->Some_0 * factor
                },
            }
        }),
{
}

/// A fixed number of frames is rounded to the nearest even number, of two to the one that
/// four divides.
pub proof fn law_fixed_counts_are_rounded_to_even(nframes: i64, total_frames: i64)
    requires
        -9007199254740992 <= nframes <= 9007199254740992,
    ensures
        ({
            let n = if nframes % 2 == 0 {
                nframes as int
            } else if nframes % 4 == 1 {
                nframes - 1
            } else {
                nframes + 1
            };
            let r = sampled_frames(FrameSampling::Fixed { nframes }, total_frames, true);
            &&& r is Ok <==> 2 <= n <= total_frames
            &&& r matches Ok(count) ==> count == n
        }),
{
}

/// At a rate, the frames are those that the rate asks for, at least the smallest even number
/// that is not below the minimum, at most the largest even number that is not above the
/// maximum, at most the frames of the video, and an even number of them. Without a maximum,
/// 768 frames and the frames of the video bound them.
pub proof fn law_rates_are_held_within_their_bounds(
    frames: i64,
    min_frames: i64,
    max_frames: Option<i64>,
    total_frames: i64,
)
    requires
        -9007199254740992 <= frames <= 9007199254740992,
        -9007199254740992 <= min_frames < 9007199254740992,
        0 < total_frames <= 9007199254740992,
        max_frames matches Some(n) ==> -9007199254740992 <= n <= 9007199254740992,
    ensures
        ({
            let low = min_frames + min_frames % 2;
            let bound = if max_frames is Some {
                max_frames->Some_0 as int
            } else if total_frames < 768 {
                total_frames as int
            } else {
                768
            };
            let high = bound - bound % 2;
            let wanted = if frames < low {
                low
            } else {
                frames as int
            };
            let held = if wanted > high {
                high
            } else {
                wanted
            };
            let shown = if held > total_frames {
                total_frames as int
            } else {
                held
            };
            let n = shown - shown % 2;
            let sampling = FrameSampling::Fps {
                budget: RateBudget::Frames(frames),
                min_frames,
                max_frames,
            };
            let r = sampled_frames(sampling, total_frames, true);
            &&& r is Ok <==> 2 <= n
            &&& r matches Ok(count) ==> count == n
        }),
{
}

/// Frames are sampled at the first frame, at the last one, and at the given points between
/// them, each held within the video.
pub proof fn law_inner_frames_are_the_points(
    total_frames: i64,
    nframes: i64,
    points: Seq<i64>,
    i: int,
)
    ensures
        frame_indices(total_frames, nframes, points) is Ok <==> {
            &&& 0 < total_frames
            &&& 0 < nframes <= usize::MAX
            &&& nframes == 1 || points.len() == nframes - 1
        },
        frame_indices(total_frames, nframes, points) matches Ok(indices) ==> {
            &&& indices.len() == nframes
            &&& indices[0] == 0
            &&& nframes > 1 ==> indices[nframes - 1] == total_frames - 1
            &&& 0 < i < nframes - 1 && 0 <= points[i] < total_frames ==> indices[i] == points[i]
            &&& 0 < i < nframes - 1 && points[i] < 0 ==> indices[i] == 0
            &&& 0 < i < nframes - 1 && points[i] >= total_frames ==> indices[i] == total_frames - 1
        },
{
}

/// Frames are stacked where there are some, each was preprocessed, and all have the shape of
/// the first.
pub proof fn law_frames_of_one_shape_are_stacked<T>(frames: Seq<Frame<T>>, layout: Layout)
    ensures
        stacked(frames, layout) is Ok <==> {
            &&& 0 < frames.len()
            &&& layout is Hwc
            &&& forall|i: int| 0 <= i < frames.len() ==> (#[trigger] frames[i]) is Ok
            &&& forall|i: int|
                0 <= i < frames.len() ==> (#[trigger] frames[i])->Ok_0@.shape
                    == frames[0]->Ok_0@.shape
        },
{
    lemma_no_refused_frame(frames);
    if same_shapes(frames) {
        assert forall|i: int| 0 <= i < frames.len() implies (#[trigger] frames[i])->Ok_0@.shape
            == frames[0]->Ok_0@.shape by {
            assert(frame_at(frames, i).shape == frame_at(frames, 0).shape);
        }
    } else {
        let i = choose|i: int|
            0 <= i < frames.len() && #[trigger] frame_at(frames, i).shape != frame_at(
                frames,
                0,
            ).shape;
        assert(frames[i]->Ok_0@.shape != frames[0]->Ok_0@.shape);
    }
}

proof fn lemma_no_refused_frame<T>(frames: Seq<Frame<T>>)
    ensures
        first_refused(frames) is None <==> forall|i: int|
            0 <= i < frames.len() ==> (#[trigger] frames[i]) is Ok,
    decreases frames.len(),
{
    if frames.len() > 0 {
        let before = frames.drop_last();
        lemma_no_refused_frame(before);
        if first_refused(frames) is None {
            assert forall|i: int| 0 <= i < frames.len() implies (#[trigger] frames[i]) is Ok by {
                if i < before.len() {
                    assert(before[i] is Ok);
                }
            }
        }
        if forall|i: int| 0 <= i < frames.len() ==> (#[trigger] frames[i]) is Ok {
            assert forall|i: int| 0 <= i < before.len() implies (#[trigger] before[i]) is Ok by {
                assert(frames[i] is Ok);
            }
            assert(frames[frames.len() - 1] is Ok);
        }
    }
}


/// A rate that is no positive finite number samples nothing.
pub proof fn law_invalid_rates_sample_nothing(
    min_frames: i64,
    max_frames: Option<i64>,
    total_frames: i64,
    video_rate_is_valid: bool,
)
    ensures
        sampled_frames(
            FrameSampling::Fps { budget: RateBudget::InvalidRate, min_frames, max_frames },
            total_frames,
            video_rate_is_valid,
        ) matches Err(e) && e is ShapeMismatch,
{
}


/// Every refusal of a frame size or of a number of frames is one of shapes that do not fit.
pub proof fn law_refused_frames_are_of_shapes(
    height: i64,
    width: i64,
    factor: i64,
    min_pixels: i64,
    max_pixels: i64,
    shrunk: Quotients,
    grown: Quotients,
    sampling: FrameSampling,
    total_frames: i64,
    video_rate_is_valid: bool,
)
    ensures
        resized_frame(height, width, factor, min_pixels, max_pixels, shrunk, grown) matches Err(e)
            ==> e is ShapeMismatch,
        sampled_frames(sampling, total_frames, video_rate_is_valid) matches Err(e)
            ==> e is ShapeMismatch,
{
}

} // verus!
