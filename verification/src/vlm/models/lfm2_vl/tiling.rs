//! Splitting a large image into tiles.

use vstd::arithmetic::div_mod;
use vstd::arithmetic::power2;
use vstd::prelude::*;

use crate::array;
use crate::buffer::reserve_or_error;
use crate::error::{self, length_mismatch, out_of_range, overflow, Error};
use crate::model_validation::{require_positive_u32, Single};
use crate::vlm::image::{self, check_resize_rgb, resize_rgb_to_rgba};
use crate::vlm::models::lfm2_vl::patchify::{
    self, check_region, check_source, patchify_rgba_region, NormModel, NormTable, SourceLabels,
};
use crate::vlm::models::lfm2_vl::processor::{
    self, InputsModel, Lfm2VlImageInputs, Lfm2VlProcessorConfig, ProcessorSettings, TilingConfig,
};
use crate::vlm::resize::{self, Kernel};
use crate::vlm::video::{self, Quotients};

verus! {

// ---------------------------------------------------------------------------
// Sizes
// ---------------------------------------------------------------------------

/// `n / f`, rounded to the nearest integer, and to the even one of two.
pub open spec fn nearest_quotient(n: int, f: int) -> int {
    let q = n / f;
    let twice = 2 * (n % f);
    if twice < f || (twice == f && q % 2 == 0) {
        q
    } else {
        q + 1
    }
}

/// The multiple of a factor that is nearest to a number, or why there is none.
pub open spec fn rounded(number: u32, factor: u32) -> Result<u32, Error> {
    if factor == 0 {
        Err(
            out_of_range(
                "lfm2_vl tiling: round_by_factor factor",
                "must be a positive dimension (> 0)",
                0,
            ),
        )
    } else {
        let multiple = nearest_quotient(number as int, factor as int) * factor;
        if multiple > u32::MAX {
            Err(
                out_of_range(
                    "lfm2_vl tiling: round_by_factor result",
                    "rounded multiple must fit in u32",
                    multiple as i128,
                ),
            )
        } else {
            Ok(multiple as u32)
        }
    }
}

/// Rounds a number to the nearest multiple of a factor, and a number that is
/// halfway between two to the even one; see [`rounded`].
pub fn round_by_factor(number: u32, factor: u32) -> (r: Result<u32, Error>)
    ensures
        r == rounded(number, factor),
{
    require_positive_u32("lfm2_vl tiling: round_by_factor factor", factor)?;
    let q: u64 = (number / factor) as u64;
    let twice: u64 = (number % factor) as u64 * 2;
    let unit: u64 = factor as u64;
    let rounded_q: u64 = if twice < unit || (twice == unit && q % 2 == 0) {
        q
    } else {
        q + 1
    };
    proof {
        assert(q <= u32::MAX);
        assert(rounded_q * unit <= 0x1_0000_0000 * 0xffff_ffff) by (nonlinear_arith)
            requires
                rounded_q <= 0x1_0000_0000,
                unit <= 0xffff_ffff,
        ;
    }
    let scaled: u64 = rounded_q * unit;
    if scaled > u32::MAX as u64 {
        return Err(
            out_of_range(
                "lfm2_vl tiling: round_by_factor result",
                "rounded multiple must fit in u32",
                scaled as i128,
            ),
        );
    }
    Ok(scaled as u32)
}

/// A rounded number is a multiple of the factor, no other multiple is nearer, and
/// one that is as near is odd where this one is even.
pub proof fn law_rounding_is_to_the_nearest_multiple(number: u32, factor: u32, other: int)
    requires
        rounded(number, factor) is Ok,
    ensures
        ({
            let f = factor as int;
            let q = nearest_quotient(number as int, f);
            let distance = if q * f >= number {
                q * f - number
            } else {
                number - q * f
            };
            let other_distance = if other * f >= number {
                other * f - number
            } else {
                number - other * f
            };
            &&& rounded(number, factor)->Ok_0 == q * f
            &&& distance <= other_distance
            &&& distance == other_distance && other != q ==> q % 2 == 0
        }),
{
    let n = number as int;
    let f = factor as int;
    let q = n / f;
    div_mod::lemma_fundamental_div_mod(n, f);
    assert(f * q == q * f) by (nonlinear_arith);
    assert((q + 1) * f == q * f + f) by (nonlinear_arith);
    assert((q - 1) * f == q * f - f) by (nonlinear_arith);
    assert((q + 2) * f == q * f + 2 * f) by (nonlinear_arith);
    if other <= q - 1 {
        assert(other * f <= (q - 1) * f) by (nonlinear_arith)
            requires
                other <= q - 1,
                f > 0,
        ;
    } else if other >= q + 2 {
        assert(other * f >= (q + 2) * f) by (nonlinear_arith)
            requires
                other >= q + 2,
                f > 0,
        ;
    } else {
        assert(other == q || other == q + 1);
    }
}

/// The pixels along each axis that one token stands for, or why there are none.
pub open spec fn token_side(
    encoder_patch_size: u32,
    downsample_factor: u32,
    context: &'static str,
) -> Result<u32, Error> {
    if encoder_patch_size * downsample_factor > u32::MAX {
        Err(overflow(context, "u32", encoder_patch_size as i128, downsample_factor as i128))
    } else {
        Ok((encoder_patch_size * downsample_factor) as u32)
    }
}

fn plan_token_side(encoder_patch_size: u32, downsample_factor: u32, context: &'static str) -> (r:
    Result<u32, Error>)
    ensures
        r == token_side(encoder_patch_size, downsample_factor, context),
{
    match encoder_patch_size.checked_mul(downsample_factor) {
        Some(n) => Ok(n),
        None => Err(
            overflow(context, "u32", encoder_patch_size as i128, downsample_factor as i128),
        ),
    }
}

/// Whether `count > base * mantissa * 2^exponent`.
pub open spec fn exceeds(count: int, base: int, mantissa: int, exponent: int) -> bool {
    if exponent >= 0 {
        count > base * mantissa * power2::pow2(exponent as nat)
    } else {
        count * power2::pow2((-exponent) as nat) > base * mantissa
    }
}

/// `n / 2^k`, rounded down.
fn halved(n: u128, k: u32) -> (r: u128)
    ensures
        r == n as int / power2::pow2(k as nat) as int,
{
    let mut x: u128 = n;
    let mut i: u32 = 0;
    proof {
        assert(power2::pow2(0) == 1) by {
            reveal(vstd::arithmetic::power::pow);
        }
    }
    while i < k && x > 0
        invariant
            i <= k,
            x == n as int / power2::pow2(i as nat) as int,
        decreases k - i,
    {
        proof {
            power2::lemma_pow2_pos(i as nat);
            power2::lemma_pow2_unfold((i + 1) as nat);
            div_mod::lemma_div_denominator(n as int, power2::pow2(i as nat) as int, 2);
            assert(power2::pow2(i as nat) * 2 == power2::pow2((i + 1) as nat));
        }
        x = x / 2;
        i += 1;
    }
    proof {
        if i < k {
            power2::lemma_pow2_pos(i as nat);
            power2::lemma_pow2_pos((k - i) as nat);
            vstd::arithmetic::power2::lemma_pow2_adds(i as nat, (k - i) as nat);
            div_mod::lemma_div_denominator(
                n as int,
                power2::pow2(i as nat) as int,
                power2::pow2((k - i) as nat) as int,
            );
            assert(i as nat + (k - i) as nat == k as nat);
            assert(0int / power2::pow2((k - i) as nat) as int == 0) by {
                vstd::arithmetic::div_mod::lemma_div_basics(power2::pow2((k - i) as nat) as int);
            }
        }
    }
    x
}

/// Whether a product exceeds another that a power of two scales.
fn product_exceeds(a: u32, b: u32, tokens: u32, side: u32, mantissa: u32, exponent: i32) -> (r: bool)
    ensures
        r == exceeds(a * b, tokens * (side * side), mantissa as int, exponent as int),
{
    proof {
        assert(a * b <= u64::MAX) by (nonlinear_arith)
            requires
                a <= u32::MAX,
                b <= u32::MAX,
        ;
        assert(side * side <= 0xffff_fffe_0000_0001) by (nonlinear_arith)
            requires
                side <= 0xffff_ffff,
        ;
        assert(tokens * (side * side) <= 0xffff_ffff * 0xffff_fffe_0000_0001) by (nonlinear_arith)
            requires
                tokens <= 0xffff_ffff,
                0 <= side * side <= 0xffff_fffe_0000_0001,
        ;
        assert(0 <= side * side) by (nonlinear_arith);
        assert(0 <= tokens * (side * side)) by (nonlinear_arith)
            requires
                0 <= side * side,
        ;
        assert(tokens * (side * side) * mantissa <= (0xffff_ffff * 0xffff_fffe_0000_0001)
            * 0xffff_ffff) by (nonlinear_arith)
            requires
                0 <= tokens * (side * side) <= 0xffff_ffff * 0xffff_fffe_0000_0001,
                mantissa <= 0xffff_ffff,
        ;
        assert(0 <= a * b) by (nonlinear_arith);
        assert(0 <= tokens * (side * side) * mantissa) by (nonlinear_arith)
            requires
                0 <= tokens * (side * side),
        ;
    }
    let count: u128 = a as u128 * b as u128;
    let base: u128 = tokens as u128 * (side as u128 * side as u128);
    let bound: u128 = base * mantissa as u128;
    if exponent >= 0 {
        if count == 0 {
            proof {
                assert(bound * power2::pow2(exponent as nat) >= 0) by (nonlinear_arith)
                    requires
                        bound >= 0,
                ;
            }
            return false;
        }
        let scaled: u128 = halved(count - 1, exponent as u32);
        proof {
            let d = power2::pow2(exponent as nat) as int;
            power2::lemma_pow2_pos(exponent as nat);
            lemma_at_least_quotient(count - 1, d, bound as int);
        }
        scaled >= bound
    } else {
        let k: u32 = (-(exponent as i64)) as u32;
        let scaled: u128 = halved(bound, k);
        proof {
            let d = power2::pow2(k as nat) as int;
            power2::lemma_pow2_pos(k as nat);
            lemma_at_least_quotient_bound(bound as int, d, count as int);
        }
        count > scaled
    }
}

proof fn lemma_at_least_quotient(n: int, d: int, b: int)
    requires
        0 <= n,
        0 < d,
    ensures
        n / d >= b <==> n >= b * d,
{
    div_mod::lemma_fundamental_div_mod(n, d);
    let q = n / d;
    assert(d * q == q * d) by (nonlinear_arith);
    if q >= b {
        assert(q * d >= b * d) by (nonlinear_arith)
            requires
                q >= b,
                d > 0,
        ;
    } else {
        assert((q + 1) * d <= b * d) by (nonlinear_arith)
            requires
                q + 1 <= b,
                d > 0,
        ;
        assert((q + 1) * d == q * d + d) by (nonlinear_arith);
    }
}

proof fn lemma_at_least_quotient_bound(b: int, d: int, n: int)
    requires
        0 <= b,
        0 < d,
    ensures
        n > b / d <==> n * d > b,
{
    div_mod::lemma_fundamental_div_mod(b, d);
    let q = b / d;
    assert(d * q == q * d) by (nonlinear_arith);
    if n > q {
        assert(n * d >= (q + 1) * d) by (nonlinear_arith)
            requires
                n >= q + 1,
                d > 0,
        ;
        assert((q + 1) * d == q * d + d) by (nonlinear_arith);
    } else {
        assert(n * d <= q * d) by (nonlinear_arith)
            requires
                n <= q,
                d > 0,
        ;
    }
}

/// The larger of two numbers.
pub open spec fn larger(a: u32, b: u32) -> u32 {
    if a >= b {
        a
    } else {
        b
    }
}

fn larger_of(a: u32, b: u32) -> (r: u32)
    ensures
        r == larger(a, b),
{
    if a >= b {
        a
    } else {
        b
    }
}

/// Whether an image is over the token budget by more than the tolerance, or why
/// that cannot be said.
pub open spec fn too_large(
    height: u32,
    width: u32,
    max_image_tokens: u32,
    encoder_patch_size: u32,
    downsample_factor: u32,
    mantissa: u32,
    exponent: i32,
) -> Result<bool, Error> {
    match token_side(
        encoder_patch_size,
        downsample_factor,
        "lfm2_vl tiling: too_large total_factor",
    ) {
        Err(e) => Err(e),
        Ok(side) => match rounded(height, side) {
            Err(e) => Err(e),
            Ok(h) => match rounded(width, side) {
                Err(e) => Err(e),
                Ok(w) => Ok(
                    exceeds(
                        larger(encoder_patch_size, h) * larger(encoder_patch_size, w),
                        max_image_tokens * (side * side),
                        mantissa as int,
                        exponent as int,
                    ),
                ),
            },
        },
    }
}

/// Whether the rounded area of an image is more than
/// `max_image_tokens * encoder_patch_size^2 * downsample_factor^2` times the
/// tolerance `mantissa * 2^exponent`; see [`too_large`].
pub fn is_image_too_large(
    height: u32,
    width: u32,
    max_image_tokens: u32,
    encoder_patch_size: u32,
    downsample_factor: u32,
    mantissa: u32,
    exponent: i32,
) -> (r: Result<bool, Error>)
    ensures
        r == too_large(
            height,
            width,
            max_image_tokens,
            encoder_patch_size,
            downsample_factor,
            mantissa,
            exponent,
        ),
{
    let side: u32 = plan_token_side(
        encoder_patch_size,
        downsample_factor,
        "lfm2_vl tiling: too_large total_factor",
    )?;
    let h: u32 = round_by_factor(height, side)?;
    let w: u32 = round_by_factor(width, side)?;
    Ok(
        product_exceeds(
            larger_of(encoder_patch_size, h),
            larger_of(encoder_patch_size, w),
            max_image_tokens,
            side,
            mantissa,
            exponent,
        ),
    )
}

/// A side of `quotient` token sides, or why it is refused.
pub open spec fn scaled_side(quotient: Option<i64>, side: u32, context: &'static str) -> Result<
    u32,
    Error,
> {
    match quotient {
        Some(q) if 0 <= q * side <= u32::MAX => Ok((q * side) as u32),
        Some(q) => Err(
            out_of_range(
                context,
                "resized dimension must be a finite non-negative value within u32",
                q as i128,
            ),
        ),
        None => Err(
            out_of_range(
                context,
                "resized dimension must be a finite non-negative value within u32",
                0,
            ),
        ),
    }
}

fn scale_side(quotient: Option<i64>, side: u32, context: &'static str) -> (r: Result<u32, Error>)
    ensures
        r == scaled_side(quotient, side, context),
{
    match quotient {
        Some(q) => {
            proof {
                assert(i128::MIN <= q * side <= i128::MAX) by (nonlinear_arith)
                    requires
                        -0x8000_0000_0000_0000 <= q <= 0x7fff_ffff_ffff_ffff,
                        0 <= side <= 0xffff_ffff,
                ;
            }
            let n: i128 = q as i128 * side as i128;
            if 0 <= n && n <= u32::MAX as i128 {
                Ok(n as u32)
            } else {
                Err(
                    out_of_range(
                        context,
                        "resized dimension must be a finite non-negative value within u32",
                        q as i128,
                    ),
                )
            }
        },
        None => Err(
            out_of_range(
                context,
                "resized dimension must be a finite non-negative value within u32",
                0,
            ),
        ),
    }
}

/// The width and height that an image is resized to within the token budget, or
/// why it is refused.
pub open spec fn resized_size(
    height: u32,
    width: u32,
    downsample_factor: u32,
    min_image_tokens: u32,
    max_image_tokens: u32,
    encoder_patch_size: u32,
    shrunk: Quotients,
    grown: Quotients,
) -> Result<(u32, u32), Error> {
    match token_side(
        encoder_patch_size,
        downsample_factor,
        "lfm2_vl tiling: total_factor (encoder_patch_size * downsample_factor)",
    ) {
        Err(e) => Err(e),
        Ok(side) => if side == 0 {
            Err(
                out_of_range(
                    "lfm2_vl tiling: smart_resize total_factor",
                    "must be a positive dimension (> 0)",
                    0,
                ),
            )
        } else {
            match rounded(height, side) {
                Err(e) => Err(e),
                Ok(h) => match rounded(width, side) {
                    Err(e) => Err(e),
                    Ok(w) => budgeted_size(
                        larger(side, h),
                        larger(side, w),
                        side,
                        min_image_tokens,
                        max_image_tokens,
                        shrunk,
                        grown,
                    ),
                },
            }
        },
    }
}

/// The width and height of an image whose aligned sides are `h` and `w`: those
/// sides where they are within the budget, and the scaled ones where they are
/// not.
pub open spec fn budgeted_size(
    h: u32,
    w: u32,
    side: u32,
    min_image_tokens: u32,
    max_image_tokens: u32,
    shrunk: Quotients,
    grown: Quotients,
) -> Result<(u32, u32), Error> {
    if h * w > max_image_tokens * (side * side) {
        match scaled_side(shrunk.height, side, "lfm2_vl tiling: floor_to_factor") {
            Err(e) => Err(e),
            Ok(sh) => match scaled_side(shrunk.width, side, "lfm2_vl tiling: floor_to_factor") {
                Err(e) => Err(e),
                Ok(sw) => Ok((larger(side, sw), larger(side, sh))),
            },
        }
    } else if h * w < min_image_tokens * (side * side) {
        match scaled_side(grown.height, side, "lfm2_vl tiling: ceil_to_factor") {
            Err(e) => Err(e),
            Ok(gh) => match scaled_side(grown.width, side, "lfm2_vl tiling: ceil_to_factor") {
                Err(e) => Err(e),
                Ok(gw) => Ok((gw, gh)),
            },
        }
    } else {
        Ok((w, h))
    }
}

/// The width and height that an image is resized to: multiples of the side of a
/// token, the aspect ratio kept, and the number of tokens aimed at
/// `min_image_tokens` to `max_image_tokens`; see [`resized_size`].
///
/// With `side = encoder_patch_size * downsample_factor`, `shrunk` holds
/// `height / beta / side` and `width / beta / side`, rounded down, for
/// `beta = sqrt(height * width / (max_image_tokens * side^2))`; `grown` holds
/// `height * beta / side` and `width * beta / side`, rounded up, for
/// `beta = sqrt(min_image_tokens * side^2 / (height * width))`.
pub fn smart_resize(
    height: u32,
    width: u32,
    downsample_factor: u32,
    min_image_tokens: u32,
    max_image_tokens: u32,
    encoder_patch_size: u32,
    shrunk: Quotients,
    grown: Quotients,
) -> (r: Result<(u32, u32), Error>)
    ensures
        r == resized_size(
            height,
            width,
            downsample_factor,
            min_image_tokens,
            max_image_tokens,
            encoder_patch_size,
            shrunk,
            grown,
        ),
{
    let side: u32 = plan_token_side(
        encoder_patch_size,
        downsample_factor,
        "lfm2_vl tiling: total_factor (encoder_patch_size * downsample_factor)",
    )?;
    require_positive_u32("lfm2_vl tiling: smart_resize total_factor", side)?;
    let h: u32 = larger_of(side, round_by_factor(height, side)?);
    let w: u32 = larger_of(side, round_by_factor(width, side)?);
    proof {
        lemma_area_bounds(h, w, side, min_image_tokens, max_image_tokens);
    }
    let area: u128 = h as u128 * w as u128;
    let unit: u128 = side as u128 * side as u128;
    if area > max_image_tokens as u128 * unit {
        let sh: u32 = scale_side(shrunk.height, side, "lfm2_vl tiling: floor_to_factor")?;
        let sw: u32 = scale_side(shrunk.width, side, "lfm2_vl tiling: floor_to_factor")?;
        Ok((larger_of(side, sw), larger_of(side, sh)))
    } else if area < min_image_tokens as u128 * unit {
        let gh: u32 = scale_side(grown.height, side, "lfm2_vl tiling: ceil_to_factor")?;
        let gw: u32 = scale_side(grown.width, side, "lfm2_vl tiling: ceil_to_factor")?;
        Ok((gw, gh))
    } else {
        Ok((w, h))
    }
}

proof fn lemma_area_bounds(h: u32, w: u32, side: u32, a: u32, b: u32)
    ensures
        0 <= h * w <= u64::MAX,
        0 <= side * side <= u64::MAX,
        0 <= a * (side * side) <= u128::MAX,
        0 <= b * (side * side) <= u128::MAX,
{
    assert(0 <= h * w <= 0xffff_ffff * 0xffff_ffff) by (nonlinear_arith)
        requires
            0 <= h <= 0xffff_ffff,
            0 <= w <= 0xffff_ffff,
    ;
    let unit = side * side;
    assert(0 <= unit <= 0xffff_ffff * 0xffff_ffff) by (nonlinear_arith)
        requires
            unit == side * side,
            0 <= side <= 0xffff_ffff,
    ;
    assert(0 <= a * unit <= 0xffff_ffff * (0xffff_ffff * 0xffff_ffff)) by (nonlinear_arith)
        requires
            0 <= unit <= 0xffff_ffff * 0xffff_ffff,
            0 <= a <= 0xffff_ffff,
    ;
    assert(0 <= b * unit <= 0xffff_ffff * (0xffff_ffff * 0xffff_ffff)) by (nonlinear_arith)
        requires
            0 <= unit <= 0xffff_ffff * 0xffff_ffff,
            0 <= b <= 0xffff_ffff,
    ;
}

/// Both sides of a resized image are whole numbers of tokens.
pub proof fn law_resized_sides_are_whole_tokens(
    height: u32,
    width: u32,
    downsample_factor: u32,
    min_image_tokens: u32,
    max_image_tokens: u32,
    encoder_patch_size: u32,
    shrunk: Quotients,
    grown: Quotients,
)
    requires
        resized_size(
            height,
            width,
            downsample_factor,
            min_image_tokens,
            max_image_tokens,
            encoder_patch_size,
            shrunk,
            grown,
        ) is Ok,
    ensures
        ({
            let side = encoder_patch_size * downsample_factor;
            let size = resized_size(
                height,
                width,
                downsample_factor,
                min_image_tokens,
                max_image_tokens,
                encoder_patch_size,
                shrunk,
                grown,
            )->Ok_0;
            side > 0 && size.0 as int % side == 0 && size.1 as int % side == 0
        }),
{
    let side = encoder_patch_size * downsample_factor;
    assert(side >= 0) by (nonlinear_arith)
        requires
            side == encoder_patch_size * downsample_factor,
    ;
    assert forall|q: int| #[trigger] (q * side) % side == 0 by {
        div_mod::lemma_mod_multiples_basic(q, side);
    }
    assert(1 * side == side);
    assert((1 * side) % side == 0);
    let h = nearest_quotient(height as int, side);
    let w = nearest_quotient(width as int, side);
    assert((h * side) % side == 0);
    assert((w * side) % side == 0);
    match (shrunk.height, shrunk.width) {
        (Some(a), Some(b)) => {
            assert((a * side) % side == 0);
            assert((b * side) % side == 0);
        },
        _ => {},
    }
    match (grown.height, grown.width) {
        (Some(a), Some(b)) => {
            assert((a * side) % side == 0);
            assert((b * side) % side == 0);
        },
        _ => {},
    }
}

/// Where the quotients are exactly rounded, an image that is scaled down to one
/// token or more along each side keeps within the budget, one that is scaled up
/// reaches it, and one that is not scaled is within it.
pub proof fn law_exactly_scaled_images_meet_the_budget(
    height: int,
    width: int,
    h: u32,
    w: u32,
    side: u32,
    min_image_tokens: u32,
    max_image_tokens: u32,
    shrunk: (i64, i64),
    grown: (i64, i64),
)
    requires
        0 < height,
        0 < width,
        0 < side,
        0 < shrunk.0,
        0 < shrunk.1,
        0 <= grown.0,
        0 <= grown.1,
        ({
            let most = max_image_tokens * (side * side);
            let least = min_image_tokens * (side * side);
            &&& (shrunk.0 * side) * (shrunk.0 * side) * width <= height * most
            &&& (shrunk.1 * side) * (shrunk.1 * side) * height <= width * most
            &&& (grown.0 * side) * (grown.0 * side) * width >= height * least
            &&& (grown.1 * side) * (grown.1 * side) * height >= width * least
        }),
        budgeted_size(
            h,
            w,
            side,
            min_image_tokens,
            max_image_tokens,
            (Quotients { height: Some(shrunk.0), width: Some(shrunk.1) }),
            (Quotients { height: Some(grown.0), width: Some(grown.1) }),
        ) is Ok,
    ensures
        ({
            let most = max_image_tokens * (side * side);
            let least = min_image_tokens * (side * side);
            let size = budgeted_size(
                h,
                w,
                side,
                min_image_tokens,
                max_image_tokens,
                (Quotients { height: Some(shrunk.0), width: Some(shrunk.1) }),
                (Quotients { height: Some(grown.0), width: Some(grown.1) }),
            )->Ok_0;
            &&& h * w > most ==> size.0 * size.1 <= most
            &&& h * w <= most && h * w < least ==> size.0 * size.1 >= least
            &&& h * w <= most && h * w >= least ==> least <= size.0 * size.1 <= most
        }),
{
    let most = max_image_tokens * (side * side);
    let least = min_image_tokens * (side * side);
    assert(w * h == h * w) by (nonlinear_arith);
    if h * w > most {
        let a = shrunk.0 * side;
        let b = shrunk.1 * side;
        assert(a >= side && b >= side) by (nonlinear_arith)
            requires
                a == shrunk.0 * side,
                b == shrunk.1 * side,
                0 < shrunk.0,
                0 < shrunk.1,
                0 < side,
        ;
        assert(0 < most) by (nonlinear_arith)
            requires
                0 < a,
                0 < height,
                0 < width,
                a * a * width <= height * most,
        ;
        video::law_exactly_shrunk_frames_fit_the_budget(
            height,
            width,
            side as int,
            most,
            shrunk.0 as int,
            shrunk.1 as int,
        );
        assert(b * a == a * b) by (nonlinear_arith);
    } else if h * w < least {
        let a = grown.0 * side;
        let b = grown.1 * side;
        video::law_exactly_grown_frames_reach_the_budget(
            height,
            width,
            side as int,
            least,
            grown.0 as int,
            grown.1 as int,
        );
        assert(b * a == a * b) by (nonlinear_arith);
    }
}

// ---------------------------------------------------------------------------
// The tile grid
// ---------------------------------------------------------------------------

/// The grids of `n` tiles that are at most `k` tiles wide, by their width.
pub open spec fn grids_of(n: int, k: int) -> Seq<(u32, u32)>
    decreases k,
{
    if k <= 0 {
        Seq::empty()
    } else if n % k == 0 {
        grids_of(n, k - 1).push((k as u32, (n / k) as u32))
    } else {
        grids_of(n, k - 1)
    }
}

/// The tile grids of `min_tiles` to `n` tiles, by their number of tiles and then
/// by their width.
pub open spec fn candidates(min_tiles: int, n: int) -> Seq<(u32, u32)>
    decreases n,
{
    if n < min_tiles || n <= 0 {
        Seq::empty()
    } else {
        candidates(min_tiles, n - 1) + grids_of(n, n)
    }
}

/// Why the candidate grids are refused, if they are.
pub open spec fn candidates_outcome(max_tiles: u32) -> Result<(), Error> {
    if max_tiles * max_tiles > usize::MAX {
        Err(
            overflow(
                "lfm2_vl tiling: target-ratio candidate bound (max_tiles^2)",
                "usize",
                max_tiles as i128,
                max_tiles as i128,
            ),
        )
    } else {
        Ok(())
    }
}

/// Appends the candidate grids to an empty buffer.
pub fn fill_candidates(min_tiles: u32, max_tiles: u32, buffer: Vec<(u32, u32)>) -> (r: Vec<
    (u32, u32),
>)
    requires
        buffer@.len() == 0,
    ensures
        r@ == candidates(min_tiles as int, max_tiles as int),
{
    let mut out: Vec<(u32, u32)> = buffer;
    if min_tiles > max_tiles || max_tiles == 0 {
        return out;
    }
    let mut n: u32 = if min_tiles == 0 {
        1
    } else {
        min_tiles
    };
    assert(candidates(min_tiles as int, n - 1) =~= Seq::empty());
    loop
        invariant_except_break
            min_tiles <= n <= max_tiles,
            0 < n,
            out@ == candidates(min_tiles as int, n - 1),
        ensures
            out@ == candidates(min_tiles as int, max_tiles as int),
        decreases max_tiles - n,
    {
        let ghost before = out@;
        let mut k: u32 = 0;
        assert(out@ =~= before + grids_of(n as int, 0));
        while k < n
            invariant
                k <= n,
                0 < n,
                out@ == before + grids_of(n as int, k as int),
            decreases n - k,
        {
            k += 1;
            if n % k == 0 {
                out.push((k, n / k));
            }
            assert(out@ =~= before + grids_of(n as int, k as int));
        }
        if n == max_tiles {
            break;
        }
        n += 1;
    }
    out
}

/// Every grid of `min_tiles` to `max_tiles` tiles, by the number of tiles and
/// then by the width; see [`candidates`]. No grid has no tiles, so a `min_tiles` of
/// zero means one.
///
/// Candidates that are not refused can still fail for want of memory, unless
/// `max_tiles` is zero and there are none.
pub fn target_ratios(min_tiles: u32, max_tiles: u32) -> (r: Result<Vec<(u32, u32)>, Error>)
    ensures
        match candidates_outcome(max_tiles) {
            Err(e) => r == Err::<Vec<(u32, u32)>, Error>(e),
            Ok(_) => match r {
                Ok(ratios) => ratios@ == candidates(min_tiles as int, max_tiles as int),
                Err(e) => e == (Error::AllocFailure { context: "lfm2_vl tiling: target ratio" }),
            },
        },
        max_tiles == 0 ==> r is Ok,
{
    assert(0 * 0 == 0) by (nonlinear_arith);
    let bound: usize = match (max_tiles as usize).checked_mul(max_tiles as usize) {
        Some(n) => n,
        None => {
            return Err(
                overflow(
                    "lfm2_vl tiling: target-ratio candidate bound (max_tiles^2)",
                    "usize",
                    max_tiles as i128,
                    max_tiles as i128,
                ),
            );
        },
    };
    let buffer: Vec<(u32, u32)> = reserve_or_error(bound, "lfm2_vl tiling: target ratio")?;
    Ok(fill_candidates(min_tiles, max_tiles, buffer))
}

/// Whether a grid comes before another: it has fewer tiles, or as many and is
/// narrower.
pub open spec fn comes_before(a: (u32, u32), b: (u32, u32)) -> bool {
    a.0 * a.1 < b.0 * b.1 || (a.0 * a.1 == b.0 * b.1 && a.0 < b.0)
}

proof fn lemma_grids_of(n: int, k: int)
    requires
        0 < n <= u32::MAX,
        0 <= k <= n,
    ensures
        forall|i: int|
            0 <= i < grids_of(n, k).len() ==> {
                let g = #[trigger] grids_of(n, k)[i];
                0 < g.0 <= k && 0 < g.1 && g.0 * g.1 == n
            },
        forall|i: int, j: int|
            0 <= i < j < grids_of(n, k).len() ==> (#[trigger] grids_of(n, k)[i]).0 < (
            #[trigger] grids_of(n, k)[j]).0,
        forall|w: u32, h: u32|
            0 < w <= k && w * h == n ==> #[trigger] grids_of(n, k).contains((w, h)),
    decreases k,
{
    if k > 0 {
        lemma_grids_of(n, k - 1);
        let before = grids_of(n, k - 1);
        let all = grids_of(n, k);
        div_mod::lemma_fundamental_div_mod(n, k);
        if n % k == 0 {
            let h = n / k;
            assert(0 < h <= n) by (nonlinear_arith)
                requires
                    k * h == n,
                    0 < k,
                    0 < n,
            ;
            assert(k * h == h * k) by (nonlinear_arith);
            assert(all[before.len() as int] == (k as u32, h as u32));
        }
        assert forall|w: u32, h: u32| 0 < w <= k && w * h == n implies #[trigger] all.contains(
            (w, h),
        ) by {
            if w < k {
                assert(before.contains((w, h)));
                let i = choose|i: int| 0 <= i < before.len() && before[i] == (w, h);
                assert(all[i] == (w, h));
            } else {
                assert(h * k == w * h) by (nonlinear_arith)
                    requires
                        w == k,
                ;
                vstd::arithmetic::div_mod::lemma_fundamental_div_mod_converse(
                    n,
                    k,
                    h as int,
                    0,
                );
                assert(all[before.len() as int] == (w, h));
            }
        }
    }
}

/// The candidates are exactly the grids of `min_tiles` to `max_tiles` tiles, each
/// once, by the number of tiles and then by the width.
pub proof fn law_candidates_are_all_the_grids(min_tiles: u32, max_tiles: int)
    requires
        max_tiles <= u32::MAX,
    ensures
        forall|i: int|
            0 <= i < candidates(min_tiles as int, max_tiles).len() ==> {
                let g = #[trigger] candidates(min_tiles as int, max_tiles)[i];
                0 < g.0 && 0 < g.1 && min_tiles <= g.0 * g.1 <= max_tiles
            },
        forall|i: int, j: int|
            0 <= i < j < candidates(min_tiles as int, max_tiles).len() ==> comes_before(
                #[trigger] candidates(min_tiles as int, max_tiles)[i],
                #[trigger] candidates(min_tiles as int, max_tiles)[j],
            ),
        forall|w: u32, h: u32|
            0 < w && 0 < h && min_tiles <= w * h <= max_tiles ==> #[trigger] candidates(
                min_tiles as int,
                max_tiles,
            ).contains((w, h)),
    decreases max_tiles,
{
    let n = max_tiles;
    if n >= min_tiles && n > 0 {
        law_candidates_are_all_the_grids(min_tiles, n - 1);
        lemma_grids_of(n, n);
        let before = candidates(min_tiles as int, n - 1);
        let last = grids_of(n, n);
        let all = candidates(min_tiles as int, n);
        assert(all == before + last);
        assert forall|i: int, j: int| 0 <= i < j < all.len() implies comes_before(
            #[trigger] all[i],
            #[trigger] all[j],
        ) by {
            if j >= before.len() {
                assert(all[j] == last[j - before.len()]);
            }
            if i >= before.len() {
                assert(all[i] == last[i - before.len()]);
            }
        }
        assert forall|i: int| 0 <= i < all.len() implies {
            let g = #[trigger] all[i];
            0 < g.0 && 0 < g.1 && min_tiles <= g.0 * g.1 <= n
        } by {
            if i >= before.len() {
                assert(all[i] == last[i - before.len()]);
            }
        }
        assert forall|w: u32, h: u32|
            0 < w && 0 < h && min_tiles <= w * h <= n implies #[trigger] all.contains((w, h)) by {
            if w * h <= n - 1 {
                assert(before.contains((w, h)));
                let i = choose|i: int| 0 <= i < before.len() && before[i] == (w, h);
                assert(all[i] == (w, h));
            } else {
                assert(w <= n) by (nonlinear_arith)
                    requires
                        w * h == n,
                        0 < w,
                        0 < h,
                ;
                assert(last.contains((w, h)));
                let i = choose|i: int| 0 <= i < last.len() && last[i] == (w, h);
                assert(all[before.len() + i] == (w, h));
            }
        }
    } else {
        assert forall|w: u32, h: u32|
            0 < w && 0 < h && min_tiles <= w * h <= n implies #[trigger] candidates(
            min_tiles as int,
            n,
        ).contains((w, h)) by {
            assert(w * h > 0) by (nonlinear_arith)
                requires
                    0 < w,
                    0 < h,
            ;
        }
    }
}

/// The bit pattern of the double-precision infinity.
pub const INFINITY_BITS: u64 = 0x7ff0_0000_0000_0000;

/// The nearest grid among the first `k`, and the pattern of its distance.
///
/// A grid displaces the one before it where it is nearer, and where it is as near
/// and the image covers more than half of its area.
pub open spec fn nearest_of(
    differences: Seq<u64>,
    ratios: Seq<(u32, u32)>,
    area: int,
    image_size: int,
    k: int,
) -> (u64, (u32, u32))
    decreases k,
{
    if k <= 0 {
        (INFINITY_BITS, (1u32, 1u32))
    } else {
        let best = nearest_of(differences, ratios, area, image_size, k - 1);
        let d = differences[k - 1];
        let g = ratios[k - 1];
        if d < best.0 || (d == best.0 && 2 * area > image_size * image_size * (g.0 * g.1)) {
            (d, g)
        } else {
            best
        }
    }
}

/// The grid whose aspect ratio is nearest to that of an image; see
/// [`nearest_of`].
///
/// `differences` holds, for each grid `(w, h)`, the bit pattern of
/// `|width / height - w / h|` in double precision. The patterns of numbers that
/// are not negative order as the numbers do.
pub fn find_closest_aspect_ratio(
    differences: &[u64],
    target_ratios: &[(u32, u32)],
    width: u32,
    height: u32,
    image_size: u32,
) -> (r: (u32, u32))
    requires
        differences@.len() == target_ratios@.len(),
    ensures
        r == nearest_of(
            differences@,
            target_ratios@,
            width * height,
            image_size as int,
            target_ratios@.len() as int,
        ).1,
{
    proof {
        lemma_area_bounds(width, height, image_size, 0, 0);
    }
    let area: u128 = width as u128 * height as u128;
    let unit: u128 = image_size as u128 * image_size as u128;
    let mut best_difference: u64 = INFINITY_BITS;
    let mut best: (u32, u32) = (1, 1);
    let mut i: usize = 0;
    while i < target_ratios.len()
        invariant
            i <= target_ratios@.len(),
            differences@.len() == target_ratios@.len(),
            area == width * height,
            area <= u64::MAX,
            unit == image_size * image_size,
            unit <= u64::MAX,
            (best_difference, best) == nearest_of(
                differences@,
                target_ratios@,
                width * height,
                image_size as int,
                i as int,
            ),
        decreases target_ratios@.len() - i,
    {
        let d: u64 = differences[i];
        let (w, h): (u32, u32) = target_ratios[i];
        if d < best_difference {
            best_difference = d;
            best = (w, h);
        } else if d == best_difference {
            proof {
                assert(0 <= w * h <= 0xffff_ffff * 0xffff_ffff) by (nonlinear_arith)
                    requires
                        0 <= w <= 0xffff_ffff,
                        0 <= h <= 0xffff_ffff,
                ;
                assert(unit * (w * h) <= u128::MAX) by (nonlinear_arith)
                    requires
                        0 <= unit <= 0xffff_ffff_ffff_ffff,
                        0 <= w * h <= 0xffff_ffff * 0xffff_ffff,
                ;
            }
            if area * 2 > unit * (w as u128 * h as u128) {
                best = (w, h);
            }
        }
        i += 1;
    }
    best
}

/// No grid is nearer to the image than the one that is chosen. The one that is
/// chosen is a candidate with its distance, as long as some distance is finite, and a
/// candidate or the single tile in any case.
pub proof fn law_the_chosen_grid_is_nearest(
    differences: Seq<u64>,
    ratios: Seq<(u32, u32)>,
    area: int,
    image_size: int,
    k: int,
)
    requires
        0 <= k <= ratios.len(),
        differences.len() == ratios.len(),
    ensures
        (exists|i: int| 0 <= i < k && #[trigger] differences[i] < INFINITY_BITS) ==> (exists|i: int|
            0 <= i < k && nearest_of(differences, ratios, area, image_size, k) == (
                #[trigger] differences[i],
                ratios[i],
            )),
        forall|i: int|
            0 <= i < k ==> nearest_of(differences, ratios, area, image_size, k).0
                <= #[trigger] differences[i],
        nearest_of(differences, ratios, area, image_size, k).1 == (1u32, 1u32) || exists|i: int|
            0 <= i < k && nearest_of(differences, ratios, area, image_size, k).1
                == #[trigger] ratios[i],
{
    lemma_nearest(differences, ratios, area, image_size, k);
}

proof fn lemma_nearest(
    differences: Seq<u64>,
    ratios: Seq<(u32, u32)>,
    area: int,
    image_size: int,
    k: int,
)
    requires
        0 <= k <= ratios.len(),
        differences.len() == ratios.len(),
    ensures
        ({
            let best = nearest_of(differences, ratios, area, image_size, k);
            &&& best.0 <= INFINITY_BITS
            &&& forall|i: int| 0 <= i < k ==> best.0 <= #[trigger] differences[i]
            &&& best.0 < INFINITY_BITS ==> exists|i: int|
                0 <= i < k && best == (#[trigger] differences[i], ratios[i])
            &&& best.1 == (1u32, 1u32) || exists|i: int|
                0 <= i < k && best.1 == #[trigger] ratios[i]
        }),
    decreases k,
{
    if k > 0 {
        lemma_nearest(differences, ratios, area, image_size, k - 1);
        let before = nearest_of(differences, ratios, area, image_size, k - 1);
        let best = nearest_of(differences, ratios, area, image_size, k);
        if best.0 < INFINITY_BITS {
            if best == before {
                let i = choose|i: int|
                    0 <= i < k - 1 && before == (#[trigger] differences[i], ratios[i]);
                assert(best == (differences[i], ratios[i]));
            } else {
                assert(best == (differences[k - 1], ratios[k - 1]));
            }
        }
    }
}

/// The numbers that only floating-point arithmetic gives for an image.
#[derive(Debug)]
pub struct TileNumbers {
    /// The sides of the image scaled down to the token budget; see
    /// [`smart_resize`].
    pub shrunk: Quotients,
    /// The sides of the image scaled up to the token budget; see
    /// [`smart_resize`].
    pub grown: Quotients,
    /// The distance of the image from each candidate grid; see
    /// [`find_closest_aspect_ratio`].
    pub differences: Vec<u64>,
}

/// The tile grid of an image and the size that it is cut from, or why it is
/// refused: grid width, grid height, target width, target height.
pub open spec fn grid_layout(
    height: u32,
    width: u32,
    min_tiles: u32,
    max_tiles: u32,
    tile_size: u32,
    differences: Seq<u64>,
) -> Result<(u32, u32, u32, u32), Error> {
    let ratios = candidates(min_tiles as int, max_tiles as int);
    match candidates_outcome(max_tiles) {
        Err(e) => Err(e),
        Ok(_) => if differences.len() != ratios.len() {
            Err(
                length_mismatch(
                    "lfm2_vl tiling: aspect-ratio distances vs candidate grids",
                    ratios.len() as usize,
                    differences.len() as usize,
                ),
            )
        } else {
            let grid = nearest_of(
                differences,
                ratios,
                width * height,
                tile_size as int,
                ratios.len() as int,
            ).1;
            if tile_size * grid.0 > u32::MAX {
                Err(
                    overflow(
                        "lfm2_vl tiling: target_width (tile_size * grid_width)",
                        "u32",
                        tile_size as i128,
                        grid.0 as i128,
                    ),
                )
            } else if tile_size * grid.1 > u32::MAX {
                Err(
                    overflow(
                        "lfm2_vl tiling: target_height (tile_size * grid_height)",
                        "u32",
                        tile_size as i128,
                        grid.1 as i128,
                    ),
                )
            } else {
                Ok(
                    (
                        grid.0,
                        grid.1,
                        (tile_size * grid.0) as u32,
                        (tile_size * grid.1) as u32,
                    ),
                )
            }
        },
    }
}

/// The tile grid of an image; see [`grid_layout`].
///
/// A layout can fail for want of memory where there are candidate grids to list.
pub fn get_grid_layout(
    height: u32,
    width: u32,
    min_tiles: u32,
    max_tiles: u32,
    tile_size: u32,
    differences: &[u64],
) -> (r: Result<(u32, u32, u32, u32), Error>)
    ensures
        r == grid_layout(height, width, min_tiles, max_tiles, tile_size, differences@) || (
        max_tiles > 0 && candidates_outcome(max_tiles) is Ok && r == Err::<(u32, u32, u32, u32), Error>(
            Error::AllocFailure { context: "lfm2_vl tiling: target ratio" },
        )),
{
    let ratios: Vec<(u32, u32)> = target_ratios(min_tiles, max_tiles)?;
    if differences.len() != ratios.len() {
        return Err(
            length_mismatch(
                "lfm2_vl tiling: aspect-ratio distances vs candidate grids",
                ratios.len(),
                differences.len(),
            ),
        );
    }
    let (grid_width, grid_height): (u32, u32) = find_closest_aspect_ratio(
        differences,
        ratios.as_slice(),
        width,
        height,
        tile_size,
    );
    let target_width: u32 = match tile_size.checked_mul(grid_width) {
        Some(n) => n,
        None => {
            return Err(
                overflow(
                    "lfm2_vl tiling: target_width (tile_size * grid_width)",
                    "u32",
                    tile_size as i128,
                    grid_width as i128,
                ),
            );
        },
    };
    match tile_size.checked_mul(grid_height) {
        Some(target_height) => Ok((grid_width, grid_height, target_width, target_height)),
        None => Err(
            overflow(
                "lfm2_vl tiling: target_height (tile_size * grid_height)",
                "u32",
                tile_size as i128,
                grid_height as i128,
            ),
        ),
    }
}

// ---------------------------------------------------------------------------
// The plan
// ---------------------------------------------------------------------------

/// How one image is cut into sub-images.
#[derive(Debug, Clone, Copy, PartialEq, Eq, Structural)]
pub struct TilePlan {
    /// Whether the image is cut into more than one tile.
    pub split: bool,
    /// The number of tiles in a row.
    pub grid_width: u32,
    /// The number of tiles in a column.
    pub grid_height: u32,
    /// The width that the tiles are cut from; `0` where the image is not split.
    pub target_width: u32,
    /// The height that the tiles are cut from; `0` where the image is not split.
    pub target_height: u32,
    /// The width of the image within the token budget.
    pub thumb_width: u32,
    /// The height of the image within the token budget.
    pub thumb_height: u32,
    /// Whether the tiles are followed by the whole image within the budget.
    pub thumbnail: bool,
}

/// The number of sub-images of a plan, or an overflow.
pub open spec fn sub_images(plan: TilePlan) -> Result<u32, Error> {
    let tiles = plan.grid_width * plan.grid_height;
    if tiles > u32::MAX {
        Err(
            overflow(
                "lfm2_vl tiling: tile count (grid_width * grid_height)",
                "u32",
                plan.grid_width as i128,
                plan.grid_height as i128,
            ),
        )
    } else if plan.thumbnail && tiles == u32::MAX {
        Err(
            overflow(
                "lfm2_vl tiling: sub-image count (tiles + thumbnail)",
                "u32",
                tiles as i128,
                1,
            ),
        )
    } else if plan.thumbnail {
        Ok((tiles + 1) as u32)
    } else {
        Ok(tiles as u32)
    }
}

impl TilePlan {
    /// Whether the image is cut into more than one tile.
    pub fn is_split(&self) -> (r: bool)
        ensures
            r == self.split,
    {
        self.split
    }

    /// The tile grid: width, height.
    pub fn grid(&self) -> (r: (u32, u32))
        ensures
            r == (self.grid_width, self.grid_height),
    {
        (self.grid_width, self.grid_height)
    }

    /// Whether the tiles are followed by a thumbnail.
    pub fn has_thumbnail(&self) -> (r: bool)
        ensures
            r == self.thumbnail,
    {
        self.thumbnail
    }

    /// The number of sub-images: the tiles, and the thumbnail where there is one.
    pub fn sub_image_count(&self) -> (r: Result<u32, Error>)
        ensures
            r == sub_images(*self),
    {
        let tiles: u32 = match self.grid_width.checked_mul(self.grid_height) {
            Some(n) => n,
            None => {
                return Err(
                    overflow(
                        "lfm2_vl tiling: tile count (grid_width * grid_height)",
                        "u32",
                        self.grid_width as i128,
                        self.grid_height as i128,
                    ),
                );
            },
        };
        if !self.thumbnail {
            return Ok(tiles);
        }
        match tiles.checked_add(1) {
            Some(n) => Ok(n),
            None => Err(
                overflow(
                    "lfm2_vl tiling: sub-image count (tiles + thumbnail)",
                    "u32",
                    tiles as i128,
                    1,
                ),
            ),
        }
    }
}

/// Whether an image of the given settings is over the size threshold; the settings
/// have a positive tolerance.
pub open spec fn over_threshold(height: u32, width: u32, s: ProcessorSettings) -> Result<
    bool,
    Error,
> {
    match s.tiling.max_pixels_tolerance {
        Single::Positive { mantissa, exponent } => too_large(
            height,
            width,
            s.tiling.max_image_tokens,
            s.tiling.encoder_patch_size,
            s.downsample_factor,
            mantissa,
            exponent,
        ),
        _ => Ok(false),
    }
}

/// The plan of an image, or why it is refused.
pub open spec fn planned(
    height: u32,
    width: u32,
    s: ProcessorSettings,
    shrunk: Quotients,
    grown: Quotients,
    differences: Seq<u64>,
) -> Result<TilePlan, Error> {
    let t = s.tiling;
    if height == 0 {
        Err(out_of_range("lfm2_vl tiling: height", "must be a positive dimension (> 0)", 0))
    } else if width == 0 {
        Err(out_of_range("lfm2_vl tiling: width", "must be a positive dimension (> 0)", 0))
    } else {
        match over_threshold(height, width, s) {
            Err(e) => Err(e),
            Ok(large) => match resized_size(
                height,
                width,
                s.downsample_factor,
                t.min_image_tokens,
                t.max_image_tokens,
                t.encoder_patch_size,
                shrunk,
                grown,
            ) {
                Err(e) => Err(e),
                Ok((thumb_width, thumb_height)) => if large && splits(t) {
                    match grid_layout(
                        height,
                        width,
                        t.min_tiles,
                        t.max_tiles,
                        t.tile_size,
                        differences,
                    ) {
                        Err(e) => Err(e),
                        Ok((grid_width, grid_height, target_width, target_height)) => {
                            let many = !(grid_width == 1 && grid_height == 1);
                            Ok(
                                TilePlan {
                                    split: many,
                                    grid_width,
                                    grid_height,
                                    target_width,
                                    target_height,
                                    thumb_width,
                                    thumb_height,
                                    thumbnail: t.use_thumbnail && many,
                                },
                            )
                        },
                    }
                } else {
                    Ok(
                        TilePlan {
                            split: false,
                            grid_width: 1,
                            grid_height: 1,
                            target_width: 0,
                            target_height: 0,
                            thumb_width,
                            thumb_height,
                            thumbnail: false,
                        },
                    )
                },
            },
        }
    }
}

/// Whether a tiling splits large images.
pub open spec fn splits(t: TilingConfig) -> bool {
    t.do_image_splitting && !(t.min_tiles == 1 && t.max_tiles == 1)
}

/// Whether planning an image comes to list the candidate grids.
pub open spec fn lists_candidates(
    height: u32,
    width: u32,
    s: ProcessorSettings,
    shrunk: Quotients,
    grown: Quotients,
) -> bool {
    let t = s.tiling;
    &&& height > 0
    &&& width > 0
    &&& over_threshold(height, width, s) == Ok::<bool, Error>(true)
    &&& resized_size(
        height,
        width,
        s.downsample_factor,
        t.min_image_tokens,
        t.max_image_tokens,
        t.encoder_patch_size,
        shrunk,
        grown,
    ) is Ok
    &&& splits(t)
    &&& candidates_outcome(t.max_tiles) is Ok
}

/// Plans how an image is cut: a large image into the tile grid that is nearest to
/// its aspect ratio, and any other into one sub-image within the token budget; see
/// [`planned`].
///
/// A plan can fail for want of memory where the candidate grids are listed; see
/// [`lists_candidates`].
pub fn plan_tiles(height: u32, width: u32, cfg: &Lfm2VlProcessorConfig, numbers: &TileNumbers) -> (r:
    Result<TilePlan, Error>)
    ensures
        r == planned(
            height,
            width,
            cfg@,
            numbers.shrunk,
            numbers.grown,
            numbers.differences@,
        ) || (r == Err::<TilePlan, Error>(
            Error::AllocFailure { context: "lfm2_vl tiling: target ratio" },
        ) && lists_candidates(height, width, cfg@, numbers.shrunk, numbers.grown)),
{
    require_positive_u32("lfm2_vl tiling: height", height)?;
    require_positive_u32("lfm2_vl tiling: width", width)?;
    let s: ProcessorSettings = cfg.settings();
    let t: TilingConfig = s.tiling;
    let large: bool = match t.max_pixels_tolerance {
        Single::Positive { mantissa, exponent } => is_image_too_large(
            height,
            width,
            t.max_image_tokens,
            t.encoder_patch_size,
            s.downsample_factor,
            mantissa,
            exponent,
        )?,
        _ => false,
    };
    let (thumb_width, thumb_height): (u32, u32) = smart_resize(
        height,
        width,
        s.downsample_factor,
        t.min_image_tokens,
        t.max_image_tokens,
        t.encoder_patch_size,
        numbers.shrunk,
        numbers.grown,
    )?;
    if large && t.do_image_splitting && !(t.min_tiles == 1 && t.max_tiles == 1) {
        let (grid_width, grid_height, target_width, target_height): (u32, u32, u32, u32) =
            get_grid_layout(
            height,
            width,
            t.min_tiles,
            t.max_tiles,
            t.tile_size,
            numbers.differences.as_slice(),
        )?;
        let many: bool = !(grid_width == 1 && grid_height == 1);
        Ok(
            TilePlan {
                split: many,
                grid_width,
                grid_height,
                target_width,
                target_height,
                thumb_width,
                thumb_height,
                thumbnail: t.use_thumbnail && many,
            },
        )
    } else {
        Ok(
            TilePlan {
                split: false,
                grid_width: 1,
                grid_height: 1,
                target_width: 0,
                target_height: 0,
                thumb_width,
                thumb_height,
                thumbnail: false,
            },
        )
    }
}

// ---------------------------------------------------------------------------
// The sub-images
// ---------------------------------------------------------------------------

/// Whether the tiles of a plan are those of a tiling.
pub open spec fn plan_fits(plan: TilePlan, t: TilingConfig) -> bool {
    plan.split ==> plan.target_width == t.tile_size * plan.grid_width && plan.target_height
        == t.tile_size * plan.grid_height
}

/// A plan that is not refused has the tiles of its tiling.
pub proof fn lemma_planned_fits(
    height: u32,
    width: u32,
    s: ProcessorSettings,
    shrunk: Quotients,
    grown: Quotients,
    differences: Seq<u64>,
)
    requires
        planned(height, width, s, shrunk, grown, differences) is Ok,
    ensures
        plan_fits(planned(height, width, s, shrunk, grown, differences)->Ok_0, s.tiling),
{
}

/// The inputs of the whole image within the token budget, or why they are
/// refused.
pub open spec fn whole_image<T>(
    rgb: Seq<u8>,
    width: u32,
    height: u32,
    s: ProcessorSettings,
    plan: TilePlan,
    kernel: Kernel,
    table: NormModel<T>,
) -> Result<InputsModel<T>, Error> {
    let p = s.tiling.encoder_patch_size;
    match image::resized_rgb(rgb, width, height, plan.thumb_height, plan.thumb_width, kernel) {
        Err(e) => Err(e),
        Ok(image) => match patchify::region_outcome(
            plan.thumb_width,
            plan.thumb_height,
            plan.thumb_height / p,
            plan.thumb_width / p,
            p,
            s.max_num_patches,
        ) {
            Err(e) => Err(e),
            Ok(_) => Ok(
                patchify::region_inputs(
                    image,
                    plan.thumb_width as int,
                    0,
                    0,
                    plan.thumb_height / p,
                    plan.thumb_width / p,
                    p,
                    s.max_num_patches,
                    table,
                ),
            ),
        },
    }
}

/// The inputs of one tile of a resized image, row by row.
pub open spec fn tile_of<T>(
    image: Seq<u8>,
    s: ProcessorSettings,
    plan: TilePlan,
    table: NormModel<T>,
    k: int,
) -> InputsModel<T> {
    let t = s.tiling;
    let patches = t.tile_size / t.encoder_patch_size;
    patchify::region_inputs(
        image,
        plan.target_width as int,
        (k % (plan.grid_width as int)) * t.tile_size,
        (k / (plan.grid_width as int)) * t.tile_size,
        patches,
        patches,
        t.encoder_patch_size,
        s.max_num_patches,
        table,
    )
}

/// The inputs of the tiles of an image, row by row, or why they are refused.
pub open spec fn tiles_of<T>(
    rgb: Seq<u8>,
    width: u32,
    height: u32,
    s: ProcessorSettings,
    plan: TilePlan,
    kernel: Kernel,
    table: NormModel<T>,
) -> Result<Seq<InputsModel<T>>, Error> {
    let t = s.tiling;
    let patches = t.tile_size / t.encoder_patch_size;
    match image::resized_rgb(rgb, width, height, plan.target_height, plan.target_width, kernel) {
        Err(e) => Err(e),
        Ok(image) => match patchify::region_outcome(
            t.tile_size,
            t.tile_size,
            patches,
            patches,
            t.encoder_patch_size,
            s.max_num_patches,
        ) {
            Err(e) => Err(e),
            Ok(_) => Ok(
                Seq::new(
                    (plan.grid_width * plan.grid_height) as nat,
                    |k: int| tile_of(image, s, plan, table, k),
                ),
            ),
        },
    }
}

/// The inputs of the sub-images of a plan, or why they are refused: the tiles row
/// by row and then the thumbnail, or the whole image alone.
pub open spec fn cut<T>(
    rgb: Seq<u8>,
    width: u32,
    height: u32,
    s: ProcessorSettings,
    plan: TilePlan,
    target_kernel: Kernel,
    thumb_kernel: Kernel,
    table: NormModel<T>,
) -> Result<Seq<InputsModel<T>>, Error> {
    match sub_images(plan) {
        Err(e) => Err(e),
        Ok(_) => if plan.split {
            match tiles_of(rgb, width, height, s, plan, target_kernel, table) {
                Err(e) => Err(e),
                Ok(tiles) => if plan.thumbnail {
                    match whole_image(rgb, width, height, s, plan, thumb_kernel, table) {
                        Err(e) => Err(e),
                        Ok(last) => Ok(tiles.push(last)),
                    }
                } else {
                    Ok(tiles)
                },
            }
        } else {
            match whole_image(rgb, width, height, s, plan, thumb_kernel, table) {
                Err(e) => Err(e),
                Ok(only) => Ok(seq![only]),
            }
        },
    }
}

/// What the arrays of some inputs hold.
pub open spec fn views<T>(inputs: Seq<Lfm2VlImageInputs<T>>) -> Seq<InputsModel<T>> {
    Seq::new(inputs.len(), |i: int| inputs[i]@)
}

fn check_whole<T: Copy>(
    rgb: &[u8],
    width: u32,
    height: u32,
    s: &ProcessorSettings,
    plan: &TilePlan,
    kernel: &Kernel,
    table: &NormTable<T>,
) -> (r: Result<(), Error>)
    requires
        processor::tiling_is_sound(s.tiling),
        rgb@.len() == width * height * 3,
    ensures
        match whole_image(rgb@, width, height, *s, *plan, *kernel, table@) {
            Ok(_) => r is Ok,
            Err(e) => r == Err::<(), Error>(e),
        },
{
    let p: u32 = s.tiling.encoder_patch_size;
    check_resize_rgb(rgb, width, height, plan.thumb_height, plan.thumb_width, kernel)?;
    check_region(
        plan.thumb_width,
        plan.thumb_height,
        plan.thumb_height / p,
        plan.thumb_width / p,
        p,
        s.max_num_patches,
    )
}

fn check_tiles<T: Copy>(
    rgb: &[u8],
    width: u32,
    height: u32,
    s: &ProcessorSettings,
    plan: &TilePlan,
    kernel: &Kernel,
    table: &NormTable<T>,
) -> (r: Result<(), Error>)
    requires
        processor::tiling_is_sound(s.tiling),
        rgb@.len() == width * height * 3,
    ensures
        match tiles_of(rgb@, width, height, *s, *plan, *kernel, table@) {
            Ok(_) => r is Ok,
            Err(e) => r == Err::<(), Error>(e),
        },
{
    let t: TilingConfig = s.tiling;
    let patches: u32 = t.tile_size / t.encoder_patch_size;
    check_resize_rgb(rgb, width, height, plan.target_height, plan.target_width, kernel)?;
    check_region(
        t.tile_size,
        t.tile_size,
        patches,
        patches,
        t.encoder_patch_size,
        s.max_num_patches,
    )
}

/// The inputs of the whole image; see [`whole_image`].
fn make_whole<T: Copy>(
    rgb: &[u8],
    width: u32,
    height: u32,
    cfg: &Lfm2VlProcessorConfig,
    plan: &TilePlan,
    kernel: &Kernel,
    table: &NormTable<T>,
) -> (r: Result<Lfm2VlImageInputs<T>, Error>)
    requires
        rgb@.len() == width * height * 3,
        whole_image(rgb@, width, height, cfg@, *plan, *kernel, table@) is Ok,
    ensures
        match r {
            Ok(inputs) => inputs@ == whole_image(
                rgb@,
                width,
                height,
                cfg@,
                *plan,
                *kernel,
                table@,
            )->Ok_0,
            Err(e) => error::is_allocation_refusal(e),
        },
{
    let s: ProcessorSettings = cfg.settings();
    let p: u32 = s.tiling.encoder_patch_size;
    let image: Vec<u8> = resize_rgb_to_rgba(
        rgb,
        width,
        height,
        plan.thumb_height,
        plan.thumb_width,
        kernel,
    )?;
    proof {
        resize::law_result_has_the_requested_size(
            image::opaque(rgb@),
            width as usize,
            height as usize,
            plan.thumb_width as usize,
            plan.thumb_height as usize,
            *kernel,
        );
        assert((0 + plan.thumb_height) * plan.thumb_width * 4 == plan.thumb_width
            * plan.thumb_height * 4) by (nonlinear_arith);
    }
    patchify_rgba_region(
        image.as_slice(),
        plan.thumb_width,
        0,
        0,
        plan.thumb_width,
        plan.thumb_height,
        plan.thumb_height / p,
        plan.thumb_width / p,
        p,
        cfg,
        table,
    )
}

/// Appends the inputs of the tiles; see [`tiles_of`].
fn push_tiles<T: Copy>(
    out: &mut Vec<Lfm2VlImageInputs<T>>,
    rgb: &[u8],
    width: u32,
    height: u32,
    cfg: &Lfm2VlProcessorConfig,
    plan: &TilePlan,
    kernel: &Kernel,
    table: &NormTable<T>,
) -> (r: Result<(), Error>)
    requires
        old(out)@.len() == 0,
        rgb@.len() == width * height * 3,
        plan.split,
        plan_fits(*plan, cfg@.tiling),
        plan.grid_width * plan.grid_height <= u32::MAX,
        tiles_of(rgb@, width, height, cfg@, *plan, *kernel, table@) is Ok,
    ensures
        match r {
            Ok(_) => views(final(out)@) == tiles_of(
                rgb@,
                width,
                height,
                cfg@,
                *plan,
                *kernel,
                table@,
            )->Ok_0,
            Err(e) => error::is_allocation_refusal(e),
        },
{
    let s: ProcessorSettings = cfg.settings();
    let t: TilingConfig = s.tiling;
    let side: u32 = t.tile_size;
    let patches: u32 = side / t.encoder_patch_size;
    let image: Vec<u8> = resize_rgb_to_rgba(
        rgb,
        width,
        height,
        plan.target_height,
        plan.target_width,
        kernel,
    )?;
    proof {
        resize::law_result_has_the_requested_size(
            image::opaque(rgb@),
            width as usize,
            height as usize,
            plan.target_width as usize,
            plan.target_height as usize,
            *kernel,
        );
    }
    let n: u32 = plan.grid_width * plan.grid_height;
    let mut k: u32 = 0;
    assert(views(out@) =~= Seq::new(0, |k: int| tile_of(image@, s, *plan, table@, k)));
    while k < n
        invariant
            k <= n,
            n == plan.grid_width * plan.grid_height,
            s == cfg@,
            t == s.tiling,
            processor::tiling_is_sound(t),
            side == t.tile_size,
            patches == side / t.encoder_patch_size,
            plan.split,
            plan_fits(*plan, t),
            image@.len() == plan.target_width * plan.target_height * 4,
            patchify::region_outcome(
                side,
                side,
                patches,
                patches,
                t.encoder_patch_size,
                s.max_num_patches,
            ) is Ok,
            views(out@) == Seq::new(k as nat, |k: int| tile_of(image@, s, *plan, table@, k)),
        decreases n - k,
    {
        let ghost before = out@;
        proof {
            assert(plan.grid_height * plan.grid_width == plan.grid_width * plan.grid_height)
                by (nonlinear_arith);
            array::lemma_cell(
                k as int,
                plan.grid_height as int,
                plan.grid_width as int,
                side as int,
            );
            assert(plan.grid_width * side == side * plan.grid_width) by (nonlinear_arith);
            assert(plan.grid_height * side == side * plan.grid_height) by (nonlinear_arith);
        }
        let x0: u32 = (k % plan.grid_width) * side;
        let y0: u32 = (k / plan.grid_width) * side;
        proof {
            let bottom = y0 + side;
            assert(bottom * plan.target_width * 4 <= plan.target_width * plan.target_height * 4)
                by (nonlinear_arith)
                requires
                    bottom <= plan.target_height,
                    0 <= plan.target_width,
            ;
        }
        let tile: Lfm2VlImageInputs<T> = patchify_rgba_region(
            image.as_slice(),
            plan.target_width,
            x0,
            y0,
            side,
            side,
            patches,
            patches,
            t.encoder_patch_size,
            cfg,
            table,
        )?;
        out.push(tile);
        k += 1;
        assert(views(out@) =~= views(before).push(tile@));
        assert(views(out@) =~= Seq::new(k as nat, |k: int| tile_of(image@, s, *plan, table@, k)));
    }
    Ok(())
}

/// The inputs of the sub-images of a plan; see [`cut`].
///
/// `target_kernel` resamples the image to the size that the tiles are cut from,
/// and `thumb_kernel` to its size within the token budget. A cut that is not
/// refused can still fail for want of memory.
pub fn cut_image<T: Copy>(
    rgb: &[u8],
    width: u32,
    height: u32,
    cfg: &Lfm2VlProcessorConfig,
    plan: &TilePlan,
    target_kernel: &Kernel,
    thumb_kernel: &Kernel,
    table: &NormTable<T>,
) -> (r: Result<Vec<Lfm2VlImageInputs<T>>, Error>)
    requires
        rgb@.len() == width * height * 3,
        plan_fits(*plan, cfg@.tiling),
    ensures
        match cut(rgb@, width, height, cfg@, *plan, *target_kernel, *thumb_kernel, table@) {
            Ok(m) => match r {
                Ok(inputs) => views(inputs@) == m,
                Err(e) => error::is_allocation_refusal(e),
            },
            Err(e) => r == Err::<Vec<Lfm2VlImageInputs<T>>, Error>(e),
        },
{
    let s: ProcessorSettings = cfg.settings();
    let count: u32 = plan.sub_image_count()?;
    if plan.split {
        check_tiles(rgb, width, height, &s, plan, target_kernel, table)?;
    }
    if !plan.split || plan.thumbnail {
        check_whole(rgb, width, height, &s, plan, thumb_kernel, table)?;
    }
    let mut out: Vec<Lfm2VlImageInputs<T>> = reserve_or_error(
        count as usize,
        "lfm2_vl tile_image: sub-image",
    )?;
    if plan.split {
        push_tiles(&mut out, rgb, width, height, cfg, plan, target_kernel, table)?;
    }
    if !plan.split || plan.thumbnail {
        let whole: Lfm2VlImageInputs<T> = make_whole(
            rgb,
            width,
            height,
            cfg,
            plan,
            thumb_kernel,
            table,
        )?;
        let ghost before = out@;
        out.push(whole);
        assert(views(out@) =~= views(before).push(whole@));
        assert(!plan.split ==> views(out@) =~= seq![whole@]);
    }
    Ok(out)
}

/// The names of an image that is cut into tiles.
#[verifier::allow_in_spec]
pub fn tile_labels() -> SourceLabels
    returns
        (SourceLabels {
            width: "lfm2_vl tile_image: width",
            height: "lfm2_vl tile_image: height",
            bytes: "lfm2_vl tile_image: rgb byte count (width * height * channels)",
            length: "lfm2_vl tile_image: rgb slice length vs width*height*channels",
        }),
{
    SourceLabels {
        width: "lfm2_vl tile_image: width",
        height: "lfm2_vl tile_image: height",
        bytes: "lfm2_vl tile_image: rgb byte count (width * height * channels)",
        length: "lfm2_vl tile_image: rgb slice length vs width*height*channels",
    }
}

/// The inputs of the sub-images of an image, or why they are refused.
pub open spec fn tiled<T>(
    rgb: Seq<u8>,
    width: u32,
    height: u32,
    s: ProcessorSettings,
    shrunk: Quotients,
    grown: Quotients,
    differences: Seq<u64>,
    target_kernel: Kernel,
    thumb_kernel: Kernel,
    table: NormModel<T>,
) -> Result<Seq<InputsModel<T>>, Error> {
    match patchify::source_outcome(rgb.len() as int, width, height, tile_labels()) {
        Err(e) => Err(e),
        Ok(_) => match planned(height, width, s, shrunk, grown, differences) {
            Err(e) => Err(e),
            Ok(plan) => cut(
                rgb,
                width,
                height,
                s,
                plan,
                target_kernel,
                thumb_kernel,
                table,
            ),
        },
    }
}

/// Cuts an interleaved RGB image into sub-images, as [`plan_tiles`] plans it; see
/// [`tiled`].
///
/// `target_kernel` and `thumb_kernel` resample the image to the two sizes of the
/// plan. An image that is not refused can still fail for want of memory, and one
/// that is refused is refused for the reason of [`tiled`], unless the candidate
/// grids that its plan lists want memory.
pub fn tile_image<T: Copy>(
    rgb: &[u8],
    width: u32,
    height: u32,
    cfg: &Lfm2VlProcessorConfig,
    numbers: &TileNumbers,
    target_kernel: &Kernel,
    thumb_kernel: &Kernel,
    table: &NormTable<T>,
) -> (r: Result<Vec<Lfm2VlImageInputs<T>>, Error>)
    ensures
        patchify::source_outcome(rgb@.len() as int, width, height, tile_labels()) matches Err(e) ==> r
            == Err::<Vec<Lfm2VlImageInputs<T>>, Error>(e),
        match (
            r,
            tiled(
                rgb@,
                width,
                height,
                cfg@,
                numbers.shrunk,
                numbers.grown,
                numbers.differences@,
                *target_kernel,
                *thumb_kernel,
                table@,
            ),
        ) {
            (Ok(inputs), Ok(m)) => views(inputs@) == m,
            (Ok(_), Err(_)) => false,
            (Err(e), Ok(_)) => error::is_allocation_refusal(e),
            (Err(e), Err(refused)) => e == refused || (e == (Error::AllocFailure {
                context: "lfm2_vl tiling: target ratio",
            }) && lists_candidates(height, width, cfg@, numbers.shrunk, numbers.grown)),
        },
{
    check_source(rgb, width, height, tile_labels())?;
    let plan: TilePlan = plan_tiles(height, width, cfg, numbers)?;
    proof {
        lemma_planned_fits(
            height,
            width,
            cfg@,
            numbers.shrunk,
            numbers.grown,
            numbers.differences@,
        );
    }
    cut_image(rgb, width, height, cfg, &plan, target_kernel, thumb_kernel, table)
}

// ---------------------------------------------------------------------------
// Laws
// ---------------------------------------------------------------------------

/// A cut has as many sub-images as its plan counts.
pub proof fn law_a_cut_has_the_planned_sub_images<T>(
    rgb: Seq<u8>,
    width: u32,
    height: u32,
    s: ProcessorSettings,
    shrunk: Quotients,
    grown: Quotients,
    differences: Seq<u64>,
    target_kernel: Kernel,
    thumb_kernel: Kernel,
    table: NormModel<T>,
)
    requires
        tiled(
            rgb,
            width,
            height,
            s,
            shrunk,
            grown,
            differences,
            target_kernel,
            thumb_kernel,
            table,
        ) is Ok,
    ensures
        ({
            let plan = planned(height, width, s, shrunk, grown, differences)->Ok_0;
            &&& sub_images(plan) is Ok
            &&& tiled(
                rgb,
                width,
                height,
                s,
                shrunk,
                grown,
                differences,
                target_kernel,
                thumb_kernel,
                table,
            )->Ok_0.len() == sub_images(plan)->Ok_0
        }),
{
    let plan = planned(height, width, s, shrunk, grown, differences)->Ok_0;
    assert(0 <= plan.grid_width * plan.grid_height) by (nonlinear_arith);
    if !plan.split {
        assert(plan.grid_width * plan.grid_height == 1) by (nonlinear_arith)
            requires
                plan.grid_width == 1,
                plan.grid_height == 1,
        ;
    }
}

/// An image is split only where splitting is enabled and the image is over the
/// threshold; otherwise it is one sub-image, without a thumbnail.
pub proof fn law_only_large_images_are_split(
    height: u32,
    width: u32,
    s: ProcessorSettings,
    shrunk: Quotients,
    grown: Quotients,
    differences: Seq<u64>,
)
    requires
        planned(height, width, s, shrunk, grown, differences) is Ok,
    ensures
        ({
            let plan = planned(height, width, s, shrunk, grown, differences)->Ok_0;
            &&& plan.split ==> splits(s.tiling) && over_threshold(height, width, s) == Ok::<
                bool,
                Error,
            >(true)
            &&& !plan.split ==> plan.grid_width == 1 && plan.grid_height == 1 && !plan.thumbnail
            &&& plan.thumbnail ==> s.tiling.use_thumbnail
        }),
{
}

/// A split image has at least `min_tiles` tiles and at most `max_tiles`.
pub proof fn law_tile_counts_are_within_the_band(
    height: u32,
    width: u32,
    s: ProcessorSettings,
    shrunk: Quotients,
    grown: Quotients,
    differences: Seq<u64>,
)
    requires
        processor::tiling_is_sound(s.tiling),
        planned(height, width, s, shrunk, grown, differences) is Ok,
        planned(height, width, s, shrunk, grown, differences)->Ok_0.split,
    ensures
        ({
            let plan = planned(height, width, s, shrunk, grown, differences)->Ok_0;
            s.tiling.min_tiles <= plan.grid_width * plan.grid_height <= s.tiling.max_tiles
        }),
{
    let t = s.tiling;
    let ratios = candidates(t.min_tiles as int, t.max_tiles as int);
    law_candidates_are_all_the_grids(t.min_tiles, t.max_tiles as int);
    law_the_chosen_grid_is_nearest(
        differences,
        ratios,
        width * height,
        t.tile_size as int,
        ratios.len() as int,
    );
}


/// A number is rounded to a multiple of the factor that is at most half a factor
/// away, and to an even multiple where two are as near. It is refused where the factor
/// is zero, or where that multiple does not fit 32 bits.
pub proof fn law_rounded_numbers_are_within_half_a_factor(number: u32, factor: u32)
    ensures
        factor == 0 ==> rounded(number, factor) is Err,
        rounded(number, factor) matches Ok(r) ==> {
            &&& exists|q: int| #[trigger] (q * factor) == r && (2 * (r - number) == factor || 2 * (
            number - r) == factor ==> q % 2 == 0)
            &&& 2 * (r - number) <= factor
            &&& 2 * (number - r) <= factor
        },
        factor > 0 && number + factor <= u32::MAX ==> rounded(number, factor) is Ok,
{
    if factor > 0 {
        let n = number as int;
        let f = factor as int;
        let q = n / f;
        div_mod::lemma_fundamental_div_mod(n, f);
        assert(f * q == q * f) by (nonlinear_arith);
        assert((q + 1) * f == q * f + f) by (nonlinear_arith);
        if rounded(number, factor) is Ok {
            let chosen = nearest_quotient(n, f);
            assert(chosen * factor == rounded(number, factor)->Ok_0);
        }
    }
}

/// The size of an image within the token budget, as width and height, where `h` and
/// `w` are its sides rounded to whole tokens, and at least one token each: those sides
/// where their area is within the budget; `shrunk.width` by `shrunk.height` tokens, and
/// at least one by one, where it is over; and `grown.width` by `grown.height` tokens
/// where it is under.
pub proof fn law_sizes_follow_their_own_quotients(
    height: u32,
    width: u32,
    downsample_factor: u32,
    min_image_tokens: u32,
    max_image_tokens: u32,
    encoder_patch_size: u32,
    shrunk: Quotients,
    grown: Quotients,
    h: int,
    w: int,
)
    requires
        ({
            let side = (encoder_patch_size * downsample_factor) as u32;
            &&& 0 < encoder_patch_size * downsample_factor <= u32::MAX
            &&& rounded(height, side) matches Ok(r) && h == if r > side {
                r as int
            } else {
                side as int
            }
            &&& rounded(width, side) matches Ok(r) && w == if r > side {
                r as int
            } else {
                side as int
            }
        }),
    ensures
        ({
            let side = encoder_patch_size * downsample_factor;
            let most = max_image_tokens * (side * side);
            let least = min_image_tokens * (side * side);
            let size = resized_size(
                height,
                width,
                downsample_factor,
                min_image_tokens,
                max_image_tokens,
                encoder_patch_size,
                shrunk,
                grown,
            );
            &&& h * w <= most && h * w >= least ==> size == Ok::<(u32, u32), Error>(
                (w as u32, h as u32),
            )
            &&& h * w > most ==> (size matches Ok(s) ==> {
                &&& shrunk.width matches Some(q) && 0 <= q * side && (q * side >= side ==> s.0 == q
                    * side) && (q * side < side ==> s.0 == side)
                &&& shrunk.height matches Some(q) && 0 <= q * side && (q * side >= side ==> s.1 == q
                    * side) && (q * side < side ==> s.1 == side)
            })
            &&& h * w <= most && h * w < least ==> (size matches Ok(s) ==> {
                &&& grown.width matches Some(q) && s.0 == q * side
                &&& grown.height matches Some(q) && s.1 == q * side
            })
            &&& h * w > most && (shrunk.width matches Some(a) && 0 <= a * side <= u32::MAX) && (
            shrunk.height matches Some(b) && 0 <= b * side <= u32::MAX) ==> size is Ok
            &&& h * w <= most && h * w < least && (grown.width matches Some(a) && 0 <= a * side
                <= u32::MAX) && (grown.height matches Some(b) && 0 <= b * side <= u32::MAX)
                ==> size is Ok
        }),
{
}

/// Transposing an image and its quotients transposes its size.
pub proof fn law_transposed_images_get_transposed_sizes(
    height: u32,
    width: u32,
    downsample_factor: u32,
    min_image_tokens: u32,
    max_image_tokens: u32,
    encoder_patch_size: u32,
    shrunk: Quotients,
    grown: Quotients,
)
    ensures
        ({
            let upright = resized_size(
                height,
                width,
                downsample_factor,
                min_image_tokens,
                max_image_tokens,
                encoder_patch_size,
                shrunk,
                grown,
            );
            let lying = resized_size(
                width,
                height,
                downsample_factor,
                min_image_tokens,
                max_image_tokens,
                encoder_patch_size,
                (Quotients { height: shrunk.width, width: shrunk.height }),
                (Quotients { height: grown.width, width: grown.height }),
            );
            match upright {
                Ok(size) => lying == Ok::<(u32, u32), Error>((size.1, size.0)),
                Err(_) => lying is Err,
            }
        }),
{
    assert forall|a: u32, b: u32| #[trigger] (a * b) == b * a by {
        assert(a * b == b * a) by (nonlinear_arith);
    }
}

/// An image that is at least as high as it is wide, with quotients in that order, gets
/// a size that is at least as high as it is wide.
pub proof fn law_portraits_stay_portraits(
    height: u32,
    width: u32,
    downsample_factor: u32,
    min_image_tokens: u32,
    max_image_tokens: u32,
    encoder_patch_size: u32,
    shrunk: (i64, i64),
    grown: (i64, i64),
)
    requires
        width <= height,
        shrunk.1 <= shrunk.0,
        grown.1 <= grown.0,
        resized_size(
            height,
            width,
            downsample_factor,
            min_image_tokens,
            max_image_tokens,
            encoder_patch_size,
            (Quotients { height: Some(shrunk.0), width: Some(shrunk.1) }),
            (Quotients { height: Some(grown.0), width: Some(grown.1) }),
        ) is Ok,
    ensures
        ({
            let size = resized_size(
                height,
                width,
                downsample_factor,
                min_image_tokens,
                max_image_tokens,
                encoder_patch_size,
                (Quotients { height: Some(shrunk.0), width: Some(shrunk.1) }),
                (Quotients { height: Some(grown.0), width: Some(grown.1) }),
            )->Ok_0;
            size.0 <= size.1
        }),
{
    let side = encoder_patch_size * downsample_factor;
    assert(shrunk.1 * side <= shrunk.0 * side && grown.1 * side <= grown.0 * side)
        by (nonlinear_arith)
        requires
            shrunk.1 <= shrunk.0,
            grown.1 <= grown.0,
            0 <= side,
    ;
    lemma_rounding_keeps_order(width as int, height as int, side);
}

proof fn lemma_rounding_keeps_order(a: int, b: int, f: int)
    requires
        0 <= a <= b,
        0 < f,
    ensures
        nearest_quotient(a, f) * f <= nearest_quotient(b, f) * f,
{
    let p = a / f;
    let q = b / f;
    div_mod::lemma_div_is_ordered(a, b, f);
    div_mod::lemma_fundamental_div_mod(a, f);
    div_mod::lemma_fundamental_div_mod(b, f);
    if p == q {
        assert(f * p == f * q);
    }
    assert(nearest_quotient(a, f) <= nearest_quotient(b, f));
    assert(nearest_quotient(a, f) * f <= nearest_quotient(b, f) * f) by (nonlinear_arith)
        requires
            nearest_quotient(a, f) <= nearest_quotient(b, f),
            0 < f,
    ;
}


/// An image is too large where the area of its sides, each rounded to whole tokens and
/// at least one patch, is more than the pixels of the token budget times the tolerance
/// `mantissa * 2^exponent`.
pub proof fn law_images_over_the_tolerance_are_too_large(
    height: u32,
    width: u32,
    max_image_tokens: u32,
    encoder_patch_size: u32,
    downsample_factor: u32,
    mantissa: u32,
    exponent: i32,
    h: int,
    w: int,
)
    requires
        ({
            let side = (encoder_patch_size * downsample_factor) as u32;
            &&& encoder_patch_size * downsample_factor <= u32::MAX
            &&& rounded(height, side) matches Ok(r) && h == if r > encoder_patch_size {
                r as int
            } else {
                encoder_patch_size as int
            }
            &&& rounded(width, side) matches Ok(r) && w == if r > encoder_patch_size {
                r as int
            } else {
                encoder_patch_size as int
            }
        }),
    ensures
        ({
            let side = encoder_patch_size * downsample_factor;
            let budget = max_image_tokens * (side * side) * mantissa;
            too_large(
                height,
                width,
                max_image_tokens,
                encoder_patch_size,
                downsample_factor,
                mantissa,
                exponent,
            ) matches Ok(large) && {
                &&& exponent >= 0 ==> (large <==> h * w > budget * power2::pow2(exponent as nat))
                &&& exponent < 0 ==> (large <==> h * w * power2::pow2((-exponent) as nat) > budget)
            }
        }),
{
}

/// The grid that is chosen among candidates: the first that is as near as any, or a
/// later one as near whose area the image covers by more than half, the last such one.
pub proof fn law_ties_between_grids_ask_for_area(
    differences: Seq<u64>,
    ratios: Seq<(u32, u32)>,
    area: int,
    image_size: int,
    k: int,
    i: int,
)
    requires
        0 <= i < k <= ratios.len(),
        differences.len() == ratios.len(),
        differences[i] < 0x7ff0_0000_0000_0000,
        forall|j: int| 0 <= j < k ==> differences[i] <= #[trigger] differences[j],
        (forall|j: int| 0 <= j < i ==> differences[i] < #[trigger] differences[j]) || 2 * area
            > image_size * image_size * (ratios[i].0 * ratios[i].1),
        forall|j: int|
            #![trigger ratios[j]]
            i < j < k && differences[j] == differences[i] ==> 2 * area <= image_size * image_size
                * (ratios[j].0 * ratios[j].1),
    ensures
        nearest_of(differences, ratios, area, image_size, k) == (differences[i], ratios[i]),
    decreases k,
{
    if i < k - 1 {
        law_ties_between_grids_ask_for_area(differences, ratios, area, image_size, k - 1, i);
        assert(differences[i] <= differences[k - 1]);
        assert(ratios[k - 1] == ratios[k - 1]);
    } else {
        lemma_nearest(differences, ratios, area, image_size, i);
        let before = nearest_of(differences, ratios, area, image_size, i);
        if before.0 < INFINITY_BITS {
            let m = choose|m: int|
                0 <= m < i && before == (#[trigger] differences[m], ratios[m]);
            assert(differences[i] <= differences[m]);
        }
    }
}

/// The layout of an image is a grid and the size of that many tiles along each side;
/// the grid is that of the nearest candidate, where some distance is finite.
pub proof fn law_layouts_are_whole_tiles_of_the_nearest_grid(
    height: u32,
    width: u32,
    min_tiles: u32,
    max_tiles: u32,
    tile_size: u32,
    differences: Seq<u64>,
)
    requires
        grid_layout(height, width, min_tiles, max_tiles, tile_size, differences) is Ok,
    ensures
        ({
            let (gw, gh, tw, th) = grid_layout(
                height,
                width,
                min_tiles,
                max_tiles,
                tile_size,
                differences,
            )->Ok_0;
            let all = candidates(min_tiles as int, max_tiles as int);
            &&& tw == tile_size * gw
            &&& th == tile_size * gh
            &&& differences.len() == all.len()
            &&& (gw == 1 && gh == 1) || (0 < gw && 0 < gh && min_tiles <= gw * gh <= max_tiles)
            &&& (exists|i: int|
                0 <= i < all.len() && #[trigger] differences[i] < 0x7ff0_0000_0000_0000)
                ==> exists|i: int|
                #![trigger differences[i]]
                0 <= i < all.len() && all[i] == (gw, gh) && forall|j: int|
                    0 <= j < all.len() ==> differences[i] <= #[trigger] differences[j]
        }),
{
    let all = candidates(min_tiles as int, max_tiles as int);
    law_candidates_are_all_the_grids(min_tiles, max_tiles as int);
    law_the_chosen_grid_is_nearest(
        differences,
        all,
        width * height,
        tile_size as int,
        all.len() as int,
    );
    let (gw, gh, tw, th) = grid_layout(
        height,
        width,
        min_tiles,
        max_tiles,
        tile_size,
        differences,
    )->Ok_0;
    if !(gw == 1 && gh == 1) {
        let i = choose|i: int| 0 <= i < all.len() && #[trigger] all[i] == (gw, gh);
        assert(all[i] == (gw, gh));
    }
    if exists|i: int| 0 <= i < all.len() && #[trigger] differences[i] < INFINITY_BITS {
        let i = choose|i: int|
            0 <= i < all.len() && nearest_of(
                differences,
                all,
                width * height,
                tile_size as int,
                all.len() as int,
            ) == (#[trigger] differences[i], all[i]);
        assert(all[i] == (gw, gh));
        assert(forall|j: int| 0 <= j < all.len() ==> differences[i] <= #[trigger] differences[j]);
    }
}

/// A plan: the image within the budget has the size of its own quotients; an image over
/// the tolerance is laid out in tiles where splitting is on and more than one tile is
/// allowed; it is split where the layout is more than one tile, and followed by a
/// thumbnail where that is asked for as well.
pub proof fn law_plans_follow_the_size_of_the_image(
    height: u32,
    width: u32,
    s: ProcessorSettings,
    shrunk: Quotients,
    grown: Quotients,
    differences: Seq<u64>,
)
    requires
        planned(height, width, s, shrunk, grown, differences) is Ok,
    ensures
        ({
            let t = s.tiling;
            let plan = planned(height, width, s, shrunk, grown, differences)->Ok_0;
            let large = t.max_pixels_tolerance matches Single::Positive { mantissa, exponent }
                && too_large(
                height,
                width,
                t.max_image_tokens,
                t.encoder_patch_size,
                s.downsample_factor,
                mantissa,
                exponent,
            ) == Ok::<bool, Error>(true);
            let tiled = large && t.do_image_splitting && (t.min_tiles != 1 || t.max_tiles != 1);
            &&& 0 < height
            &&& 0 < width
            &&& resized_size(
                height,
                width,
                s.downsample_factor,
                t.min_image_tokens,
                t.max_image_tokens,
                t.encoder_patch_size,
                shrunk,
                grown,
            ) == Ok::<(u32, u32), Error>((plan.thumb_width, plan.thumb_height))
            &&& tiled ==> grid_layout(
                height,
                width,
                t.min_tiles,
                t.max_tiles,
                t.tile_size,
                differences,
            ) == Ok::<(u32, u32, u32, u32), Error>(
                (plan.grid_width, plan.grid_height, plan.target_width, plan.target_height),
            )
            &&& !tiled ==> plan.grid_width == 1 && plan.grid_height == 1
            &&& plan.split <==> plan.grid_width != 1 || plan.grid_height != 1
            &&& plan.thumbnail <==> plan.split && t.use_thumbnail
        }),
{
}

/// A plan has as many sub-images as tiles, and one more where there is a thumbnail.
pub proof fn law_sub_images_are_counted(plan: TilePlan)
    ensures
        plan.grid_width * plan.grid_height < u32::MAX ==> (sub_images(plan) matches Ok(n) && n
            == plan.grid_width * plan.grid_height + if plan.thumbnail {
            1int
        } else {
            0
        }),
{
}

/// The tile at column `c` and row `r` of a cut stands at `r * grid_width + c`, and its
/// patches are those of the square of the resized image that begins `c` tiles to the
/// right and `r` tiles down.
pub proof fn law_tiles_show_their_part_of_the_image<T>(
    rgb: Seq<u8>,
    width: u32,
    height: u32,
    s: ProcessorSettings,
    plan: TilePlan,
    target_kernel: Kernel,
    thumb_kernel: Kernel,
    table: NormModel<T>,
    r: int,
    c: int,
    row: int,
    col: int,
    py: int,
    px: int,
    ch: int,
)
    requires
        cut(rgb, width, height, s, plan, target_kernel, thumb_kernel, table) is Ok,
        plan.split,
        s.tiling.encoder_patch_size > 0,
        0 <= r < plan.grid_height,
        0 <= c < plan.grid_width,
        0 <= row < s.tiling.tile_size as int / s.tiling.encoder_patch_size as int,
        0 <= col < s.tiling.tile_size as int / s.tiling.encoder_patch_size as int,
        0 <= py < s.tiling.encoder_patch_size,
        0 <= px < s.tiling.encoder_patch_size,
        0 <= ch < 3,
    ensures
        ({
            let t = s.tiling;
            let p = t.encoder_patch_size;
            let side = t.tile_size as int / p as int;
            let out = cut(rgb, width, height, s, plan, target_kernel, thumb_kernel, table)->Ok_0;
            let value = out[r * plan.grid_width + c].pixel_values.data[(row * side + col) * (p * p
                * 3) + (py * p + px) * 3 + ch];
            let x = c * t.tile_size + col * p + px;
            let y = r * t.tile_size + row * p + py;
            &&& out.len() == plan.grid_width * plan.grid_height + if plan.thumbnail {
                1int
            } else {
                0
            }
            &&& image::resized_rgb(
                rgb,
                width,
                height,
                plan.target_height,
                plan.target_width,
                target_kernel,
            ) matches Ok(image) && {
                let byte = image[(y * plan.target_width + x) * 4 + ch] as int;
                &&& ch == 0 ==> value == table.red[byte]
                &&& ch == 1 ==> value == table.green[byte]
                &&& ch == 2 ==> value == table.blue[byte]
            }
        }),
{
    let t = s.tiling;
    let p = t.encoder_patch_size;
    let side = t.tile_size / p;
    let k = r * plan.grid_width + c;
    let image = image::resized_rgb(
        rgb,
        width,
        height,
        plan.target_height,
        plan.target_width,
        target_kernel,
    )->Ok_0;
    assert(0 <= k < plan.grid_width * plan.grid_height) by (nonlinear_arith)
        requires
            k == r * plan.grid_width + c,
            0 <= r < plan.grid_height,
            0 <= c < plan.grid_width,
    ;
    div_mod::lemma_fundamental_div_mod_converse(k, plan.grid_width as int, r, c);
    patchify::law_patches_hold_the_pixels_of_the_region(
        image,
        plan.target_width as int,
        c * t.tile_size,
        r * t.tile_size,
        side,
        side,
        p,
        s.max_num_patches,
        table,
        row,
        col,
        py,
        px,
        ch,
    );
}

/// The last sub-image of a cut with a thumbnail, and the only one of an image that is
/// not split, has the patches of the whole image within the token budget.
pub proof fn law_the_last_sub_image_shows_the_whole_image<T>(
    rgb: Seq<u8>,
    width: u32,
    height: u32,
    s: ProcessorSettings,
    plan: TilePlan,
    target_kernel: Kernel,
    thumb_kernel: Kernel,
    table: NormModel<T>,
    row: int,
    col: int,
    py: int,
    px: int,
    ch: int,
)
    requires
        cut(rgb, width, height, s, plan, target_kernel, thumb_kernel, table) is Ok,
        plan.thumbnail || !plan.split,
        s.tiling.encoder_patch_size > 0,
        0 <= row < plan.thumb_height as int / s.tiling.encoder_patch_size as int,
        0 <= col < plan.thumb_width as int / s.tiling.encoder_patch_size as int,
        0 <= py < s.tiling.encoder_patch_size,
        0 <= px < s.tiling.encoder_patch_size,
        0 <= ch < 3,
    ensures
        ({
            let p = s.tiling.encoder_patch_size;
            let cols = plan.thumb_width as int / p as int;
            let out = cut(rgb, width, height, s, plan, target_kernel, thumb_kernel, table)->Ok_0;
            let value = out.last().pixel_values.data[(row * cols + col) * (p * p * 3) + (py * p
                + px) * 3 + ch];
            &&& !plan.split ==> out.len() == 1
            &&& plan.thumb_width as int % p as int == 0
            &&& plan.thumb_height as int % p as int == 0
            &&& image::resized_rgb(
                rgb,
                width,
                height,
                plan.thumb_height,
                plan.thumb_width,
                thumb_kernel,
            ) matches Ok(image) && {
                let byte = image[((row * p + py) * plan.thumb_width + (col * p + px)) * 4
                    + ch] as int;
                &&& ch == 0 ==> value == table.red[byte]
                &&& ch == 1 ==> value == table.green[byte]
                &&& ch == 2 ==> value == table.blue[byte]
            }
        }),
{
    let p = s.tiling.encoder_patch_size;
    let rows = plan.thumb_height / p;
    let cols = plan.thumb_width / p;
    let image = image::resized_rgb(
        rgb,
        width,
        height,
        plan.thumb_height,
        plan.thumb_width,
        thumb_kernel,
    )->Ok_0;
    div_mod::lemma_fundamental_div_mod(plan.thumb_width as int, p as int);
    div_mod::lemma_fundamental_div_mod(plan.thumb_height as int, p as int);
    assert(cols * p == p * cols && rows * p == p * rows) by (nonlinear_arith);
    patchify::law_patches_hold_the_pixels_of_the_region(
        image,
        plan.thumb_width as int,
        0,
        0,
        rows,
        cols,
        p,
        s.max_num_patches,
        table,
        row,
        col,
        py,
        px,
        ch,
    );
}


/// What some inputs hold are the arrays of each, in order.
pub proof fn law_views_are_those_of_the_inputs<T>(inputs: Seq<Lfm2VlImageInputs<T>>, i: int)
    ensures
        views(inputs).len() == inputs.len(),
        0 <= i < inputs.len() ==> views(inputs)[i].pixel_values == inputs[i].pixel_values@
            && views(inputs)[i].pixel_attention_mask == inputs[i].pixel_attention_mask@
            && views(inputs)[i].spatial_shapes == inputs[i].spatial_shapes@,
{
}


/// A number has a nearest multiple of every positive factor, where that fits.
pub proof fn law_numbers_are_rounded_where_the_multiple_fits(number: u32, factor: u32, q: int)
    requires
        0 < factor,
        0 <= q,
        2 * (q * factor - number) < factor,
        2 * (number - q * factor) < factor,
    ensures
        rounded(number, factor) is Ok <==> q * factor <= u32::MAX,
        rounded(number, factor) matches Ok(r) ==> r == q * factor,
{
    let n = number as int;
    let f = factor as int;
    vstd::arithmetic::div_mod::lemma_fundamental_div_mod(n, f);
    let d = n / f;
    assert(f * d == d * f) by (nonlinear_arith);
    assert((d + 1) * f == d * f + f) by (nonlinear_arith);
    assert(q == d || q == d + 1) by (nonlinear_arith)
        requires
            d * f <= n < d * f + f,
            2 * (q * f - n) < f,
            2 * (n - q * f) < f,
            0 < f,
    ;
}

/// A size is planned for an image where a token covers some pixels and the sides of the
/// image can be rounded to whole tokens.
pub proof fn law_sizes_need_sides_of_whole_tokens(
    height: u32,
    width: u32,
    downsample_factor: u32,
    min_image_tokens: u32,
    max_image_tokens: u32,
    encoder_patch_size: u32,
    shrunk: Quotients,
    grown: Quotients,
)
    requires
        resized_size(
            height,
            width,
            downsample_factor,
            min_image_tokens,
            max_image_tokens,
            encoder_patch_size,
            shrunk,
            grown,
        ) is Ok,
    ensures
        0 < encoder_patch_size * downsample_factor <= u32::MAX,
        rounded(height, (encoder_patch_size * downsample_factor) as u32) is Ok,
        rounded(width, (encoder_patch_size * downsample_factor) as u32) is Ok,
{
}

/// Of the grids that are nearest to the shape of an image, the last one of which the image
/// covers more than half is its layout, and the first one where it covers half of none.
pub proof fn law_layouts_break_ties_by_area(
    height: u32,
    width: u32,
    min_tiles: u32,
    max_tiles: u32,
    tile_size: u32,
    differences: Seq<u64>,
    i: int,
)
    requires
        grid_layout(height, width, min_tiles, max_tiles, tile_size, differences) is Ok,
        0 <= i < differences.len(),
        differences[i] < 0x7ff0_0000_0000_0000,
        forall|j: int| 0 <= j < differences.len() ==> differences[i] <= #[trigger] differences[j],
        ({
            let all = candidates(min_tiles as int, max_tiles as int);
            let area = width * height;
            &&& (forall|j: int| 0 <= j < i ==> differences[i] < #[trigger] differences[j]) || 2
                * area > tile_size * tile_size * (all[i].0 * all[i].1)
            &&& forall|j: int|
                #![trigger all[j]]
                i < j < differences.len() && differences[j] == differences[i] ==> 2 * area
                    <= tile_size * tile_size * (all[j].0 * all[j].1)
        }),
    ensures
        ({
            let all = candidates(min_tiles as int, max_tiles as int);
            let (gw, gh, tw, th) = grid_layout(
                height,
                width,
                min_tiles,
                max_tiles,
                tile_size,
                differences,
            )->Ok_0;
            (gw, gh) == all[i]
        }),
{
    let all = candidates(min_tiles as int, max_tiles as int);
    law_ties_between_grids_ask_for_area(
        differences,
        all,
        width * height,
        tile_size as int,
        all.len() as int,
        i,
    );
}

/// A layout is found where there is a distance for each candidate grid and the size that is
/// cut into tiles fits.
pub proof fn law_layouts_are_found_where_they_fit(
    height: u32,
    width: u32,
    min_tiles: u32,
    max_tiles: u32,
    tile_size: u32,
    differences: Seq<u64>,
)
    requires
        differences.len() == candidates(min_tiles as int, max_tiles as int).len(),
        max_tiles * max_tiles <= usize::MAX,
        tile_size * max_tiles <= u32::MAX,
    ensures
        grid_layout(height, width, min_tiles, max_tiles, tile_size, differences) is Ok,
{
    let all = candidates(min_tiles as int, max_tiles as int);
    law_candidates_are_all_the_grids(min_tiles, max_tiles as int);
    law_the_chosen_grid_is_nearest(
        differences,
        all,
        width * height,
        tile_size as int,
        all.len() as int,
    );
    let grid = nearest_of(
        differences,
        all,
        width * height,
        tile_size as int,
        all.len() as int,
    ).1;
    if grid != (1u32, 1u32) {
        let gw = grid.0 as int;
        let gh = grid.1 as int;
        let t = tile_size as int;
        let m = max_tiles as int;
        assert(0 < gw && 0 < gh && gw * gh <= m);
        assert(t * gw <= t * m && t * gh <= t * m) by (nonlinear_arith)
            requires
                0 < gw,
                0 < gh,
                gw * gh <= m,
                0 <= t,
        ;
    }
}

/// An image is planned where it is no empty one, it can be told whether it is too large, it
/// has a size within the token budget and, where it is to be split, a layout.
pub proof fn law_images_are_planned_where_their_sizes_are(
    height: u32,
    width: u32,
    s: ProcessorSettings,
    shrunk: Quotients,
    grown: Quotients,
    differences: Seq<u64>,
)
    requires
        s.tiling.max_pixels_tolerance is Positive,
    ensures
        ({
            let t = s.tiling;
            let mantissa = t.max_pixels_tolerance->mantissa;
            let exponent = t.max_pixels_tolerance->exponent;
            let large = too_large(
                height,
                width,
                t.max_image_tokens,
                t.encoder_patch_size,
                s.downsample_factor,
                mantissa,
                exponent,
            );
            let splits = t.do_image_splitting && (t.min_tiles != 1 || t.max_tiles != 1);
            planned(height, width, s, shrunk, grown, differences) is Ok <==> {
                &&& 0 < height
                &&& 0 < width
                &&& large is Ok
                &&& resized_size(
                    height,
                    width,
                    s.downsample_factor,
                    t.min_image_tokens,
                    t.max_image_tokens,
                    t.encoder_patch_size,
                    shrunk,
                    grown,
                ) is Ok
                &&& large == Ok::<bool, Error>(true) && splits ==> grid_layout(
                    height,
                    width,
                    t.min_tiles,
                    t.max_tiles,
                    t.tile_size,
                    differences,
                ) is Ok
            }
        }),
{
}

/// It can be told whether an image is too large where a token side fits and the sides of the
/// image can be rounded to it.
pub proof fn law_sides_that_can_be_rounded_are_compared(
    height: u32,
    width: u32,
    max_image_tokens: u32,
    encoder_patch_size: u32,
    downsample_factor: u32,
    mantissa: u32,
    exponent: i32,
)
    ensures
        ({
            let side = encoder_patch_size * downsample_factor;
            too_large(
                height,
                width,
                max_image_tokens,
                encoder_patch_size,
                downsample_factor,
                mantissa,
                exponent,
            ) is Ok <==> side <= u32::MAX && rounded(height, side as u32) is Ok && rounded(
                width,
                side as u32,
            ) is Ok
        }),
{
}

/// The sub-images of a plan: tile `k` of a split image is the region of the resized image in
/// row `k / grid_width` and column `k % grid_width` of its tiles, and the last sub-image, of
/// an image that is not split or has a thumbnail, is the whole image at its thumbnail size.
pub proof fn law_cuts_are_the_tiles_and_the_whole_image<T>(
    rgb: Seq<u8>,
    width: u32,
    height: u32,
    s: ProcessorSettings,
    plan: TilePlan,
    target_kernel: Kernel,
    thumb_kernel: Kernel,
    table: NormModel<T>,
    k: int,
)
    ensures
        ({
            let t = s.tiling;
            let p = t.encoder_patch_size;
            let tiles = plan.grid_width * plan.grid_height;
            let patches = t.tile_size / p;
            let target = image::resized_rgb(
                rgb,
                width,
                height,
                plan.target_height,
                plan.target_width,
                target_kernel,
            );
            let thumb = image::resized_rgb(
                rgb,
                width,
                height,
                plan.thumb_height,
                plan.thumb_width,
                thumb_kernel,
            );
            let r = cut(rgb, width, height, s, plan, target_kernel, thumb_kernel, table);
            &&& r is Ok <==> {
                &&& tiles <= u32::MAX
                &&& plan.thumbnail ==> tiles < u32::MAX
                &&& plan.split ==> target is Ok && patchify::region_outcome(
                    t.tile_size,
                    t.tile_size,
                    patches,
                    patches,
                    p,
                    s.max_num_patches,
                ) is Ok
                &&& !plan.split || plan.thumbnail ==> thumb is Ok && patchify::region_outcome(
                    plan.thumb_width,
                    plan.thumb_height,
                    plan.thumb_height / p,
                    plan.thumb_width / p,
                    p,
                    s.max_num_patches,
                ) is Ok
            }
            &&& r matches Ok(out) ==> {
                &&& out.len() == if !plan.split {
                    1
                } else if plan.thumbnail {
                    tiles + 1
                } else {
                    tiles
                }
                &&& plan.split && 0 <= k < tiles ==> out[k] == patchify::region_inputs(
                    target->Ok_0,
                    plan.target_width as int,
                    (k % plan.grid_width as int) * t.tile_size,
                    (k / plan.grid_width as int) * t.tile_size,
                    patches,
                    patches,
                    p,
                    s.max_num_patches,
                    table,
                )
                &&& !plan.split || plan.thumbnail ==> out[out.len() - 1] == patchify::region_inputs(
                    thumb->Ok_0,
                    plan.thumb_width as int,
                    0,
                    0,
                    plan.thumb_height / p,
                    plan.thumb_width / p,
                    p,
                    s.max_num_patches,
                    table,
                )
            }
        }),
{
    assert(0 <= plan.grid_width * plan.grid_height) by (nonlinear_arith);
}

/// An image is tiled where it is a whole image within the limits, it is planned, and its
/// plan can be cut; the sub-images are those of its own plan.
pub proof fn law_images_are_cut_by_their_own_plan<T>(
    rgb: Seq<u8>,
    width: u32,
    height: u32,
    s: ProcessorSettings,
    shrunk: Quotients,
    grown: Quotients,
    differences: Seq<u64>,
    target_kernel: Kernel,
    thumb_kernel: Kernel,
    table: NormModel<T>,
)
    ensures
        ({
            let r = tiled(
                rgb,
                width,
                height,
                s,
                shrunk,
                grown,
                differences,
                target_kernel,
                thumb_kernel,
                table,
            );
            let plan = planned(height, width, s, shrunk, grown, differences);
            let whole = patchify::source_outcome(rgb.len() as int, width, height, tile_labels());
            &&& whole is Err || plan is Err ==> r is Err
            &&& whole is Ok && plan is Ok ==> r == cut(
                rgb,
                width,
                height,
                s,
                plan->Ok_0,
                target_kernel,
                thumb_kernel,
                table,
            )
        }),
{
}


/// An empty image is out of range before anything else is looked at.
pub proof fn law_empty_images_are_out_of_range(
    height: u32,
    width: u32,
    s: ProcessorSettings,
    shrunk: Quotients,
    grown: Quotients,
    differences: Seq<u64>,
)
    requires
        height == 0 || width == 0,
    ensures
        planned(height, width, s, shrunk, grown, differences) matches Err(e) && e is OutOfRange,
{
}

/// A side that does not scale is out of range, and a token side that does not fit is an
/// overflow.
pub proof fn law_refused_sizes_say_what_is_wrong(
    height: u32,
    width: u32,
    downsample_factor: u32,
    min_image_tokens: u32,
    max_image_tokens: u32,
    encoder_patch_size: u32,
    shrunk: Quotients,
    grown: Quotients,
)
    ensures
        resized_size(
            height,
            width,
            downsample_factor,
            min_image_tokens,
            max_image_tokens,
            encoder_patch_size,
            shrunk,
            grown,
        ) matches Err(e) ==> {
            &&& e is ArithmeticOverflow <==> encoder_patch_size * downsample_factor > u32::MAX
            &&& e is OutOfRange <==> encoder_patch_size * downsample_factor <= u32::MAX
        },
{
}

} // verus!
