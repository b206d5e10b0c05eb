//! RGBA8 image resampling that reproduces Pillow's `Image.resize` byte for byte.
//!
//! A convolution filter resamples in two passes, first along the rows into an
//! 8-bit intermediate image, then along the columns. The taps are fixed-point
//! integers; each output byte is the weighted sum of the bytes in its window,
//! rounded and clamped. Colour is premultiplied by alpha before the passes and
//! unpremultiplied after them, so that the colour of a transparent pixel does not
//! leak into its neighbours. Nearest-neighbour resampling gathers pixels as they
//! are.
//!
//! The taps come from evaluating the filter kernel, which is done in floating
//! point and handed in as an [`AxisTaps`] per axis. Every buffer is held to
//! [`MAX_DECODED_IMAGE_BYTES`] before it is reserved, since the target size may
//! come from an untrusted file.

use vstd::arithmetic::div_mod;
use vstd::prelude::*;

use crate::buffer::try_with_capacity;
use crate::error::{
    shape_cap, shape_length, shape_out_of_range, shape_overflow, shape_violation, Error,
};

verus! {

/// The interpolation filters.
#[derive(Debug, Clone, Copy, PartialEq, Eq, Structural)]
pub enum Filter {
    /// Nearest neighbour: a gather of pixels.
    Nearest,
    /// A triangle of radius 1.
    Bilinear,
    /// The Keys cubic with `a = -0.5`, of radius 2.
    Bicubic,
    /// A sinc windowed by a sinc, of radius 3.
    Lanczos3,
}

/// The radius of a filter kernel before it is stretched for downscaling.
pub fn filter_support(filter: Filter) -> (r: u32)
    ensures
        r == match filter {
            Filter::Nearest => 0u32,
            Filter::Bilinear => 1u32,
            Filter::Bicubic => 2u32,
            Filter::Lanczos3 => 3u32,
        },
{
    match filter {
        Filter::Nearest => 0,
        Filter::Bilinear => 1,
        Filter::Bicubic => 2,
        Filter::Lanczos3 => 3,
    }
}

/// The number of fraction bits of a tap.
pub const PRECISION_BITS: u32 = 22;

/// The tap that weighs a byte by one.
pub const TAP_ONE: i32 = 4194304;

/// Half of [`TAP_ONE`], which rounds a sum of taps to the nearest byte.
pub const ROUND_BIAS: i32 = 2097152;

/// The largest total magnitude of the taps of one output position. Twice
/// [`TAP_ONE`]: the negative lobes of the kernels take the total above one, but not
/// to two, and within this bound the 32-bit accumulator cannot overflow.
pub const MAX_TAP_MASS: i32 = 8388608;

/// The bytes of a pixel.
pub const CHANNELS: usize = 4;

/// The ceiling of every buffer that a resize uses.
pub const MAX_DECODED_IMAGE_BYTES: usize = 536870912;

// ---------------------------------------------------------------------------
// Buffer sizes
// ---------------------------------------------------------------------------

/// The size of a buffer in bytes, or why it is refused: it does not fit `usize`,
/// or it is over [`MAX_DECODED_IMAGE_BYTES`].
pub open spec fn buffer_bytes(elems: int, elem_size: int, what: &'static str) -> Result<
    usize,
    Error,
> {
    if elems * elem_size > usize::MAX {
        Err(shape_overflow(what, "usize", elems as i128, elem_size as i128))
    } else if elems * elem_size > MAX_DECODED_IMAGE_BYTES {
        Err(
            shape_cap(
                what,
                "MAX_DECODED_IMAGE_BYTES",
                MAX_DECODED_IMAGE_BYTES as u64,
                (elems * elem_size) as u64,
            ),
        )
    } else {
        Ok((elems * elem_size) as usize)
    }
}

/// The size in bytes of a buffer of `elems` items; see [`buffer_bytes`].
pub fn checked_buffer_bytes(elems: usize, elem_size: usize, what: &'static str) -> (r: Result<
    usize,
    Error,
>)
    ensures
        r == buffer_bytes(elems as int, elem_size as int, what),
{
    match elems.checked_mul(elem_size) {
        Some(bytes) => if bytes > MAX_DECODED_IMAGE_BYTES {
            Err(
                shape_cap(
                    what,
                    "MAX_DECODED_IMAGE_BYTES",
                    MAX_DECODED_IMAGE_BYTES as u64,
                    bytes as u64,
                ),
            )
        } else {
            Ok(bytes)
        },
        None => Err(shape_overflow(what, "usize", elems as i128, elem_size as i128)),
    }
}

/// The bytes of an RGBA8 image of the given size, or `None` where they do not fit
/// `usize`.
fn image_bytes(width: usize, height: usize) -> (r: Option<usize>)
    requires
        width > 0,
        height > 0,
    ensures
        match r {
            Some(n) => n == width * height * CHANNELS,
            None => width * height * CHANNELS > usize::MAX,
        },
{
    match width.checked_mul(height) {
        Some(pixels) => pixels.checked_mul(CHANNELS),
        None => None,
    }
}

// ---------------------------------------------------------------------------
// Fixed-point arithmetic
// ---------------------------------------------------------------------------

/// A fixed-point sum as a byte: rounded down to an integer and clamped.
pub open spec fn clipped(acc: int) -> u8 {
    let v = acc / TAP_ONE as int;
    if v < 0 {
        0
    } else if v > 255 {
        255
    } else {
        v as u8
    }
}

/// Rounds a fixed-point sum down to an integer and clamps it to a byte.
pub fn clip8(acc: i32) -> (r: u8)
    ensures
        r == clipped(acc as int),
{
    if acc < 0 {
        0
    } else {
        let v: i32 = acc / TAP_ONE;
        if v > 255 {
            255
        } else {
            v as u8
        }
    }
}

/// `c * a / 255`, rounded to the nearest integer.
pub open spec fn scaled_by_alpha(c: u8, a: u8) -> u8 {
    ((2 * (c * a) + 255) / 510) as u8
}

/// `c * a / 255`, rounded to the nearest integer, without a division.
pub fn muldiv255(c: u8, a: u8) -> (r: u8)
    ensures
        r == scaled_by_alpha(c, a),
{
    proof {
        assert(0 <= c * a <= 65025) by (nonlinear_arith)
            requires
                0 <= c <= 255,
                0 <= a <= 255,
        ;
    }
    let product: u32 = c as u32 * a as u32;
    let t: u32 = product + 128;
    let r: u32 = (t / 256 + t) / 256;
    assert(r == (2 * product + 255) / 510);
    r as u8
}

/// A colour byte of a premultiplied pixel, back to straight colour: `255 * c / a`,
/// rounded down and clamped; as it is for an opaque or a transparent pixel.
pub open spec fn unscaled_by_alpha(c: u8, a: u8) -> u8 {
    if a == 0 || a == 255 {
        c
    } else if (255 * c) / (a as int) > 255 {
        255
    } else {
        ((255 * c) / (a as int)) as u8
    }
}

/// `255 * c / a`, rounded down and clamped to a byte.
fn clip8_div(c: u8, a: u8) -> (r: u8)
    requires
        0 < a < 255,
    ensures
        r == unscaled_by_alpha(c, a),
{
    let v: u32 = (255 * c as u32) / a as u32;
    if v > 255 {
        255
    } else {
        v as u8
    }
}

/// Premultiplying by full opacity changes nothing, and by none leaves nothing.
pub proof fn law_opaque_and_transparent_alpha(c: u8)
    ensures
        scaled_by_alpha(c, 255) == c,
        scaled_by_alpha(c, 0) == 0,
        unscaled_by_alpha(c, 255) == c,
{
    assert(2 * (c * 255) + 255 == 510 * c + 255);
    assert(c * 0 == 0) by (nonlinear_arith);
}

/// A premultiplied image: each colour byte scaled by the alpha of its pixel.
pub open spec fn premultiplied(src: Seq<u8>) -> Seq<u8> {
    Seq::new(
        src.len(),
        |k: int|
            if k % 4 == 3 {
                src[k]
            } else {
                scaled_by_alpha(src[k], src[k / 4 * 4 + 3])
            },
    )
}

/// An image back from premultiplied to straight colour.
pub open spec fn unpremultiplied(src: Seq<u8>) -> Seq<u8> {
    Seq::new(
        src.len(),
        |k: int|
            if k % 4 == 3 {
                src[k]
            } else {
                unscaled_by_alpha(src[k], src[k / 4 * 4 + 3])
            },
    )
}

/// Appends the premultiplied pixels of `src` to `buffer`.
pub fn push_premultiplied(src: &[u8], buffer: Vec<u8>) -> (r: Vec<u8>)
    requires
        src@.len() % 4 == 0,
        buffer@.len() == 0,
    ensures
        r@ == premultiplied(src@),
{
    let mut out: Vec<u8> = buffer;
    let mut p: usize = 0;
    while p < src.len()
        invariant
            p <= src@.len(),
            p % 4 == 0,
            src@.len() % 4 == 0,
            out@ == premultiplied(src@).take(p as int),
        decreases src@.len() - p,
    {
        let a: u8 = src[p + 3];
        let ghost before = out@;
        out.push(muldiv255(src[p], a));
        out.push(muldiv255(src[p + 1], a));
        out.push(muldiv255(src[p + 2], a));
        out.push(a);
        p += 4;
        assert(out@ =~= premultiplied(src@).take(p as int));
    }
    assert(premultiplied(src@).take(p as int) =~= premultiplied(src@));
    out
}

/// A premultiplied copy of an image, or `Error::OutOfMemory`, which an image without
/// pixels never meets.
pub fn premultiply_rgba(src: &[u8]) -> (r: Result<Vec<u8>, Error>)
    requires
        src@.len() % 4 == 0,
    ensures
        match r {
            Ok(out) => out@ == premultiplied(src@),
            Err(e) => e == Error::OutOfMemory,
        },
        src@.len() == 0 ==> r is Ok,
{
    match try_with_capacity(src.len()) {
        Ok(buffer) => Ok(push_premultiplied(src, buffer)),
        Err(e) => Err(e),
    }
}

/// Turns an image from premultiplied to straight colour.
pub fn unpremultiply_rgba(buf: &mut Vec<u8>)
    requires
        old(buf)@.len() % 4 == 0,
    ensures
        final(buf)@ == unpremultiplied(old(buf)@),
{
    let ghost src = buf@;
    let mut p: usize = 0;
    while p < buf.len()
        invariant
            buf@.len() == src.len(),
            p <= src.len(),
            p % 4 == 0,
            src.len() % 4 == 0,
            forall|k: int| 0 <= k < p ==> buf@[k] == #[trigger] unpremultiplied(src)[k],
            forall|k: int| p <= k < src.len() ==> buf@[k] == src[k],
        decreases src.len() - p,
    {
        let a: u8 = buf[p + 3];
        if a != 0 && a != 255 {
            let r: u8 = clip8_div(buf[p], a);
            let g: u8 = clip8_div(buf[p + 1], a);
            let b: u8 = clip8_div(buf[p + 2], a);
            buf.set(p, r);
            buf.set(p + 1, g);
            buf.set(p + 2, b);
        }
        p += 4;
    }
    assert(buf@ =~= unpremultiplied(src));
}

/// Premultiplying an opaque image, and unpremultiplying it, gives the image back.
pub proof fn law_opaque_images_are_unchanged(src: Seq<u8>)
    requires
        src.len() % 4 == 0,
        forall|k: int| 0 <= k < src.len() && k % 4 == 3 ==> #[trigger] src[k] == 255,
    ensures
        premultiplied(src) == src,
        unpremultiplied(src) == src,
{
    assert forall|k: int| 0 <= k < src.len() implies premultiplied(src)[k] == src[k]
        && unpremultiplied(src)[k] == src[k] by {
        let a = k / 4 * 4 + 3;
        assert(0 <= a < src.len() && a % 4 == 3);
        assert(src[a] == 255);
        law_opaque_and_transparent_alpha(src[k]);
    }
    assert(premultiplied(src) =~= src);
    assert(unpremultiplied(src) =~= src);
}

/// A transparent pixel keeps no colour when it is premultiplied, and gets none
/// back.
pub proof fn law_transparent_pixels_have_no_colour(src: Seq<u8>, p: int)
    requires
        src.len() % 4 == 0,
        0 <= p,
        4 * p + 3 < src.len(),
        src[4 * p + 3] == 0,
    ensures
        forall|c: int| 0 <= c < 4 ==> #[trigger] premultiplied(src)[4 * p + c] == 0,
        forall|c: int|
            0 <= c < 4 ==> #[trigger] unpremultiplied(premultiplied(src))[4 * p + c] == 0,
{
    let pm = premultiplied(src);
    assert forall|c: int| 0 <= c < 4 implies #[trigger] pm[4 * p + c] == 0 by {
        assert((4 * p + c) / 4 * 4 + 3 == 4 * p + 3);
        law_opaque_and_transparent_alpha(src[4 * p + c]);
    }
    assert forall|c: int| 0 <= c < 4 implies #[trigger] unpremultiplied(pm)[4 * p + c] == 0 by {
        assert((4 * p + c) / 4 * 4 + 3 == 4 * p + 3);
        assert(pm[4 * p + 3] == 0);
        assert(pm[4 * p + c] == 0);
    }
}

// ---------------------------------------------------------------------------
// Coefficient tables
// ---------------------------------------------------------------------------

/// The taps of one output position: the input window that the filter kernel
/// reaches, before it is cut off at the end of the input, and one fixed-point tap
/// per input position that remains.
#[derive(Debug)]
pub struct TapRow {
    /// The first input position of the window.
    pub start: usize,
    /// The end of the window.
    pub end: usize,
    /// The taps, `round(weight * 2^22)` each.
    pub taps: Vec<i32>,
}

/// What a filter kernel evaluates to along one axis.
#[derive(Debug)]
pub struct AxisTaps {
    /// The radius of the stretched kernel, rounded up.
    pub support: usize,
    /// The taps of each output position.
    pub rows: Vec<TapRow>,
}

/// The number of input positions of a window that is cut off at `in_size`.
pub open spec fn window_len(row: TapRow, in_size: usize) -> usize {
    let end = if row.end < in_size {
        row.end
    } else {
        in_size
    };
    if end < row.start {
        0
    } else {
        (end - row.start) as usize
    }
}

/// The total magnitude of the first `n` taps from `off` on.
pub open spec fn tap_mass(weights: Seq<i32>, off: int, n: int) -> int
    decreases n,
{
    if n <= 0 {
        0
    } else {
        let w = weights[off + n - 1] as int;
        tap_mass(weights, off, n - 1) + if w < 0 {
            -w
        } else {
            w
        }
    }
}

/// Whether the taps of one output position fit the table: a window that starts in
/// the input, or at its end where it is empty, one tap for each input position of
/// the window, at most `ksize` of them, and a total magnitude that the accumulator
/// can hold.
pub open spec fn row_fits(row: TapRow, in_size: usize, ksize: int) -> bool {
    &&& row.start <= in_size
    &&& row.taps@.len() == window_len(row, in_size)
    &&& row.taps@.len() <= ksize
    &&& tap_mass(row.taps@, 0, row.taps@.len() as int) <= MAX_TAP_MASS
}

/// The bytes of a machine word.
pub open spec fn word_bytes() -> usize {
    (usize::BITS / 8) as usize
}

/// The stride of a coefficient table: room for a window of the given radius, and
/// no more than the input is long.
pub open spec fn table_stride(in_size: usize, support: usize) -> int {
    if 2 * support + 1 < in_size {
        2 * support + 1
    } else {
        in_size as int
    }
}

/// The stride of a coefficient table, or why the table is refused.
pub open spec fn table_outcome(in_size: usize, out_size: usize, support: usize) -> Result<
    usize,
    Error,
> {
    let ksize = table_stride(in_size, support);
    if in_size == 0 || out_size == 0 {
        Err(shape_out_of_range("precompute_coeffs: in_size, out_size", "must be non-zero", 0))
    } else if 2 * support + 1 > usize::MAX {
        Err(
            shape_overflow(
                "precompute_coeffs: ksize (2 * support + 1)",
                "usize",
                support as i128,
                2,
            ),
        )
    } else {
        match buffer_bytes(out_size as int, 2 * word_bytes(), "coefficient bounds table") {
            Err(e) => Err(e),
            Ok(_) => if out_size * ksize > usize::MAX {
                Err(
                    shape_overflow(
                        "precompute_coeffs: out_size * ksize",
                        "usize",
                        out_size as i128,
                        ksize as i128,
                    ),
                )
            } else {
                match buffer_bytes(out_size * ksize, 4, "coefficient weight table") {
                    Err(e) => Err(e),
                    Ok(_) => match buffer_bytes(ksize, 8, "coefficient row scratch") {
                        Err(e) => Err(e),
                        Ok(_) => Ok(ksize as usize),
                    },
                }
            },
        }
    }
}

/// The refusal of the first row from `i` on that does not fit the table.
pub open spec fn rows_outcome(rows: Seq<TapRow>, in_size: usize, ksize: int, i: int) -> Result<
    (),
    Error,
>
    decreases rows.len() - i,
{
    if i < 0 || i >= rows.len() {
        Ok(())
    } else if !row_fits(rows[i], in_size, ksize) {
        Err(
            shape_violation(
                "precompute_coeffs: tap row",
                "must start in the input and hold one bounded tap per window position",
            ),
        )
    } else {
        rows_outcome(rows, in_size, ksize, i + 1)
    }
}

/// The stride of the coefficient table of an axis, or why the axis is refused.
pub open spec fn coeffs_outcome(in_size: usize, out_size: usize, axis: AxisTaps) -> Result<
    usize,
    Error,
> {
    match table_outcome(in_size, out_size, axis.support) {
        Err(e) => Err(e),
        Ok(ksize) => if axis.rows@.len() != out_size {
            Err(
                shape_length(
                    "precompute_coeffs: tap rows vs out_size",
                    out_size,
                    axis.rows@.len() as usize,
                ),
            )
        } else {
            match rows_outcome(axis.rows@, in_size, ksize as int, 0) {
                Err(e) => Err(e),
                Ok(_) => Ok(ksize),
            }
        },
    }
}

/// The coefficients of one axis: the window of each output position, and its taps
/// in a table of uniform stride, with zeros behind the last tap.
#[derive(Debug)]
pub struct Coeffs {
    /// The start and the length of the window of each output position.
    pub bounds: Vec<(usize, usize)>,
    /// The taps, row by row.
    pub weights: Vec<i32>,
    /// The stride of a row.
    pub ksize: usize,
}

/// What a coefficient table holds.
#[verifier::ext_equal]
pub struct CoeffsModel {
    pub bounds: Seq<(usize, usize)>,
    pub weights: Seq<i32>,
    pub ksize: int,
}

impl View for Coeffs {
    type V = CoeffsModel;

    open spec fn view(&self) -> CoeffsModel {
        CoeffsModel { bounds: self.bounds@, weights: self.weights@, ksize: self.ksize as int }
    }
}

/// The coefficient table of the given taps.
pub open spec fn coeffs_model(rows: Seq<TapRow>, in_size: usize, ksize: int) -> CoeffsModel {
    CoeffsModel {
        bounds: Seq::new(
            rows.len(),
            |o: int| (rows[o].start, window_len(rows[o], in_size)),
        ),
        weights: Seq::new(
            (rows.len() * ksize) as nat,
            |k: int|
                {
                    let taps = rows[k / ksize].taps@;
                    if k % ksize < taps.len() {
                        taps[k % ksize]
                    } else {
                        0
                    }
                },
        ),
        ksize,
    }
}

impl CoeffsModel {
    /// Every window lies in the input and in its row of the table, and the taps of
    /// every row fit the accumulator.
    pub open spec fn fits(self, in_size: int) -> bool {
        &&& self.ksize >= 0
        &&& self.weights.len() == self.bounds.len() * self.ksize
        &&& forall|o: int| #![trigger self.bounds[o]]
            0 <= o < self.bounds.len() ==> {
                &&& self.bounds[o].1 <= self.ksize
                &&& self.bounds[o].0 + self.bounds[o].1 <= in_size
                &&& tap_mass(self.weights, o * self.ksize, self.bounds[o].1 as int)
                    <= MAX_TAP_MASS
            }
    }
}

proof fn lemma_mass_same(a: Seq<i32>, a_off: int, b: Seq<i32>, b_off: int, n: int)
    requires
        forall|i: int| 0 <= i < n ==> a[a_off + i] == #[trigger] b[b_off + i],
    ensures
        tap_mass(a, a_off, n) == tap_mass(b, b_off, n),
    decreases n,
{
    if n > 0 {
        assert(a[a_off + (n - 1)] == b[b_off + (n - 1)]);
        lemma_mass_same(a, a_off, b, b_off, n - 1);
    }
}

proof fn lemma_mass_monotone(weights: Seq<i32>, off: int, i: int, n: int)
    requires
        0 <= i <= n,
    ensures
        0 <= tap_mass(weights, off, i) <= tap_mass(weights, off, n),
    decreases n,
{
    if n > 0 {
        lemma_mass_monotone(weights, off, if i < n { i } else { n - 1 }, n - 1);
    }
}

/// A position of a row-major table is its row times the stride plus its column.
proof fn lemma_row_position(o: int, i: int, rows: int, stride: int)
    requires
        0 <= o < rows,
        0 <= i < stride,
    ensures
        0 <= o * stride + i < rows * stride,
        (o * stride + i) / stride == o,
        (o * stride + i) % stride == i,
{
    assert(0 <= o * stride) by (nonlinear_arith)
        requires
            0 <= o,
            0 < stride,
    ;
    assert(o * stride + stride <= rows * stride) by (nonlinear_arith)
        requires
            o + 1 <= rows,
            0 < stride,
    ;
    div_mod::lemma_fundamental_div_mod_converse(o * stride + i, stride, o, i);
}

proof fn lemma_rows_fit(rows: Seq<TapRow>, in_size: usize, ksize: int, i: int)
    requires
        0 <= i <= rows.len(),
        rows_outcome(rows, in_size, ksize, i) is Ok,
    ensures
        forall|o: int| #![trigger rows[o]]
            i <= o < rows.len() ==> row_fits(rows[o], in_size, ksize),
    decreases rows.len() - i,
{
    if i < rows.len() {
        lemma_rows_fit(rows, in_size, ksize, i + 1);
    }
}

/// The table of accepted taps fits its input.
pub proof fn lemma_coeffs_fit(rows: Seq<TapRow>, in_size: usize, ksize: int)
    requires
        ksize >= 0,
        rows_outcome(rows, in_size, ksize, 0) is Ok,
    ensures
        coeffs_model(rows, in_size, ksize).fits(in_size as int),
{
    lemma_rows_fit(rows, in_size, ksize, 0);
    let c = coeffs_model(rows, in_size, ksize);
    assert(0 <= rows.len() * ksize) by (nonlinear_arith)
        requires
            0 <= ksize,
    ;
    assert forall|o: int| #![trigger c.bounds[o]] 0 <= o < c.bounds.len() implies {
        &&& c.bounds[o].1 <= c.ksize
        &&& c.bounds[o].0 + c.bounds[o].1 <= in_size
        &&& tap_mass(c.weights, o * c.ksize, c.bounds[o].1 as int) <= MAX_TAP_MASS
    } by {
        assert(row_fits(rows[o], in_size, ksize));
        let taps = rows[o].taps@;
        assert forall|i: int| 0 <= i < taps.len() implies c.weights[o * ksize + i]
            == #[trigger] taps[0 + i] by {
            lemma_row_position(o, i, rows.len() as int, ksize);
        }
        lemma_mass_same(c.weights, o * ksize, taps, 0, taps.len() as int);
    }
}

/// Sizes a coefficient table; see [`table_outcome`].
pub fn plan_table(in_size: usize, out_size: usize, support: usize) -> (r: Result<usize, Error>)
    ensures
        r == table_outcome(in_size, out_size, support),
{
    if in_size == 0 || out_size == 0 {
        return Err(
            shape_out_of_range("precompute_coeffs: in_size, out_size", "must be non-zero", 0),
        );
    }
    let reach: usize = match support.checked_mul(2) {
        Some(n) => match n.checked_add(1) {
            Some(n) => n,
            None => {
                return Err(
                    shape_overflow(
                        "precompute_coeffs: ksize (2 * support + 1)",
                        "usize",
                        support as i128,
                        2,
                    ),
                );
            },
        },
        None => {
            return Err(
                shape_overflow(
                    "precompute_coeffs: ksize (2 * support + 1)",
                    "usize",
                    support as i128,
                    2,
                ),
            );
        },
    };
    let ksize: usize = if reach < in_size {
        reach
    } else {
        in_size
    };
    checked_buffer_bytes(
        out_size,
        2 * (usize::BITS / 8) as usize,
        "coefficient bounds table",
    )?;
    let weight_len: usize = match out_size.checked_mul(ksize) {
        Some(n) => n,
        None => {
            return Err(
                shape_overflow(
                    "precompute_coeffs: out_size * ksize",
                    "usize",
                    out_size as i128,
                    ksize as i128,
                ),
            );
        },
    };
    checked_buffer_bytes(weight_len, 4, "coefficient weight table")?;
    match checked_buffer_bytes(ksize, 8, "coefficient row scratch") {
        Ok(_) => Ok(ksize),
        Err(e) => Err(e),
    }
}

/// The number of input positions of a window.
fn window(row: &TapRow, in_size: usize) -> (r: usize)
    ensures
        r == window_len(*row, in_size),
{
    let end: usize = if row.end < in_size {
        row.end
    } else {
        in_size
    };
    if end < row.start {
        0
    } else {
        end - row.start
    }
}

/// Whether the total magnitude of the taps is within [`MAX_TAP_MASS`].
fn mass_within(taps: &Vec<i32>) -> (r: bool)
    ensures
        r == (tap_mass(taps@, 0, taps@.len() as int) <= MAX_TAP_MASS),
{
    let mut mass: i64 = 0;
    let mut i: usize = 0;
    while i < taps.len()
        invariant
            i <= taps@.len(),
            mass == tap_mass(taps@, 0, i as int),
            0 <= mass <= MAX_TAP_MASS,
        decreases taps@.len() - i,
    {
        let w: i64 = taps[i] as i64;
        mass = mass + if w < 0 {
            -w
        } else {
            w
        };
        i += 1;
        if mass > MAX_TAP_MASS as i64 {
            proof {
                lemma_mass_monotone(taps@, 0, i as int, taps@.len() as int);
            }
            return false;
        }
    }
    true
}

/// Checks the taps of an axis and sizes its coefficient table; see
/// [`coeffs_outcome`].
pub fn plan_coeffs(in_size: usize, out_size: usize, axis: &AxisTaps) -> (r: Result<usize, Error>)
    ensures
        r == coeffs_outcome(in_size, out_size, *axis),
{
    let ksize: usize = plan_table(in_size, out_size, axis.support)?;
    if axis.rows.len() != out_size {
        return Err(
            shape_length("precompute_coeffs: tap rows vs out_size", out_size, axis.rows.len()),
        );
    }
    let mut i: usize = 0;
    while i < axis.rows.len()
        invariant
            i <= axis.rows@.len(),
            axis.rows@.len() == out_size,
            table_outcome(in_size, out_size, axis.support) == Ok::<usize, Error>(ksize),
            rows_outcome(axis.rows@, in_size, ksize as int, 0) == rows_outcome(
                axis.rows@,
                in_size,
                ksize as int,
                i as int,
            ),
        decreases axis.rows@.len() - i,
    {
        let row: &TapRow = &axis.rows[i];
        if row.start > in_size || row.taps.len() != window(row, in_size) || row.taps.len() > ksize
            || !mass_within(&row.taps) {
            return Err(
                shape_violation(
                    "precompute_coeffs: tap row",
                    "must start in the input and hold one bounded tap per window position",
                ),
            );
        }
        i += 1;
    }
    Ok(ksize)
}

/// Writes the accepted taps of an axis into a table, in the two given buffers.
pub fn fill_coeffs(
    in_size: usize,
    out_size: usize,
    axis: &AxisTaps,
    ksize: usize,
    bounds: Vec<(usize, usize)>,
    weights: Vec<i32>,
) -> (r: Coeffs)
    requires
        coeffs_outcome(in_size, out_size, *axis) == Ok::<usize, Error>(ksize),
        bounds@.len() == 0,
        weights@.len() == 0,
    ensures
        r@ == coeffs_model(axis.rows@, in_size, ksize as int),
        r@.fits(in_size as int),
{
    let ghost rows = axis.rows@;
    let ghost model = coeffs_model(rows, in_size, ksize as int);
    proof {
        lemma_rows_fit(rows, in_size, ksize as int, 0);
        lemma_coeffs_fit(rows, in_size, ksize as int);
    }
    let mut bounds: Vec<(usize, usize)> = bounds;
    let mut weights: Vec<i32> = weights;
    let mut o: usize = 0;
    proof {
        assert(0 * ksize == 0) by (nonlinear_arith);
    }
    while o < axis.rows.len()
        invariant
            o <= rows.len(),
            rows == axis.rows@,
            model == coeffs_model(rows, in_size, ksize as int),
            forall|i: int| #![trigger rows[i]]
                0 <= i < rows.len() ==> row_fits(rows[i], in_size, ksize as int),
            bounds@ == model.bounds.take(o as int),
            weights@.len() == o * ksize,
            o * ksize <= rows.len() * ksize,
            model.weights.len() == rows.len() * ksize,
            forall|k: int| 0 <= k < weights@.len() ==> weights@[k] == #[trigger] model.weights[k],
        decreases rows.len() - o,
    {
        let row: &TapRow = &axis.rows[o];
        let n: usize = row.taps.len();
        assert(row_fits(rows[o as int], in_size, ksize as int));
        bounds.push((row.start, n));
        let mut i: usize = 0;
        while i < ksize
            invariant
                i <= ksize,
                o < rows.len(),
                rows == axis.rows@,
                *row == rows[o as int],
                n == row.taps@.len() <= ksize,
                model == coeffs_model(rows, in_size, ksize as int),
                weights@.len() == o * ksize + i,
                model.weights.len() == rows.len() * ksize,
                forall|k: int|
                    0 <= k < weights@.len() ==> weights@[k] == #[trigger] model.weights[k],
            decreases ksize - i,
        {
            proof {
                lemma_row_position(o as int, i as int, rows.len() as int, ksize as int);
            }
            if i < n {
                weights.push(row.taps[i]);
            } else {
                weights.push(0);
            }
            i += 1;
        }
        o += 1;
        proof {
            assert(o * ksize == (o - 1) * ksize + ksize) by (nonlinear_arith);
            assert(o * ksize <= rows.len() * ksize) by (nonlinear_arith)
                requires
                    o <= rows.len(),
                    0 <= ksize,
            ;
            assert(bounds@ =~= model.bounds.take(o as int));
        }
    }
    let r = Coeffs { bounds, weights, ksize };
    assert(model.bounds.take(o as int) =~= model.bounds);
    assert(r@ =~= model);
    r
}

/// The coefficient table of an axis that is resampled from `in_size` to
/// `out_size` positions with the given taps.
///
/// The only refusal that [`plan_coeffs`] does not make is `Error::OutOfMemory`,
/// where the allocator declines a buffer of [`fill_coeffs`].
pub fn precompute_coeffs(in_size: usize, out_size: usize, axis: &AxisTaps) -> (r: Result<
    Coeffs,
    Error,
>)
    ensures
        match coeffs_outcome(in_size, out_size, *axis) {
            Ok(ksize) => match r {
                Ok(c) => c@ == coeffs_model(axis.rows@, in_size, ksize as int) && c@.fits(
                    in_size as int,
                ),
                Err(e) => e == Error::OutOfMemory,
            },
            Err(e) => r == Err::<Coeffs, Error>(e),
        },
{
    match plan_coeffs(in_size, out_size, axis) {
        Ok(ksize) => build_coeffs(in_size, out_size, axis, ksize),
        Err(e) => Err(e),
    }
}

/// Reserves and fills the coefficient table of an accepted axis.
fn build_coeffs(in_size: usize, out_size: usize, axis: &AxisTaps, ksize: usize) -> (r: Result<
    Coeffs,
    Error,
>)
    requires
        coeffs_outcome(in_size, out_size, *axis) == Ok::<usize, Error>(ksize),
    ensures
        match r {
            Ok(c) => c@ == coeffs_model(axis.rows@, in_size, ksize as int) && c@.fits(
                in_size as int,
            ),
            Err(e) => e == Error::OutOfMemory,
        },
{
    let bounds: Vec<(usize, usize)> = try_with_capacity(out_size)?;
    let weights: Vec<i32> = try_with_capacity(out_size * ksize)?;
    Ok(fill_coeffs(in_size, out_size, axis, ksize, bounds, weights))
}

// ---------------------------------------------------------------------------
// Convolution
// ---------------------------------------------------------------------------

/// The weighted sum of `n` bytes that stand `stride` apart from `base` on, with
/// the taps from `off` on.
pub open spec fn tap_sum(
    src: Seq<u8>,
    base: int,
    stride: int,
    weights: Seq<i32>,
    off: int,
    n: int,
) -> int
    decreases n,
{
    if n <= 0 {
        0
    } else {
        tap_sum(src, base, stride, weights, off, n - 1) + src[base + (n - 1) * stride]
            * weights[off + n - 1]
    }
}

/// A byte of the horizontal pass: channel `ch` of output column `x` in row `y`.
pub open spec fn horizontal_byte(
    src: Seq<u8>,
    src_w: int,
    c: CoeffsModel,
    y: int,
    x: int,
    ch: int,
) -> u8 {
    clipped(
        ROUND_BIAS + tap_sum(
            src,
            (y * src_w + c.bounds[x].0) * 4 + ch,
            4,
            c.weights,
            x * c.ksize,
            c.bounds[x].1 as int,
        ),
    )
}

/// The horizontal pass: `rows` rows of one pixel per coefficient row.
pub open spec fn horizontal_pass(src: Seq<u8>, src_w: int, rows: int, c: CoeffsModel) -> Seq<
    u8,
> {
    let w = c.bounds.len() as int;
    Seq::new(
        (rows * w * 4) as nat,
        |k: int| horizontal_byte(src, src_w, c, k / 4 / w, k / 4 % w, k % 4),
    )
}

/// A byte of the vertical pass: channel `ch` of column `x` in output row `y`.
pub open spec fn vertical_byte(
    src: Seq<u8>,
    width: int,
    c: CoeffsModel,
    y: int,
    x: int,
    ch: int,
) -> u8 {
    clipped(
        ROUND_BIAS + tap_sum(
            src,
            (c.bounds[y].0 * width + x) * 4 + ch,
            width * 4,
            c.weights,
            y * c.ksize,
            c.bounds[y].1 as int,
        ),
    )
}

/// The vertical pass: one row of `width` pixels per coefficient row.
pub open spec fn vertical_pass(src: Seq<u8>, width: int, c: CoeffsModel) -> Seq<u8> {
    Seq::new(
        (c.bounds.len() * width * 4) as nat,
        |k: int| vertical_byte(src, width, c, k / 4 / width, k / 4 % width, k % 4),
    )
}

/// The byte of a pixel in an RGBA8 image.
proof fn lemma_pixel_position(y: int, x: int, ch: int, height: int, width: int)
    requires
        0 <= y < height,
        0 <= x < width,
        0 <= ch < 4,
    ensures
        0 <= (y * width + x) * 4 + ch < height * width * 4,
        ((y * width + x) * 4 + ch) / 4 / width == y,
        ((y * width + x) * 4 + ch) / 4 % width == x,
        ((y * width + x) * 4 + ch) % 4 == ch,
{
    lemma_row_position(y, x, height, width);
    assert(((y * width + x) * 4 + ch) / 4 == y * width + x);
}

/// The weighted sum stays within what the total magnitude of the taps allows.
proof fn lemma_tap_sum_bound(
    src: Seq<u8>,
    base: int,
    stride: int,
    weights: Seq<i32>,
    off: int,
    n: int,
)
    ensures
        -255 * tap_mass(weights, off, n) <= tap_sum(src, base, stride, weights, off, n) <= 255
            * tap_mass(weights, off, n),
    decreases n,
{
    if n > 0 {
        lemma_tap_sum_bound(src, base, stride, weights, off, n - 1);
        let b = src[base + (n - 1) * stride] as int;
        let w = weights[off + n - 1] as int;
        assert(-255 * w <= b * w <= 255 * w || 255 * w <= b * w <= -255 * w) by (nonlinear_arith)
            requires
                0 <= b <= 255,
        ;
    }
}

/// Sums `n` weighted bytes onto the rounding bias.
fn accumulate(
    src: &[u8],
    base: usize,
    stride: usize,
    weights: &Vec<i32>,
    off: usize,
    n: usize,
) -> (r: i32)
    requires
        n > 0 ==> base + (n - 1) * stride < src@.len(),
        off + n <= weights@.len(),
        tap_mass(weights@, off as int, n as int) <= MAX_TAP_MASS,
    ensures
        r == ROUND_BIAS + tap_sum(
            src@,
            base as int,
            stride as int,
            weights@,
            off as int,
            n as int,
        ),
{
    let src_len: usize = src.len();
    let table_len: usize = weights.len();
    let mut acc: i32 = ROUND_BIAS;
    let mut i: usize = 0;
    proof {
        assert(0 * stride == 0) by (nonlinear_arith);
    }
    while i < n
        invariant
            i <= n,
            src_len == src@.len(),
            table_len == weights@.len(),
            n > 0 ==> base + (n - 1) * stride < src_len,
            off + n <= table_len,
            tap_mass(weights@, off as int, n as int) <= MAX_TAP_MASS,
            acc == ROUND_BIAS + tap_sum(
                src@,
                base as int,
                stride as int,
                weights@,
                off as int,
                i as int,
            ),
        decreases n - i,
    {
        proof {
            assert(0 <= i * stride <= (n - 1) * stride) by (nonlinear_arith)
                requires
                    0 <= i <= n - 1,
                    0 <= stride,
            ;
            lemma_mass_monotone(weights@, off as int, i as int, n as int);
            lemma_mass_monotone(weights@, off as int, i + 1, n as int);
            lemma_tap_sum_bound(
                src@,
                base as int,
                stride as int,
                weights@,
                off as int,
                i as int,
            );
            lemma_tap_sum_bound(src@, base as int, stride as int, weights@, off as int, i + 1);
        }
        let w: i32 = weights[off + i];
        let b: u8 = src[base + i * stride];
        proof {
            assert(-255 * (w as int) <= b * w <= 255 * (w as int) || 255 * (w as int) <= b * w
                <= -255 * (w as int)) by (nonlinear_arith)
                requires
                    0 <= b <= 255,
            ;
        }
        acc = acc + b as i32 * w;
        i += 1;
    }
    acc
}

/// Resamples every row of an image, and appends the rows to `buffer`.
pub fn convolve_axis(
    src: &[u8],
    src_w: usize,
    rows: usize,
    coeffs: &Coeffs,
    buffer: Vec<u8>,
) -> (r: Vec<u8>)
    requires
        src@.len() == src_w * rows * 4,
        coeffs@.fits(src_w as int),
        coeffs@.bounds.len() * rows * 4 <= usize::MAX,
        buffer@.len() == 0,
    ensures
        r@ == horizontal_pass(src@, src_w as int, rows as int, coeffs@),
{
    let out_w: usize = coeffs.bounds.len();
    let _src_len: usize = src.len();
    let _table_len: usize = coeffs.weights.len();
    let ghost c = coeffs@;
    let ghost model = horizontal_pass(src@, src_w as int, rows as int, c);
    let mut out: Vec<u8> = buffer;
    let mut y: usize = 0;
    proof {
        assert(src_w * rows == rows * src_w) by (nonlinear_arith);
        assert(out_w * rows == rows * out_w) by (nonlinear_arith);
        assert(0 * out_w == 0) by (nonlinear_arith);
        assert(0 <= rows * out_w) by (nonlinear_arith)
            requires
                0 <= rows,
                0 <= out_w,
        ;
    }
    while y < rows
        invariant
            y <= rows,
            c == coeffs@,
            c.fits(src_w as int),
            out_w == c.bounds.len(),
            src@.len() == rows * src_w * 4,
                    src@.len() <= usize::MAX,
                    c.weights.len() <= usize::MAX,
            model == horizontal_pass(src@, src_w as int, rows as int, c),
            model.len() == rows * out_w * 4,
            out@.len() == y * out_w * 4,
            forall|k: int| 0 <= k < out@.len() ==> out@[k] == #[trigger] model[k],
        decreases rows - y,
    {
        let mut x: usize = 0;
        while x < out_w
            invariant
                y < rows,
                x <= out_w,
                c == coeffs@,
                c.fits(src_w as int),
                out_w == c.bounds.len(),
                src@.len() == rows * src_w * 4,
                    src@.len() <= usize::MAX,
                    c.weights.len() <= usize::MAX,
                model == horizontal_pass(src@, src_w as int, rows as int, c),
                model.len() == rows * out_w * 4,
                out@.len() == (y * out_w + x) * 4,
                forall|k: int| 0 <= k < out@.len() ==> out@[k] == #[trigger] model[k],
            decreases out_w - x,
        {
            let (xmin, n): (usize, usize) = coeffs.bounds[x];
            assert(c.bounds[x as int] == (xmin, n));
            proof {
                lemma_table_row(c, src_w as int, x as int);
            }
            let off: usize = x * coeffs.ksize;
            let mut ch: usize = 0;
            while ch < 4
                invariant
                    y < rows,
                    x < out_w,
                    ch <= 4,
                    c == coeffs@,
                    c.fits(src_w as int),
                    c.bounds[x as int] == (xmin, n),
                    off == x * c.ksize,
                    off + n <= c.weights.len(),
                    out_w == c.bounds.len(),
                    src@.len() == rows * src_w * 4,
                    src@.len() <= usize::MAX,
                    c.weights.len() <= usize::MAX,
                    model == horizontal_pass(src@, src_w as int, rows as int, c),
                    model.len() == rows * out_w * 4,
                    out@.len() == (y * out_w + x) * 4 + ch,
                    forall|k: int| 0 <= k < out@.len() ==> out@[k] == #[trigger] model[k],
                decreases 4 - ch,
            {
                proof {
                    lemma_pixel_position(
                        y as int,
                        x as int,
                        ch as int,
                        rows as int,
                        out_w as int,
                    );
                }
                let byte: u8 = if n == 0 {
                    clip8(ROUND_BIAS)
                } else {
                    proof {
                        lemma_pixel_position(
                            y as int,
                            xmin as int,
                            ch as int,
                            rows as int,
                            src_w as int,
                        );
                        lemma_pixel_position(
                            y as int,
                            xmin + n - 1,
                            ch as int,
                            rows as int,
                            src_w as int,
                        );
                        assert(0 <= y * src_w) by (nonlinear_arith)
                            requires
                                0 <= y,
                                0 <= src_w,
                        ;
                    }
                    let base: usize = (y * src_w + xmin) * 4 + ch;
                    clip8(accumulate(src, base, 4, &coeffs.weights, off, n))
                };
                out.push(byte);
                ch += 1;
            }
            x += 1;
        }
        y += 1;
        proof {
            assert(y * out_w == (y - 1) * out_w + out_w) by (nonlinear_arith);
        }
    }
    assert(out@ =~= model);
    out
}

/// The taps of a row lie in the table.
proof fn lemma_table_row(c: CoeffsModel, in_size: int, o: int)
    requires
        c.fits(in_size),
        0 <= o < c.bounds.len(),
    ensures
        0 <= o * c.ksize,
        o * c.ksize + c.bounds[o].1 <= c.weights.len(),
{
    assert(0 <= o * c.ksize && o * c.ksize + c.ksize <= c.bounds.len() * c.ksize)
        by (nonlinear_arith)
        requires
            0 <= o,
            o + 1 <= c.bounds.len(),
            0 <= c.ksize,
    ;
    assert(c.bounds[o].1 <= c.ksize);
}

/// Resamples every column of an image, and appends the rows to `buffer`.
pub fn convolve_vertical(
    src: &[u8],
    width: usize,
    src_h: usize,
    coeffs: &Coeffs,
    buffer: Vec<u8>,
) -> (r: Vec<u8>)
    requires
        src@.len() == width * src_h * 4,
        coeffs@.fits(src_h as int),
        width * coeffs@.bounds.len() * 4 <= usize::MAX,
        buffer@.len() == 0,
    ensures
        r@ == vertical_pass(src@, width as int, coeffs@),
{
    let out_h: usize = coeffs.bounds.len();
    let _src_len: usize = src.len();
    let _table_len: usize = coeffs.weights.len();
    let ghost c = coeffs@;
    let ghost model = vertical_pass(src@, width as int, c);
    let mut out: Vec<u8> = buffer;
    let mut y: usize = 0;
    proof {
        assert(width * src_h == src_h * width) by (nonlinear_arith);
        assert(width * out_h == out_h * width) by (nonlinear_arith);
        assert(0 * width == 0) by (nonlinear_arith);
        assert(0 <= out_h * width) by (nonlinear_arith)
            requires
                0 <= out_h,
                0 <= width,
        ;
    }
    while y < out_h
        invariant
            y <= out_h,
            c == coeffs@,
            c.fits(src_h as int),
            out_h == c.bounds.len(),
            src@.len() == src_h * width * 4,
            src@.len() <= usize::MAX,
            c.weights.len() <= usize::MAX,
            model == vertical_pass(src@, width as int, c),
            model.len() == out_h * width * 4,
            out@.len() == y * width * 4,
            forall|k: int| 0 <= k < out@.len() ==> out@[k] == #[trigger] model[k],
        decreases out_h - y,
    {
        let (ymin, n): (usize, usize) = coeffs.bounds[y];
        assert(c.bounds[y as int] == (ymin, n));
        proof {
            lemma_table_row(c, src_h as int, y as int);
        }
        let off: usize = y * coeffs.ksize;
        let mut x: usize = 0;
        while x < width
            invariant
                y < out_h,
                x <= width,
                c == coeffs@,
                c.fits(src_h as int),
                c.bounds[y as int] == (ymin, n),
                off == y * c.ksize,
                off + n <= c.weights.len(),
                out_h == c.bounds.len(),
                src@.len() == src_h * width * 4,
                src@.len() <= usize::MAX,
                c.weights.len() <= usize::MAX,
                model == vertical_pass(src@, width as int, c),
                model.len() == out_h * width * 4,
                out@.len() == (y * width + x) * 4,
                forall|k: int| 0 <= k < out@.len() ==> out@[k] == #[trigger] model[k],
            decreases width - x,
        {
            let mut ch: usize = 0;
            while ch < 4
                invariant
                    y < out_h,
                    x < width,
                    ch <= 4,
                    c == coeffs@,
                    c.fits(src_h as int),
                    c.bounds[y as int] == (ymin, n),
                    off == y * c.ksize,
                    off + n <= c.weights.len(),
                    out_h == c.bounds.len(),
                    src@.len() == src_h * width * 4,
                    src@.len() <= usize::MAX,
                    model == vertical_pass(src@, width as int, c),
                    model.len() == out_h * width * 4,
                    out@.len() == (y * width + x) * 4 + ch,
                    forall|k: int| 0 <= k < out@.len() ==> out@[k] == #[trigger] model[k],
                decreases 4 - ch,
            {
                proof {
                    lemma_pixel_position(
                        y as int,
                        x as int,
                        ch as int,
                        out_h as int,
                        width as int,
                    );
                }
                let byte: u8 = if n == 0 {
                    clip8(ROUND_BIAS)
                } else {
                    proof {
                        lemma_pixel_position(
                            ymin as int,
                            x as int,
                            ch as int,
                            src_h as int,
                            width as int,
                        );
                        lemma_pixel_position(
                            ymin + n - 1,
                            x as int,
                            ch as int,
                            src_h as int,
                            width as int,
                        );
                        assert((ymin + n - 1) * width == ymin * width + (n - 1) * width)
                            by (nonlinear_arith);
                        assert((n - 1) * (width * 4) == (n - 1) * width * 4) by (nonlinear_arith);
                        assert(0 <= ymin * width) by (nonlinear_arith)
                            requires
                                0 <= ymin,
                                0 <= width,
                        ;
                        assert(width * 4 <= src_h * width * 4) by (nonlinear_arith)
                            requires
                                1 <= src_h,
                                0 <= width,
                        ;
                    }
                    let base: usize = (ymin * width + x) * 4 + ch;
                    clip8(accumulate(src, base, width * 4, &coeffs.weights, off, n))
                };
                out.push(byte);
                ch += 1;
            }
            x += 1;
        }
        y += 1;
        proof {
            assert(y * width == (y - 1) * width + width) by (nonlinear_arith);
        }
    }
    assert(out@ =~= model);
    out
}

// ---------------------------------------------------------------------------
// Nearest neighbour
// ---------------------------------------------------------------------------

/// The input position that output position `o` is taken from: the centre of the
/// output position, scaled to the input and rounded down.
pub open spec fn nearest_index(o: int, in_size: int, out_size: int) -> int {
    (2 * o + 1) * in_size / (2 * out_size)
}

/// An image with each pixel taken from the nearest one of `src`.
pub open spec fn gathered(
    src: Seq<u8>,
    src_w: int,
    src_h: int,
    dst_w: int,
    dst_h: int,
) -> Seq<u8> {
    Seq::new(
        (dst_h * dst_w * 4) as nat,
        |k: int|
            src[(nearest_index(k / 4 / dst_w, src_h, dst_h) * src_w + nearest_index(
                k / 4 % dst_w,
                src_w,
                dst_w,
            )) * 4 + k % 4],
    )
}

/// The nearest input position lies in the input.
proof fn lemma_nearest_index(o: int, in_size: int, out_size: int)
    requires
        0 <= o < out_size,
        0 < in_size,
    ensures
        0 <= nearest_index(o, in_size, out_size) < in_size,
        0 <= (2 * o + 1) * in_size,
{
    let p = (2 * o + 1) * in_size;
    let d = 2 * out_size;
    assert(0 <= p < in_size * d) by (nonlinear_arith)
        requires
            0 <= o < out_size,
            0 < in_size,
            p == (2 * o + 1) * in_size,
            d == 2 * out_size,
    ;
    assert(0 <= p / d < in_size) by (nonlinear_arith)
        requires
            0 <= p < in_size * d,
            0 < d,
    ;
}

/// The nearest input position; see [`nearest_index`].
fn nearest(o: usize, in_size: usize, out_size: usize) -> (r: usize)
    requires
        o < out_size <= MAX_DECODED_IMAGE_BYTES,
        0 < in_size,
    ensures
        r == nearest_index(o as int, in_size as int, out_size as int),
        r < in_size,
{
    proof {
        lemma_nearest_index(o as int, in_size as int, out_size as int);
        assert((2 * o + 1) * in_size <= 2147483648 * 18446744073709551616) by (nonlinear_arith)
            requires
                0 <= o < 536870912,
                0 <= in_size <= 18446744073709551615,
        ;
    }
    ((2 * o as u128 + 1) * in_size as u128 / (2 * out_size as u128)) as usize
}

/// Gathers the nearest pixels into `buffer`.
pub fn push_nearest(
    src: &[u8],
    src_w: usize,
    src_h: usize,
    dst_w: usize,
    dst_h: usize,
    buffer: Vec<u8>,
) -> (r: Vec<u8>)
    requires
        0 < src_w,
        0 < src_h,
        0 < dst_w,
        0 < dst_h,
        src@.len() == src_w * src_h * 4,
        dst_w * dst_h * 4 <= MAX_DECODED_IMAGE_BYTES,
        buffer@.len() == 0,
    ensures
        r@ == gathered(src@, src_w as int, src_h as int, dst_w as int, dst_h as int),
{
    let src_len: usize = src.len();
    let ghost model = gathered(src@, src_w as int, src_h as int, dst_w as int, dst_h as int);
    let mut out: Vec<u8> = buffer;
    let mut y: usize = 0;
    proof {
        assert(src_w * src_h == src_h * src_w) by (nonlinear_arith);
        assert(dst_w * dst_h == dst_h * dst_w) by (nonlinear_arith);
        assert(0 * dst_w == 0) by (nonlinear_arith);
        assert(dst_w <= dst_h * dst_w && dst_h <= dst_h * dst_w) by (nonlinear_arith)
            requires
                1 <= dst_h,
                1 <= dst_w,
        ;
    }
    while y < dst_h
        invariant
            y <= dst_h,
            0 < src_w,
            0 < src_h,
            0 < dst_w <= MAX_DECODED_IMAGE_BYTES,
            dst_h <= MAX_DECODED_IMAGE_BYTES,
            src_len == src@.len() == src_h * src_w * 4,
            model == gathered(src@, src_w as int, src_h as int, dst_w as int, dst_h as int),
            model.len() == dst_h * dst_w * 4,
            out@.len() == y * dst_w * 4,
            forall|k: int| 0 <= k < out@.len() ==> out@[k] == #[trigger] model[k],
        decreases dst_h - y,
    {
        let sy: usize = nearest(y, src_h, dst_h);
        let mut x: usize = 0;
        while x < dst_w
            invariant
                y < dst_h,
                x <= dst_w,
                0 < src_w,
                0 < dst_w <= MAX_DECODED_IMAGE_BYTES,
                sy < src_h,
                sy == nearest_index(y as int, src_h as int, dst_h as int),
                src_len == src@.len() == src_h * src_w * 4,
                model == gathered(src@, src_w as int, src_h as int, dst_w as int, dst_h as int),
                model.len() == dst_h * dst_w * 4,
                out@.len() == (y * dst_w + x) * 4,
                forall|k: int| 0 <= k < out@.len() ==> out@[k] == #[trigger] model[k],
            decreases dst_w - x,
        {
            let sx: usize = nearest(x, src_w, dst_w);
            proof {
                lemma_pixel_position(sy as int, sx as int, 3, src_h as int, src_w as int);
                lemma_pixel_position(y as int, x as int, 0, dst_h as int, dst_w as int);
                lemma_pixel_position(y as int, x as int, 1, dst_h as int, dst_w as int);
                lemma_pixel_position(y as int, x as int, 2, dst_h as int, dst_w as int);
                lemma_pixel_position(y as int, x as int, 3, dst_h as int, dst_w as int);
                assert(0 <= sy * src_w) by (nonlinear_arith)
                    requires
                        0 <= sy,
                        0 <= src_w,
                ;
            }
            let base: usize = (sy * src_w + sx) * 4;
            out.push(src[base]);
            out.push(src[base + 1]);
            out.push(src[base + 2]);
            out.push(src[base + 3]);
            x += 1;
        }
        y += 1;
        proof {
            assert(y * dst_w == (y - 1) * dst_w + dst_w) by (nonlinear_arith);
        }
    }
    assert(out@ =~= model);
    out
}

/// Why a nearest-neighbour resize is refused.
pub open spec fn nearest_outcome(dst_w: usize, dst_len: usize) -> Result<(), Error> {
    match buffer_bytes(dst_w as int, word_bytes() as int, "nearest x-index map") {
        Err(e) => Err(e),
        Ok(_) => match buffer_bytes(dst_len as int, 1, "nearest destination") {
            Err(e) => Err(e),
            Ok(_) => Ok(()),
        },
    }
}

/// Checks the size of a nearest-neighbour resize.
fn check_nearest(dst_w: usize, dst_len: usize) -> (r: Result<(), Error>)
    ensures
        r == nearest_outcome(dst_w, dst_len),
{
    checked_buffer_bytes(dst_w, (usize::BITS / 8) as usize, "nearest x-index map")?;
    match checked_buffer_bytes(dst_len, 1, "nearest destination") {
        Ok(_) => Ok(()),
        Err(e) => Err(e),
    }
}

/// Nearest-neighbour resampling to an image of `dst_len` bytes.
pub fn resize_nearest(
    src: &[u8],
    src_w: usize,
    src_h: usize,
    dst_w: usize,
    dst_h: usize,
    dst_len: usize,
) -> (r: Result<Vec<u8>, Error>)
    requires
        0 < src_w,
        0 < src_h,
        0 < dst_w,
        0 < dst_h,
        src@.len() == src_w * src_h * 4,
        dst_len == dst_w * dst_h * 4,
    ensures
        match nearest_outcome(dst_w, dst_len) {
            Ok(_) => match r {
                Ok(out) => out@ == gathered(
                    src@,
                    src_w as int,
                    src_h as int,
                    dst_w as int,
                    dst_h as int,
                ),
                Err(e) => e == Error::OutOfMemory,
            },
            Err(e) => r == Err::<Vec<u8>, Error>(e),
        },
{
    check_nearest(dst_w, dst_len)?;
    match try_with_capacity(dst_len) {
        Ok(buffer) => Ok(push_nearest(src, src_w, src_h, dst_w, dst_h, buffer)),
        Err(e) => Err(e),
    }
}

// ---------------------------------------------------------------------------
// The whole resize
// ---------------------------------------------------------------------------

/// How an image is resampled.
#[derive(Debug)]
pub enum Kernel {
    /// Nearest neighbour.
    Nearest,
    /// Convolution with the given taps along each axis.
    Convolution {
        /// The taps along a row.
        horizontal: AxisTaps,
        /// The taps along a column.
        vertical: AxisTaps,
    },
}

/// The bytes of the destination, or why the two image sizes are refused.
pub open spec fn sizes_outcome(
    src_len: int,
    src_w: usize,
    src_h: usize,
    dst_w: usize,
    dst_h: usize,
) -> Result<usize, Error> {
    if src_w == 0 || src_h == 0 || dst_w == 0 || dst_h == 0 {
        Err(shape_out_of_range("resize_rgba8: dimensions", "must be non-zero", 0))
    } else if src_w * src_h * CHANNELS > usize::MAX {
        Err(
            shape_overflow(
                "resize_rgba8: src_w * src_h * 4",
                "usize",
                src_w as i128,
                src_h as i128,
            ),
        )
    } else if src_len != src_w * src_h * CHANNELS {
        Err(
            shape_length(
                "resize_rgba8: src buffer bytes vs src_w * src_h * 4",
                (src_w * src_h * CHANNELS) as usize,
                src_len as usize,
            ),
        )
    } else {
        match buffer_bytes(src_w * src_h * CHANNELS, 1, "RGBA8 source") {
            Err(e) => Err(e),
            Ok(_) => if dst_w * dst_h * CHANNELS > usize::MAX {
                Err(
                    shape_overflow(
                        "resize_rgba8: dst_w * dst_h * 4",
                        "usize",
                        dst_w as i128,
                        dst_h as i128,
                    ),
                )
            } else {
                buffer_bytes(dst_w * dst_h * CHANNELS, 1, "RGBA8 destination")
            },
        }
    }
}

/// The strides of the two coefficient tables, or why a convolution is refused.
pub open spec fn convolution_outcome(
    src_w: usize,
    src_h: usize,
    dst_w: usize,
    dst_h: usize,
    horizontal: AxisTaps,
    vertical: AxisTaps,
) -> Result<(usize, usize), Error> {
    match coeffs_outcome(src_w, dst_w, horizontal) {
        Err(e) => Err(e),
        Ok(h) => match coeffs_outcome(src_h, dst_h, vertical) {
            Err(e) => Err(e),
            Ok(v) => if src_h * dst_w * CHANNELS > usize::MAX {
                Err(
                    shape_overflow(
                        "resize_rgba8: src_h * dst_w * 4",
                        "usize",
                        src_h as i128,
                        dst_w as i128,
                    ),
                )
            } else {
                match buffer_bytes(
                    src_h * dst_w * CHANNELS,
                    1,
                    "horizontal-pass intermediate (src_h x dst_w RGBA8)",
                ) {
                    Err(e) => Err(e),
                    Ok(_) => Ok((h, v)),
                }
            },
        },
    }
}

/// The resized image, or why the resize is refused.
pub open spec fn resized(
    src: Seq<u8>,
    src_w: usize,
    src_h: usize,
    dst_w: usize,
    dst_h: usize,
    kernel: Kernel,
) -> Result<Seq<u8>, Error> {
    match sizes_outcome(src.len() as int, src_w, src_h, dst_w, dst_h) {
        Err(e) => Err(e),
        Ok(dst_len) => match kernel {
            Kernel::Nearest => match nearest_outcome(dst_w, dst_len) {
                Err(e) => Err(e),
                Ok(_) => Ok(
                    gathered(src, src_w as int, src_h as int, dst_w as int, dst_h as int),
                ),
            },
            Kernel::Convolution { horizontal, vertical } => match convolution_outcome(
                src_w,
                src_h,
                dst_w,
                dst_h,
                horizontal,
                vertical,
            ) {
                Err(e) => Err(e),
                Ok((h, v)) => Ok(
                    unpremultiplied(
                        convolved(
                            premultiplied(src),
                            src_w as int,
                            src_h as int,
                            coeffs_model(horizontal.rows@, src_w, h as int),
                            coeffs_model(vertical.rows@, src_h, v as int),
                        ),
                    ),
                ),
            },
        },
    }
}

/// An image after both passes.
pub open spec fn convolved(
    src: Seq<u8>,
    src_w: int,
    src_h: int,
    h: CoeffsModel,
    v: CoeffsModel,
) -> Seq<u8> {
    vertical_pass(horizontal_pass(src, src_w, src_h, h), h.bounds.len() as int, v)
}

/// Checks the sizes of a resize; see [`sizes_outcome`].
pub fn check_sizes(
    src_len: usize,
    src_w: usize,
    src_h: usize,
    dst_w: usize,
    dst_h: usize,
) -> (r: Result<usize, Error>)
    ensures
        r == sizes_outcome(src_len as int, src_w, src_h, dst_w, dst_h),
{
    if src_w == 0 || src_h == 0 || dst_w == 0 || dst_h == 0 {
        return Err(shape_out_of_range("resize_rgba8: dimensions", "must be non-zero", 0));
    }
    let expected: usize = match image_bytes(src_w, src_h) {
        Some(n) => n,
        None => {
            return Err(
                shape_overflow(
                    "resize_rgba8: src_w * src_h * 4",
                    "usize",
                    src_w as i128,
                    src_h as i128,
                ),
            );
        },
    };
    if src_len != expected {
        return Err(
            shape_length("resize_rgba8: src buffer bytes vs src_w * src_h * 4", expected, src_len),
        );
    }
    checked_buffer_bytes(expected, 1, "RGBA8 source")?;
    match image_bytes(dst_w, dst_h) {
        Some(dst_len) => checked_buffer_bytes(dst_len, 1, "RGBA8 destination"),
        None => Err(
            shape_overflow(
                "resize_rgba8: dst_w * dst_h * 4",
                "usize",
                dst_w as i128,
                dst_h as i128,
            ),
        ),
    }
}

/// Checks the intermediate image of a convolution.
fn check_intermediate(src_h: usize, dst_w: usize) -> (r: Result<usize, Error>)
    requires
        0 < src_h,
        0 < dst_w,
    ensures
        r == (if src_h * dst_w * CHANNELS > usize::MAX {
            Err(
                shape_overflow(
                    "resize_rgba8: src_h * dst_w * 4",
                    "usize",
                    src_h as i128,
                    dst_w as i128,
                ),
            )
        } else {
            buffer_bytes(
                src_h * dst_w * CHANNELS,
                1,
                "horizontal-pass intermediate (src_h x dst_w RGBA8)",
            )
        }),
{
    match image_bytes(src_h, dst_w) {
        Some(n) => checked_buffer_bytes(
            n,
            1,
            "horizontal-pass intermediate (src_h x dst_w RGBA8)",
        ),
        None => Err(
            shape_overflow(
                "resize_rgba8: src_h * dst_w * 4",
                "usize",
                src_h as i128,
                dst_w as i128,
            ),
        ),
    }
}

/// Resamples an image with two coefficient tables, in the three given buffers: the
/// premultiplied copy, the intermediate image and the result.
pub fn convolve_rgba8(
    src: &[u8],
    src_w: usize,
    src_h: usize,
    horizontal: &Coeffs,
    vertical: &Coeffs,
    premultiplied_buffer: Vec<u8>,
    intermediate_buffer: Vec<u8>,
    result_buffer: Vec<u8>,
) -> (r: Vec<u8>)
    requires
        src@.len() == src_w * src_h * 4,
        horizontal@.fits(src_w as int),
        vertical@.fits(src_h as int),
        horizontal@.bounds.len() * src_h * 4 <= usize::MAX,
        horizontal@.bounds.len() * vertical@.bounds.len() * 4 <= usize::MAX,
        premultiplied_buffer@.len() == 0,
        intermediate_buffer@.len() == 0,
        result_buffer@.len() == 0,
    ensures
        r@ == unpremultiplied(
            convolved(
                premultiplied(src@),
                src_w as int,
                src_h as int,
                horizontal@,
                vertical@,
            ),
        ),
{
    let premultiplied_src: Vec<u8> = push_premultiplied(src, premultiplied_buffer);
    let intermediate: Vec<u8> = convolve_axis(
        premultiplied_src.as_slice(),
        src_w,
        src_h,
        horizontal,
        intermediate_buffer,
    );
    proof {
        let w = horizontal@.bounds.len() as int;
        assert(src_h * w == w * src_h) by (nonlinear_arith);
        assert(0 <= w * src_h) by (nonlinear_arith)
            requires
                0 <= w,
                0 <= src_h,
        ;
        let h = vertical@.bounds.len() as int;
        assert(h * w == w * h) by (nonlinear_arith);
        assert(0 <= w * h) by (nonlinear_arith)
            requires
                0 <= w,
                0 <= h,
        ;
    }
    let mut out: Vec<u8> = convolve_vertical(
        intermediate.as_slice(),
        horizontal.bounds.len(),
        src_h,
        vertical,
        result_buffer,
    );
    unpremultiply_rgba(&mut out);
    out
}

/// Checks a whole resize before anything is allocated; the strides of the two
/// coefficient tables come back for a convolution.
pub fn check_resize(
    src_len: usize,
    src_w: usize,
    src_h: usize,
    dst_w: usize,
    dst_h: usize,
    kernel: &Kernel,
) -> (r: Result<Option<(usize, usize)>, Error>)
    ensures
        match sizes_outcome(src_len as int, src_w, src_h, dst_w, dst_h) {
            Err(e) => r == Err::<Option<(usize, usize)>, Error>(e),
            Ok(dst_len) => match *kernel {
                Kernel::Nearest => match nearest_outcome(dst_w, dst_len) {
                    Err(e) => r == Err::<Option<(usize, usize)>, Error>(e),
                    Ok(_) => r == Ok::<Option<(usize, usize)>, Error>(None),
                },
                Kernel::Convolution { horizontal, vertical } => match convolution_outcome(
                    src_w,
                    src_h,
                    dst_w,
                    dst_h,
                    horizontal,
                    vertical,
                ) {
                    Err(e) => r == Err::<Option<(usize, usize)>, Error>(e),
                    Ok(strides) => r == Ok::<Option<(usize, usize)>, Error>(Some(strides)),
                },
            },
        },
{
    let dst_len: usize = check_sizes(src_len, src_w, src_h, dst_w, dst_h)?;
    match kernel {
        Kernel::Nearest => match check_nearest(dst_w, dst_len) {
            Ok(_) => Ok(None),
            Err(e) => Err(e),
        },
        Kernel::Convolution { horizontal, vertical } => {
            let h: usize = plan_coeffs(src_w, dst_w, horizontal)?;
            let v: usize = plan_coeffs(src_h, dst_h, vertical)?;
            match check_intermediate(src_h, dst_w) {
                Ok(_) => Ok(Some((h, v))),
                Err(e) => Err(e),
            }
        },
    }
}

/// Resizes an RGBA8 image; see [`resized`].
///
/// The only refusal that [`check_resize`] does not make is `Error::OutOfMemory`,
/// where the allocator declines a buffer.
pub fn resize_rgba8(
    src: &[u8],
    src_w: usize,
    src_h: usize,
    dst_w: usize,
    dst_h: usize,
    kernel: &Kernel,
) -> (r: Result<Vec<u8>, Error>)
    ensures
        match resized(src@, src_w, src_h, dst_w, dst_h, *kernel) {
            Ok(image) => match r {
                Ok(out) => out@ == image,
                Err(e) => e == Error::OutOfMemory,
            },
            Err(e) => r == Err::<Vec<u8>, Error>(e),
        },
{
    let strides: Option<(usize, usize)> = check_resize(
        src.len(),
        src_w,
        src_h,
        dst_w,
        dst_h,
        kernel,
    )?;
    let dst_len: usize = dst_w * dst_h * CHANNELS;
    match (kernel, strides) {
        (Kernel::Convolution { horizontal, vertical }, Some((h_stride, v_stride))) => {
            let h: Coeffs = build_coeffs(src_w, dst_w, horizontal, h_stride)?;
            let v: Coeffs = build_coeffs(src_h, dst_h, vertical, v_stride)?;
            let premultiplied_buffer: Vec<u8> = try_with_capacity(src.len())?;
            let intermediate_buffer: Vec<u8> = try_with_capacity(src_h * dst_w * CHANNELS)?;
            let result_buffer: Vec<u8> = try_with_capacity(dst_len)?;
            proof {
                assert(dst_w * src_h == src_h * dst_w) by (nonlinear_arith);
            }
            Ok(
                convolve_rgba8(
                    src,
                    src_w,
                    src_h,
                    &h,
                    &v,
                    premultiplied_buffer,
                    intermediate_buffer,
                    result_buffer,
                ),
            )
        },
        _ => resize_nearest(src, src_w, src_h, dst_w, dst_h, dst_len),
    }
}

// ---------------------------------------------------------------------------
// Laws
// ---------------------------------------------------------------------------

/// The sum of the first `n` taps from `off` on.
pub open spec fn tap_total(weights: Seq<i32>, off: int, n: int) -> int
    decreases n,
{
    if n <= 0 {
        0
    } else {
        tap_total(weights, off, n - 1) + weights[off + n - 1]
    }
}

/// Whether the taps of every output position sum to one, up to what rounding the
/// taps can shift: less than `1/510`.
pub open spec fn sums_to_one(c: CoeffsModel) -> bool {
    forall|o: int| #![trigger c.bounds[o]]
        0 <= o < c.bounds.len() ==> {
            let total = tap_total(c.weights, o * c.ksize, c.bounds[o].1 as int);
            -ROUND_BIAS < 255 * (total - TAP_ONE) < ROUND_BIAS
        }
}

/// Whether every pixel of an image has the value `v` in channel `ch`.
pub open spec fn channel_is(image: Seq<u8>, ch: int, v: u8) -> bool {
    forall|k: int| 0 <= k < image.len() && k % 4 == ch ==> #[trigger] image[k] == v
}

proof fn lemma_constant_tap_sum(
    src: Seq<u8>,
    base: int,
    stride: int,
    weights: Seq<i32>,
    off: int,
    n: int,
    v: u8,
)
    requires
        forall|i: int| 0 <= i < n ==> #[trigger] src[base + i * stride] == v,
    ensures
        tap_sum(src, base, stride, weights, off, n) == v * tap_total(weights, off, n),
    decreases n,
{
    if n > 0 {
        lemma_constant_tap_sum(src, base, stride, weights, off, n - 1, v);
        assert(src[base + (n - 1) * stride] == v);
        let t = tap_total(weights, off, n - 1);
        let w = weights[off + n - 1] as int;
        assert(v * (t + w) == v * t + v * w) by (nonlinear_arith);
    } else {
        assert(v * 0 == 0) by (nonlinear_arith);
    }
}

proof fn lemma_unity_keeps_a_byte(total: int, v: u8)
    requires
        -ROUND_BIAS < 255 * (total - TAP_ONE) < ROUND_BIAS,
    ensures
        clipped(ROUND_BIAS + v * total) == v,
{
    let d = total - TAP_ONE;
    assert(-ROUND_BIAS < v * d < ROUND_BIAS) by (nonlinear_arith)
        requires
            -ROUND_BIAS < 255 * d < ROUND_BIAS,
            0 <= v <= 255,
    ;
    assert(v * total == v * TAP_ONE + v * d) by (nonlinear_arith)
        requires
            d == total - TAP_ONE,
    ;
    assert(v * TAP_ONE == TAP_ONE * v) by (nonlinear_arith);
}

proof fn lemma_horizontal_keeps_a_channel(
    src: Seq<u8>,
    src_w: int,
    rows: int,
    c: CoeffsModel,
    ch: int,
    v: u8,
)
    requires
        0 <= src_w,
        0 <= rows,
        src.len() == rows * src_w * 4,
        c.fits(src_w),
        sums_to_one(c),
        0 <= ch < 4,
        channel_is(src, ch, v),
    ensures
        channel_is(horizontal_pass(src, src_w, rows, c), ch, v),
{
    let w = c.bounds.len() as int;
    let out = horizontal_pass(src, src_w, rows, c);
    assert(0 <= rows * w) by (nonlinear_arith)
        requires
            0 <= rows,
            0 <= w,
    ;
    assert forall|k: int| 0 <= k < out.len() && k % 4 == ch implies #[trigger] out[k] == v by {
        let p = k / 4;
        let y = p / w;
        let x = p % w;
        lemma_position_parts(p, rows, w);
        let start = c.bounds[x].0 as int;
        let n = c.bounds[x].1 as int;
        let base = (y * src_w + start) * 4 + ch;
        assert forall|i: int| 0 <= i < n implies #[trigger] src[base + i * 4] == v by {
            lemma_pixel_position(y, start + i, ch, rows, src_w);
            assert(base + i * 4 == (y * src_w + (start + i)) * 4 + ch);
        }
        lemma_constant_tap_sum(src, base, 4, c.weights, x * c.ksize, n, v);
        lemma_unity_keeps_a_byte(tap_total(c.weights, x * c.ksize, n), v);
    }
}

/// The row and the column of a position.
proof fn lemma_position_parts(p: int, rows: int, width: int)
    requires
        0 <= p < rows * width,
        0 <= width,
    ensures
        0 <= p / width < rows,
        0 <= p % width < width,
{
    assert(0 < width) by {
        if width == 0 {
            assert(rows * width == 0) by (nonlinear_arith)
                requires
                    width == 0,
            ;
        }
    }
    assert(0 <= p / width < rows && 0 <= p % width < width) by (nonlinear_arith)
        requires
            0 <= p < rows * width,
            0 < width,
    ;
}

proof fn lemma_vertical_keeps_a_channel(
    src: Seq<u8>,
    width: int,
    src_h: int,
    c: CoeffsModel,
    ch: int,
    v: u8,
)
    requires
        0 <= width,
        0 <= src_h,
        src.len() == src_h * width * 4,
        c.fits(src_h),
        sums_to_one(c),
        0 <= ch < 4,
        channel_is(src, ch, v),
    ensures
        channel_is(vertical_pass(src, width, c), ch, v),
{
    let h = c.bounds.len() as int;
    let out = vertical_pass(src, width, c);
    assert(0 <= h * width) by (nonlinear_arith)
        requires
            0 <= h,
            0 <= width,
    ;
    assert forall|k: int| 0 <= k < out.len() && k % 4 == ch implies #[trigger] out[k] == v by {
        let p = k / 4;
        let y = p / width;
        let x = p % width;
        lemma_position_parts(p, h, width);
        let start = c.bounds[y].0 as int;
        let n = c.bounds[y].1 as int;
        let base = (start * width + x) * 4 + ch;
        assert forall|i: int| 0 <= i < n implies #[trigger] src[base + i * (width * 4)] == v by {
            lemma_pixel_position(start + i, x, ch, src_h, width);
            assert(base + i * (width * 4) == ((start + i) * width + x) * 4 + ch)
                by (nonlinear_arith)
                requires
                    base == (start * width + x) * 4 + ch,
            ;
        }
        lemma_constant_tap_sum(src, base, width * 4, c.weights, y * c.ksize, n, v);
        lemma_unity_keeps_a_byte(tap_total(c.weights, y * c.ksize, n), v);
    }
}

/// A channel that has one value all over an image keeps it through both passes,
/// where the taps sum to one.
pub proof fn law_constant_channels_survive(
    src: Seq<u8>,
    src_w: int,
    src_h: int,
    h: CoeffsModel,
    v: CoeffsModel,
    ch: int,
    value: u8,
)
    requires
        0 <= src_w,
        0 <= src_h,
        src.len() == src_h * src_w * 4,
        h.fits(src_w),
        v.fits(src_h),
        sums_to_one(h),
        sums_to_one(v),
        0 <= ch < 4,
        channel_is(src, ch, value),
    ensures
        channel_is(convolved(src, src_w, src_h, h, v), ch, value),
{
    let w = h.bounds.len() as int;
    lemma_horizontal_keeps_a_channel(src, src_w, src_h, h, ch, value);
    assert(0 <= src_h * w) by (nonlinear_arith)
        requires
            0 <= src_h,
            0 <= w,
    ;
    lemma_vertical_keeps_a_channel(
        horizontal_pass(src, src_w, src_h, h),
        w,
        src_h,
        v,
        ch,
        value,
    );
}

/// An opaque image is resampled as it is: premultiplying and unpremultiplying make
/// no difference, where the taps sum to one.
pub proof fn law_opaque_images_are_resampled_straight(
    src: Seq<u8>,
    src_w: int,
    src_h: int,
    h: CoeffsModel,
    v: CoeffsModel,
)
    requires
        0 <= src_w,
        0 <= src_h,
        src.len() == src_h * src_w * 4,
        h.fits(src_w),
        v.fits(src_h),
        sums_to_one(h),
        sums_to_one(v),
        channel_is(src, 3, 255),
    ensures
        unpremultiplied(convolved(premultiplied(src), src_w, src_h, h, v)) == convolved(
            src,
            src_w,
            src_h,
            h,
            v,
        ),
{
    law_opaque_images_are_unchanged(src);
    law_constant_channels_survive(src, src_w, src_h, h, v, 3, 255);
    let out = convolved(src, src_w, src_h, h, v);
    let w = h.bounds.len() as int;
    assert(0 <= v.bounds.len() * w) by (nonlinear_arith)
        requires
            0 <= w,
    ;
    assert(out.len() == v.bounds.len() * w * 4);
    law_opaque_images_are_unchanged(out);
}

/// Every accepted resize gives exactly `dst_w * dst_h` pixels.
pub proof fn law_result_has_the_requested_size(
    src: Seq<u8>,
    src_w: usize,
    src_h: usize,
    dst_w: usize,
    dst_h: usize,
    kernel: Kernel,
)
    requires
        resized(src, src_w, src_h, dst_w, dst_h, kernel) is Ok,
    ensures
        resized(src, src_w, src_h, dst_w, dst_h, kernel)->Ok_0.len() == dst_w * dst_h * 4,
{
    assert(dst_h * dst_w == dst_w * dst_h) by (nonlinear_arith);
    assert(0 <= dst_w * dst_h) by (nonlinear_arith)
        requires
            0 <= dst_w,
            0 <= dst_h,
    ;
}


/// A nearest-neighbour resize takes each pixel, all four channels of it, from the
/// cell of the input that holds the scaled centre of its own cell: column `sx` for
/// column `x` where `sx <= (x + 1/2) * src_w / dst_w < sx + 1`, and row `sy` for row
/// `y` likewise.
pub proof fn law_nearest_pixels_hold_the_scaled_centre(
    src: Seq<u8>,
    src_w: usize,
    src_h: usize,
    dst_w: usize,
    dst_h: usize,
    x: int,
    y: int,
    sx: int,
    sy: int,
    ch: int,
)
    requires
        resized(src, src_w, src_h, dst_w, dst_h, Kernel::Nearest) is Ok,
        0 <= x < dst_w,
        0 <= y < dst_h,
        sx * (2 * dst_w) <= (2 * x + 1) * src_w < (sx + 1) * (2 * dst_w),
        sy * (2 * dst_h) <= (2 * y + 1) * src_h < (sy + 1) * (2 * dst_h),
        0 <= ch < 4,
    ensures
        0 <= sx < src_w,
        0 <= sy < src_h,
        resized(src, src_w, src_h, dst_w, dst_h, Kernel::Nearest)->Ok_0[(y * dst_w + x) * 4 + ch]
            == src[(sy * src_w + sx) * 4 + ch],
{
    lemma_centre_cell(x, src_w as int, dst_w as int, sx);
    lemma_centre_cell(y, src_h as int, dst_h as int, sy);
    lemma_nearest_index(x, src_w as int, dst_w as int);
    lemma_nearest_index(y, src_h as int, dst_h as int);
    lemma_pixel_position(y, x, ch, dst_h as int, dst_w as int);
}

proof fn lemma_centre_cell(o: int, in_size: int, out_size: int, cell: int)
    requires
        0 <= o < out_size,
        0 < in_size,
        cell * (2 * out_size) <= (2 * o + 1) * in_size < (cell + 1) * (2 * out_size),
    ensures
        nearest_index(o, in_size, out_size) == cell,
{
    let d = 2 * out_size;
    let n = (2 * o + 1) * in_size;
    let r = n - cell * d;
    assert((cell + 1) * d == cell * d + d) by (nonlinear_arith);
    assert(0 <= r < d);
    div_mod::lemma_fundamental_div_mod_converse(n, d, cell, r);
}

/// A nearest-neighbour resize to the same size is the image itself.
pub proof fn law_nearest_to_the_same_size_changes_nothing(src: Seq<u8>, w: usize, h: usize)
    requires
        resized(src, w, h, w, h, Kernel::Nearest) is Ok,
    ensures
        resized(src, w, h, w, h, Kernel::Nearest)->Ok_0 == src,
{
    let out = resized(src, w, h, w, h, Kernel::Nearest)->Ok_0;
    assert(w * h == h * w) by (nonlinear_arith);
    assert forall|k: int| 0 <= k < out.len() implies out[k] == src[k] by {
        let p = k / 4;
        let y = p / (w as int);
        let x = p % (w as int);
        lemma_position_parts(p, h as int, w as int);
        lemma_own_cell(x, w as int);
        lemma_own_cell(y, h as int);
        div_mod::lemma_fundamental_div_mod(p, w as int);
        assert(w * y == y * w) by (nonlinear_arith);
        law_nearest_pixels_hold_the_scaled_centre(src, w, h, w, h, x, y, x, y, k % 4);
        assert((y * w + x) * 4 + k % 4 == k);
    }
    assert(out =~= src);
}

proof fn lemma_own_cell(o: int, size: int)
    requires
        0 < size,
    ensures
        o * (2 * size) <= (2 * o + 1) * size < (o + 1) * (2 * size),
{
    assert(o * (2 * size) <= (2 * o + 1) * size < (o + 1) * (2 * size)) by (nonlinear_arith)
        requires
            0 < size,
    ;
}

/// Which nearest-neighbour resizes are accepted: those of an image whose bytes are
/// its pixels, between sizes that are not zero and whose buffers are within the
/// limit.
pub proof fn law_nearest_accepts_whole_images_within_the_limit(
    src: Seq<u8>,
    src_w: usize,
    src_h: usize,
    dst_w: usize,
    dst_h: usize,
)
    ensures
        resized(src, src_w, src_h, dst_w, dst_h, Kernel::Nearest) is Ok <==> {
            &&& src_w > 0 && src_h > 0 && dst_w > 0 && dst_h > 0
            &&& src.len() == src_w * src_h * 4
            &&& src_w * src_h * 4 <= usize::MAX && dst_w * dst_h * 4 <= usize::MAX
            &&& src_w * src_h * 4 <= 512 * 1024 * 1024
            &&& dst_w * dst_h * 4 <= 512 * 1024 * 1024
            &&& dst_w * (usize::BITS / 8) <= 512 * 1024 * 1024
        },
{
    assert(dst_w * (usize::BITS / 8) <= 512 * 1024 * 1024 ==> dst_w * (usize::BITS / 8)
        <= usize::MAX);
}

/// A premultiplied colour is the colour times the alpha over 255, to the nearest
/// integer, and the alpha is kept.
pub proof fn law_premultiplied_colours_are_scaled_by_alpha(src: Seq<u8>, p: int, c: int)
    requires
        src.len() % 4 == 0,
        0 <= p,
        4 * p + 3 < src.len(),
        0 <= c < 3,
    ensures
        ({
            let out = premultiplied(src);
            let product = src[4 * p + c] * src[4 * p + 3];
            &&& out.len() == src.len()
            &&& out[4 * p + 3] == src[4 * p + 3]
            &&& -127 <= 255 * out[4 * p + c] - product <= 127
        }),
{
    let colour = src[4 * p + c];
    let alpha = src[4 * p + 3];
    assert((4 * p + c) / 4 * 4 + 3 == 4 * p + 3);
    assert(0 <= colour * alpha <= 65025) by (nonlinear_arith)
        requires
            0 <= colour <= 255,
            0 <= alpha <= 255,
    ;
}

/// A straight colour is 255 times the premultiplied one over the alpha, rounded down
/// and no more than 255, where the pixel is neither opaque nor transparent; the alpha
/// is kept, and an opaque or transparent pixel is kept whole.
pub proof fn law_straight_colours_are_divided_by_alpha(src: Seq<u8>, p: int, c: int)
    requires
        src.len() % 4 == 0,
        0 <= p,
        4 * p + 3 < src.len(),
        0 <= c < 3,
    ensures
        ({
            let out = unpremultiplied(src);
            let v = out[4 * p + c] as int;
            let a = src[4 * p + 3] as int;
            let m = src[4 * p + c] as int;
            &&& out.len() == src.len()
            &&& out[4 * p + 3] == src[4 * p + 3]
            &&& a == 0 || a == 255 ==> v == m
            &&& 0 < a < 255 && m <= a ==> v * a <= 255 * m < (v + 1) * a
            &&& 0 < a < 255 && m > a ==> v == 255
        }),
{
    let a = src[4 * p + 3] as int;
    let m = src[4 * p + c] as int;
    assert((4 * p + c) / 4 * 4 + 3 == 4 * p + 3);
    if 0 < a < 255 {
        let q = (255 * m) / a;
        div_mod::lemma_fundamental_div_mod(255 * m, a);
        assert(a * q == q * a) by (nonlinear_arith);
        assert((q + 1) * a == q * a + a) by (nonlinear_arith);
        if m <= a {
            assert(q <= 255) by (nonlinear_arith)
                requires
                    q * a <= 255 * m,
                    m <= a,
                    0 < a,
            ;
            assert(q >= 0) by (nonlinear_arith)
                requires
                    255 * m < (q + 1) * a,
                    0 <= m,
                    0 < a,
            ;
        } else {
            assert(q >= 255) by (nonlinear_arith)
                requires
                    255 * m < (q + 1) * a,
                    m > a,
                    0 < a,
            ;
        }
    }
}

/// The sum of some numbers.
pub open spec fn total_of(terms: Seq<int>) -> int
    decreases terms.len(),
{
    if terms.len() == 0 {
        0
    } else {
        terms[0] + total_of(terms.skip(1))
    }
}

proof fn lemma_total_push(terms: Seq<int>)
    requires
        terms.len() > 0,
    ensures
        total_of(terms) == total_of(terms.drop_last()) + terms.last(),
    decreases terms.len(),
{
    if terms.len() == 1 {
        assert(terms.skip(1) =~= Seq::<int>::empty());
        assert(terms.drop_last() =~= Seq::<int>::empty());
    } else {
        lemma_total_push(terms.skip(1));
        assert(terms.skip(1).drop_last() =~= terms.drop_last().skip(1));
    }
}

proof fn lemma_tap_sum_total(
    src: Seq<u8>,
    base: int,
    stride: int,
    weights: Seq<i32>,
    off: int,
    n: int,
)
    requires
        0 <= n,
    ensures
        tap_sum(src, base, stride, weights, off, n) == total_of(
            Seq::new(n as nat, |i: int| src[base + i * stride] * weights[off + i]),
        ),
    decreases n,
{
    let terms = Seq::new(n as nat, |i: int| src[base + i * stride] * weights[off + i]);
    if n > 0 {
        lemma_tap_sum_total(src, base, stride, weights, off, n - 1);
        lemma_total_push(terms);
        assert(terms.drop_last() =~= Seq::new(
            (n - 1) as nat,
            |i: int| src[base + i * stride] * weights[off + i],
        ));
        assert(off + n - 1 == off + (n - 1));
    }
}

/// Whether a byte is a fixed-point sum to the nearest integer, cut off at the ends.
pub open spec fn is_rounded_byte(v: u8, sum: int) -> bool {
    let half = TAP_ONE / 2;
    &&& v > 0 ==> v * TAP_ONE <= sum + half
    &&& v < 255 ==> sum + half < (v + 1) * TAP_ONE
}

proof fn lemma_clipped_is_rounded(sum: int)
    ensures
        is_rounded_byte(clipped(ROUND_BIAS + sum), sum),
{
}

/// A byte of a row that is resampled is the sum of the bytes of its window in the
/// same row and channel, from the start of the window on, each times its tap, to the
/// nearest integer.
pub proof fn law_a_resampled_row_weighs_its_window(
    src: Seq<u8>,
    src_w: int,
    rows: int,
    c: CoeffsModel,
    y: int,
    x: int,
    ch: int,
)
    requires
        0 <= y < rows,
        0 <= x < c.bounds.len(),
        0 <= ch < 4,
    ensures
        horizontal_pass(src, src_w, rows, c).len() == rows * c.bounds.len() * 4,
        is_rounded_byte(
            horizontal_pass(src, src_w, rows, c)[(y * c.bounds.len() + x) * 4 + ch],
            total_of(
                Seq::new(
                    c.bounds[x].1 as nat,
                    |i: int|
                        src[(y * src_w + c.bounds[x].0 + i) * 4 + ch] * c.weights[x * c.ksize + i],
                ),
            ),
        ),
{
    let n = c.bounds[x].1 as int;
    let base = (y * src_w + c.bounds[x].0) * 4 + ch;
    lemma_pixel_position(y, x, ch, rows, c.bounds.len() as int);
    lemma_tap_sum_total(src, base, 4, c.weights, x * c.ksize, n);
    assert(Seq::new(n as nat, |i: int| src[base + i * 4] * c.weights[x * c.ksize + i])
        =~= Seq::new(
        n as nat,
        |i: int| src[(y * src_w + c.bounds[x].0 + i) * 4 + ch] * c.weights[x * c.ksize + i],
    ));
    lemma_clipped_is_rounded(tap_sum(src, base, 4, c.weights, x * c.ksize, n));
}

/// A byte of a column that is resampled is the sum of the bytes of its window in the
/// same column and channel, from the start of the window on, each times its tap, to
/// the nearest integer.
pub proof fn law_a_resampled_column_weighs_its_window(
    src: Seq<u8>,
    width: int,
    c: CoeffsModel,
    y: int,
    x: int,
    ch: int,
)
    requires
        0 <= y < c.bounds.len(),
        0 <= x < width,
        0 <= ch < 4,
    ensures
        vertical_pass(src, width, c).len() == c.bounds.len() * width * 4,
        is_rounded_byte(
            vertical_pass(src, width, c)[(y * width + x) * 4 + ch],
            total_of(
                Seq::new(
                    c.bounds[y].1 as nat,
                    |i: int|
                        src[((c.bounds[y].0 + i) * width + x) * 4 + ch] * c.weights[y * c.ksize
                            + i],
                ),
            ),
        ),
{
    let n = c.bounds[y].1 as int;
    let base = (c.bounds[y].0 * width + x) * 4 + ch;
    lemma_pixel_position(y, x, ch, c.bounds.len() as int, width);
    lemma_tap_sum_total(src, base, width * 4, c.weights, y * c.ksize, n);
    assert forall|i: int| base + #[trigger] (i * (width * 4)) == ((c.bounds[y].0 + i) * width + x)
        * 4 + ch by {
        assert(i * (width * 4) == i * width * 4) by (nonlinear_arith);
        assert((c.bounds[y].0 + i) * width == c.bounds[y].0 * width + i * width)
            by (nonlinear_arith);
    }
    assert(Seq::new(n as nat, |i: int| src[base + i * (width * 4)] * c.weights[y * c.ksize + i])
        =~= Seq::new(
        n as nat,
        |i: int| src[((c.bounds[y].0 + i) * width + x) * 4 + ch] * c.weights[y * c.ksize + i],
    ));
    lemma_clipped_is_rounded(tap_sum(src, base, width * 4, c.weights, y * c.ksize, n));
}


/// The table of accepted taps has a row for each output position: its window begins
/// where the taps do and ends where they end or the input does, and its taps are
/// those given, in order, with zeros behind them.
pub proof fn law_the_table_holds_the_taps(
    in_size: usize,
    out_size: usize,
    axis: AxisTaps,
    o: int,
    i: int,
)
    requires
        coeffs_outcome(in_size, out_size, axis) is Ok,
        0 <= o < out_size,
        0 <= i < coeffs_outcome(in_size, out_size, axis)->Ok_0,
    ensures
        ({
            let ksize = coeffs_outcome(in_size, out_size, axis)->Ok_0 as int;
            let c = coeffs_model(axis.rows@, in_size, ksize);
            let row = axis.rows@[o];
            &&& c.ksize == ksize
            &&& c.bounds.len() == out_size
            &&& c.weights.len() == out_size * ksize
            &&& c.bounds[o].0 == row.start
            &&& c.bounds[o].1 == row.taps@.len()
            &&& row.end <= row.start || in_size <= row.start ==> row.taps@.len() == 0
            &&& row.start <= row.end <= in_size ==> row.start + row.taps@.len() == row.end
            &&& row.start <= in_size <= row.end ==> row.start + row.taps@.len() == in_size
            &&& c.weights[o * ksize + i] == if i < row.taps@.len() {
                row.taps@[i]
            } else {
                0
            }
        }),
{
    let ksize = coeffs_outcome(in_size, out_size, axis)->Ok_0 as int;
    lemma_rows_fit(axis.rows@, in_size, ksize, 0);
    assert(row_fits(axis.rows@[o], in_size, ksize));
    lemma_row_position(o, i, out_size as int, ksize);
    assert(0 <= out_size * ksize) by (nonlinear_arith)
        requires
            0 <= out_size,
            0 <= ksize,
    ;
}

/// Whether the tap at `i` is one and every other tap is zero.
pub open spec fn picks(taps: Seq<i32>, i: int) -> bool {
    &&& 0 <= i < taps.len()
    &&& taps[i] == 4194304
    &&& forall|j: int| 0 <= j < taps.len() && j != i ==> #[trigger] taps[j] == 0
}

proof fn lemma_picked_sum(
    src: Seq<u8>,
    base: int,
    stride: int,
    weights: Seq<i32>,
    off: int,
    taps: Seq<i32>,
    i: int,
    n: int,
)
    requires
        picks(taps, i),
        0 <= n <= taps.len(),
        forall|j: int| 0 <= j < taps.len() ==> weights[off + j] == #[trigger] taps[j],
    ensures
        tap_sum(src, base, stride, weights, off, n) == if i < n {
            src[base + i * stride] * 4194304
        } else {
            0
        },
    decreases n,
{
    if n > 0 {
        lemma_picked_sum(src, base, stride, weights, off, taps, i, n - 1);
        assert(weights[off + (n - 1)] == taps[n - 1]);
        assert(off + n - 1 == off + (n - 1));
        if n - 1 != i {
            assert(taps[n - 1] == 0);
            let b = src[base + (n - 1) * stride] as int;
            assert(b * 0 == 0) by (nonlinear_arith);
        }
    }
}

/// Taps that pick one pixel give it back: where the taps of a column pick the
/// `i`-th position of its window, and those of a row the `j`-th, the pixel there has
/// the alpha of the pixel of the image at that column and row, and its colours where
/// that pixel is opaque.
pub proof fn law_taps_pick_their_pixel(
    src: Seq<u8>,
    src_w: usize,
    src_h: usize,
    dst_w: usize,
    dst_h: usize,
    horizontal: AxisTaps,
    vertical: AxisTaps,
    x: int,
    y: int,
    i: int,
    j: int,
    ch: int,
)
    requires
        resized(
            src,
            src_w,
            src_h,
            dst_w,
            dst_h,
            Kernel::Convolution { horizontal, vertical },
        ) is Ok,
        0 <= x < dst_w,
        0 <= y < dst_h,
        picks(horizontal.rows@[x].taps@, i),
        picks(vertical.rows@[y].taps@, j),
        0 <= ch < 4,
    ensures
        ({
            let out = resized(
                src,
                src_w,
                src_h,
                dst_w,
                dst_h,
                Kernel::Convolution { horizontal, vertical },
            )->Ok_0;
            let sx = horizontal.rows@[x].start + i;
            let sy = vertical.rows@[y].start + j;
            let from = (sy * src_w + sx) * 4;
            let to = (y * dst_w + x) * 4;
            &&& sx < src_w
            &&& sy < src_h
            &&& out[to + 3] == src[from + 3]
            &&& src[from + 3] == 255 ==> out[to + ch] == src[from + ch]
            &&& src[from + 3] == 0 ==> out[to + ch] == 0
        }),
{
    let (h, v) = convolution_outcome(src_w, src_h, dst_w, dst_h, horizontal, vertical)->Ok_0;
    let hc = coeffs_model(horizontal.rows@, src_w, h as int);
    let vc = coeffs_model(vertical.rows@, src_h, v as int);
    let pm = premultiplied(src);
    let mid = horizontal_pass(pm, src_w as int, src_h as int, hc);
    let both = vertical_pass(mid, hc.bounds.len() as int, vc);
    let sx = horizontal.rows@[x].start + i;
    let sy = vertical.rows@[y].start + j;
    let from = (sy * src_w + sx) * 4;
    let to = (y * dst_w + x) * 4;
    lemma_rows_fit(horizontal.rows@, src_w, h as int, 0);
    lemma_rows_fit(vertical.rows@, src_h, v as int, 0);
    assert(row_fits(horizontal.rows@[x], src_w, h as int));
    assert(row_fits(vertical.rows@[y], src_h, v as int));
    assert(src_w * src_h == src_h * src_w) by (nonlinear_arith);
    assert forall|c: int| 0 <= c < 4 implies #[trigger] both[to + c] == pm[from + c] by {
        lemma_pixel_position(sy, sx, c, src_h as int, src_w as int);
        lemma_pixel_position(sy, x, c, src_h as int, dst_w as int);
        lemma_pixel_position(y, x, c, dst_h as int, dst_w as int);
        let htaps = horizontal.rows@[x].taps@;
        let vtaps = vertical.rows@[y].taps@;
        assert forall|k: int| 0 <= k < htaps.len() implies hc.weights[x * h + k]
            == #[trigger] htaps[k] by {
            lemma_row_position(x, k, dst_w as int, h as int);
        }
        assert forall|k: int| 0 <= k < vtaps.len() implies vc.weights[y * v + k]
            == #[trigger] vtaps[k] by {
            lemma_row_position(y, k, dst_h as int, v as int);
        }
        let hbase = (sy * src_w + horizontal.rows@[x].start) * 4 + c;
        lemma_picked_sum(
            pm,
            hbase,
            4,
            hc.weights,
            x * h,
            htaps,
            i,
            htaps.len() as int,
        );
        assert(hbase + i * 4 == from + c);
        let at = (sy * dst_w + x) * 4 + c;
        assert(mid[at] == pm[from + c]);
        let vbase = (vertical.rows@[y].start * dst_w + x) * 4 + c;
        lemma_picked_sum(
            mid,
            vbase,
            dst_w * 4,
            vc.weights,
            y * v,
            vtaps,
            j,
            vtaps.len() as int,
        );
        assert(vbase + j * (dst_w * 4) == at) by (nonlinear_arith)
            requires
                vbase == (vertical.rows@[y].start * dst_w + x) * 4 + c,
                at == (sy * dst_w + x) * 4 + c,
                sy == vertical.rows@[y].start + j,
        ;
    }
    lemma_pixel_position(sy, sx, 3, src_h as int, src_w as int);
    lemma_pixel_position(sy, sx, ch, src_h as int, src_w as int);
    lemma_pixel_position(y, x, 3, dst_h as int, dst_w as int);
    lemma_pixel_position(y, x, ch, dst_h as int, dst_w as int);
    assert(both[to + 3] == pm[from + 3]);
    assert(both[to + ch] == pm[from + ch]);
    assert((from + ch) / 4 * 4 + 3 == from + 3);
    assert((to + ch) / 4 * 4 + 3 == to + 3);
    law_opaque_and_transparent_alpha(src[from + ch]);
}


/// A coefficient table has room for a window of the given radius on either side of
/// its middle, or for the whole input where that is less, and it is accepted where
/// the table, its bounds and one row of it are within the limit.
pub proof fn law_tables_have_room_for_their_windows(
    in_size: usize,
    out_size: usize,
    support: usize,
)
    ensures
        table_outcome(in_size, out_size, support) matches Ok(ksize) ==> {
            &&& ksize <= in_size
            &&& ksize <= 2 * support + 1
            &&& ksize == in_size || ksize == 2 * support + 1
            &&& 0 < ksize
            &&& out_size * ksize * 4 <= 512 * 1024 * 1024
            &&& out_size * (2 * (usize::BITS / 8)) <= 512 * 1024 * 1024
            &&& ksize * 8 <= 512 * 1024 * 1024
        },
        in_size == 0 || out_size == 0 ==> table_outcome(in_size, out_size, support) is Err,
        forall|ksize: int|
            {
                &&& 0 < in_size
                &&& 0 < out_size
                &&& 2 * support + 1 <= usize::MAX
                &&& ksize == in_size || ksize == 2 * support + 1
                &&& ksize <= in_size
                &&& ksize <= 2 * support + 1
                &&& #[trigger] (out_size * ksize) <= usize::MAX
                &&& out_size * ksize * 4 <= 512 * 1024 * 1024
                &&& out_size * (2 * (usize::BITS / 8)) <= 512 * 1024 * 1024
                &&& ksize * 8 <= 512 * 1024 * 1024
            } ==> table_outcome(in_size, out_size, support) is Ok,
{
}


/// A convolution premultiplies the image, resamples its rows with the horizontal taps, then
/// its columns with the vertical ones, and goes back to straight colour.
pub proof fn law_rows_are_resampled_before_columns(
    src: Seq<u8>,
    src_w: usize,
    src_h: usize,
    dst_w: usize,
    dst_h: usize,
    horizontal: AxisTaps,
    vertical: AxisTaps,
)
    requires
        resized(
            src,
            src_w,
            src_h,
            dst_w,
            dst_h,
            Kernel::Convolution { horizontal, vertical },
        ) is Ok,
    ensures
        coeffs_outcome(src_w, dst_w, horizontal) is Ok,
        coeffs_outcome(src_h, dst_h, vertical) is Ok,
        ({
            let h = coeffs_model(
                horizontal.rows@,
                src_w,
                coeffs_outcome(src_w, dst_w, horizontal)->Ok_0 as int,
            );
            let v = coeffs_model(
                vertical.rows@,
                src_h,
                coeffs_outcome(src_h, dst_h, vertical)->Ok_0 as int,
            );
            let out = resized(
                src,
                src_w,
                src_h,
                dst_w,
                dst_h,
                Kernel::Convolution { horizontal, vertical },
            )->Ok_0;
            out == unpremultiplied(
                vertical_pass(
                    horizontal_pass(premultiplied(src), src_w as int, src_h as int, h),
                    dst_w as int,
                    v,
                ),
            )
        }),
{
}

/// The taps of an axis are accepted where their table has room, there is a row for each
/// output position, and each row starts in the input, holds one tap for each input position
/// of its window and no more than the stride, and weighs at most two in all.
pub proof fn law_taps_that_fit_the_table_are_accepted(
    in_size: usize,
    out_size: usize,
    axis: AxisTaps,
)
    ensures
        coeffs_outcome(in_size, out_size, axis) is Ok <==> {
            let stride = table_outcome(in_size, out_size, axis.support);
            &&& stride is Ok
            &&& axis.rows@.len() == out_size
            &&& forall|o: int|
                0 <= o < axis.rows@.len() ==> {
                    let row = #[trigger] axis.rows@[o];
                    let taps = row.taps@;
                    &&& row.start <= in_size
                    &&& row.end < row.start ==> taps.len() == 0
                    &&& row.start <= row.end <= in_size ==> row.start + taps.len() == row.end
                    &&& row.start <= in_size <= row.end ==> row.start + taps.len() == in_size
                    &&& taps.len() <= stride->Ok_0
                    &&& total_of(
                        Seq::new(
                            taps.len(),
                            |i: int|
                                if taps[i] < 0 {
                                    -taps[i]
                                } else {
                                    taps[i] as int
                                },
                        ),
                    ) <= 8388608
                }
        },
        coeffs_outcome(in_size, out_size, axis) matches Ok(k) ==> table_outcome(
            in_size,
            out_size,
            axis.support,
        ) == Ok::<usize, Error>(k),
{
    if table_outcome(in_size, out_size, axis.support) is Ok {
        let ksize = table_outcome(in_size, out_size, axis.support)->Ok_0 as int;
        lemma_rows_that_fit(axis.rows@, in_size, ksize, 0);
        assert forall|o: int| 0 <= o < axis.rows@.len() implies tap_mass(
            (#[trigger] axis.rows@[o]).taps@,
            0,
            axis.rows@[o].taps@.len() as int,
        ) == total_of(
            Seq::new(
                axis.rows@[o].taps@.len(),
                |i: int|
                    if axis.rows@[o].taps@[i] < 0 {
                        -axis.rows@[o].taps@[i]
                    } else {
                        axis.rows@[o].taps@[i] as int
                    },
            ),
        ) by {
            let taps = axis.rows@[o].taps@;
            lemma_tap_mass_total(taps, taps.len() as int);
            assert(Seq::new(
                taps.len(),
                |i: int|
                    if taps[i] < 0 {
                        -taps[i]
                    } else {
                        taps[i] as int
                    },
            ) =~= Seq::new(
                taps.len(),
                |i: int|
                    if axis.rows@[o].taps@[i] < 0 {
                        -axis.rows@[o].taps@[i]
                    } else {
                        axis.rows@[o].taps@[i] as int
                    },
            ));
        }
    }
}

proof fn lemma_rows_that_fit(rows: Seq<TapRow>, in_size: usize, ksize: int, i: int)
    requires
        0 <= i <= rows.len(),
    ensures
        rows_outcome(rows, in_size, ksize, i) is Ok <==> forall|o: int|
            i <= o < rows.len() ==> row_fits(#[trigger] rows[o], in_size, ksize),
    decreases rows.len() - i,
{
    if i < rows.len() {
        lemma_rows_that_fit(rows, in_size, ksize, i + 1);
    }
}

proof fn lemma_tap_mass_total(taps: Seq<i32>, n: int)
    requires
        0 <= n <= taps.len(),
    ensures
        tap_mass(taps, 0, n) == total_of(
            Seq::new(
                n as nat,
                |i: int|
                    if taps[i] < 0 {
                        -taps[i]
                    } else {
                        taps[i] as int
                    },
            ),
        ),
    decreases n,
{
    let terms = Seq::new(
        n as nat,
        |i: int|
            if taps[i] < 0 {
                -taps[i]
            } else {
                taps[i] as int
            },
    );
    if n > 0 {
        lemma_tap_mass_total(taps, n - 1);
        lemma_total_push(terms);
        assert(terms.drop_last() =~= Seq::new(
            (n - 1) as nat,
            |i: int|
                if taps[i] < 0 {
                    -taps[i]
                } else {
                    taps[i] as int
                },
        ));
    } else {
        assert(terms =~= Seq::<int>::empty());
    }
}

/// A convolution is accepted where the image and its result are within the limit, the taps
/// of both axes are accepted, and the image between the passes is within the limit.
pub proof fn law_convolutions_within_the_limits_are_accepted(
    src: Seq<u8>,
    src_w: usize,
    src_h: usize,
    dst_w: usize,
    dst_h: usize,
    horizontal: AxisTaps,
    vertical: AxisTaps,
)
    ensures
        resized(
            src,
            src_w,
            src_h,
            dst_w,
            dst_h,
            Kernel::Convolution { horizontal, vertical },
        ) is Ok <==> {
            &&& src_w > 0 && src_h > 0 && dst_w > 0 && dst_h > 0
            &&& src.len() == src_w * src_h * 4
            &&& src_w * src_h * 4 <= usize::MAX && dst_w * dst_h * 4 <= usize::MAX
            &&& src_w * src_h * 4 <= 512 * 1024 * 1024
            &&& dst_w * dst_h * 4 <= 512 * 1024 * 1024
            &&& coeffs_outcome(src_w, dst_w, horizontal) is Ok
            &&& coeffs_outcome(src_h, dst_h, vertical) is Ok
            &&& src_h * dst_w * 4 <= usize::MAX
            &&& src_h * dst_w * 4 <= 512 * 1024 * 1024
        },
{
}


/// Each output position is taken from the input cell that holds its scaled centre, whatever
/// the two sizes; positions further on are never taken from a cell further back.
pub proof fn law_nearest_cells_hold_the_scaled_centre(
    o: int,
    next: int,
    in_size: int,
    out_size: int,
)
    requires
        0 <= o <= next < out_size,
        0 < in_size,
    ensures
        ({
            let r = nearest_index(o, in_size, out_size);
            &&& 0 <= r < in_size
            &&& r * (2 * out_size) <= (2 * o + 1) * in_size < (r + 1) * (2 * out_size)
            &&& r <= nearest_index(next, in_size, out_size)
        }),
{
    let d = 2 * out_size;
    let a = (2 * o + 1) * in_size;
    let b = (2 * next + 1) * in_size;
    let r = a / d;
    let q = b / d;
    vstd::arithmetic::div_mod::lemma_fundamental_div_mod(a, d);
    vstd::arithmetic::div_mod::lemma_fundamental_div_mod(b, d);
    assert(0 < a && a <= b && a < in_size * d) by (nonlinear_arith)
        requires
            a == (2 * o + 1) * in_size,
            b == (2 * next + 1) * in_size,
            d == 2 * out_size,
            0 <= o <= next < out_size,
            0 < in_size,
    ;
    assert(d * r == r * d && d * q == q * d && (r + 1) * d == r * d + d) by (nonlinear_arith);
    assert(0 <= r < in_size && r <= q) by (nonlinear_arith)
        requires
            r * d <= a < r * d + d,
            q * d <= b < q * d + d,
            0 < a <= b,
            a < in_size * d,
            0 < d,
    ;
}

/// A buffer has the bytes of its elements, where they are within the limit and fit.
pub proof fn law_buffers_within_the_limit_have_their_bytes(
    elems: int,
    elem_size: int,
    what: &'static str,
)
    requires
        0 <= elems,
        0 <= elem_size,
    ensures
        buffer_bytes(elems, elem_size, what) is Ok <==> elems * elem_size <= usize::MAX && elems
            * elem_size <= 512 * 1024 * 1024,
        buffer_bytes(elems, elem_size, what) matches Ok(n) ==> n == elems * elem_size,
{
    assert(0 <= elems * elem_size) by (nonlinear_arith)
        requires
            0 <= elems,
            0 <= elem_size,
    ;
}


/// Every refusal of a resize is one of shapes that do not fit.
pub proof fn law_refused_resizes_are_of_shapes(
    src: Seq<u8>,
    src_w: usize,
    src_h: usize,
    dst_w: usize,
    dst_h: usize,
    kernel: Kernel,
)
    ensures
        resized(src, src_w, src_h, dst_w, dst_h, kernel) matches Err(e) ==> e is ShapeMismatch,
{
    if let Kernel::Convolution { horizontal, vertical } = kernel {
        lemma_refused_taps(src_w, dst_w, horizontal);
        lemma_refused_taps(src_h, dst_h, vertical);
    }
}

proof fn lemma_refused_taps(in_size: usize, out_size: usize, axis: AxisTaps)
    ensures
        coeffs_outcome(in_size, out_size, axis) matches Err(e) ==> e is ShapeMismatch,
{
    if table_outcome(in_size, out_size, axis.support) is Ok {
        let ksize = table_outcome(in_size, out_size, axis.support)->Ok_0 as int;
        lemma_refused_rows(axis.rows@, in_size, ksize, 0);
    }
}

proof fn lemma_refused_rows(rows: Seq<TapRow>, in_size: usize, ksize: int, i: int)
    requires
        0 <= i,
    ensures
        rows_outcome(rows, in_size, ksize, i) matches Err(e) ==> e is ShapeMismatch,
    decreases rows.len() - i,
{
    if i < rows.len() {
        lemma_refused_rows(rows, in_size, ksize, i + 1);
    }
}

} // verus!
