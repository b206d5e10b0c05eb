//! Folding patches into tokens, and placing the features of images among the
//! embeddings of a prompt.

use vstd::prelude::*;

use crate::array::{self, Array, ArrayModel};
use crate::buffer::{push_range, push_repeated, reserve_or_error};
use crate::error::{
    self, length_mismatch, out_of_range, overflow, rank_mismatch, Error, ErrorModel,
};
use crate::model_validation::{self, checked_add, checked_mul, require_positive};
use crate::text::joined;
use crate::vlm::models::lfm2_vl::config::ModelConfig;
use crate::vlm::models::lfm2_vl::layers::{
    self, take_linear, take_norm, Linear, Norm, Schemes,
};
use crate::vlm::models::lfm2_vl::processor::{self, count_placeholders};
use crate::weights::{self, WeightMap};

verus! {

// ---------------------------------------------------------------------------
// Pixel unshuffle
// ---------------------------------------------------------------------------

/// An extent as `i32`, or why it is refused.
pub open spec fn extent_i32(extent: usize, context: &'static str) -> Result<i32, Error> {
    if extent > i32::MAX {
        Err(out_of_range(context, "dim exceeds i32::MAX", extent as i128))
    } else {
        Ok(extent as i32)
    }
}

/// An extent as `i32`; see [`extent_i32`].
pub fn dim_i32(extent: usize, context: &'static str) -> (r: Result<i32, Error>)
    ensures
        r == extent_i32(extent, context),
{
    if extent > i32::MAX as usize {
        Err(out_of_range(context, "dim exceeds i32::MAX", extent as i128))
    } else {
        Ok(extent as i32)
    }
}

/// An axis rounded up to a multiple of the factor, or an overflow.
pub open spec fn padded_extent(extent: i32, factor: i32, context: &'static str) -> Result<
    i32,
    Error,
> {
    if extent as int % factor as int == 0 {
        Ok(extent)
    } else {
        model_validation::sum_i32(context, extent, (factor - extent as int % factor as int) as i32)
    }
}

fn pad_extent(extent: i32, factor: i32, context: &'static str) -> (r: Result<i32, Error>)
    requires
        extent >= 0,
        factor > 0,
    ensures
        r == padded_extent(extent, factor, context),
        r matches Ok(n) ==> n == processor::padded(extent as int, factor as int),
{
    let rem: i32 = extent % factor;
    if rem == 0 {
        return Ok(extent);
    }
    checked_add(context, extent, factor - rem)
}

/// The size of a folded grid: the folded extents, and the number of items.
#[derive(Debug, Clone, Copy)]
pub struct Fold {
    /// The number of blocks along the second axis.
    pub wide: usize,
    /// The number of blocks along the third axis.
    pub high: usize,
    /// The number of channels of a block.
    pub channels: usize,
    /// The number of items of the result.
    pub items: usize,
}

/// How a grid is folded, or why it is refused.
pub open spec fn fold_outcome(shape: Seq<usize>, factor: i32) -> Result<Fold, Error> {
    if shape.len() != 4 {
        Err(
            rank_mismatch(
                "lfm2_vl PixelUnshuffleBlock: input must be rank-4 (N, W, H, C)",
                shape.len() as usize,
            ),
        )
    } else {
        match extent_i32(shape[0], "lfm2_vl PixelUnshuffleBlock: N") {
            Err(e) => Err(e),
            Ok(n) => match extent_i32(shape[1], "lfm2_vl PixelUnshuffleBlock: W") {
                Err(e) => Err(e),
                Ok(w) => match extent_i32(shape[2], "lfm2_vl PixelUnshuffleBlock: H") {
                    Err(e) => Err(e),
                    Ok(h) => match extent_i32(shape[3], "lfm2_vl PixelUnshuffleBlock: C") {
                        Err(e) => Err(e),
                        Ok(c) => folded_size(n, w, h, c, factor),
                    },
                },
            },
        }
    }
}

/// How a grid of the given extents is folded, or why it is refused.
pub open spec fn folded_size(n: i32, w: i32, h: i32, c: i32, factor: i32) -> Result<Fold, Error> {
    match padded_extent(w, factor, "lfm2_vl PixelUnshuffleBlock: padded W") {
        Err(e) => Err(e),
        Ok(wide) => match padded_extent(h, factor, "lfm2_vl PixelUnshuffleBlock: padded H") {
            Err(e) => Err(e),
            Ok(high) => match model_validation::product_i32("lfm2_vl PixelUnshuffleBlock: C*factor", c, factor) {
                Err(e) => Err(e),
                Ok(row) => match model_validation::product_i32(
                    "lfm2_vl PixelUnshuffleBlock: C*factor^2",
                    row,
                    factor,
                ) {
                    Err(e) => Err(e),
                    Ok(channels) => {
                        let blocks_w = wide as int / factor as int;
                        let blocks_h = high as int / factor as int;
                        let items = n * blocks_w * blocks_h * channels;
                        if items > usize::MAX {
                            Err(
                                overflow(
                                    "lfm2_vl PixelUnshuffleBlock: folded items",
                                    "usize",
                                    (n * blocks_w * blocks_h) as i128,
                                    channels as i128,
                                ),
                            )
                        } else {
                            Ok(
                                Fold {
                                    wide: blocks_w as usize,
                                    high: blocks_h as usize,
                                    channels: channels as usize,
                                    items: items as usize,
                                },
                            )
                        }
                    },
                },
            },
        },
    }
}

/// One cell of a folded grid: the channels of the cell of the grid that it stands
/// for, or zeros where the grid was padded.
///
/// The cells of a block stand row by row, and the blocks of an image likewise.
pub open spec fn folded_cell<T>(
    data: Seq<T>,
    w: int,
    h: int,
    c: int,
    wide: int,
    high: int,
    f: int,
    zero: T,
    m: int,
) -> Seq<T> {
    let block = m / (f * f);
    let inner = m % (f * f);
    let image = block / (wide * high);
    let place = block % (wide * high);
    let x = (place / high) * f + inner / f;
    let y = (place % high) * f + inner % f;
    if x < w && y < h {
        let start = ((image * w + x) * h + y) * c;
        data.subrange(start, start + c)
    } else {
        Seq::new(c as nat, |j: int| zero)
    }
}

/// The items of `count` cells of a folded grid.
pub open spec fn folded_items<T>(
    data: Seq<T>,
    w: int,
    h: int,
    c: int,
    wide: int,
    high: int,
    f: int,
    zero: T,
    count: int,
) -> Seq<T> {
    Seq::new(
        (count * c) as nat,
        |i: int| folded_cell(data, w, h, c, wide, high, f, zero, i / c)[i % c],
    )
}

/// A grid with each square of `factor` by `factor` cells folded into one.
pub open spec fn folded<T>(x: ArrayModel<T>, factor: i32, zero: T) -> ArrayModel<T> {
    let f = factor as int;
    let w = x.shape[1] as int;
    let h = x.shape[2] as int;
    let c = x.shape[3] as int;
    let wide = processor::padded(w, f) / f;
    let high = processor::padded(h, f) / f;
    ArrayModel {
        shape: seq![x.shape[0], wide as usize, high as usize, (c * f * f) as usize],
        data: folded_items(
            x.data,
            w,
            h,
            c,
            wide,
            high,
            f,
            zero,
            x.shape[0] * wide * high * (f * f),
        ),
    }
}

/// Folds each square of patches into the channels of one token.
#[derive(Debug, Clone, Copy)]
pub struct PixelUnshuffleBlock {
    factor: i32,
}

impl PixelUnshuffleBlock {
    #[verifier::type_invariant]
    closed spec fn inv(self) -> bool {
        self.factor > 0
    }

    /// The number of patches that are folded along each axis.
    pub closed spec fn side(&self) -> i32 {
        self.factor
    }

    /// A block that folds `factor` patches along each axis.
    pub fn new(factor: i32) -> (r: Result<Self, Error>)
        ensures
            match r {
                Ok(block) => factor > 0 && block.side() == factor,
                Err(e) => factor <= 0 && e == out_of_range(
                    "lfm2_vl PixelUnshuffleBlock: factor",
                    "must be positive (> 0)",
                    factor as i128,
                ),
            },
    {
        require_positive("lfm2_vl PixelUnshuffleBlock: factor", factor)?;
        Ok(PixelUnshuffleBlock { factor })
    }

    /// The number of patches that are folded along each axis.
    pub fn factor(&self) -> (r: i32)
        ensures
            r == self.side(),
            r > 0,
    {
        proof {
            use_type_invariant(self);
        }
        self.factor
    }
}

proof fn lemma_fold_bounds(n: int, wide: int, high: int, channels: int)
    requires
        0 <= n <= i32::MAX,
        0 <= wide <= i32::MAX,
        0 <= high <= i32::MAX,
        0 <= channels <= i32::MAX,
    ensures
        0 <= n * wide <= 0x7fff_ffff * 0x7fff_ffff,
        0 <= n * wide * high <= 0x7fff_ffff * 0x7fff_ffff * 0x7fff_ffff,
        0 <= n * wide * high * channels <= 0x7fff_ffff * 0x7fff_ffff * 0x7fff_ffff * 0x7fff_ffff,
{
    assert(0 <= n * wide <= 0x7fff_ffff * 0x7fff_ffff) by (nonlinear_arith)
        requires
            0 <= n <= 0x7fff_ffff,
            0 <= wide <= 0x7fff_ffff,
    ;
    let a = n * wide;
    assert(0 <= a * high <= (0x7fff_ffff * 0x7fff_ffff) * 0x7fff_ffff) by (nonlinear_arith)
        requires
            0 <= a <= 0x7fff_ffff * 0x7fff_ffff,
            0 <= high <= 0x7fff_ffff,
    ;
    let b = a * high;
    assert(0 <= b * channels <= (0x7fff_ffff * 0x7fff_ffff * 0x7fff_ffff) * 0x7fff_ffff)
        by (nonlinear_arith)
        requires
            0 <= b <= 0x7fff_ffff * 0x7fff_ffff * 0x7fff_ffff,
            0 <= channels <= 0x7fff_ffff,
    ;
}

proof fn lemma_padded_blocks(extent: int, factor: int)
    requires
        0 <= extent,
        0 < factor,
    ensures
        0 <= processor::padded(extent, factor),
        extent <= processor::padded(extent, factor),
        processor::padded(extent, factor) / factor * factor == processor::padded(extent, factor),
        0 <= processor::padded(extent, factor) / factor <= processor::padded(extent, factor),
{
    if extent > 0 {
        processor::lemma_blocks(extent, factor);
        let q = processor::padded(extent, factor) / factor;
        assert(q <= q * factor) by (nonlinear_arith)
            requires
                0 < q,
                1 <= factor,
        ;
    } else {
        vstd::arithmetic::div_mod::lemma_small_mod(0, factor as nat);
        vstd::arithmetic::div_mod::lemma_div_basics(factor);
    }
}

/// A grid without channels is folded into one without items.
pub proof fn lemma_no_channels(n: i32, w: i32, h: i32, factor: i32)
    ensures
        folded_size(n, w, h, 0, factor) matches Ok(fold) ==> fold.items == 0,
{
    assert(0 * factor == 0) by (nonlinear_arith);
    if let Ok(fold) = folded_size(n, w, h, 0, factor) {
        assert(n * fold.wide * fold.high * 0 == 0) by (nonlinear_arith);
    }
}

/// Plans how a grid of the given shape is folded; see [`fold_outcome`].
pub fn plan_fold(shape: &Vec<usize>, factor: i32) -> (r: Result<Fold, Error>)
    requires
        factor > 0,
    ensures
        r == fold_outcome(shape@, factor),
{
    if shape.len() != 4 {
        return Err(
            rank_mismatch(
                "lfm2_vl PixelUnshuffleBlock: input must be rank-4 (N, W, H, C)",
                shape.len(),
            ),
        );
    }
    let n: i32 = dim_i32(shape[0], "lfm2_vl PixelUnshuffleBlock: N")?;
    let w: i32 = dim_i32(shape[1], "lfm2_vl PixelUnshuffleBlock: W")?;
    let h: i32 = dim_i32(shape[2], "lfm2_vl PixelUnshuffleBlock: H")?;
    let c: i32 = dim_i32(shape[3], "lfm2_vl PixelUnshuffleBlock: C")?;
    let padded_w: i32 = pad_extent(w, factor, "lfm2_vl PixelUnshuffleBlock: padded W")?;
    let padded_h: i32 = pad_extent(h, factor, "lfm2_vl PixelUnshuffleBlock: padded H")?;
    let row: i32 = checked_mul("lfm2_vl PixelUnshuffleBlock: C*factor", c, factor)?;
    let channels: i32 = checked_mul("lfm2_vl PixelUnshuffleBlock: C*factor^2", row, factor)?;
    proof {
        lemma_padded_blocks(w as int, factor as int);
        lemma_padded_blocks(h as int, factor as int);
        assert(0 <= row) by (nonlinear_arith)
            requires
                row == c * factor,
                0 <= c,
                0 < factor,
        ;
        assert(0 <= channels) by (nonlinear_arith)
            requires
                channels == row * factor,
                0 <= row,
                0 < factor,
        ;
    }
    let wide: i32 = padded_w / factor;
    let high: i32 = padded_h / factor;
    proof {
        lemma_fold_bounds(n as int, wide as int, high as int, channels as int);
    }
    let cells: u128 = n as u128 * wide as u128 * high as u128;
    let items: u128 = cells * channels as u128;
    if items > usize::MAX as u128 {
        return Err(
            overflow(
                "lfm2_vl PixelUnshuffleBlock: folded items",
                "usize",
                cells as i128,
                channels as i128,
            ),
        );
    }
    Ok(
        Fold {
            wide: wide as usize,
            high: high as usize,
            channels: channels as usize,
            items: items as usize,
        },
    )
}

proof fn lemma_flat_index(image: int, n: int, x: int, w: int, y: int, h: int, c: int)
    requires
        0 <= image < n,
        0 <= x < w,
        0 <= y < h,
        0 <= c,
    ensures
        0 <= image * w,
        0 <= image * w + x,
        0 <= (image * w + x) * h,
        0 <= (image * w + x) * h + y < n * w * h,
        0 <= ((image * w + x) * h + y) * c,
        ((image * w + x) * h + y) * c + c <= n * w * h * c,
{
    assert(0 <= image * w && image * w + w <= n * w) by (nonlinear_arith)
        requires
            0 <= image < n,
            0 < w,
    ;
    let a = image * w + x;
    let nw = n * w;
    assert(0 <= a * h && a * h + h <= nw * h) by (nonlinear_arith)
        requires
            0 <= a < nw,
            0 < h,
    ;
    let b = a * h + y;
    let nwh = nw * h;
    assert(0 <= b * c && b * c + c <= nwh * c) by (nonlinear_arith)
        requires
            0 <= b < nwh,
            0 <= c,
    ;
}

/// Fills an empty buffer with the items of a folded grid.
fn fill_fold<T: Copy>(
    data: &[T],
    n: usize,
    w: usize,
    h: usize,
    c: usize,
    wide: usize,
    high: usize,
    f: usize,
    zero: T,
    count: usize,
    buffer: Vec<T>,
) -> (r: Vec<T>)
    requires
        0 < f <= i32::MAX,
        0 < c,
        w <= wide * f <= i32::MAX,
        h <= high * f <= i32::MAX,
        data@.len() == n * w * h * c,
        count == n * (wide * high) * (f * f),
        wide * high <= usize::MAX,
        f * f <= usize::MAX,
        count * c <= usize::MAX,
        buffer@.len() == 0,
    ensures
        r@ == folded_items(
            data@,
            w as int,
            h as int,
            c as int,
            wide as int,
            high as int,
            f as int,
            zero,
            count as int,
        ),
{
    let data_len: usize = data.len();
    let ghost g = |i: int|
        folded_cell(
            data@,
            w as int,
            h as int,
            c as int,
            wide as int,
            high as int,
            f as int,
            zero,
            i / (c as int),
        )[i % (c as int)];
    let square: usize = f * f;
    let grid: usize = wide * high;
    let mut out: Vec<T> = buffer;
    let mut m: usize = 0;
    assert(out@ =~= Seq::new((0 * c) as nat, g));
    while m < count
        invariant
            m <= count,
            0 < f <= i32::MAX,
            0 < c,
            w <= wide * f <= i32::MAX,
            h <= high * f <= i32::MAX,
            data_len == data@.len(),
            data@.len() == n * w * h * c,
            count == n * grid * square,
            grid == wide * high,
            square == f * f,
            count * c <= usize::MAX,
            g == (|i: int|
                folded_cell(
                    data@,
                    w as int,
                    h as int,
                    c as int,
                    wide as int,
                    high as int,
                    f as int,
                    zero,
                    i / (c as int),
                )[i % (c as int)]),
            out@ == Seq::new((m * c) as nat, g),
        decreases count - m,
    {
        let ghost before = out@;
        proof {
            array::lemma_cell(m as int, n * grid, square as int, 1);
            array::lemma_cell(m as int / square as int, n as int, grid as int, 1);
            array::lemma_cell(
                (m as int / square as int) % (grid as int),
                wide as int,
                high as int,
                f as int,
            );
            array::lemma_cell(m as int % square as int, f as int, f as int, 1);
        }
        let block: usize = m / square;
        let inner: usize = m % square;
        let image: usize = block / grid;
        let place: usize = block % grid;
        let x: usize = (place / high) * f + inner / f;
        let y: usize = (place % high) * f + inner % f;
        let ghost cell = folded_cell(
            data@,
            w as int,
            h as int,
            c as int,
            wide as int,
            high as int,
            f as int,
            zero,
            m as int,
        );
        if x < w && y < h {
            proof {
                lemma_flat_index(
                    image as int,
                    n as int,
                    x as int,
                    w as int,
                    y as int,
                    h as int,
                    c as int,
                );
                assert(n * w * h <= n * w * h * c) by (nonlinear_arith)
                    requires
                        0 <= n * w * h,
                        1 <= c,
                ;
                assert(image * w + x <= (image * w + x) * h) by (nonlinear_arith)
                    requires
                        0 <= image * w + x,
                        1 <= h,
                ;
            }
            let start: usize = ((image * w + x) * h + y) * c;
            push_range(&mut out, data, start, start + c);
            assert(out@ =~= before + cell);
        } else {
            push_repeated(&mut out, zero, c);
            assert(out@ =~= before + cell);
        }
        proof {
            assert(cell.len() == c);
            assert forall|j: int| 0 <= j < c implies cell[j] == g(m * c + j) by {
                array::lemma_block_position(m as int, c as int, j);
            }
            array::lemma_block_position(m as int, c as int, 0);
            assert(out@ =~= Seq::new(((m + 1) * c) as nat, g));
        }
        m += 1;
    }
    assert(out@ =~= folded_items(
        data@,
        w as int,
        h as int,
        c as int,
        wide as int,
        high as int,
        f as int,
        zero,
        count as int,
    ));
    out
}

proof fn lemma_fold_counts(n: int, wide: int, high: int, c: int, f: int)
    requires
        0 <= n,
        0 <= wide,
        0 <= high,
        0 <= c,
        0 < f,
    ensures
        n * wide * high * (c * f * f) == (n * wide * high * (f * f)) * c,
        n * wide * high * (f * f) == n * (wide * high) * (f * f),
        0 <= n * wide * high * (f * f),
        c > 0 ==> n * wide * high * (f * f) <= n * wide * high * (c * f * f),
{
    assert(n * wide * high == n * (wide * high)) by (nonlinear_arith);
    let a = n * wide * high;
    assert(0 <= a) by (nonlinear_arith)
        requires
            a == n * wide * high,
            0 <= n,
            0 <= wide,
            0 <= high,
    ;
    assert(a * (c * f * f) == (a * (f * f)) * c) by (nonlinear_arith);
    assert(0 <= a * (f * f)) by (nonlinear_arith)
        requires
            0 <= a,
            0 < f,
    ;
    let b = a * (f * f);
    if c > 0 {
        assert(b <= b * c) by (nonlinear_arith)
            requires
                0 <= b,
                1 <= c,
        ;
    }
}

proof fn lemma_factors_fit(n: int, w: int, wide: int, h: int, high: int, c: int, f: int)
    requires
        0 < n,
        0 < w <= wide * f,
        0 < h <= high * f,
        0 < c,
        0 < f,
    ensures
        0 < wide,
        0 < high,
        wide * high <= n * wide * high * (c * f * f),
        f * f <= n * wide * high * (c * f * f),
{
    assert(0 < wide) by (nonlinear_arith)
        requires
            0 < wide * f,
            0 < f,
    ;
    assert(0 < high) by (nonlinear_arith)
        requires
            0 < high * f,
            0 < f,
    ;
    let area = wide * high;
    assert(0 < area) by (nonlinear_arith)
        requires
            area == wide * high,
            0 < wide,
            0 < high,
    ;
    let square = f * f;
    assert(0 < square) by (nonlinear_arith)
        requires
            square == f * f,
            0 < f,
    ;
    let cells = n * wide * high;
    assert(area <= cells) by (nonlinear_arith)
        requires
            cells == n * wide * high,
            area == wide * high,
            0 < area,
            1 <= n,
    ;
    let depth = c * f * f;
    assert(square <= depth) by (nonlinear_arith)
        requires
            depth == c * f * f,
            square == f * f,
            0 < square,
            1 <= c,
    ;
    assert(cells <= cells * depth && depth <= cells * depth) by (nonlinear_arith)
        requires
            1 <= cells,
            1 <= depth,
    ;
}

proof fn lemma_empty_fold(n: int, w: int, h: int, f: int)
    requires
        0 <= n,
        0 <= w,
        0 <= h,
        n == 0 || w == 0 || h == 0,
        0 < f,
    ensures
        n * (processor::padded(w, f) / f) * (processor::padded(h, f) / f) * (f * f) == 0,
{
    vstd::arithmetic::div_mod::lemma_small_mod(0, f as nat);
    vstd::arithmetic::div_mod::lemma_div_basics(f);
    let wide = processor::padded(w, f) / f;
    let high = processor::padded(h, f) / f;
    assert(n * wide * high * (f * f) == 0) by (nonlinear_arith)
        requires
            n == 0 || wide == 0 || high == 0,
    ;
}

impl PixelUnshuffleBlock {
    /// Folds an `(N, W, H, C)` grid into an `(N, W/f, H/f, C*f^2)` one, padding `W`
    /// and `H` with `zero` up to multiples of the factor; see [`fold_outcome`] and
    /// [`folded`].
    ///
    /// A grid that is not refused can still fail for want of memory, unless the
    /// folded grid has no items.
    pub fn forward<T: Copy>(&self, x: &Array<T>, zero: T) -> (r: Result<Array<T>, Error>)
        ensures
            match fold_outcome(x@.shape, self.side()) {
                Err(e) => r == Err::<Array<T>, Error>(e),
                Ok(_) => match r {
                    Ok(out) => out@ == folded(x@, self.side(), zero),
                    Err(e) => e == (Error::AllocFailure {
                        context: "lfm2_vl PixelUnshuffleBlock: folded grid",
                    }),
                },
            },
            fold_outcome(x@.shape, self.side()) matches Ok(fold) ==> fold.items == 0 ==> r is Ok,
    {
        let fold: Fold = plan_fold(x.shape(), self.factor())?;
        let buffer: Vec<T> = reserve_or_error(
            fold.items,
            "lfm2_vl PixelUnshuffleBlock: folded grid",
        )?;
        Ok(self.fill_folded(x, fold, zero, buffer))
    }

    /// Folds a grid that is admitted into an empty buffer; see [`folded`].
    pub fn fill_folded<T: Copy>(
        &self,
        x: &Array<T>,
        fold: Fold,
        zero: T,
        buffer: Vec<T>,
    ) -> (r: Array<T>)
        requires
            fold_outcome(x@.shape, self.side()) == Ok::<Fold, Error>(fold),
            buffer@.len() == 0,
        ensures
            r@ == folded(x@, self.side(), zero),
    {
        let factor: i32 = self.factor();
        let shape: &Vec<usize> = x.shape();
        let n: usize = shape[0];
        let w: usize = shape[1];
        let h: usize = shape[2];
        let c: usize = shape[3];
        let f: usize = factor as usize;
        let len: usize = x.len();
        let mut out: Vec<T> = buffer;
        let ghost fi = factor as int;
        proof {
            assert(shape@ =~= seq![n, w, h, c]);
            array::lemma_product_4(n, w, h, c);
            lemma_padded_blocks(w as int, fi);
            lemma_padded_blocks(h as int, fi);
            lemma_fold_counts(n as int, fold.wide as int, fold.high as int, c as int, fi);
        }
        if c > 0 {
            if n > 0 && w > 0 && h > 0 {
                proof {
                    lemma_factors_fit(
                        n as int,
                        w as int,
                        fold.wide as int,
                        h as int,
                        fold.high as int,
                        c as int,
                        fi,
                    );
                }
                let count: usize = fold.items / c;
                proof {
                    vstd::arithmetic::div_mod::lemma_fundamental_div_mod_converse(
                        fold.items as int,
                        c as int,
                        n * fold.wide * fold.high * (fi * fi),
                        0,
                    );
                }
                out = fill_fold(
                    x.data().as_slice(),
                    n,
                    w,
                    h,
                    c,
                    fold.wide,
                    fold.high,
                    f,
                    zero,
                    count,
                    out,
                );
            } else {
                proof {
                    lemma_empty_fold(n as int, w as int, h as int, fi);
                }
            }
        }
        let out_shape: Vec<usize> = vec![n, fold.wide, fold.high, fold.channels];
        proof {
            assert(out_shape@ =~= seq![n, fold.wide, fold.high, fold.channels]);
            array::lemma_product_4(n, fold.wide, fold.high, fold.channels);
            let total = n * fold.wide * fold.high * (fi * fi);
            assert(c == 0 || total == 0 ==> total * c == 0) by (nonlinear_arith);
            assert(fold.wide == processor::padded(w as int, fi) / fi);
            assert(fold.high == processor::padded(h as int, fi) / fi);
            assert(folded(x@, factor, zero).data == folded_items(
                x@.data,
                w as int,
                h as int,
                c as int,
                fold.wide as int,
                fold.high as int,
                fi,
                zero,
                total,
            ));
            assert(out@ =~= folded(x@, factor, zero).data);
        }
        let r: Array<T> = Array::of(out, out_shape);
        proof {
            assert(r@.shape =~= folded(x@, factor, zero).shape);
            assert(r@ =~= folded(x@, factor, zero));
        }
        r
    }
}

/// A folded patch grid has one cell per token of its image.
pub proof fn law_folded_cells_are_the_tokens<T>(x: ArrayModel<T>, factor: i32, zero: T)
    requires
        factor > 0,
        x.shape.len() == 4,
        fold_outcome(x.shape, factor) is Ok,
        0 < x.shape[1],
        0 < x.shape[2],
        processor::token_count(x.shape[1] as i32, x.shape[2] as i32, factor) is Ok,
    ensures
        folded(x, factor, zero).shape[1] * folded(x, factor, zero).shape[2] == processor::token_count(
            x.shape[1] as i32,
            x.shape[2] as i32,
            factor,
        )->Ok_0,
{
    lemma_padded_blocks(x.shape[1] as int, factor as int);
    lemma_padded_blocks(x.shape[2] as int, factor as int);
    processor::lemma_blocks(x.shape[1] as int, factor as int);
    processor::lemma_blocks(x.shape[2] as int, factor as int);
}

/// Folding keeps every item: that of channel `ch` of cell `(x, y)` of an image
/// stands in block `(x / f, y / f)`, at the place of `(x % f, y % f)` in it.
pub proof fn law_folding_keeps_every_item<T>(
    grid: ArrayModel<T>,
    factor: i32,
    zero: T,
    image: int,
    x: int,
    y: int,
    ch: int,
)
    requires
        factor > 0,
        grid.shape.len() == 4,
        0 <= image < grid.shape[0],
        0 <= x < grid.shape[1],
        0 <= y < grid.shape[2],
        0 <= ch < grid.shape[3],
        grid.data.len() == grid.shape[0] * grid.shape[1] * grid.shape[2] * grid.shape[3],
    ensures
        ({
            let f = factor as int;
            let w = grid.shape[1] as int;
            let h = grid.shape[2] as int;
            let c = grid.shape[3] as int;
            let wide = processor::blocks(w, f);
            let high = processor::blocks(h, f);
            let block = (image * wide + x / f) * high + y / f;
            let place = (x % f) * f + y % f;
            let index = (block * (f * f) + place) * c + ch;
            &&& 0 <= index < folded(grid, factor, zero).data.len()
            &&& folded(grid, factor, zero).data[index] == grid.data[((image * w + x) * h + y) * c
                + ch]
        }),
{
    let f = factor as int;
    let n = grid.shape[0] as int;
    let w = grid.shape[1] as int;
    let h = grid.shape[2] as int;
    let c = grid.shape[3] as int;
    let wide = processor::blocks(w, f);
    let high = processor::blocks(h, f);
    processor::lemma_blocks(w, f);
    processor::lemma_blocks(h, f);
    vstd::arithmetic::div_mod::lemma_fundamental_div_mod(x, f);
    vstd::arithmetic::div_mod::lemma_fundamental_div_mod(y, f);
    let bx = x / f;
    let by = y / f;
    let ix = x % f;
    let iy = y % f;
    lemma_block_of(x, f, wide);
    lemma_block_of(y, f, high);
    // The block among the blocks of all images.
    let area = wide * high;
    let inner_block = bx * high + by;
    let block = (image * wide + bx) * high + by;
    assert(block == image * area + inner_block) by (nonlinear_arith)
        requires
            block == (image * wide + bx) * high + by,
            area == wide * high,
            inner_block == bx * high + by,
    ;
    array::lemma_pair_bound(bx, wide, by, high);
    array::lemma_pair_bound(image, n, inner_block, area);
    array::lemma_block_position(bx, high, by);
    array::lemma_block_position(image, area, inner_block);
    // The cell within its block.
    let square = f * f;
    let place = ix * f + iy;
    array::lemma_pair_bound(ix, f, iy, f);
    array::lemma_block_position(ix, f, iy);
    let m = block * square + place;
    array::lemma_pair_bound(block, n * area, place, square);
    array::lemma_block_position(block, square, place);
    let total = n * wide * high * square;
    assert(total == n * area * square) by (nonlinear_arith)
        requires
            total == n * wide * high * square,
            area == wide * high,
    ;
    array::lemma_pair_bound(m, total, ch, c);
    array::lemma_block_position(m, c, ch);
    lemma_flat_index(image, n, x, w, y, h, c);
}

proof fn lemma_block_of(x: int, f: int, count: int)
    requires
        0 <= x,
        x < count * f,
        0 < f,
    ensures
        0 <= x / f < count,
        0 <= x % f < f,
        (x / f) * f + x % f == x,
{
    vstd::arithmetic::div_mod::lemma_fundamental_div_mod(x, f);
    let q = x / f;
    assert(f * q == q * f) by (nonlinear_arith);
    assert(0 <= q < count) by (nonlinear_arith)
        requires
            q * f <= x < q * f + f,
            0 <= x < count * f,
            0 < f,
    ;
}

// ---------------------------------------------------------------------------
// The projector
// ---------------------------------------------------------------------------

/// The layers that map folded patches to the width of the language model.
#[derive(Debug)]
pub struct Lfm2VlMultiModalProjector<W> {
    /// The normalisation of the input, where the configuration asks for one.
    pub layer_norm: Option<Norm<W>>,
    /// The layer before the activation.
    pub linear_1: Linear<W>,
    /// The layer after the activation.
    pub linear_2: Linear<W>,
}

/// A layer of the projector and what is left: the configuration says whether it
/// has a bias.
pub open spec fn projection<W>(
    m: Map<Seq<char>, W>,
    has_bias: bool,
    path: Seq<char>,
    scheme: bool,
) -> Result<(Linear<W>, Map<Seq<char>, W>), ErrorModel> {
    match weights::gated(m, "projector_bias", has_bias, path + ".bias"@) {
        Err(e) => Err(e),
        Ok((bias, rest)) => layers::linear(
            rest,
            "lfm2_vl::Lfm2VlMultiModalProjector::from_weights",
            path,
            scheme,
            bias,
        ),
    }
}

/// The normalisation of the projector's input and what is left, where there is to
/// be one.
pub open spec fn input_norm<W>(m: Map<Seq<char>, W>, has_norm: bool) -> Result<
    (Option<Norm<W>>, Map<Seq<char>, W>),
    ErrorModel,
> {
    if has_norm {
        match layers::norm(
            m,
            "lfm2_vl::Lfm2VlMultiModalProjector::from_weights",
            "layer_norm"@,
        ) {
            Err(e) => Err(e),
            Ok((n, rest)) => Ok((Some(n), rest)),
        }
    } else {
        Ok((None, m))
    }
}

/// The projector and what is left of the weights, or the first thing that is
/// missing or in the way.
pub open spec fn projector<W>(
    m: Map<Seq<char>, W>,
    config: ModelConfig,
    schemes: Schemes,
    tower: Seq<char>,
) -> Result<(Lfm2VlMultiModalProjector<W>, Map<Seq<char>, W>), ErrorModel> {
    match input_norm(m, config.projector_use_layernorm) {
        Err(e) => Err(e),
        Ok((layer_norm, m1)) => match projection(
            m1,
            config.projector_bias,
            "linear_1"@,
            schemes.covers(tower + "linear_1"@),
        ) {
            Err(e) => Err(e),
            Ok((linear_1, m2)) => match projection(
                m2,
                config.projector_bias,
                "linear_2"@,
                schemes.covers(tower + "linear_2"@),
            ) {
                Err(e) => Err(e),
                Ok((linear_2, m3)) => Ok(
                    (Lfm2VlMultiModalProjector { layer_norm, linear_1, linear_2 }, m3),
                ),
            },
        },
    }
}

/// The projector of a configuration on which `text` is the verdict on its text
/// tower.
pub open spec fn projector_outcome<W>(
    m: Map<Seq<char>, W>,
    config: ModelConfig,
    text: Option<ErrorModel>,
    schemes: Schemes,
    tower: Seq<char>,
) -> Result<(Lfm2VlMultiModalProjector<W>, Map<Seq<char>, W>), ErrorModel> {
    match config.refused(text) {
        Some(e) => Err(e),
        None => projector(m, config, schemes, tower),
    }
}

fn take_projection<W>(weights: &mut WeightMap<W>, has_bias: bool, path: &str, scheme: bool) -> (r:
    Result<Linear<W>, Error>)
    ensures
        weights::took(
            r,
            old(weights)@,
            final(weights)@,
            projection(old(weights)@, has_bias, path@, scheme),
        ),
{
    let bias: Option<W> = weights.take_if(
        "projector_bias",
        has_bias,
        joined(path, ".bias").as_str(),
    )?;
    take_linear(
        weights,
        "lfm2_vl::Lfm2VlMultiModalProjector::from_weights",
        path,
        scheme,
        bias,
    )
}

impl<W> Lfm2VlMultiModalProjector<W> {
    /// Takes the projector off the weights, whose names have lost the prefix
    /// `tower`; see [`projector_outcome`].
    pub fn from_weights(
        config: &ModelConfig,
        text: Result<(), Error>,
        weights: &mut WeightMap<W>,
        schemes: &Schemes,
        tower: &str,
    ) -> (r: Result<Self, Error>)
        ensures
            weights::took(
                r,
                old(weights)@,
                final(weights)@,
                projector_outcome(
                    old(weights)@,
                    *config,
                    error::verdict(text),
                    *schemes,
                    tower@,
                ),
            ),
    {
        config.validate(text)?;
        let layer_norm: Option<Norm<W>> = if config.projector_use_layernorm {
            Some(
                take_norm(
                    weights,
                    "lfm2_vl::Lfm2VlMultiModalProjector::from_weights",
                    "layer_norm",
                )?,
            )
        } else {
            None
        };
        let linear_1: Linear<W> = take_projection(
            weights,
            config.projector_bias,
            "linear_1",
            schemes.has_scheme(tower, "linear_1"),
        )?;
        let linear_2: Linear<W> = take_projection(
            weights,
            config.projector_bias,
            "linear_2",
            schemes.has_scheme(tower, "linear_2"),
        )?;
        Ok(Lfm2VlMultiModalProjector { layer_norm, linear_1, linear_2 })
    }

    /// Whether the projector is quantized.
    pub fn is_quantized(&self) -> (r: bool)
        ensures
            r == self.linear_1.scales is Some,
    {
        self.linear_1.is_quantized()
    }
}

/// A projector is built with biases exactly where the configuration says so, and
/// with a normalisation likewise; a layer without a scheme is not quantized.
pub proof fn law_the_configuration_gates_the_projector<W>(
    m: Map<Seq<char>, W>,
    config: ModelConfig,
    text: Option<ErrorModel>,
    schemes: Schemes,
    tower: Seq<char>,
)
    requires
        projector_outcome(m, config, text, schemes, tower) is Ok,
    ensures
        ({
            let p = projector_outcome(m, config, text, schemes, tower)->Ok_0.0;
            &&& p.layer_norm is Some <==> config.projector_use_layernorm
            &&& p.linear_1.bias is Some <==> config.projector_bias
            &&& p.linear_2.bias is Some <==> config.projector_bias
            &&& p.linear_1.scales is Some ==> schemes.covers(tower + "linear_1"@)
            &&& p.linear_2.scales is Some ==> schemes.covers(tower + "linear_2"@)
        }),
{
}

// ---------------------------------------------------------------------------
// Merging image features
// ---------------------------------------------------------------------------

/// A product, or the largest `usize` where it does not fit.
pub open spec fn saturated(a: usize, b: usize) -> usize {
    if a * b > usize::MAX {
        usize::MAX
    } else {
        (a * b) as usize
    }
}

/// Multiplies two numbers; see [`saturated`].
pub fn saturating_product(a: usize, b: usize) -> (r: usize)
    ensures
        r == saturated(a, b),
{
    match a.checked_mul(b) {
        Some(n) => n,
        None => usize::MAX,
    }
}

/// Why features of one shape cannot be placed among embeddings of another, if they
/// cannot.
pub open spec fn merge_outcome(
    features: Seq<usize>,
    embeds: Seq<usize>,
    ids: ArrayModel<i32>,
    token: i32,
) -> Result<(), Error> {
    if embeds.len() != 3 {
        Err(
            rank_mismatch(
                "lfm2_vl merge: inputs_embeds must be rank-3 (B, T, D)",
                embeds.len() as usize,
            ),
        )
    } else if ids.shape.len() != 2 {
        Err(
            rank_mismatch(
                "lfm2_vl merge: input_ids must be rank-2 (B, T)",
                ids.shape.len() as usize,
            ),
        )
    } else if features.len() != 2 {
        Err(
            rank_mismatch(
                "lfm2_vl merge: image_features must be rank-2 (N, D)",
                features.len() as usize,
            ),
        )
    } else if ids.shape[0] != embeds[0] || ids.shape[1] != embeds[1] {
        Err(
            length_mismatch(
                "lfm2_vl merge: input_ids (B, T) vs inputs_embeds (B, T) cell count",
                saturated(embeds[0], embeds[1]),
                saturated(ids.shape[0], ids.shape[1]),
            ),
        )
    } else if features[1] != embeds[2] {
        Err(
            length_mismatch(
                "lfm2_vl merge: hidden width D (image_features vs inputs_embeds)",
                embeds[2],
                features[1],
            ),
        )
    } else if processor::placeholders(ids.data, token) != features[0] {
        Err(
            length_mismatch(
                "lfm2_vl merge: masked <image> position count vs image feature rows N (image features and image tokens do not match)",
                features[0],
                processor::placeholders(ids.data, token) as usize,
            ),
        )
    } else {
        Ok(())
    }
}

/// The row of one position: the next feature row at a placeholder, and the
/// embedding anywhere else.
pub open spec fn merged_row<T>(
    features: Seq<T>,
    embeds: Seq<T>,
    ids: Seq<i32>,
    token: i32,
    d: int,
    cell: int,
) -> Seq<T> {
    if ids[cell] == token {
        let k = processor::placeholders(ids.take(cell), token) as int;
        features.subrange(k * d, k * d + d)
    } else {
        embeds.subrange(cell * d, cell * d + d)
    }
}

/// The items of the first `cells` positions.
pub open spec fn merged_items<T>(
    features: Seq<T>,
    embeds: Seq<T>,
    ids: Seq<i32>,
    token: i32,
    d: int,
    cells: int,
) -> Seq<T> {
    Seq::new(
        (cells * d) as nat,
        |i: int| merged_row(features, embeds, ids, token, d, i / d)[i % d],
    )
}

/// The embeddings with the features of images at the placeholders, in order.
pub open spec fn merged<T>(
    features: ArrayModel<T>,
    embeds: ArrayModel<T>,
    ids: ArrayModel<i32>,
    token: i32,
) -> ArrayModel<T> {
    ArrayModel {
        shape: embeds.shape,
        data: merged_items(
            features.data,
            embeds.data,
            ids.data,
            token,
            embeds.shape[2] as int,
            ids.data.len() as int,
        ),
    }
}

/// Checks that features can be placed among embeddings; see [`merge_outcome`].
pub fn check_merge(
    features: &Vec<usize>,
    embeds: &Vec<usize>,
    input_ids: &Array<i32>,
    image_token_index: i32,
) -> (r: Result<(), Error>)
    ensures
        r == merge_outcome(features@, embeds@, input_ids@, image_token_index),
{
    let ids: &Vec<usize> = input_ids.shape();
    if embeds.len() != 3 {
        return Err(
            rank_mismatch(
                "lfm2_vl merge: inputs_embeds must be rank-3 (B, T, D)",
                embeds.len(),
            ),
        );
    }
    if ids.len() != 2 {
        return Err(rank_mismatch("lfm2_vl merge: input_ids must be rank-2 (B, T)", ids.len()));
    }
    if features.len() != 2 {
        return Err(
            rank_mismatch(
                "lfm2_vl merge: image_features must be rank-2 (N, D)",
                features.len(),
            ),
        );
    }
    if ids[0] != embeds[0] || ids[1] != embeds[1] {
        return Err(
            length_mismatch(
                "lfm2_vl merge: input_ids (B, T) vs inputs_embeds (B, T) cell count",
                saturating_product(embeds[0], embeds[1]),
                saturating_product(ids[0], ids[1]),
            ),
        );
    }
    if features[1] != embeds[2] {
        return Err(
            length_mismatch(
                "lfm2_vl merge: hidden width D (image_features vs inputs_embeds)",
                embeds[2],
                features[1],
            ),
        );
    }
    let masked: usize = count_placeholders(input_ids.data().as_slice(), image_token_index);
    if masked != features[0] {
        return Err(
            length_mismatch(
                "lfm2_vl merge: masked <image> position count vs image feature rows N (image features and image tokens do not match)",
                features[0],
                masked,
            ),
        );
    }
    Ok(())
}

/// Appends the merged rows of all positions to an empty buffer.
fn push_merged<T: Copy>(
    features: &[T],
    embeds: &[T],
    ids: &[i32],
    token: i32,
    d: usize,
    buffer: Vec<T>,
) -> (r: Vec<T>)
    requires
        features@.len() == processor::placeholders(ids@, token) * d,
        embeds@.len() == ids@.len() * d,
        buffer@.len() == 0,
    ensures
        r@ == merged_items(features@, embeds@, ids@, token, d as int, ids@.len() as int),
{
    let features_len: usize = features.len();
    let embeds_len: usize = embeds.len();
    let ghost g = |i: int|
        merged_row(features@, embeds@, ids@, token, d as int, i / (d as int))[i % (d as int)];
    let mut out: Vec<T> = buffer;
    let mut k: usize = 0;
    let mut cell: usize = 0;
    assert(out@ =~= Seq::new((0 * d) as nat, g));
    while cell < ids.len()
        invariant
            cell <= ids@.len(),
            features_len == features@.len(),
            embeds_len == embeds@.len(),
            features@.len() == processor::placeholders(ids@, token) * d,
            embeds@.len() == ids@.len() * d,
            k == processor::placeholders(ids@.take(cell as int), token),
            k <= cell,
            g == (|i: int|
                merged_row(features@, embeds@, ids@, token, d as int, i / (d as int))[i % (
                d as int)]),
            out@ == Seq::new((cell * d) as nat, g),
        decreases ids@.len() - cell,
    {
        let ghost before = out@;
        let ghost row = merged_row(features@, embeds@, ids@, token, d as int, cell as int);
        proof {
            assert(ids@.take(cell + 1).drop_last() =~= ids@.take(cell as int));
            processor::lemma_placeholders_prefix(ids@, token, cell + 1);
            assert(0 <= cell * d && cell * d + d <= ids@.len() * d) by (nonlinear_arith)
                requires
                    0 <= cell < ids@.len(),
                    0 <= d,
            ;
        }
        if ids[cell] == token {
            proof {
                let total = processor::placeholders(ids@, token) as int;
                assert(0 <= k * d && k * d + d <= total * d) by (nonlinear_arith)
                    requires
                        0 <= k < total,
                        0 <= d,
                ;
            }
            push_range(&mut out, features, k * d, k * d + d);
            k += 1;
        } else {
            push_range(&mut out, embeds, cell * d, cell * d + d);
        }
        proof {
            assert(out@ =~= before + row);
            assert((cell + 1) * d == cell * d + d) by (nonlinear_arith);
            assert forall|j: int| 0 <= j < d implies row[j] == g(cell * d + j) by {
                array::lemma_block_position(cell as int, d as int, j);
            }
            assert(out@ =~= Seq::new(((cell + 1) * d) as nat, g));
        }
        cell += 1;
    }
    assert(out@ =~= merged_items(
        features@,
        embeds@,
        ids@,
        token,
        d as int,
        ids@.len() as int,
    ));
    out
}

/// Places the rows of `image_features` at the placeholders of a prompt, in order,
/// and keeps the embeddings everywhere else; see [`merge_outcome`] and
/// [`merged`].
///
/// A merge that is not refused can still fail for want of memory, unless there are
/// no embeddings.
pub fn merge_input_ids_with_image_features<T: Copy>(
    image_features: &Array<T>,
    inputs_embeds: &Array<T>,
    input_ids: &Array<i32>,
    image_token_index: i32,
) -> (r: Result<Array<T>, Error>)
    ensures
        match merge_outcome(
            image_features@.shape,
            inputs_embeds@.shape,
            input_ids@,
            image_token_index,
        ) {
            Err(e) => r == Err::<Array<T>, Error>(e),
            Ok(_) => match r {
                Ok(out) => out@ == merged(
                    image_features@,
                    inputs_embeds@,
                    input_ids@,
                    image_token_index,
                ),
                Err(e) => e == (Error::AllocFailure { context: "lfm2_vl merge: embeddings" }),
            },
        },
        inputs_embeds@.data.len() == 0 && merge_outcome(
            image_features@.shape,
            inputs_embeds@.shape,
            input_ids@,
            image_token_index,
        ) is Ok ==> r is Ok,
{
    check_merge(image_features.shape(), inputs_embeds.shape(), input_ids, image_token_index)?;
    let buffer: Vec<T> = reserve_or_error(inputs_embeds.len(), "lfm2_vl merge: embeddings")?;
    Ok(fill_merged(image_features, inputs_embeds, input_ids, image_token_index, buffer))
}

/// Places image features that are admitted in an empty buffer; see [`merged`].
pub fn fill_merged<T: Copy>(
    image_features: &Array<T>,
    inputs_embeds: &Array<T>,
    input_ids: &Array<i32>,
    image_token_index: i32,
    buffer: Vec<T>,
) -> (r: Array<T>)
    requires
        merge_outcome(
            image_features@.shape,
            inputs_embeds@.shape,
            input_ids@,
            image_token_index,
        ) is Ok,
        buffer@.len() == 0,
    ensures
        r@ == merged(image_features@, inputs_embeds@, input_ids@, image_token_index),
{
    let shape: &Vec<usize> = inputs_embeds.shape();
    let (b, t, d): (usize, usize, usize) = (shape[0], shape[1], shape[2]);
    let len: usize = inputs_embeds.len();
    let cells: usize = input_ids.len();
    let feature_items: usize = image_features.len();
    proof {
        assert(shape@ =~= seq![b, t, d]);
        array::lemma_product_3(b, t, d);
        assert(input_ids@.shape =~= seq![b, t]);
        array::lemma_product_2(b, t);
        assert(image_features@.shape =~= seq![image_features@.shape[0], d]);
        array::lemma_product_2(image_features@.shape[0], d);
    }
    let data: Vec<T> = push_merged(
        image_features.data().as_slice(),
        inputs_embeds.data().as_slice(),
        input_ids.data().as_slice(),
        image_token_index,
        d,
        buffer,
    );
    let out_shape: Vec<usize> = vec![b, t, d];
    assert(out_shape@ =~= seq![b, t, d]);
    let r: Array<T> = Array::of(data, out_shape);
    assert(r@ =~= merged(image_features@, inputs_embeds@, input_ids@, image_token_index));
    r
}

/// Positions that hold no placeholder keep their embedding.
pub proof fn law_text_rows_are_kept<T>(
    features: ArrayModel<T>,
    embeds: ArrayModel<T>,
    ids: ArrayModel<i32>,
    token: i32,
    cell: int,
    j: int,
)
    requires
        embeds.shape.len() == 3,
        0 <= cell < ids.data.len(),
        0 <= j < embeds.shape[2],
        ids.data[cell] != token,
        embeds.data.len() == ids.data.len() * embeds.shape[2],
    ensures
        merged(features, embeds, ids, token).data[cell * embeds.shape[2] + j] == embeds.data[cell
            * embeds.shape[2] + j],
{
    let d = embeds.shape[2] as int;
    array::lemma_pair_bound(cell, ids.data.len() as int, j, d);
    array::lemma_block_position(cell, d, j);
    assert(cell * d + d <= ids.data.len() * d) by (nonlinear_arith)
        requires
            cell < ids.data.len(),
            0 < d,
    ;
}

/// The `k`-th placeholder of the prompt gets the `k`-th feature row.
pub proof fn law_feature_rows_are_placed_in_order<T>(
    features: ArrayModel<T>,
    embeds: ArrayModel<T>,
    ids: ArrayModel<i32>,
    token: i32,
    cell: int,
    j: int,
)
    requires
        embeds.shape.len() == 3,
        0 <= cell < ids.data.len(),
        0 <= j < embeds.shape[2],
        ids.data[cell] == token,
        features.data.len() == processor::placeholders(ids.data, token) * embeds.shape[2],
    ensures
        ({
            let d = embeds.shape[2] as int;
            let k = processor::placeholders(ids.data.take(cell), token);
            merged(features, embeds, ids, token).data[cell * d + j] == features.data[k * d + j]
        }),
{
    let d = embeds.shape[2] as int;
    let k = processor::placeholders(ids.data.take(cell), token) as int;
    array::lemma_pair_bound(cell, ids.data.len() as int, j, d);
    array::lemma_block_position(cell, d, j);
    assert(ids.data.take(cell + 1).drop_last() =~= ids.data.take(cell));
    processor::lemma_placeholders_prefix(ids.data, token, cell + 1);
    let total = processor::placeholders(ids.data, token) as int;
    assert(0 <= k * d && k * d + d <= total * d) by (nonlinear_arith)
        requires
            0 <= k < total,
            0 < d,
    ;
}

/// A prompt without placeholders keeps all of its embeddings.
pub proof fn law_prompts_without_images_are_unchanged<T>(
    features: ArrayModel<T>,
    embeds: ArrayModel<T>,
    ids: ArrayModel<i32>,
    token: i32,
)
    requires
        embeds.shape.len() == 3,
        embeds.data.len() == ids.data.len() * embeds.shape[2],
        processor::placeholders(ids.data, token) == 0,
    ensures
        merged(features, embeds, ids, token) == embeds,
{
    let d = embeds.shape[2] as int;
    let out = merged(features, embeds, ids, token);
    assert forall|i: int| 0 <= i < embeds.data.len() implies out.data[i] == embeds.data[i] by {
        array::lemma_cell(i, ids.data.len() as int, d, 1);
        let cell = i / d;
        let j = i % d;
        vstd::arithmetic::div_mod::lemma_fundamental_div_mod(i, d);
        assert(d * cell == cell * d) by (nonlinear_arith);
        assert(ids.data.take(cell + 1).drop_last() =~= ids.data.take(cell));
        processor::lemma_placeholders_prefix(ids.data, token, cell + 1);
        law_text_rows_are_kept(features, embeds, ids, token, cell, j);
    }
    assert(out.data =~= embeds.data);
    assert(out =~= embeds);
}


/// A projector is built of the weights of its own names, and only of those: its
/// normalisation where the configuration has one, and its two layers, with biases
/// exactly where the configuration has them.
pub proof fn law_the_projector_holds_the_weights_of_its_names<W>(
    m: Map<Seq<char>, W>,
    config: ModelConfig,
    text: Option<ErrorModel>,
    schemes: Schemes,
    tower: Seq<char>,
)
    requires
        config.refused(text) is None,
    ensures
        projector_outcome(m, config, text, schemes, tower) is Ok <==> {
            &&& config.projector_use_layernorm ==> m.contains_key("layer_norm"@ + ".weight"@)
                && m.contains_key("layer_norm"@ + ".bias"@)
            &&& m.contains_key("linear_1"@ + ".weight"@)
            &&& m.contains_key("linear_2"@ + ".weight"@)
            &&& m.contains_key("linear_1"@ + ".bias"@) <==> config.projector_bias
            &&& m.contains_key("linear_2"@ + ".bias"@) <==> config.projector_bias
        },
        projector_outcome(m, config, text, schemes, tower) matches Ok((p, rest)) ==> {
            &&& config.projector_use_layernorm ==> (p.layer_norm matches Some(n)
                && layers::holds_norm(n, m, "layer_norm"@))
            &&& !config.projector_use_layernorm ==> p.layer_norm is None
            &&& layers::holds_linear(
                p.linear_1,
                m,
                "linear_1"@,
                schemes.covers(tower + "linear_1"@),
            )
            &&& layers::holds_linear(
                p.linear_2,
                m,
                "linear_2"@,
                schemes.covers(tower + "linear_2"@),
            )
        },
{
    reveal_strlit("layer_norm");
    reveal_strlit("linear_1");
    reveal_strlit("linear_2");
    let ln = "layer_norm"@;
    let l1 = "linear_1"@;
    let l2 = "linear_2"@;
    assert(ln[1] == 'a' && l1[1] == 'i' && l2[1] == 'i' && l1[7] == '1' && l2[7] == '2');
    let context = "lfm2_vl::Lfm2VlMultiModalProjector::from_weights";
    layers::law_a_norm_is_the_weights_of_its_path(m, context, ln);
    if let Ok((layer_norm, m1)) = input_norm(m, config.projector_use_layernorm) {
        if config.projector_use_layernorm {
            layers::lemma_only_under_is_inside(m, m1, ln, ln);
            layers::lemma_agree_apart(m, m1, ln, l1, 1);
            layers::lemma_agree_apart(m, m1, ln, l2, 1);
        }
        assert(layers::agree_under(m, m1, l1));
        assert(layers::agree_under(m, m1, l2));
        let s1 = schemes.covers(tower + l1);
        lemma_projection(m1, config.projector_bias, l1, s1);
        if let Ok((linear_1, m2)) = projection(m1, config.projector_bias, l1, s1) {
            layers::lemma_agree_apart(m1, m2, l1, l2, 7);
            lemma_projection(m2, config.projector_bias, l2, schemes.covers(tower + l2));
        }
    }
}

proof fn lemma_projection<W>(m: Map<Seq<char>, W>, has_bias: bool, path: Seq<char>, scheme: bool)
    ensures
        projection(m, has_bias, path, scheme) is Ok <==> m.contains_key(path + ".weight"@) && (
        m.contains_key(path + ".bias"@) <==> has_bias),
        projection(m, has_bias, path, scheme) matches Ok((l, rest)) ==> {
            &&& layers::holds_linear(l, m, path, scheme)
            &&& layers::agree_outside(m, rest, path)
        },
{
    let bias_key = path + ".bias"@;
    layers::lemma_endings_differ(path);
    if let Ok((bias, m1)) = weights::gated(m, "projector_bias", has_bias, bias_key) {
        let context = "lfm2_vl::Lfm2VlMultiModalProjector::from_weights";
        layers::law_a_linear_layer_keeps_the_given_bias(m1, context, path, scheme, bias);
        assert(layers::agree_on(m, m1, path + ".weight"@));
        assert(layers::agree_on(m, m1, path + ".scales"@));
        assert(layers::agree_on(m, m1, path + ".biases"@));
        if let Ok((l, rest)) = layers::linear(m1, context, path, scheme, bias) {
            assert(layers::only_under(m, rest, path)) by {
                assert forall|key: Seq<char>|
                    #![trigger rest.contains_key(key)]
                    #![trigger m.contains_key(key)]
                    key != path + ".weight"@ && key != bias_key && key != path + ".scales"@ && key
                        != path + ".biases"@ implies layers::agree_on(m, rest, key) by {
                    assert(m1.contains_key(key) || !m1.contains_key(key));
                }
            }
            layers::lemma_only_under_is_inside(m, rest, path, path);
        }
    }
}


/// Folding a grid of `(N, W, H, C)` gives a grid of `ceil(W / f)` by `ceil(H / f)` cells of
/// `C * f * f` channels. The channels of cell `(i, j)` of the folded grid are those of the
/// `f` by `f` cells from `(i * f, j * f)` on, row by row, with zeros for the cells that
/// the grid does not have.
pub proof fn law_folded_cells_hold_their_square<T>(
    grid: ArrayModel<T>,
    factor: i32,
    zero: T,
    image: int,
    i: int,
    j: int,
    dx: int,
    dy: int,
    ch: int,
)
    requires
        factor > 0,
        grid.shape.len() == 4,
        grid.data.len() == grid.shape[0] * grid.shape[1] * grid.shape[2] * grid.shape[3],
        0 <= image < grid.shape[0],
        0 <= i < (grid.shape[1] + factor - 1) / (factor as int),
        0 <= j < (grid.shape[2] + factor - 1) / (factor as int),
        0 <= dx < factor,
        0 <= dy < factor,
        0 <= ch < grid.shape[3],
    ensures
        ({
            let f = factor as int;
            let w = grid.shape[1] as int;
            let h = grid.shape[2] as int;
            let c = grid.shape[3] as int;
            let wide = (w + f - 1) / f;
            let high = (h + f - 1) / f;
            let x = i * f + dx;
            let y = j * f + dy;
            let channel = (dx * f + dy) * c + ch;
            let index = ((image * wide + i) * high + j) * (c * f * f) + channel;
            let r = folded(grid, factor, zero);
            &&& 0 <= channel < c * f * f
            &&& 0 <= index < r.data.len()
            &&& r.shape =~= seq![grid.shape[0], wide as usize, high as usize, (c * f * f) as usize]
            &&& r.data.len() == grid.shape[0] * wide * high * (c * f * f)
            &&& r.data[index] == if x < w && y < h {
                grid.data[((image * w + x) * h + y) * c + ch]
            } else {
                zero
            }
        }),
{
    let f = factor as int;
    let n = grid.shape[0] as int;
    let w = grid.shape[1] as int;
    let h = grid.shape[2] as int;
    let c = grid.shape[3] as int;
    let wide = (w + f - 1) / f;
    let high = (h + f - 1) / f;
    processor::lemma_blocks_round_up(w, f);
    processor::lemma_blocks_round_up(h, f);
    let x = i * f + dx;
    let y = j * f + dy;
    let area = wide * high;
    let inner_block = i * high + j;
    let block = (image * wide + i) * high + j;
    assert(block == image * area + inner_block) by (nonlinear_arith)
        requires
            block == (image * wide + i) * high + j,
            area == wide * high,
            inner_block == i * high + j,
    ;
    array::lemma_pair_bound(i, wide, j, high);
    array::lemma_pair_bound(image, n, inner_block, area);
    array::lemma_block_position(i, high, j);
    array::lemma_block_position(image, area, inner_block);
    let square = f * f;
    let place = dx * f + dy;
    array::lemma_pair_bound(dx, f, dy, f);
    array::lemma_block_position(dx, f, dy);
    let m = block * square + place;
    array::lemma_pair_bound(block, n * area, place, square);
    array::lemma_block_position(block, square, place);
    let total = n * wide * high * square;
    assert(total == n * area * square && total * c == n * wide * high * (c * f * f))
        by (nonlinear_arith)
        requires
            total == n * wide * high * square,
            area == wide * high,
            square == f * f,
    ;
    array::lemma_pair_bound(m, total, ch, c);
    array::lemma_block_position(m, c, ch);
    let channel = place * c + ch;
    array::lemma_pair_bound(place, square, ch, c);
    assert(square * c == c * f * f && m * c + ch == block * (c * f * f) + channel)
        by (nonlinear_arith)
        requires
            square == f * f,
            m == block * square + place,
            channel == place * c + ch,
    ;
    if x < w && y < h {
        assert(0 <= x && 0 <= y) by (nonlinear_arith)
            requires
                x == i * f + dx,
                y == j * f + dy,
                0 <= i,
                0 <= j,
                0 < f,
                0 <= dx,
                0 <= dy,
        ;
        lemma_flat_index(image, n, x, w, y, h, c);
    }
}

/// A grid of four axes is folded where its extents, the extents rounded up, the channels
/// of a folded cell and the items of the folded grid fit; what comes back is the shape of
/// the folded grid.
pub proof fn law_grids_of_four_axes_are_folded(shape: Seq<usize>, factor: i32)
    requires
        factor > 0,
    ensures
        ({
            let f = factor as int;
            let wide = (shape[1] + f - 1) / f;
            let high = (shape[2] + f - 1) / f;
            &&& fold_outcome(shape, factor) is Ok <==> {
                &&& shape.len() == 4
                &&& shape[0] <= i32::MAX
                &&& shape[1] <= i32::MAX
                &&& shape[2] <= i32::MAX
                &&& shape[3] <= i32::MAX
                &&& wide * f <= i32::MAX
                &&& high * f <= i32::MAX
                &&& shape[3] * f <= i32::MAX
                &&& shape[3] * f * f <= i32::MAX
                &&& shape[0] * wide * high * (shape[3] * f * f) <= usize::MAX
            }
            &&& fold_outcome(shape, factor) matches Ok(fold) ==> {
                &&& fold.wide == wide
                &&& fold.high == high
                &&& fold.channels == shape[3] * f * f
                &&& fold.items == shape[0] * wide * high * (shape[3] * f * f)
            }
        }),
{
    let f = factor as int;
    if shape.len() == 4 {
        processor::lemma_blocks_round_up(shape[1] as int, f);
        processor::lemma_blocks_round_up(shape[2] as int, f);
        let wide = (shape[1] + f - 1) / f;
        let high = (shape[2] + f - 1) / f;
        let c = shape[3] as int;
        assert(0 <= wide <= wide * f && 0 <= high <= high * f && 0 <= c * f && 0 <= c * f * f)
            by (nonlinear_arith)
            requires
                0 < f,
                0 <= c,
                0 <= wide * f,
                0 <= high * f,
        ;
        let n = shape[0] as int;
        assert(0 <= n * wide * high * (c * f * f)) by (nonlinear_arith)
            requires
                0 <= n,
                0 <= wide,
                0 <= high,
                0 <= c * f * f,
        ;
    }
}

/// The rows of the merged embeddings: at a placeholder with `k` others before it stands
/// the `k`-th feature row, and anywhere else the embedding.
pub proof fn law_merging_replaces_the_placeholders<T>(
    features: ArrayModel<T>,
    embeds: ArrayModel<T>,
    ids: ArrayModel<i32>,
    token: i32,
    cell: int,
    j: int,
)
    requires
        embeds.shape.len() == 3,
        0 <= cell < ids.data.len(),
        0 <= j < embeds.shape[2],
        embeds.data.len() == ids.data.len() * embeds.shape[2],
        features.data.len() == ids.data.to_multiset().count(token) * embeds.shape[2],
    ensures
        ({
            let d = embeds.shape[2] as int;
            let k = ids.data.take(cell).to_multiset().count(token);
            let r = merged(features, embeds, ids, token);
            &&& r.shape == embeds.shape
            &&& r.data.len() == embeds.data.len()
            &&& r.data[cell * d + j] == if ids.data[cell] == token {
                features.data[k * d + j]
            } else {
                embeds.data[cell * d + j]
            }
        }),
{
    processor::law_placeholders_are_counted(ids.data, token);
    processor::law_placeholders_are_counted(ids.data.take(cell), token);
    if ids.data[cell] == token {
        law_feature_rows_are_placed_in_order(features, embeds, ids, token, cell, j);
    } else {
        law_text_rows_are_kept(features, embeds, ids, token, cell, j);
    }
    assert(merged(features, embeds, ids, token).data.len() == embeds.data.len()) by {
        let d = embeds.shape[2] as int;
        assert(0 <= ids.data.len() * d) by (nonlinear_arith)
            requires
                0 <= d,
        ;
    }
}

/// Features are merged where the embeddings have three axes, the ids have the first two of
/// them, and the features are as many rows as there are placeholders, each as wide as an
/// embedding.
pub proof fn law_features_are_merged_where_they_match(
    features: Seq<usize>,
    embeds: Seq<usize>,
    ids: ArrayModel<i32>,
    token: i32,
)
    ensures
        merge_outcome(features, embeds, ids, token) is Ok <==> {
            &&& embeds.len() == 3
            &&& ids.shape.len() == 2
            &&& features.len() == 2
            &&& ids.shape[0] == embeds[0]
            &&& ids.shape[1] == embeds[1]
            &&& features[1] == embeds[2]
            &&& features[0] == ids.data.to_multiset().count(token)
        },
{
    processor::law_placeholders_are_counted(ids.data, token);
}


/// A product that does not fit is the largest number that does.
pub proof fn law_products_are_held_at_the_largest_number(a: usize, b: usize)
    ensures
        a * b <= usize::MAX ==> saturated(a, b) == a * b,
        a * b > usize::MAX ==> saturated(a, b) == usize::MAX,
{
}


/// A projector takes the weights of its own names only: every other weight is left.
pub proof fn law_the_projector_leaves_other_names<W>(
    m: Map<Seq<char>, W>,
    config: ModelConfig,
    text: Option<ErrorModel>,
    schemes: Schemes,
    tower: Seq<char>,
    key: Seq<char>,
)
    requires
        projector_outcome(m, config, text, schemes, tower) is Ok,
        !layers::is_slot("layer_norm"@, key),
        !layers::is_slot("linear_1"@, key),
        !layers::is_slot("linear_2"@, key),
    ensures
        ({
            let rest = projector_outcome(m, config, text, schemes, tower)->Ok_0.1;
            &&& rest.contains_key(key) <==> m.contains_key(key)
            &&& m.contains_key(key) ==> rest[key] == m[key]
        }),
{
    let context = "lfm2_vl::Lfm2VlMultiModalProjector::from_weights";
    let has = config.projector_bias;
    layers::law_a_norm_is_the_weights_of_its_path(m, context, "layer_norm"@);
    let m1 = input_norm(m, config.projector_use_layernorm)->Ok_0.1;
    assert(m1.contains_key(key) || !m1.contains_key(key));
    assert(layers::agree_on(m, m1, key));
    let s1 = schemes.covers(tower + "linear_1"@);
    let b1 = weights::gated(m1, "projector_bias", has, "linear_1"@ + ".bias"@)->Ok_0;
    layers::law_a_linear_layer_keeps_the_given_bias(b1.1, context, "linear_1"@, s1, b1.0);
    let m2 = projection(m1, has, "linear_1"@, s1)->Ok_0.1;
    assert(m2.contains_key(key) || !m2.contains_key(key));
    assert(layers::agree_on(b1.1, m2, key));
    let s2 = schemes.covers(tower + "linear_2"@);
    let b2 = weights::gated(m2, "projector_bias", has, "linear_2"@ + ".bias"@)->Ok_0;
    layers::law_a_linear_layer_keeps_the_given_bias(b2.1, context, "linear_2"@, s2, b2.0);
    let m3 = projection(m2, has, "linear_2"@, s2)->Ok_0.1;
    assert(m3.contains_key(key) || !m3.contains_key(key));
    assert(layers::agree_on(b2.1, m3, key));
}


/// Features are refused for their number of axes, or else for lengths that disagree.
pub proof fn law_refused_features_say_what_is_wrong(
    features: Seq<usize>,
    embeds: Seq<usize>,
    ids: ArrayModel<i32>,
    token: i32,
)
    ensures
        merge_outcome(features, embeds, ids, token) matches Err(e) ==> {
            &&& e is RankMismatch <==> embeds.len() != 3 || ids.shape.len() != 2 || features.len()
                != 2
            &&& e is LengthMismatch <==> embeds.len() == 3 && ids.shape.len() == 2 && features.len()
                == 2
        },
{
}

/// A grid is refused for its number of axes, for an extent out of range, or for a product
/// that does not fit.
pub proof fn law_refused_folds_say_what_is_wrong(shape: Seq<usize>, factor: i32)
    ensures
        fold_outcome(shape, factor) matches Err(e) ==> {
            &&& e is RankMismatch <==> shape.len() != 4
            &&& shape.len() == 4 && (shape[0] > i32::MAX || shape[1] > i32::MAX || shape[2]
                > i32::MAX || shape[3] > i32::MAX) <==> e is OutOfRange
            &&& e is RankMismatch || e is OutOfRange || e is ArithmeticOverflow
        },
{
}

} // verus!
