//! Images at their own resolution: the patch grid of an image within a budget,
//! and the resize of an RGB image.

use vstd::prelude::*;

use crate::buffer::{push_range, reserve_or_error};
use crate::error::{self, length_mismatch, out_of_range, Error};
use crate::model_validation::require_positive_u32;
use crate::vlm::resize::{self, check_resize, resize_rgba8, Kernel};

verus! {

// ---------------------------------------------------------------------------
// The patch grid
// ---------------------------------------------------------------------------

/// The number of blocks of length `block` that cover `length`.
pub open spec fn covering(length: int, block: int) -> int {
    (length + block - 1) / block
}

/// The patch grid of an image that is scaled by `num / den`, each of its sides
/// rounded up to a multiple of the patch size.
pub open spec fn grid_at(height: u32, width: u32, patch_size: u32, num: int, den: int) -> (
    int,
    int,
) {
    (covering(height * num, den * patch_size), covering(width * num, den * patch_size))
}

/// Whether `grid` is the patch grid of the largest scale whose grid has at most
/// `max_num_patches` patches: some scale has it, and no scale within the budget
/// has a larger one.
pub open spec fn is_largest_grid(
    height: u32,
    width: u32,
    patch_size: u32,
    max_num_patches: u32,
    grid: (u32, u32),
) -> bool {
    &&& grid.0 * grid.1 <= max_num_patches
    &&& exists|num: int, den: int|
        0 < num && 0 < den && #[trigger] grid_at(height, width, patch_size, num, den) == (
            grid.0 as int,
            grid.1 as int,
        )
    &&& forall|num: int, den: int|
        #![trigger grid_at(height, width, patch_size, num, den)]
        {
            let g = grid_at(height, width, patch_size, num, den);
            0 < num && 0 < den && g.0 * g.1 <= max_num_patches ==> g.0 <= grid.0 && g.1 <= grid.1
        }
}

proof fn lemma_covering(length: int, block: int)
    requires
        0 < length,
        0 < block,
    ensures
        0 < covering(length, block),
        (covering(length, block) - 1) * block < length <= covering(length, block) * block,
{
    let n = length + block - 1;
    vstd::arithmetic::div_mod::lemma_fundamental_div_mod(n, block);
    let q = n / block;
    let r = n % block;
    assert((q - 1) * block == q * block - block) by (nonlinear_arith);
    assert(block * q == q * block) by (nonlinear_arith);
    assert(q > 0) by (nonlinear_arith)
        requires
            q * block + r == n,
            n >= block,
            r < block,
            block > 0,
    ;
}

proof fn lemma_covering_is(length: int, block: int, q: int)
    requires
        0 < block,
        (q - 1) * block < length <= q * block,
    ensures
        covering(length, block) == q,
{
    let n = length + block - 1;
    assert((q - 1) * block == q * block - block) by (nonlinear_arith);
    vstd::arithmetic::div_mod::lemma_fundamental_div_mod_converse(n, block, q, n - q * block);
}

/// Whether a grid lies on the diagonal of an image: its sides are in the
/// proportion of the image, to within the patch that each side is rounded up by.
spec fn on_diagonal(h: int, w: int, rows: int, cols: int) -> bool {
    &&& 0 < rows
    &&& 0 < cols
    &&& (rows - 1) * w < cols * h
    &&& (cols - 1) * h < rows * w
}

proof fn lemma_scaled_grids_are_diagonal(
    height: u32,
    width: u32,
    patch_size: u32,
    num: int,
    den: int,
)
    requires
        0 < height,
        0 < width,
        0 < patch_size,
        0 < num,
        0 < den,
    ensures
        ({
            let g = grid_at(height, width, patch_size, num, den);
            on_diagonal(height as int, width as int, g.0, g.1)
        }),
{
    let h = height as int;
    let w = width as int;
    let d = den * patch_size;
    assert(0 < d) by (nonlinear_arith)
        requires
            d == den * patch_size,
            0 < den,
            0 < patch_size,
    ;
    assert(0 < h * num && 0 < w * num) by (nonlinear_arith)
        requires
            0 < h,
            0 < w,
            0 < num,
    ;
    lemma_covering(h * num, d);
    lemma_covering(w * num, d);
    let rows = covering(h * num, d);
    let cols = covering(w * num, d);
    lemma_cross(h, w, num, d, rows, cols);
    lemma_cross(w, h, num, d, cols, rows);
}

proof fn lemma_cross(a: int, b: int, num: int, d: int, m: int, n: int)
    requires
        0 < a,
        0 < b,
        0 < d,
        (m - 1) * d < a * num,
        b * num <= n * d,
    ensures
        (m - 1) * b < n * a,
{
    assert(((m - 1) * b) * d < (n * a) * d) by (nonlinear_arith)
        requires
            0 < a,
            0 < b,
            0 < d,
            (m - 1) * d < a * num,
            b * num <= n * d,
    {
        assert(((m - 1) * d) * b < (a * num) * b) by (nonlinear_arith)
            requires
                (m - 1) * d < a * num,
                0 < b,
        ;
        assert((b * num) * a <= (n * d) * a) by (nonlinear_arith)
            requires
                b * num <= n * d,
                0 < a,
        ;
        assert((a * num) * b == (b * num) * a) by (nonlinear_arith);
        assert(((m - 1) * b) * d == ((m - 1) * d) * b) by (nonlinear_arith);
        assert((n * a) * d == (n * d) * a) by (nonlinear_arith);
    }
    assert((m - 1) * b < n * a) by (nonlinear_arith)
        requires
            ((m - 1) * b) * d < (n * a) * d,
            0 < d,
    ;
}

proof fn lemma_diagonal_grids_are_reached(
    height: u32,
    width: u32,
    patch_size: u32,
    rows: int,
    cols: int,
)
    requires
        0 < height,
        0 < width,
        0 < patch_size,
        on_diagonal(height as int, width as int, rows, cols),
    ensures
        exists|num: int, den: int|
            0 < num && 0 < den && #[trigger] grid_at(height, width, patch_size, num, den) == (
                rows,
                cols,
            ),
{
    let h = height as int;
    let w = width as int;
    let p = patch_size as int;
    if rows * w <= cols * h {
        lemma_scale_of_axis(h, w, p, rows, cols);
        assert(grid_at(height, width, patch_size, rows * p, h) == (rows, cols));
        assert(0 < rows * p) by (nonlinear_arith)
            requires
                0 < rows,
                0 < p,
        ;
    } else {
        lemma_scale_of_axis(w, h, p, cols, rows);
        assert(grid_at(height, width, patch_size, cols * p, w) == (rows, cols));
        assert(0 < cols * p) by (nonlinear_arith)
            requires
                0 < cols,
                0 < p,
        ;
    }
}

/// The scale at which axis `a` is exactly `m` patches long makes axis `b` `n`
/// patches long.
proof fn lemma_scale_of_axis(a: int, b: int, p: int, m: int, n: int)
    requires
        0 < a,
        0 < b,
        0 < p,
        0 < m,
        m * b <= n * a,
        (n - 1) * a < m * b,
    ensures
        covering(a * (m * p), a * p) == m,
        covering(b * (m * p), a * p) == n,
{
    let d = a * p;
    assert(0 < d) by (nonlinear_arith)
        requires
            d == a * p,
            0 < a,
            0 < p,
    ;
    assert(a * (m * p) == m * d) by (nonlinear_arith)
        requires
            d == a * p,
    ;
    assert((m - 1) * d == m * d - d) by (nonlinear_arith);
    lemma_covering_is(a * (m * p), d, m);
    assert(b * (m * p) == (m * b) * p) by (nonlinear_arith);
    assert((m * b) * p <= (n * a) * p) by (nonlinear_arith)
        requires
            m * b <= n * a,
            0 < p,
    ;
    assert(((n - 1) * a) * p < (m * b) * p) by (nonlinear_arith)
        requires
            (n - 1) * a < m * b,
            0 < p,
    ;
    assert((n * a) * p == n * d) by (nonlinear_arith)
        requires
            d == a * p,
    ;
    assert(((n - 1) * a) * p == (n - 1) * d) by (nonlinear_arith)
        requires
            d == a * p,
    ;
    lemma_covering_is(b * (m * p), d, n);
}

/// The grids on the diagonal are ordered: one that is not within `(rows, cols)`
/// is at least the next one.
proof fn lemma_next_on_diagonal(
    h: int,
    w: int,
    rows: int,
    cols: int,
    next_rows: int,
    next_cols: int,
    m: int,
    n: int,
)
    requires
        0 < h,
        0 < w,
        on_diagonal(h, w, rows, cols),
        next_rows == (if rows * w <= cols * h {
            rows + 1
        } else {
            rows
        }),
        next_cols == (if cols * h <= rows * w {
            cols + 1
        } else {
            cols
        }),
        on_diagonal(h, w, m, n),
        !(m <= rows && n <= cols),
    ensures
        next_rows <= m,
        next_cols <= n,
{
    if m > rows {
        assert(rows * w <= (m - 1) * w) by (nonlinear_arith)
            requires
                rows <= m - 1,
                0 < w,
        ;
        if n < cols {
            assert(n * h <= (cols - 1) * h) by (nonlinear_arith)
                requires
                    n <= cols - 1,
                    0 < h,
            ;
        }
        if cols * h <= rows * w {
            assert(cols < n) by (nonlinear_arith)
                requires
                    cols * h < n * h,
                    0 < h,
            ;
        }
    } else {
        assert(cols * h <= (n - 1) * h) by (nonlinear_arith)
            requires
                cols <= n - 1,
                0 < h,
        ;
        if m < rows {
            assert(m * w <= (rows - 1) * w) by (nonlinear_arith)
                requires
                    m <= rows - 1,
                    0 < w,
            ;
        }
        if rows * w <= cols * h {
            assert(rows < m) by (nonlinear_arith)
                requires
                    rows * w < m * w,
                    0 < w,
            ;
        }
    }
}

/// The patch grid of an image within a patch budget: that of the largest scale
/// whose sides, rounded up to multiples of the patch size, keep the grid within
/// `max_num_patches`.
pub fn patch_grid(height: u32, width: u32, patch_size: u32, max_num_patches: u32) -> (r: (u32, u32))
    requires
        0 < height,
        0 < width,
        0 < patch_size,
        0 < max_num_patches,
    ensures
        is_largest_grid(height, width, patch_size, max_num_patches, r),
        0 < r.0,
        0 < r.1,
{
    let ghost h = height as int;
    let ghost w = width as int;
    let mut rows: u32 = 1;
    let mut cols: u32 = 1;
    loop
        invariant
            0 < height,
            0 < width,
            0 < patch_size,
            h == height,
            w == width,
            on_diagonal(h, w, rows as int, cols as int),
            rows * cols <= max_num_patches,
            rows <= max_num_patches,
            cols <= max_num_patches,
        ensures
            on_diagonal(h, w, rows as int, cols as int),
            rows * cols <= max_num_patches,
            forall|m: int, n: int|
                #![trigger on_diagonal(h, w, m, n)]
                on_diagonal(h, w, m, n) && m * n <= max_num_patches ==> m <= rows && n <= cols,
        decreases 2 * max_num_patches - rows - cols,
    {
        assert(rows * width <= u64::MAX && cols * height <= u64::MAX) by (nonlinear_arith)
            requires
                rows <= u32::MAX,
                cols <= u32::MAX,
                width <= u32::MAX,
                height <= u32::MAX,
        ;
        let row_end: u64 = rows as u64 * width as u64;
        let col_end: u64 = cols as u64 * height as u64;
        let next_rows: u64 = if row_end <= col_end {
            rows as u64 + 1
        } else {
            rows as u64
        };
        let next_cols: u64 = if col_end <= row_end {
            cols as u64 + 1
        } else {
            cols as u64
        };
        assert(next_rows * next_cols <= rows * cols + rows + cols + 1) by (nonlinear_arith)
            requires
                next_rows <= rows + 1,
                next_cols <= cols + 1,
                0 <= next_rows,
                0 <= next_cols,
                0 <= rows,
                0 <= cols,
        ;
        if next_rows * next_cols > max_num_patches as u64 {
            proof {
                assert forall|m: int, n: int|
                    #![trigger on_diagonal(h, w, m, n)]
                    on_diagonal(h, w, m, n) && m * n <= max_num_patches implies m <= rows && n
                    <= cols by {
                    if !(m <= rows && n <= cols) {
                        lemma_next_on_diagonal(
                            h,
                            w,
                            rows as int,
                            cols as int,
                            next_rows as int,
                            next_cols as int,
                            m,
                            n,
                        );
                        assert(next_rows * next_cols <= m * n) by (nonlinear_arith)
                            requires
                                0 <= next_rows <= m,
                                0 <= next_cols <= n,
                        ;
                    }
                }
            }
            break;
        }
        proof {
            assert(next_rows <= next_rows * next_cols) by (nonlinear_arith)
                requires
                    0 <= next_rows,
                    1 <= next_cols,
            ;
            assert(next_cols <= next_rows * next_cols) by (nonlinear_arith)
                requires
                    0 <= next_cols,
                    1 <= next_rows,
            ;
            lemma_step_stays_on_diagonal(
                h,
                w,
                rows as int,
                cols as int,
                next_rows as int,
                next_cols as int,
            );
        }
        rows = next_rows as u32;
        cols = next_cols as u32;
    }
    proof {
        lemma_diagonal_grids_are_reached(height, width, patch_size, rows as int, cols as int);
        assert forall|num: int, den: int|
            #![trigger grid_at(height, width, patch_size, num, den)]
            {
                let g = grid_at(height, width, patch_size, num, den);
                0 < num && 0 < den && g.0 * g.1 <= max_num_patches ==> g.0 <= rows && g.1 <= cols
            } by {
            if 0 < num && 0 < den {
                lemma_scaled_grids_are_diagonal(height, width, patch_size, num, den);
                let g = grid_at(height, width, patch_size, num, den);
                assert(on_diagonal(h, w, g.0, g.1));
            }
        }
    }
    (rows, cols)
}

proof fn lemma_step_stays_on_diagonal(
    h: int,
    w: int,
    rows: int,
    cols: int,
    next_rows: int,
    next_cols: int,
)
    requires
        0 < h,
        0 < w,
        on_diagonal(h, w, rows, cols),
        next_rows == (if rows * w <= cols * h {
            rows + 1
        } else {
            rows
        }),
        next_cols == (if cols * h <= rows * w {
            cols + 1
        } else {
            cols
        }),
    ensures
        on_diagonal(h, w, next_rows, next_cols),
{
    assert((cols + 1) * h == cols * h + h) by (nonlinear_arith);
    assert((rows + 1) * w == rows * w + w) by (nonlinear_arith);
    assert((rows + 1 - 1) * w == rows * w);
    assert((cols + 1 - 1) * h == cols * h);
}

/// An image has one largest grid.
pub proof fn law_the_largest_grid_is_unique(
    height: u32,
    width: u32,
    patch_size: u32,
    max_num_patches: u32,
    one: (u32, u32),
    other: (u32, u32),
)
    requires
        is_largest_grid(height, width, patch_size, max_num_patches, one),
        is_largest_grid(height, width, patch_size, max_num_patches, other),
    ensures
        one == other,
{
}

/// A grid within the budget, for an image and its transpose, is the grid and its
/// transpose.
pub proof fn law_transposed_images_have_transposed_grids(
    height: u32,
    width: u32,
    patch_size: u32,
    max_num_patches: u32,
    grid: (u32, u32),
    transposed: (u32, u32),
)
    requires
        is_largest_grid(height, width, patch_size, max_num_patches, grid),
        is_largest_grid(width, height, patch_size, max_num_patches, transposed),
    ensures
        transposed == (grid.1, grid.0),
{
    let (num, den) = choose|num: int, den: int|
        0 < num && 0 < den && #[trigger] grid_at(height, width, patch_size, num, den) == (
            grid.0 as int,
            grid.1 as int,
        );
    let a = grid_at(width, height, patch_size, num, den);
    assert(a == (grid.1 as int, grid.0 as int));
    assert(a.0 * a.1 == grid.0 * grid.1) by (nonlinear_arith)
        requires
            a.0 == grid.1,
            a.1 == grid.0,
    ;
    let (num2, den2) = choose|num: int, den: int|
        0 < num && 0 < den && #[trigger] grid_at(width, height, patch_size, num, den) == (
            transposed.0 as int,
            transposed.1 as int,
        );
    let b = grid_at(height, width, patch_size, num2, den2);
    assert(b == (transposed.1 as int, transposed.0 as int));
    assert(b.0 * b.1 == transposed.0 * transposed.1) by (nonlinear_arith)
        requires
            b.0 == transposed.1,
            b.1 == transposed.0,
    ;
}

// ---------------------------------------------------------------------------
// RGB images
// ---------------------------------------------------------------------------

/// Holds interleaved RGB bytes as an image, and gives them back.
///
/// Calls `image::RgbImage::from_raw` and `image::RgbImage::into_raw`. The contract
/// says that an image with pixels is made exactly where the bytes are enough for its
/// width and height, and that it then holds the bytes as they were given. An image
/// without pixels is left out: one with a side that is too long to be counted in
/// bytes is not made, though it would need none.
#[verifier::external_body]
fn rgb_image_bytes(width: u32, height: u32, bytes: Vec<u8>) -> (r: Option<Vec<u8>>)
    requires
        0 < width,
        0 < height,
    ensures
        match r {
            Some(held) => 3 * width * height <= bytes@.len() && held@ == bytes@,
            None => 3 * width * height > bytes@.len(),
        },
{
    image::RgbImage::from_raw(width, height, bytes).map(image::RgbImage::into_raw)
}

/// An RGB image as an opaque RGBA image.
pub open spec fn opaque(rgb: Seq<u8>) -> Seq<u8> {
    Seq::new(
        ((rgb.len() / 3) * 4) as nat,
        |i: int|
            if i % 4 == 3 {
                255u8
            } else {
                rgb[(i / 4) * 3 + i % 4]
            },
    )
}

/// Appends an RGB image to an empty buffer as an opaque RGBA image.
pub fn push_opaque(rgb: &[u8], buffer: Vec<u8>) -> (r: Vec<u8>)
    requires
        buffer@.len() == 0,
    ensures
        r@ == opaque(rgb@),
{
    let mut out: Vec<u8> = buffer;
    let pixels: usize = rgb.len() / 3;
    let mut i: usize = 0;
    while i < pixels
        invariant
            i <= pixels,
            pixels == rgb@.len() / 3,
            pixels * 3 <= usize::MAX,
            out@ == opaque(rgb@).take(i * 4),
        decreases pixels - i,
    {
        out.push(rgb[i * 3]);
        out.push(rgb[i * 3 + 1]);
        out.push(rgb[i * 3 + 2]);
        out.push(255);
        i += 1;
        assert(out@ =~= opaque(rgb@).take(i * 4));
    }
    assert(out@ =~= opaque(rgb@));
    out
}

/// The resized image, or why the resize is refused.
pub open spec fn resized_rgb(
    rgb: Seq<u8>,
    width: u32,
    height: u32,
    target_height: u32,
    target_width: u32,
    kernel: Kernel,
) -> Result<Seq<u8>, Error> {
    if target_height == 0 {
        Err(
            out_of_range(
                "lfm2_vl tile resize: target_height",
                "must be a positive dimension (> 0)",
                0,
            ),
        )
    } else if target_width == 0 {
        Err(
            out_of_range(
                "lfm2_vl tile resize: target_width",
                "must be a positive dimension (> 0)",
                0,
            ),
        )
    } else {
        resize::resized(
            opaque(rgb),
            width as usize,
            height as usize,
            target_width as usize,
            target_height as usize,
            kernel,
        )
    }
}

/// Checks a resize before anything is allocated; see [`resized_rgb`].
pub fn check_resize_rgb(
    rgb: &[u8],
    width: u32,
    height: u32,
    target_height: u32,
    target_width: u32,
    kernel: &Kernel,
) -> (r: Result<(), Error>)
    requires
        rgb@.len() == width * height * 3,
    ensures
        match resized_rgb(rgb@, width, height, target_height, target_width, *kernel) {
            Ok(_) => r is Ok,
            Err(e) => r == Err::<(), Error>(e),
        },
{
    require_positive_u32("lfm2_vl tile resize: target_height", target_height)?;
    require_positive_u32("lfm2_vl tile resize: target_width", target_width)?;
    let pixels: usize = rgb.len() / 3;
    let src_len: usize = match pixels.checked_mul(4) {
        Some(n) => n,
        None => 0,
    };
    proof {
        assert(opaque(rgb@).len() == width * height * 4);
    }
    check_resize(
        src_len,
        width as usize,
        height as usize,
        target_width as usize,
        target_height as usize,
        kernel,
    )?;
    Ok(())
}

/// Resizes an interleaved RGB image into an RGBA image; see [`resized_rgb`].
///
/// A resize that is not refused can still fail for want of memory.
pub fn resize_rgb_to_rgba(
    rgb: &[u8],
    width: u32,
    height: u32,
    target_height: u32,
    target_width: u32,
    kernel: &Kernel,
) -> (r: Result<Vec<u8>, Error>)
    requires
        rgb@.len() == width * height * 3,
    ensures
        match resized_rgb(rgb@, width, height, target_height, target_width, *kernel) {
            Ok(image) => match r {
                Ok(out) => out@ == image,
                Err(e) => error::is_allocation_refusal(e),
            },
            Err(e) => r == Err::<Vec<u8>, Error>(e),
        },
{
    check_resize_rgb(rgb, width, height, target_height, target_width, kernel)?;
    let mut source: Vec<u8> = reserve_or_error(rgb.len(), "lfm2_vl tile resize: source RGB clone")?;
    push_range(&mut source, rgb, 0, rgb.len());
    assert(source@ =~= rgb@);
    let bytes: Vec<u8> = match rgb_image_bytes(width, height, source) {
        Some(bytes) => bytes,
        None => {
            proof {
                assert(3 * width * height == width * height * 3) by (nonlinear_arith);
            }
            return Err(
                length_mismatch(
                    "lfm2_vl tile resize: RgbImage::from_raw length",
                    rgb.len(),
                    rgb.len(),
                ),
            );
        },
    };
    let pixels: usize = rgb.len() / 3;
    let rgba_len: usize = match pixels.checked_mul(4) {
        Some(n) => n,
        None => 0,
    };
    let buffer: Vec<u8> = reserve_or_error(rgba_len, "lfm2_vl tile resize: RGBA clone")?;
    let rgba: Vec<u8> = push_opaque(bytes.as_slice(), buffer);
    resize_rgba8(
        rgba.as_slice(),
        width as usize,
        height as usize,
        target_width as usize,
        target_height as usize,
        kernel,
    )
}


/// The largest grid is that of some scale: at that scale each side of the image
/// reaches into its last patch and not past it.
pub proof fn law_the_largest_grid_covers_the_scaled_image(
    height: u32,
    width: u32,
    patch_size: u32,
    max_num_patches: u32,
    grid: (u32, u32),
)
    requires
        0 < height,
        0 < width,
        0 < patch_size,
        is_largest_grid(height, width, patch_size, max_num_patches, grid),
    ensures
        0 < grid.0,
        0 < grid.1,
        grid.0 * grid.1 <= max_num_patches,
        exists|num: int, den: int|
            #![trigger height * num, den * patch_size]
            {
                &&& 0 < num
                &&& 0 < den
                &&& (grid.0 - 1) * (den * patch_size) < height * num <= grid.0 * (den * patch_size)
                &&& (grid.1 - 1) * (den * patch_size) < width * num <= grid.1 * (den * patch_size)
            },
{
    let (num, den) = choose|num: int, den: int|
        0 < num && 0 < den && #[trigger] grid_at(height, width, patch_size, num, den) == (
            grid.0 as int,
            grid.1 as int,
        );
    lemma_scale_is_positive(height, width, patch_size, num, den);
    lemma_covering(height * num, den * patch_size);
    lemma_covering(width * num, den * patch_size);
}

proof fn lemma_scale_is_positive(height: u32, width: u32, patch_size: u32, num: int, den: int)
    requires
        0 < height,
        0 < width,
        0 < patch_size,
        0 < num,
        0 < den,
    ensures
        0 < height * num,
        0 < width * num,
        0 < den * patch_size,
{
    assert(0 < height * num && 0 < width * num && 0 < den * patch_size) by (nonlinear_arith)
        requires
            0 < height,
            0 < width,
            0 < patch_size,
            0 < num,
            0 < den,
    ;
}

/// No scale within the budget has a grid with more rows or more columns than the
/// largest grid: `rows` and `cols` here are the patches that the sides of the image
/// reach into at the scale `num / den`.
pub proof fn law_no_scale_within_the_budget_has_a_larger_grid(
    height: u32,
    width: u32,
    patch_size: u32,
    max_num_patches: u32,
    grid: (u32, u32),
    num: int,
    den: int,
    rows: int,
    cols: int,
)
    requires
        0 < height,
        0 < width,
        0 < patch_size,
        is_largest_grid(height, width, patch_size, max_num_patches, grid),
        0 < num,
        0 < den,
        (rows - 1) * (den * patch_size) < height * num <= rows * (den * patch_size),
        (cols - 1) * (den * patch_size) < width * num <= cols * (den * patch_size),
        rows * cols <= max_num_patches,
    ensures
        rows <= grid.0,
        cols <= grid.1,
{
    lemma_scale_is_positive(height, width, patch_size, num, den);
    lemma_covering_is(height * num, den * patch_size, rows);
    lemma_covering_is(width * num, den * patch_size, cols);
    assert(grid_at(height, width, patch_size, num, den) == (rows, cols));
}

/// An opaque image has the colours of each pixel in order and full alpha behind
/// them.
pub proof fn law_opaque_images_keep_their_colours(rgb: Seq<u8>, pixel: int, c: int)
    requires
        0 <= pixel,
        3 * pixel + 2 < rgb.len(),
        0 <= c < 3,
    ensures
        opaque(rgb).len() * 3 <= rgb.len() * 4 < opaque(rgb).len() * 3 + 12,
        opaque(rgb)[4 * pixel + c] == rgb[3 * pixel + c],
        opaque(rgb)[4 * pixel + 3] == 255,
{
    assert((4 * pixel + c) / 4 == pixel);
    assert((4 * pixel + c) % 4 == c);
    assert((4 * pixel + 3) % 4 == 3);
}

/// A nearest-neighbour resize of an RGB image has `target_width` by `target_height`
/// opaque pixels, and each has the colours of the pixel of the image whose cell holds
/// its scaled centre.
pub proof fn law_a_resized_image_shows_the_image(
    rgb: Seq<u8>,
    width: u32,
    height: u32,
    target_height: u32,
    target_width: u32,
    x: int,
    y: int,
    sx: int,
    sy: int,
    c: int,
)
    requires
        rgb.len() == width * height * 3,
        resized_rgb(rgb, width, height, target_height, target_width, Kernel::Nearest) is Ok,
        0 <= x < target_width,
        0 <= y < target_height,
        sx * (2 * target_width) <= (2 * x + 1) * width < (sx + 1) * (2 * target_width),
        sy * (2 * target_height) <= (2 * y + 1) * height < (sy + 1) * (2 * target_height),
        0 <= c < 3,
    ensures
        ({
            let out = resized_rgb(
                rgb,
                width,
                height,
                target_height,
                target_width,
                Kernel::Nearest,
            )->Ok_0;
            &&& 0 <= sx < width
            &&& 0 <= sy < height
            &&& out.len() == target_width * target_height * 4
            &&& out[(y * target_width + x) * 4 + c] == rgb[(sy * width + sx) * 3 + c]
            &&& out[(y * target_width + x) * 4 + 3] == 255
        }),
{
    let src = opaque(rgb);
    let (sw, sh) = (width as usize, height as usize);
    let (dw, dh) = (target_width as usize, target_height as usize);
    resize::law_result_has_the_requested_size(src, sw, sh, dw, dh, Kernel::Nearest);
    resize::law_nearest_pixels_hold_the_scaled_centre(src, sw, sh, dw, dh, x, y, sx, sy, c);
    resize::law_nearest_pixels_hold_the_scaled_centre(src, sw, sh, dw, dh, x, y, sx, sy, 3);
    let pixel = sy * width + sx;
    assert(0 <= pixel < width * height) by (nonlinear_arith)
        requires
            pixel == sy * width + sx,
            0 <= sx < width,
            0 <= sy < height,
    ;
    law_opaque_images_keep_their_colours(rgb, pixel, c);
}


/// An image is resized as the opaque image of its colours, to the target width and height,
/// whatever the kernel; an empty target is refused.
pub proof fn law_images_are_resized_as_opaque_ones(
    rgb: Seq<u8>,
    rgba: Seq<u8>,
    width: u32,
    height: u32,
    target_height: u32,
    target_width: u32,
    kernel: Kernel,
)
    requires
        rgba.len() == (rgb.len() / 3) * 4,
        forall|pixel: int, c: int|
            #![trigger rgba[4 * pixel + c]]
            0 <= pixel < rgb.len() / 3 && 0 <= c < 3 ==> rgba[4 * pixel + c] == rgb[3 * pixel + c],
        forall|pixel: int|
            #![trigger rgba[4 * pixel + 3]]
            0 <= pixel < rgb.len() / 3 ==> rgba[4 * pixel + 3] == 255,
    ensures
        target_height == 0 || target_width == 0 ==> resized_rgb(
            rgb,
            width,
            height,
            target_height,
            target_width,
            kernel,
        ) is Err,
        0 < target_height && 0 < target_width ==> resized_rgb(
            rgb,
            width,
            height,
            target_height,
            target_width,
            kernel,
        ) == resize::resized(
            rgba,
            width as usize,
            height as usize,
            target_width as usize,
            target_height as usize,
            kernel,
        ),
{
    assert forall|i: int| 0 <= i < rgba.len() implies #[trigger] rgba[i] == opaque(rgb)[i] by {
        let pixel = i / 4;
        let c = i % 4;
        assert(0 <= pixel < rgb.len() / 3);
        assert(i == 4 * pixel + c);
        if c == 3 {
            assert(rgba[4 * pixel + 3] == 255);
        } else {
            assert(rgba[4 * pixel + c] == rgb[3 * pixel + c]);
        }
    }
    assert(rgba =~= opaque(rgb));
}

} // verus!
