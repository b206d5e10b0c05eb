//! Cutting an image into normalised patches.

use vstd::prelude::*;

use crate::array::{self, Array, ArrayModel};
use crate::buffer::{push_repeated, reserve_or_error};
use crate::error::{
    self, cap_exceeded, invariant_violation, length_mismatch, out_of_range, overflow, Error,
};
use crate::model_validation::require_positive_u32;
use crate::vlm::image::{self, check_resize_rgb, patch_grid, resize_rgb_to_rgba};
use crate::vlm::models::lfm2_vl::processor::{
    InputsModel, Lfm2VlImageInputs, Lfm2VlProcessorConfig, ProcessorSettings,
};
use crate::vlm::resize::{self, Kernel};

verus! {

// ---------------------------------------------------------------------------
// Normalisation
// ---------------------------------------------------------------------------

/// The normalised value of each byte of each channel.
#[verifier::ext_equal]
pub struct NormModel<T> {
    pub red: Seq<T>,
    pub green: Seq<T>,
    pub blue: Seq<T>,
    /// The value of a patch that is not there.
    pub zero: T,
}

impl<T> NormModel<T> {
    /// The normalised value of a byte of a channel.
    pub open spec fn at(self, channel: int, byte: u8) -> T {
        if channel == 0 {
            self.red[byte as int]
        } else if channel == 1 {
            self.green[byte as int]
        } else {
            self.blue[byte as int]
        }
    }
}

/// The normalised value of each byte of each channel: three tables of 256
/// entries, and the value that pads an image.
#[derive(Debug)]
pub struct NormTable<T> {
    red: Vec<T>,
    green: Vec<T>,
    blue: Vec<T>,
    zero: T,
}

impl<T> View for NormTable<T> {
    type V = NormModel<T>;

    closed spec fn view(&self) -> NormModel<T> {
        NormModel {
            red: self.red@,
            green: self.green@,
            blue: self.blue@,
            zero: self.zero,
        }
    }
}

impl<T> NormTable<T> {
    #[verifier::type_invariant]
    closed spec fn inv(self) -> bool {
        self.red@.len() == 256 && self.green@.len() == 256 && self.blue@.len() == 256
    }
}

impl<T: Copy> NormTable<T> {
    /// A table made of the values of each channel, one per byte.
    pub fn new(red: Vec<T>, green: Vec<T>, blue: Vec<T>, zero: T) -> (r: Result<Self, Error>)
        ensures
            match r {
                Ok(table) => red@.len() == 256 && green@.len() == 256 && blue@.len() == 256
                    && table@ == (NormModel { red: red@, green: green@, blue: blue@, zero }),
                Err(e) => e == if red@.len() != 256 {
                    length_mismatch("normalization: red", 256, red@.len() as usize)
                } else if green@.len() != 256 {
                    length_mismatch("normalization: green", 256, green@.len() as usize)
                } else {
                    length_mismatch("normalization: blue", 256, blue@.len() as usize)
                } && (red@.len() != 256 || green@.len() != 256 || blue@.len() != 256),
            },
    {
        if red.len() != 256 {
            return Err(length_mismatch("normalization: red", 256, red.len()));
        }
        if green.len() != 256 {
            return Err(length_mismatch("normalization: green", 256, green.len()));
        }
        if blue.len() != 256 {
            return Err(length_mismatch("normalization: blue", 256, blue.len()));
        }
        Ok(NormTable { red, green, blue, zero })
    }

    /// The normalised values of the colour of a pixel.
    fn colour(&self, red: u8, green: u8, blue: u8) -> (r: (T, T, T))
        ensures
            r.0 == self@.at(0, red),
            r.1 == self@.at(1, green),
            r.2 == self@.at(2, blue),
    {
        proof {
            use_type_invariant(self);
        }
        (self.red[red as usize], self.green[green as usize], self.blue[blue as usize])
    }

    /// The value of a patch that is not there.
    fn zero(&self) -> (r: T)
        ensures
            r == self@.zero,
    {
        self.zero
    }
}

// ---------------------------------------------------------------------------
// Patches
// ---------------------------------------------------------------------------

/// The colour values of `n` pixels from a byte offset of an RGBA8 image on.
pub open spec fn row_values<T>(buf: Seq<u8>, off: int, n: int, table: NormModel<T>) -> Seq<T> {
    Seq::new((n * 3) as nat, |j: int| table.at(j % 3, buf[off + (j / 3) * 4 + j % 3]))
}

/// The values of the square patch of side `p` at `(x, y)` of an RGBA8 image that
/// is `buf_w` pixels wide: its pixels row by row, the channels of a pixel
/// together.
pub open spec fn patch_values<T>(
    buf: Seq<u8>,
    buf_w: int,
    x: int,
    y: int,
    p: int,
    table: NormModel<T>,
) -> Seq<T> {
    Seq::new(
        (p * (p * 3)) as nat,
        |k: int| row_values(buf, ((y + k / (p * 3)) * buf_w + x) * 4, p, table)[k % (p * 3)],
    )
}

/// The values of `n` patches of side `p`, `cols` of them in a row, of the region
/// of an RGBA8 image that begins at `(x0, y0)`.
pub open spec fn region_values<T>(
    buf: Seq<u8>,
    buf_w: int,
    x0: int,
    y0: int,
    cols: int,
    p: int,
    table: NormModel<T>,
    n: int,
) -> Seq<T> {
    Seq::new(
        (n * (p * (p * 3))) as nat,
        |i: int|
            {
                let q = i / (p * (p * 3));
                patch_values(buf, buf_w, x0 + (q % cols) * p, y0 + (q / cols) * p, p, table)[i % (p
                    * (p * 3))]
            },
    )
}

/// Appends the values of one row of a patch.
fn push_row<T: Copy>(out: &mut Vec<T>, buf: &[u8], off: usize, n: usize, table: &NormTable<T>)
    requires
        off + n * 4 <= buf@.len(),
        buf@.len() <= usize::MAX,
    ensures
        final(out)@ == old(out)@ + row_values(buf@, off as int, n as int, table@),
{
    let ghost before = out@;
    let mut i: usize = 0;
    assert(out@ =~= before + row_values(buf@, off as int, 0, table@));
    while i < n
        invariant
            i <= n,
            off + n * 4 <= buf@.len(),
            buf@.len() <= usize::MAX,
            out@ == before + row_values(buf@, off as int, i as int, table@),
        decreases n - i,
    {
        let at: usize = off + i * 4;
        let (red, green, blue): (T, T, T) = table.colour(buf[at], buf[at + 1], buf[at + 2]);
        out.push(red);
        out.push(green);
        out.push(blue);
        i += 1;
        assert(out@ =~= before + row_values(buf@, off as int, i as int, table@));
    }
}

proof fn lemma_pixel_bound(y: int, height: int, width: int, x: int, n: int)
    requires
        0 <= y < height,
        0 <= x,
        0 <= n,
        x + n <= width,
    ensures
        0 <= (y * width + x) * 4,
        (y * width + x) * 4 + n * 4 <= height * width * 4,
        y * width + x <= height * width,
        0 <= y * width,
{
    assert(y * width + width <= height * width) by (nonlinear_arith)
        requires
            0 <= y < height,
            0 <= width,
    ;
    assert(0 <= y * width) by (nonlinear_arith)
        requires
            0 <= y,
            0 <= width,
    ;
}

/// Appends the values of one patch.
fn push_patch<T: Copy>(
    out: &mut Vec<T>,
    buf: &[u8],
    buf_w: usize,
    x: usize,
    y: usize,
    p: usize,
    table: &NormTable<T>,
)
    requires
        x + p <= buf_w,
        (y + p) * buf_w * 4 <= buf@.len(),
        buf@.len() <= usize::MAX,
    ensures
        final(out)@ == old(out)@ + patch_values(
            buf@,
            buf_w as int,
            x as int,
            y as int,
            p as int,
            table@,
        ),
{
    let ghost before = out@;
    let ghost w = p * 3;
    let ghost f = |k: int|
        row_values(buf@, ((y + k / w) * buf_w + x) * 4, p as int, table@)[k % w];
    let mut r: usize = 0;
    assert(0 * w == 0);
    assert(out@ =~= before + Seq::new((0 * w) as nat, f));
    while r < p
        invariant
            r <= p,
            x + p <= buf_w,
            (y + p) * buf_w * 4 <= buf@.len(),
            buf@.len() <= usize::MAX,
            w == p * 3,
            f == (|k: int|
                row_values(buf@, ((y + k / w) * buf_w + x) * 4, p as int, table@)[k % w]),
            out@ == before + Seq::new((r * w) as nat, f),
        decreases p - r,
    {
        proof {
            lemma_pixel_bound(y + r, (y + p) as int, buf_w as int, x as int, p as int);
            assert(y + r <= (y + p) * buf_w) by (nonlinear_arith)
                requires
                    0 <= r < p,
                    p <= buf_w,
                    0 <= y,
            ;
        }
        let off: usize = ((y + r) * buf_w + x) * 4;
        push_row(out, buf, off, p, table);
        proof {
            let row = row_values(buf@, off as int, p as int, table@);
            assert forall|j: int| 0 <= j < w implies row[j] == f(r * w + j) by {
                array::lemma_block_position(r as int, w, j);
            }
            array::lemma_block_position(r as int, w, 0);
            assert(out@ =~= before + Seq::new(((r + 1) * w) as nat, f));
        }
        r += 1;
    }
    assert(out@ =~= before + patch_values(
        buf@,
        buf_w as int,
        x as int,
        y as int,
        p as int,
        table@,
    ));
}

/// Whether the region of `rows` by `cols` patches at `(x0, y0)` lies in an RGBA8
/// image that is `buf_w` pixels wide.
pub open spec fn region_fits(
    buf: Seq<u8>,
    buf_w: int,
    x0: int,
    y0: int,
    rows: int,
    cols: int,
    p: int,
) -> bool {
    &&& x0 + cols * p <= buf_w
    &&& (y0 + rows * p) * buf_w * 4 <= buf.len()
}

/// Appends the values of all the patches of a region.
fn push_region<T: Copy>(
    out: &mut Vec<T>,
    buf: &[u8],
    buf_w: usize,
    x0: usize,
    y0: usize,
    rows: usize,
    cols: usize,
    p: usize,
    table: &NormTable<T>,
)
    requires
        region_fits(
            buf@,
            buf_w as int,
            x0 as int,
            y0 as int,
            rows as int,
            cols as int,
            p as int,
        ),
        buf@.len() <= usize::MAX,
        rows * cols <= usize::MAX,
    ensures
        final(out)@ == old(out)@ + region_values(
            buf@,
            buf_w as int,
            x0 as int,
            y0 as int,
            cols as int,
            p as int,
            table@,
            rows * cols,
        ),
{
    let ghost before = out@;
    let ghost w = p * (p * 3);
    let ghost g = |i: int|
        {
            let q = i / w;
            patch_values(
                buf@,
                buf_w as int,
                x0 + (q % (cols as int)) * p,
                y0 + (q / (cols as int)) * p,
                p as int,
                table@,
            )[i % w]
        };
    let n: usize = rows * cols;
    let mut q: usize = 0;
    assert(0 * w == 0);
    assert(out@ =~= before + Seq::new((0 * w) as nat, g));
    while q < n
        invariant
            q <= n,
            n == rows * cols,
            region_fits(
                buf@,
                buf_w as int,
                x0 as int,
                y0 as int,
                rows as int,
                cols as int,
                p as int,
            ),
            buf@.len() <= usize::MAX,
            w == p * (p * 3),
            g == (|i: int|
                {
                    let q = i / w;
                    patch_values(
                        buf@,
                        buf_w as int,
                        x0 + (q % (cols as int)) * p,
                        y0 + (q / (cols as int)) * p,
                        p as int,
                        table@,
                    )[i % w]
                }),
            out@ == before + Seq::new((q * w) as nat, g),
        decreases n - q,
    {
        proof {
            array::lemma_cell(q as int, rows as int, cols as int, p as int);
            let bottom = y0 + (q as int / cols as int) * p + p;
            let all = y0 + rows * p;
            assert(bottom * buf_w * 4 <= all * buf_w * 4) by (nonlinear_arith)
                requires
                    bottom <= all,
                    0 <= buf_w,
            ;
            if p > 0 {
                assert(bottom <= bottom * buf_w) by (nonlinear_arith)
                    requires
                        0 <= bottom,
                        0 < p,
                        p <= buf_w,
                ;
            } else {
                assert((q as int / cols as int) * p == 0) by (nonlinear_arith)
                    requires
                        p == 0,
                ;
            }
        }
        let x: usize = x0 + (q % cols) * p;
        let y: usize = y0 + (q / cols) * p;
        push_patch(out, buf, buf_w, x, y, p, table);
        proof {
            let patch = patch_values(
                buf@,
                buf_w as int,
                x as int,
                y as int,
                p as int,
                table@,
            );
            assert(patch.len() == w) by {
                assert(0 <= w) by (nonlinear_arith)
                    requires
                        w == p * (p * 3),
                        0 <= p,
                ;
            }
            assert forall|j: int| 0 <= j < w implies patch[j] == g(q * w + j) by {
                array::lemma_block_position(q as int, w, j);
            }
            assert((q + 1) * w == q * w + w) by (nonlinear_arith);
            assert(0 <= q * w) by (nonlinear_arith)
                requires
                    0 <= q,
                    0 <= w,
            ;
            assert(out@ =~= before + Seq::new(((q + 1) * w) as nat, g));
        }
        q += 1;
    }
    assert(out@ =~= before + region_values(
        buf@,
        buf_w as int,
        x0 as int,
        y0 as int,
        cols as int,
        p as int,
        table@,
        rows * cols,
    ));
}

// ---------------------------------------------------------------------------
// The inputs of a region
// ---------------------------------------------------------------------------

/// The width of a row of `pixel_values`, or why the array is refused.
pub open spec fn patch_layout(
    p: u32,
    max_num_patches: u32,
    width_context: &'static str,
    size_context: &'static str,
) -> Result<usize, Error> {
    let width = p * (p * 3);
    if width > usize::MAX {
        Err(overflow(width_context, "usize", p as i128, 3))
    } else if max_num_patches * width > usize::MAX {
        Err(overflow(size_context, "usize", max_num_patches as i128, width as i128))
    } else {
        Ok(width as usize)
    }
}

/// Sizes `pixel_values`; see [`patch_layout`].
pub fn plan_layout(
    p: u32,
    max_num_patches: u32,
    width_context: &'static str,
    size_context: &'static str,
) -> (r: Result<usize, Error>)
    ensures
        r == patch_layout(p, max_num_patches, width_context, size_context),
{
    let side: usize = p as usize;
    let width: usize = match side.checked_mul(3) {
        Some(row) => match side.checked_mul(row) {
            Some(width) => width,
            None => {
                return Err(overflow(width_context, "usize", p as i128, 3));
            },
        },
        None => {
            proof {
                assert(p * (p * 3) >= p * 3) by (nonlinear_arith)
                    requires
                        p >= 1,
                ;
            }
            return Err(overflow(width_context, "usize", p as i128, 3));
        },
    };
    match (max_num_patches as usize).checked_mul(width) {
        Some(_) => Ok(width),
        None => Err(overflow(size_context, "usize", max_num_patches as i128, width as i128)),
    }
}

/// The inputs of the region of `rows` by `cols` patches at `(x0, y0)` of an RGBA8
/// image: its patches and zeros up to the budget, the mask of the patches that
/// are there, and the grid.
pub open spec fn region_inputs<T>(
    buf: Seq<u8>,
    buf_w: int,
    x0: int,
    y0: int,
    rows: u32,
    cols: u32,
    p: u32,
    max_num_patches: u32,
    table: NormModel<T>,
) -> InputsModel<T> {
    let width = p * (p * 3);
    let active = rows * cols;
    InputsModel {
        pixel_values: ArrayModel {
            shape: seq![max_num_patches as usize, width as usize],
            data: region_values(buf, buf_w, x0, y0, cols as int, p as int, table, active)
                + Seq::new(
                (max_num_patches * width - active * width) as nat,
                |i: int| table.zero,
            ),
        },
        pixel_attention_mask: ArrayModel {
            shape: seq![max_num_patches as usize],
            data: Seq::new(
                max_num_patches as nat,
                |i: int|
                    if i < active {
                        1i32
                    } else {
                        0i32
                    },
            ),
        },
        spatial_shapes: ArrayModel { shape: seq![2usize], data: seq![rows as i32, cols as i32] },
    }
}

/// Fills two empty buffers with the inputs of a region; see [`region_inputs`].
pub fn fill_inputs<T: Copy>(
    buf: &[u8],
    buf_w: u32,
    x0: u32,
    y0: u32,
    rows: u32,
    cols: u32,
    p: u32,
    max_num_patches: u32,
    table: &NormTable<T>,
    pixels: Vec<T>,
    mask: Vec<i32>,
) -> (r: Lfm2VlImageInputs<T>)
    requires
        region_fits(
            buf@,
            buf_w as int,
            x0 as int,
            y0 as int,
            rows as int,
            cols as int,
            p as int,
        ),
        rows * cols <= max_num_patches,
        p * (p * 3) <= usize::MAX,
        max_num_patches * (p * (p * 3)) <= usize::MAX,
        pixels@.len() == 0,
        mask@.len() == 0,
    ensures
        r@ == region_inputs(
            buf@,
            buf_w as int,
            x0 as int,
            y0 as int,
            rows,
            cols,
            p,
            max_num_patches,
            table@,
        ),
{
    let buf_len: usize = buf.len();
    let max: usize = max_num_patches as usize;
    let side: usize = p as usize;
    let ghost width_int = p * (p * 3);
    proof {
        assert(p * 3 <= usize::MAX) by {
            if p > 0 {
                assert(p * (p * 3) >= p * 3) by (nonlinear_arith)
                    requires
                        p >= 1,
                ;
            }
        }
        assert(0 <= width_int) by (nonlinear_arith)
            requires
                width_int == p * (p * 3),
        ;
        assert(rows * cols * width_int <= max_num_patches * width_int) by (nonlinear_arith)
            requires
                rows * cols <= max_num_patches,
                0 <= width_int,
        ;
        assert(0 <= rows * cols) by (nonlinear_arith);
        assert(0 <= rows * cols * width_int) by (nonlinear_arith)
            requires
                0 <= rows * cols,
                0 <= width_int,
        ;
    }
    let width: usize = side * (side * 3);
    let active: usize = rows as usize * cols as usize;
    let mut pixels: Vec<T> = pixels;
    push_region(
        &mut pixels,
        buf,
        buf_w as usize,
        x0 as usize,
        y0 as usize,
        rows as usize,
        cols as usize,
        side,
        table,
    );
    let total: usize = max * width;
    push_repeated(&mut pixels, table.zero(), total - active * width);
    let mut mask: Vec<i32> = mask;
    push_repeated(&mut mask, 1, active);
    push_repeated(&mut mask, 0, max - active);
    let pixels_shape: Vec<usize> = vec![max, width];
    let mask_shape: Vec<usize> = vec![max];
    let grid_shape: Vec<usize> = vec![2];
    let grid: Vec<i32> = vec![rows as i32, cols as i32];
    proof {
        array::lemma_product_2(max, width);
        array::lemma_product_1(max);
        array::lemma_product_1(2);
        assert(pixels_shape@ =~= seq![max, width]);
        assert(mask_shape@ =~= seq![max]);
        assert(grid_shape@ =~= seq![2usize]);
        assert(grid@ =~= seq![rows as i32, cols as i32]);
    }
    let r: Lfm2VlImageInputs<T> = Lfm2VlImageInputs {
        pixel_values: Array::of(pixels, pixels_shape),
        pixel_attention_mask: Array::of(mask, mask_shape),
        spatial_shapes: Array::of(grid, grid_shape),
    };
    proof {
        let m = region_inputs(
            buf@,
            buf_w as int,
            x0 as int,
            y0 as int,
            rows,
            cols,
            p,
            max_num_patches,
            table@,
        );
        assert(r@.pixel_values.data =~= m.pixel_values.data);
        assert(r@.pixel_values.shape =~= m.pixel_values.shape);
        assert(r@.pixel_attention_mask.data =~= m.pixel_attention_mask.data);
        assert(r@.pixel_attention_mask.shape =~= m.pixel_attention_mask.shape);
        assert(r@.spatial_shapes.data =~= m.spatial_shapes.data);
        assert(r@.spatial_shapes.shape =~= m.spatial_shapes.shape);
    }
    r
}

/// Why the inputs of a region are refused, if they are.
pub open spec fn region_outcome(
    region_w: u32,
    region_h: u32,
    grid_rows: u32,
    grid_cols: u32,
    p: u32,
    max_num_patches: u32,
) -> Result<(), Error> {
    if grid_rows * p != region_h || grid_cols * p != region_w {
        Err(
            invariant_violation(
                "lfm2_vl tile patchify: region must be (grid_rows * p, grid_cols * p)",
                "the tile / thumbnail dimensions must be a whole multiple of encoder_patch_size",
            ),
        )
    } else if grid_rows * grid_cols > max_num_patches {
        Err(
            cap_exceeded(
                "lfm2_vl tile patchify: sub-image patch grid",
                "max_num_patches",
                max_num_patches as u64,
                (grid_rows * grid_cols) as u64,
            ),
        )
    } else {
        match patch_layout(
            p,
            max_num_patches,
            "lfm2_vl tile patchify: per-patch width (p^2 * channels)",
            "lfm2_vl tile patchify: pixel_values size (max_num_patches * per_patch)",
        ) {
            Err(e) => Err(e),
            Ok(_) => Ok(()),
        }
    }
}

/// Checks the inputs of a region before anything is allocated; see
/// [`region_outcome`].
pub fn check_region(
    region_w: u32,
    region_h: u32,
    grid_rows: u32,
    grid_cols: u32,
    p: u32,
    max_num_patches: u32,
) -> (r: Result<(), Error>)
    ensures
        r == region_outcome(region_w, region_h, grid_rows, grid_cols, p, max_num_patches),
{
    if grid_rows.checked_mul(p) != Some(region_h) || grid_cols.checked_mul(p) != Some(region_w) {
        return Err(
            invariant_violation(
                "lfm2_vl tile patchify: region must be (grid_rows * p, grid_cols * p)",
                "the tile / thumbnail dimensions must be a whole multiple of encoder_patch_size",
            ),
        );
    }
    assert(grid_rows * grid_cols <= u64::MAX) by (nonlinear_arith)
        requires
            grid_rows <= u32::MAX,
            grid_cols <= u32::MAX,
    ;
    let active: u64 = grid_rows as u64 * grid_cols as u64;
    if active > max_num_patches as u64 {
        return Err(
            cap_exceeded(
                "lfm2_vl tile patchify: sub-image patch grid",
                "max_num_patches",
                max_num_patches as u64,
                active,
            ),
        );
    }
    plan_layout(
        p,
        max_num_patches,
        "lfm2_vl tile patchify: per-patch width (p^2 * channels)",
        "lfm2_vl tile patchify: pixel_values size (max_num_patches * per_patch)",
    )?;
    Ok(())
}

/// The inputs of a rectangle of an RGBA8 image that is `buf_width` pixels wide,
/// cut into `grid_rows` by `grid_cols` patches of side `p`; see
/// [`region_outcome`] and [`region_inputs`].
///
/// A region that is not refused can still fail for want of memory.
pub fn patchify_rgba_region<T: Copy>(
    buf: &[u8],
    buf_width: u32,
    x0: u32,
    y0: u32,
    region_w: u32,
    region_h: u32,
    grid_rows: u32,
    grid_cols: u32,
    p: u32,
    cfg: &Lfm2VlProcessorConfig,
    table: &NormTable<T>,
) -> (r: Result<Lfm2VlImageInputs<T>, Error>)
    requires
        x0 + region_w <= buf_width,
        (y0 + region_h) * buf_width * 4 <= buf@.len(),
    ensures
        match region_outcome(
            region_w,
            region_h,
            grid_rows,
            grid_cols,
            p,
            cfg@.max_num_patches,
        ) {
            Err(e) => r == Err::<Lfm2VlImageInputs<T>, Error>(e),
            Ok(_) => match r {
                Ok(inputs) => inputs@ == region_inputs(
                    buf@,
                    buf_width as int,
                    x0 as int,
                    y0 as int,
                    grid_rows,
                    grid_cols,
                    p,
                    cfg@.max_num_patches,
                    table@,
                ),
                Err(e) => error::is_allocation_refusal(e),
            },
        },
{
    let max: u32 = cfg.max_num_patches();
    check_region(region_w, region_h, grid_rows, grid_cols, p, max)?;
    let width: usize = plan_layout(
        p,
        max,
        "lfm2_vl tile patchify: per-patch width (p^2 * channels)",
        "lfm2_vl tile patchify: pixel_values size (max_num_patches * per_patch)",
    )?;
    let pixels: Vec<T> = reserve_or_error(
        max as usize * width,
        "lfm2_vl tile patchify: pixel_values f32",
    )?;
    let mask: Vec<i32> = reserve_or_error(
        max as usize,
        "lfm2_vl tile patchify: pixel_attention_mask i32",
    )?;
    Ok(fill_inputs(buf, buf_width, x0, y0, grid_rows, grid_cols, p, max, table, pixels, mask))
}

// ---------------------------------------------------------------------------
// The source image
// ---------------------------------------------------------------------------

/// The largest side of a source image.
pub const MAX_SOURCE_DIM: usize = 65536;

/// The largest number of bytes of a source image.
pub const MAX_SOURCE_PIXELS: usize = 536870912;

/// The names that the refusals of a source image carry.
#[derive(Debug, Clone, Copy)]
pub struct SourceLabels {
    pub width: &'static str,
    pub height: &'static str,
    pub bytes: &'static str,
    pub length: &'static str,
}

/// The number of bytes of a source image, or why it is refused.
pub open spec fn source_outcome(
    len: int,
    width: u32,
    height: u32,
    labels: SourceLabels,
) -> Result<usize, Error> {
    let bytes = width * height * 3;
    if width == 0 {
        Err(out_of_range(labels.width, "must be a positive dimension (> 0)", 0))
    } else if height == 0 {
        Err(out_of_range(labels.height, "must be a positive dimension (> 0)", 0))
    } else if width > MAX_SOURCE_DIM {
        Err(cap_exceeded(labels.width, "MAX_SOURCE_DIM", MAX_SOURCE_DIM as u64, width as u64))
    } else if height > MAX_SOURCE_DIM {
        Err(cap_exceeded(labels.height, "MAX_SOURCE_DIM", MAX_SOURCE_DIM as u64, height as u64))
    } else if bytes > usize::MAX {
        Err(overflow(labels.bytes, "usize", width as i128, height as i128))
    } else if bytes > MAX_SOURCE_PIXELS {
        Err(
            cap_exceeded(
                labels.bytes,
                "MAX_SOURCE_PIXELS",
                MAX_SOURCE_PIXELS as u64,
                bytes as u64,
            ),
        )
    } else if len != bytes {
        Err(length_mismatch(labels.length, bytes as usize, len as usize))
    } else {
        Ok(bytes as usize)
    }
}

/// Checks a source image; see [`source_outcome`].
pub fn check_source(rgb: &[u8], width: u32, height: u32, labels: SourceLabels) -> (r: Result<
    usize,
    Error,
>)
    ensures
        r == source_outcome(rgb@.len() as int, width, height, labels),
{
    require_positive_u32(labels.width, width)?;
    require_positive_u32(labels.height, height)?;
    if width as usize > MAX_SOURCE_DIM {
        return Err(
            cap_exceeded(labels.width, "MAX_SOURCE_DIM", MAX_SOURCE_DIM as u64, width as u64),
        );
    }
    if height as usize > MAX_SOURCE_DIM {
        return Err(
            cap_exceeded(labels.height, "MAX_SOURCE_DIM", MAX_SOURCE_DIM as u64, height as u64),
        );
    }
    assert(width * height * 3 <= 65536 * 65536 * 3) by (nonlinear_arith)
        requires
            width <= 65536,
            height <= 65536,
    ;
    assert(width * height <= 65536 * 65536) by (nonlinear_arith)
        requires
            width <= 65536,
            height <= 65536,
    ;
    let bytes: u64 = width as u64 * height as u64 * 3;
    if bytes > usize::MAX as u64 {
        return Err(overflow(labels.bytes, "usize", width as i128, height as i128));
    }
    if bytes > MAX_SOURCE_PIXELS as u64 {
        return Err(
            cap_exceeded(labels.bytes, "MAX_SOURCE_PIXELS", MAX_SOURCE_PIXELS as u64, bytes),
        );
    }
    if rgb.len() != bytes as usize {
        return Err(length_mismatch(labels.length, bytes as usize, rgb.len()));
    }
    Ok(bytes as usize)
}

// ---------------------------------------------------------------------------
// One image at its own resolution
// ---------------------------------------------------------------------------

/// The names of an image that is preprocessed whole.
#[verifier::allow_in_spec]
pub fn preprocess_labels() -> SourceLabels
    returns
        (SourceLabels {
            width: "lfm2_vl preprocess: width",
            height: "lfm2_vl preprocess: height",
            bytes: "lfm2_vl preprocess: rgb byte count (width * height * channels)",
            length: "lfm2_vl preprocess: rgb slice length vs width*height*channels",
        }),
{
    SourceLabels {
        width: "lfm2_vl preprocess: width",
        height: "lfm2_vl preprocess: height",
        bytes: "lfm2_vl preprocess: rgb byte count (width * height * channels)",
        length: "lfm2_vl preprocess: rgb slice length vs width*height*channels",
    }
}

/// The size in pixels of an image that is cut into `grid` patches, or why the
/// grid is refused.
pub open spec fn grid_outcome(s: ProcessorSettings, grid: (u32, u32)) -> Result<
    (u32, u32),
    Error,
> {
    match patch_layout(
        s.patch_size,
        s.max_num_patches,
        "lfm2_vl preprocess: per-patch width (patch_size^2 * channels)",
        "lfm2_vl preprocess: pixel_values size (max_num_patches * per_patch)",
    ) {
        Err(e) => Err(e),
        Ok(_) => if grid.0 * grid.1 > s.max_num_patches {
            Err(
                cap_exceeded(
                    "lfm2_vl preprocess: selected patch grid",
                    "max_num_patches",
                    s.max_num_patches as u64,
                    (grid.0 * grid.1) as u64,
                ),
            )
        } else if grid.0 * s.patch_size > u32::MAX {
            Err(
                overflow(
                    "lfm2_vl preprocess: resized height (H_p * patch_size)",
                    "u32",
                    grid.0 as i128,
                    s.patch_size as i128,
                ),
            )
        } else if grid.1 * s.patch_size > u32::MAX {
            Err(
                overflow(
                    "lfm2_vl preprocess: resized width (W_p * patch_size)",
                    "u32",
                    grid.1 as i128,
                    s.patch_size as i128,
                ),
            )
        } else {
            Ok(((grid.0 * s.patch_size) as u32, (grid.1 * s.patch_size) as u32))
        },
    }
}

/// The size in pixels that an image of the given grid is resized to: height,
/// width; see [`grid_outcome`].
pub fn plan_grid(cfg: &Lfm2VlProcessorConfig, grid: (u32, u32)) -> (r: Result<(u32, u32), Error>)
    ensures
        r == grid_outcome(cfg@, grid),
{
    let p: u32 = cfg.patch_size();
    let max: u32 = cfg.max_num_patches();
    plan_layout(
        p,
        max,
        "lfm2_vl preprocess: per-patch width (patch_size^2 * channels)",
        "lfm2_vl preprocess: pixel_values size (max_num_patches * per_patch)",
    )?;
    let (rows, cols): (u32, u32) = grid;
    assert(rows * cols <= u64::MAX) by (nonlinear_arith)
        requires
            rows <= u32::MAX,
            cols <= u32::MAX,
    ;
    let patches: u64 = rows as u64 * cols as u64;
    if patches > max as u64 {
        return Err(
            cap_exceeded(
                "lfm2_vl preprocess: selected patch grid",
                "max_num_patches",
                max as u64,
                patches,
            ),
        );
    }
    let height: u32 = match rows.checked_mul(p) {
        Some(n) => n,
        None => {
            return Err(
                overflow(
                    "lfm2_vl preprocess: resized height (H_p * patch_size)",
                    "u32",
                    rows as i128,
                    p as i128,
                ),
            );
        },
    };
    match cols.checked_mul(p) {
        Some(width) => Ok((height, width)),
        None => Err(
            overflow(
                "lfm2_vl preprocess: resized width (W_p * patch_size)",
                "u32",
                cols as i128,
                p as i128,
            ),
        ),
    }
}

/// The inputs of an image that is resized to the given patch grid, or why it is
/// refused.
pub open spec fn preprocessed<T>(
    rgb: Seq<u8>,
    width: u32,
    height: u32,
    s: ProcessorSettings,
    grid: (u32, u32),
    kernel: Kernel,
    table: NormModel<T>,
) -> Result<InputsModel<T>, Error> {
    match source_outcome(rgb.len() as int, width, height, preprocess_labels()) {
        Err(e) => Err(e),
        Ok(_) => match grid_outcome(s, grid) {
            Err(e) => Err(e),
            Ok((target_height, target_width)) => match image::resized_rgb(
                rgb,
                width,
                height,
                target_height,
                target_width,
                kernel,
            ) {
                Err(e) => Err(e),
                Ok(image) => Ok(
                    region_inputs(
                        image,
                        target_width as int,
                        0,
                        0,
                        grid.0,
                        grid.1,
                        s.patch_size,
                        s.max_num_patches,
                        table,
                    ),
                ),
            },
        },
    }
}

/// The inputs of an interleaved RGB image that is resized to the given patch grid
/// with the given kernel, and normalised with the given table; see
/// [`preprocessed`].
///
/// An image that is not refused can still fail for want of memory.
pub fn preprocess_at_grid<T: Copy>(
    rgb: &[u8],
    width: u32,
    height: u32,
    cfg: &Lfm2VlProcessorConfig,
    grid: (u32, u32),
    kernel: &Kernel,
    table: &NormTable<T>,
) -> (r: Result<Lfm2VlImageInputs<T>, Error>)
    ensures
        match preprocessed(rgb@, width, height, cfg@, grid, *kernel, table@) {
            Ok(m) => match r {
                Ok(inputs) => inputs@ == m,
                Err(e) => error::is_allocation_refusal(e),
            },
            Err(e) => r == Err::<Lfm2VlImageInputs<T>, Error>(e),
        },
{
    check_source(rgb, width, height, preprocess_labels())?;
    let (target_height, target_width): (u32, u32) = plan_grid(cfg, grid)?;
    check_resize_rgb(rgb, width, height, target_height, target_width, kernel)?;
    let image: Vec<u8> = resize_rgb_to_rgba(
        rgb,
        width,
        height,
        target_height,
        target_width,
        kernel,
    )?;
    let p: u32 = cfg.patch_size();
    let max: u32 = cfg.max_num_patches();
    let per_patch: usize = plan_layout(
        p,
        max,
        "lfm2_vl preprocess: per-patch width (patch_size^2 * channels)",
        "lfm2_vl preprocess: pixel_values size (max_num_patches * per_patch)",
    )?;
    let pixels: Vec<T> = reserve_or_error(
        max as usize * per_patch,
        "lfm2_vl pixel_values f32 elements",
    )?;
    let mask: Vec<i32> = reserve_or_error(
        max as usize,
        "lfm2_vl pixel_attention_mask i32 elements",
    )?;
    proof {
        resize::law_result_has_the_requested_size(
            crate::vlm::image::opaque(rgb@),
            width as usize,
            height as usize,
            target_width as usize,
            target_height as usize,
            *kernel,
        );
        assert((0 + grid.0 * p) * target_width * 4 == target_width * target_height * 4)
            by (nonlinear_arith)
            requires
                grid.0 * p == target_height,
        ;
    }
    Ok(
        fill_inputs(
            image.as_slice(),
            target_width,
            0,
            0,
            grid.0,
            grid.1,
            p,
            max,
            table,
            pixels,
            mask,
        ),
    )
}

/// The inputs of an interleaved RGB image at its own resolution: it is resized to
/// the largest patch grid within the budget; see [`is_largest_grid`] and
/// [`preprocessed`].
///
/// `kernel` resamples the image from its own size to the size that [`plan_grid`]
/// gives for the grid of [`patch_grid`].
pub fn preprocess_image<T: Copy>(
    rgb: &[u8],
    width: u32,
    height: u32,
    cfg: &Lfm2VlProcessorConfig,
    kernel: &Kernel,
    table: &NormTable<T>,
) -> (r: Result<Lfm2VlImageInputs<T>, Error>)
    ensures
        width == 0 || height == 0 ==> r == Err::<Lfm2VlImageInputs<T>, Error>(
            source_outcome(rgb@.len() as int, width, height, preprocess_labels())->Err_0,
        ),
        width > 0 && height > 0 ==> exists|grid: (u32, u32)|
            #[trigger] image::is_largest_grid(
                height,
                width,
                cfg@.patch_size,
                cfg@.max_num_patches,
                grid,
            ) && match preprocessed(rgb@, width, height, cfg@, grid, *kernel, table@) {
                Ok(m) => match r {
                    Ok(inputs) => inputs@ == m,
                    Err(e) => error::is_allocation_refusal(e),
                },
                Err(e) => r == Err::<Lfm2VlImageInputs<T>, Error>(e),
            },
{
    require_positive_u32("lfm2_vl preprocess: width", width)?;
    require_positive_u32("lfm2_vl preprocess: height", height)?;
    let s: ProcessorSettings = cfg.settings();
    let grid: (u32, u32) = patch_grid(height, width, s.patch_size, s.max_num_patches);
    preprocess_at_grid(rgb, width, height, cfg, grid, kernel, table)
}


// ---------------------------------------------------------------------------
// Laws
// ---------------------------------------------------------------------------

/// The value of the pixel at column `px` and row `py` of the patch at column `c` and
/// row `r` of a region: the normalised byte, from the table of its own channel, of
/// the pixel that stands there in the image. The patches follow each other row by
/// row, the pixels of a patch row by row, and the channels of a pixel together.
pub proof fn law_patches_hold_the_pixels_of_the_region<T>(
    buf: Seq<u8>,
    buf_w: int,
    x0: int,
    y0: int,
    rows: u32,
    cols: u32,
    p: u32,
    max_num_patches: u32,
    table: NormModel<T>,
    r: int,
    c: int,
    py: int,
    px: int,
    ch: int,
)
    requires
        rows * cols <= max_num_patches,
        0 <= r < rows,
        0 <= c < cols,
        0 <= py < p,
        0 <= px < p,
        0 <= ch < 3,
    ensures
        ({
            let values = region_inputs(
                buf,
                buf_w,
                x0,
                y0,
                rows,
                cols,
                p,
                max_num_patches,
                table,
            ).pixel_values.data;
            let value = values[(r * cols + c) * (p * p * 3) + (py * p + px) * 3 + ch];
            let byte = buf[((y0 + r * p + py) * buf_w + (x0 + c * p + px)) * 4 + ch] as int;
            &&& ch == 0 ==> value == table.red[byte]
            &&& ch == 1 ==> value == table.green[byte]
            &&& ch == 2 ==> value == table.blue[byte]
        }),
{
    let side = p as int;
    let row = side * 3;
    let size = side * row;
    assert(side * side * 3 == size) by (nonlinear_arith)
        requires
            size == side * row,
            row == side * 3,
    ;
    let q = r * cols + c;
    let active = rows * cols;
    assert(0 <= q < active) by (nonlinear_arith)
        requires
            q == r * cols + c,
            active == rows * cols,
            0 <= r < rows,
            0 <= c < cols,
    ;
    let j = px * 3 + ch;
    let k = py * row + j;
    assert((py * side + px) * 3 + ch == k) by (nonlinear_arith)
        requires
            k == py * row + j,
            j == px * 3 + ch,
            row == side * 3,
    ;
    assert(0 <= j < row);
    assert(0 <= k < size) by (nonlinear_arith)
        requires
            k == py * row + j,
            0 <= py < side,
            0 <= j < row,
            size == side * row,
    ;
    let i = q * size + k;
    assert(0 <= i < active * size) by (nonlinear_arith)
        requires
            i == q * size + k,
            0 <= q < active,
            0 <= k < size,
    ;
    vstd::arithmetic::div_mod::lemma_fundamental_div_mod_converse(i, size, q, k);
    vstd::arithmetic::div_mod::lemma_fundamental_div_mod_converse(k, row, py, j);
    vstd::arithmetic::div_mod::lemma_fundamental_div_mod_converse(q, cols as int, r, c);
    assert(side * (side * 3) == size);
    let values = region_values(buf, buf_w, x0, y0, cols as int, side, table, active);
    assert(values.len() == active * size);
    let off = ((y0 + r * side + py) * buf_w + (x0 + c * side)) * 4;
    assert(values[i] == row_values(buf, off, side, table)[j]);
    assert(j / 3 == px && j % 3 == ch);
    assert(off + px * 4 + ch == ((y0 + r * side + py) * buf_w + (x0 + c * side + px)) * 4 + ch);
}

/// The inputs of a region have room for `max_num_patches` patches of `p * p * 3`
/// values: behind the patches of the region there are only zeros. The mask tells the
/// two apart, and the shape is the rows and columns of the region.
pub proof fn law_inputs_are_padded_behind_their_patches<T>(
    buf: Seq<u8>,
    buf_w: int,
    x0: int,
    y0: int,
    rows: u32,
    cols: u32,
    p: u32,
    max_num_patches: u32,
    table: NormModel<T>,
    patch: int,
    k: int,
)
    requires
        rows * cols <= max_num_patches,
        p * (p * 3) <= usize::MAX,
        0 <= patch < max_num_patches,
        0 <= k < p * p * 3,
    ensures
        ({
            let inputs = region_inputs(
                buf,
                buf_w,
                x0,
                y0,
                rows,
                cols,
                p,
                max_num_patches,
                table,
            );
            &&& inputs.pixel_values.shape == seq![max_num_patches as usize, (p * p * 3) as usize]
            &&& inputs.pixel_values.data.len() == max_num_patches * (p * p * 3)
            &&& patch >= rows * cols ==> inputs.pixel_values.data[patch * (p * p * 3) + k]
                == table.zero
            &&& inputs.pixel_attention_mask.shape == seq![max_num_patches as usize]
            &&& inputs.pixel_attention_mask.data.len() == max_num_patches
            &&& inputs.pixel_attention_mask.data[patch] == if patch < rows * cols {
                1i32
            } else {
                0
            }
            &&& inputs.spatial_shapes.shape == seq![2usize]
            &&& rows <= i32::MAX ==> inputs.spatial_shapes.data[0] == rows
            &&& cols <= i32::MAX ==> inputs.spatial_shapes.data[1] == cols
            &&& inputs.spatial_shapes.data.len() == 2
        }),
{
    let side = p as int;
    let size = side * (side * 3);
    assert(side * side * 3 == size) by (nonlinear_arith)
        requires
            size == side * (side * 3),
    ;
    let active = rows * cols;
    assert(0 <= active) by (nonlinear_arith)
        requires
            active == rows * cols,
    ;
    assert(0 <= size) by (nonlinear_arith)
        requires
            size == side * (side * 3),
            0 <= side,
    ;
    assert(0 <= active * size <= max_num_patches * size) by (nonlinear_arith)
        requires
            0 <= active <= max_num_patches,
            0 <= size,
    ;
    let i = patch * size + k;
    assert(i < max_num_patches * size) by (nonlinear_arith)
        requires
            i == patch * size + k,
            0 <= patch < max_num_patches,
            0 <= k < size,
    ;
    if patch >= active {
        assert(i >= active * size) by (nonlinear_arith)
            requires
                i == patch * size + k,
                patch >= active,
                0 <= k,
                0 <= size,
        ;
    }
}

/// The inputs of an image are the patches of the image resized to whole patches:
/// `grid.0` rows and `grid.1` columns of them.
pub proof fn law_inputs_are_patches_of_the_resized_image<T>(
    rgb: Seq<u8>,
    width: u32,
    height: u32,
    s: ProcessorSettings,
    grid: (u32, u32),
    kernel: Kernel,
    table: NormModel<T>,
    r: int,
    c: int,
    py: int,
    px: int,
    ch: int,
)
    requires
        preprocessed(rgb, width, height, s, grid, kernel, table) is Ok,
        0 <= r < grid.0,
        0 <= c < grid.1,
        0 <= py < s.patch_size,
        0 <= px < s.patch_size,
        0 <= ch < 3,
    ensures
        ({
            let p = s.patch_size;
            let inputs = preprocessed(rgb, width, height, s, grid, kernel, table)->Ok_0;
            let value = inputs.pixel_values.data[(r * grid.1 + c) * (p * p * 3) + (py * p + px) * 3
                + ch];
            &&& rgb.len() == width * height * 3
            &&& grid.0 * grid.1 <= s.max_num_patches
            &&& image::resized_rgb(
                rgb,
                width,
                height,
                (grid.0 * p) as u32,
                (grid.1 * p) as u32,
                kernel,
            ) matches Ok(image) && {
                let byte = image[((r * p + py) * (grid.1 * p) + (c * p + px)) * 4 + ch] as int;
                &&& ch == 0 ==> value == table.red[byte]
                &&& ch == 1 ==> value == table.green[byte]
                &&& ch == 2 ==> value == table.blue[byte]
            }
        }),
{
    let p = s.patch_size;
    let image = image::resized_rgb(
        rgb,
        width,
        height,
        (grid.0 * p) as u32,
        (grid.1 * p) as u32,
        kernel,
    )->Ok_0;
    law_patches_hold_the_pixels_of_the_region(
        image,
        (grid.1 * p) as int,
        0,
        0,
        grid.0,
        grid.1,
        p,
        s.max_num_patches,
        table,
        r,
        c,
        py,
        px,
        ch,
    );
}

/// Which sources are accepted: images that are not empty, with sides and bytes within
/// the limits, and with three bytes for each pixel.
pub proof fn law_sources_are_whole_images_within_the_limits(
    len: int,
    width: u32,
    height: u32,
    labels: SourceLabels,
)
    ensures
        source_outcome(len, width, height, labels) is Ok <==> {
            &&& 0 < width <= 65536
            &&& 0 < height <= 65536
            &&& width * height * 3 <= 512 * 1024 * 1024
            &&& width * height * 3 <= usize::MAX
            &&& len == width * height * 3
        },
{
}

/// Which regions are accepted: those of whole patches, within the budget.
pub proof fn law_regions_are_whole_patches_within_the_budget(
    region_w: u32,
    region_h: u32,
    grid_rows: u32,
    grid_cols: u32,
    p: u32,
    max_num_patches: u32,
)
    ensures
        region_outcome(region_w, region_h, grid_rows, grid_cols, p, max_num_patches) is Ok <==> {
            &&& grid_rows * p == region_h
            &&& grid_cols * p == region_w
            &&& grid_rows * grid_cols <= max_num_patches
            &&& p * (p * 3) <= usize::MAX
            &&& max_num_patches * (p * (p * 3)) <= usize::MAX
        },
{
}



/// An image is preprocessed where it is a whole image within the limits, its grid is within
/// the patch budget, and it can be resized to whole patches. Its inputs are the region of
/// the resized image from the corner on, as many rows and columns of patches as the grid.
pub proof fn law_images_are_preprocessed_at_their_grid<T>(
    rgb: Seq<u8>,
    width: u32,
    height: u32,
    s: ProcessorSettings,
    grid: (u32, u32),
    kernel: Kernel,
    table: NormModel<T>,
)
    ensures
        ({
            let p = s.patch_size;
            let sized = image::resized_rgb(
                rgb,
                width,
                height,
                (grid.0 * p) as u32,
                (grid.1 * p) as u32,
                kernel,
            );
            let r = preprocessed(rgb, width, height, s, grid, kernel, table);
            &&& r is Ok <==> {
                &&& source_outcome(rgb.len() as int, width, height, preprocess_labels()) is Ok
                &&& p * (p * 3) <= usize::MAX
                &&& s.max_num_patches * (p * (p * 3)) <= usize::MAX
                &&& grid.0 * grid.1 <= s.max_num_patches
                &&& grid.0 * p <= u32::MAX
                &&& grid.1 * p <= u32::MAX
                &&& sized is Ok
            }
            &&& r matches Ok(m) ==> m == region_inputs(
                sized->Ok_0,
                grid.1 * p,
                0,
                0,
                grid.0,
                grid.1,
                p,
                s.max_num_patches,
                table,
            )
        }),
{
}


/// A source image is refused for an empty side, for a side or a size over the limit, or for
/// bytes that are not those of its size, in that order.
pub proof fn law_refused_sources_say_what_is_wrong(
    len: int,
    width: u32,
    height: u32,
    labels: SourceLabels,
)
    ensures
        source_outcome(len, width, height, labels) matches Err(e) ==> {
            &&& width == 0 || height == 0 ==> e is OutOfRange
            &&& 0 < width && 0 < height && (width > 65536 || height > 65536) ==> e is CapExceeded
            &&& 0 < width <= 65536 && 0 < height <= 65536 && width * height * 3 <= 512 * 1024 * 1024
                && width * height * 3 <= usize::MAX ==> (e matches Error::LengthMismatch(p)
                && p.expected == width * height * 3 && (0 <= len <= usize::MAX ==> p.actual == len))
        },
        source_outcome(len, width, height, labels) matches Ok(n) ==> n == len,
{
}

} // verus!
