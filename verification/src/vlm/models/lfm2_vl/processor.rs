//! The settings of the image processor, the inputs that it makes of an image,
//! and the tokens that an image stands for in a prompt.

use vstd::prelude::*;

use crate::array::{Array, ArrayModel};
use crate::buffer::{push_repeated, reserve_or_error};
use crate::error::{
    self, length_mismatch, not_divisible, out_of_range, overflow, rank_mismatch, Error, ErrorModel,
};
use crate::model_validation::{
    self, checked_add, checked_mul, require_positive, require_positive_finite, require_positive_u32,
    Single,
};
use crate::vlm::models::lfm2_vl::config::{two, MAX_TILES};

verus! {

// ---------------------------------------------------------------------------
// Settings
// ---------------------------------------------------------------------------

/// How a large image is split into tiles.
#[derive(Debug, Clone, Copy)]
pub struct TilingConfig {
    /// Whether a large image is split at all.
    pub do_image_splitting: bool,
    /// The smallest number of tiles.
    pub min_tiles: u32,
    /// The largest number of tiles.
    pub max_tiles: u32,
    /// Whether a split image is followed by a thumbnail.
    pub use_thumbnail: bool,
    /// The smallest number of tokens that a sub-image aims at.
    pub min_image_tokens: u32,
    /// The largest number of tokens that a sub-image aims at.
    pub max_image_tokens: u32,
    /// The side of a patch in pixels.
    pub encoder_patch_size: u32,
    /// The side of a tile in pixels.
    pub tile_size: u32,
    /// How far over the token budget an image may be before it is split.
    pub max_pixels_tolerance: Single,
}

/// The tiling of a processor that was given none.
#[verifier::allow_in_spec]
pub fn default_tiling() -> TilingConfig
    returns
        (TilingConfig {
            do_image_splitting: true,
            min_tiles: 2,
            max_tiles: 10,
            use_thumbnail: true,
            min_image_tokens: 64,
            max_image_tokens: 256,
            encoder_patch_size: 16,
            tile_size: 512,
            max_pixels_tolerance: two(),
        }),
{
    TilingConfig {
        do_image_splitting: true,
        min_tiles: 2,
        max_tiles: 10,
        use_thumbnail: true,
        min_image_tokens: 64,
        max_image_tokens: 256,
        encoder_patch_size: 16,
        tile_size: 512,
        max_pixels_tolerance: two(),
    }
}

impl Default for TilingConfig {
    fn default() -> (r: Self)
        ensures
            r == default_tiling(),
    {
        default_tiling()
    }
}

/// The settings of the image processor.
#[derive(Debug, Clone, Copy)]
pub struct ProcessorSettings {
    /// The side of a patch in pixels.
    pub patch_size: u32,
    /// The largest number of patches of an image.
    pub max_num_patches: u32,
    /// The number of patches that are folded into one token along each axis.
    pub downsample_factor: u32,
    /// The token that stands for an image.
    pub image_token: i32,
    /// The token that opens an image.
    pub image_start_token: Option<i32>,
    /// The token that closes an image.
    pub image_end_token: Option<i32>,
    /// Whether the tokens of an image are bracketed.
    pub use_image_special_tokens: bool,
    /// How a large image is split.
    pub tiling: TilingConfig,
}

/// Whether a tiling can be carried out.
pub open spec fn tiling_is_sound(t: TilingConfig) -> bool {
    &&& 0 < t.min_tiles <= t.max_tiles <= MAX_TILES
    &&& 0 < t.min_image_tokens <= t.max_image_tokens
    &&& 0 < t.encoder_patch_size
    &&& 0 < t.tile_size
    &&& t.tile_size as int % t.encoder_patch_size as int == 0
    &&& t.max_pixels_tolerance is Positive
}

/// Whether a processor can work with the settings.
pub open spec fn settings_are_sound(s: ProcessorSettings) -> bool {
    &&& 0 < s.patch_size
    &&& 0 < s.max_num_patches
    &&& 0 < s.downsample_factor
    &&& 0 <= s.image_token
    &&& tiling_is_sound(s.tiling)
}

/// The image processor's configuration: settings that are sound.
#[derive(Debug, Clone, Copy)]
pub struct Lfm2VlProcessorConfig {
    settings: ProcessorSettings,
}

impl View for Lfm2VlProcessorConfig {
    type V = ProcessorSettings;

    closed spec fn view(&self) -> ProcessorSettings {
        self.settings
    }
}

/// The first thing that is wrong with the settings of a new processor.
pub open spec fn settings_refused(
    image_token: i32,
    downsample_factor: u32,
    patch_size: u32,
    max_num_patches: u32,
) -> Option<ErrorModel> {
    error::first(
        model_validation::positive_dimension("lfm2_vl processor: patch_size", patch_size),
        error::first(
            model_validation::positive_dimension(
                "lfm2_vl processor: max_num_patches",
                max_num_patches,
            ),
            error::first(
                model_validation::positive_dimension(
                    "lfm2_vl processor: downsample_factor",
                    downsample_factor,
                ),
                error::refusal(
                    image_token >= 0,
                    out_of_range(
                        "lfm2_vl processor: image_token",
                        "must be a non-negative token id (>= 0)",
                        image_token as i128,
                    ),
                ),
            ),
        ),
    )
}

/// The first field of a tiling that is zero.
pub open spec fn tiling_zero(t: TilingConfig) -> Option<ErrorModel> {
    error::first(
        model_validation::positive_dimension("lfm2_vl tiling: min_tiles", t.min_tiles),
        error::first(
            model_validation::positive_dimension("lfm2_vl tiling: max_tiles", t.max_tiles),
            error::first(
                model_validation::positive_dimension(
                    "lfm2_vl tiling: min_image_tokens",
                    t.min_image_tokens,
                ),
                error::first(
                    model_validation::positive_dimension(
                        "lfm2_vl tiling: max_image_tokens",
                        t.max_image_tokens,
                    ),
                    error::first(
                        model_validation::positive_dimension(
                            "lfm2_vl tiling: encoder_patch_size",
                            t.encoder_patch_size,
                        ),
                        model_validation::positive_dimension(
                            "lfm2_vl tiling: tile_size",
                            t.tile_size,
                        ),
                    ),
                ),
            ),
        ),
    )
}

/// The first thing that is wrong with a tiling.
pub open spec fn tiling_refused(t: TilingConfig) -> Option<ErrorModel> {
    error::first(
        tiling_zero(t),
        error::first(
            error::refusal(
                t.max_tiles <= MAX_TILES,
                out_of_range(
                    "lfm2_vl tiling: max_tiles",
                    "must not exceed the tile-grid cardinality cap (1024)",
                    t.max_tiles as i128,
                ),
            ),
            error::first(
                error::refusal(
                    t.min_tiles <= t.max_tiles,
                    out_of_range(
                        "lfm2_vl tiling: min_tiles <= max_tiles",
                        "the minimum tile count must not exceed the maximum",
                        t.min_tiles as i128,
                    ),
                ),
                error::first(
                    error::refusal(
                        t.min_image_tokens <= t.max_image_tokens,
                        out_of_range(
                            "lfm2_vl tiling: min_image_tokens <= max_image_tokens",
                            "the minimum token budget must not exceed the maximum",
                            t.min_image_tokens as i128,
                        ),
                    ),
                    error::first(
                        model_validation::positive_finite(
                            "lfm2_vl tiling: max_pixels_tolerance",
                            t.max_pixels_tolerance,
                        ),
                        error::refusal(
                            t.tile_size as int % t.encoder_patch_size as int == 0,
                            not_divisible(
                                "lfm2_vl tiling: tile_size, encoder_patch_size",
                                t.tile_size as i128,
                                t.encoder_patch_size as i128,
                            ),
                        ),
                    ),
                ),
            ),
        ),
    )
}

/// Admits a tiling, or refuses it for the first thing that is wrong with it.
fn check_tiling(t: TilingConfig) -> (r: Result<(), Error>)
    ensures
        error::answers(r, tiling_refused(t)),
        r is Ok <==> tiling_is_sound(t),
{
    require_positive_u32("lfm2_vl tiling: min_tiles", t.min_tiles)?;
    require_positive_u32("lfm2_vl tiling: max_tiles", t.max_tiles)?;
    require_positive_u32("lfm2_vl tiling: min_image_tokens", t.min_image_tokens)?;
    require_positive_u32("lfm2_vl tiling: max_image_tokens", t.max_image_tokens)?;
    require_positive_u32("lfm2_vl tiling: encoder_patch_size", t.encoder_patch_size)?;
    require_positive_u32("lfm2_vl tiling: tile_size", t.tile_size)?;
    if t.max_tiles > MAX_TILES as u32 {
        return Err(
            out_of_range(
                "lfm2_vl tiling: max_tiles",
                "must not exceed the tile-grid cardinality cap (1024)",
                t.max_tiles as i128,
            ),
        );
    }
    if t.min_tiles > t.max_tiles {
        return Err(
            out_of_range(
                "lfm2_vl tiling: min_tiles <= max_tiles",
                "the minimum tile count must not exceed the maximum",
                t.min_tiles as i128,
            ),
        );
    }
    if t.min_image_tokens > t.max_image_tokens {
        return Err(
            out_of_range(
                "lfm2_vl tiling: min_image_tokens <= max_image_tokens",
                "the minimum token budget must not exceed the maximum",
                t.min_image_tokens as i128,
            ),
        );
    }
    require_positive_finite("lfm2_vl tiling: max_pixels_tolerance", t.max_pixels_tolerance)?;
    if t.tile_size % t.encoder_patch_size != 0 {
        return Err(
            not_divisible(
                "lfm2_vl tiling: tile_size, encoder_patch_size",
                t.tile_size as i128,
                t.encoder_patch_size as i128,
            ),
        );
    }
    Ok(())
}

impl Lfm2VlProcessorConfig {
    #[verifier::type_invariant]
    closed spec fn inv(self) -> bool {
        settings_are_sound(self.settings)
    }

    /// A processor for the given placeholder token, fold factor, patch size and
    /// patch budget: images are bracketed once the bracket tokens are known, and
    /// split as [`default_tiling`] says.
    pub fn new(
        image_token: i32,
        downsample_factor: u32,
        patch_size: u32,
        max_num_patches: u32,
    ) -> (r: Result<Self, Error>)
        ensures
            error::answers(
                r,
                settings_refused(image_token, downsample_factor, patch_size, max_num_patches),
            ),
            r matches Ok(c) ==> settings_are_sound(c@) && c@ == (ProcessorSettings {
                patch_size,
                max_num_patches,
                downsample_factor,
                image_token,
                image_start_token: None,
                image_end_token: None,
                use_image_special_tokens: true,
                tiling: default_tiling(),
            }),
    {
        require_positive_u32("lfm2_vl processor: patch_size", patch_size)?;
        require_positive_u32("lfm2_vl processor: max_num_patches", max_num_patches)?;
        require_positive_u32("lfm2_vl processor: downsample_factor", downsample_factor)?;
        if image_token < 0 {
            return Err(
                out_of_range(
                    "lfm2_vl processor: image_token",
                    "must be a non-negative token id (>= 0)",
                    image_token as i128,
                ),
            );
        }
        Ok(
            Lfm2VlProcessorConfig {
                settings: ProcessorSettings {
                    patch_size,
                    max_num_patches,
                    downsample_factor,
                    image_token,
                    image_start_token: None,
                    image_end_token: None,
                    use_image_special_tokens: true,
                    tiling: default_tiling(),
                },
            },
        )
    }

    /// A processor of the smallest settings: one pixel to a patch, one patch to a
    /// token, one patch to an image.
    pub fn smallest() -> (r: Self)
        ensures
            r@ == (ProcessorSettings {
                patch_size: 1,
                max_num_patches: 1,
                downsample_factor: 1,
                image_token: 0,
                image_start_token: None,
                image_end_token: None,
                use_image_special_tokens: true,
                tiling: default_tiling(),
            }),
    {
        Lfm2VlProcessorConfig {
            settings: ProcessorSettings {
                patch_size: 1,
                max_num_patches: 1,
                downsample_factor: 1,
                image_token: 0,
                image_start_token: None,
                image_end_token: None,
                use_image_special_tokens: true,
                tiling: default_tiling(),
            },
        }
    }

    /// The same processor with another tiling; see [`tiling_refused`].
    pub fn with_tiling(
        self,
        do_image_splitting: bool,
        min_tiles: u32,
        max_tiles: u32,
        use_thumbnail: bool,
        min_image_tokens: u32,
        max_image_tokens: u32,
        encoder_patch_size: u32,
        tile_size: u32,
        max_pixels_tolerance: Single,
    ) -> (r: Result<Self, Error>)
        ensures
            ({
                let tiling = TilingConfig {
                    do_image_splitting,
                    min_tiles,
                    max_tiles,
                    use_thumbnail,
                    min_image_tokens,
                    max_image_tokens,
                    encoder_patch_size,
                    tile_size,
                    max_pixels_tolerance,
                };
                &&& error::answers(r, tiling_refused(tiling))
                &&& r matches Ok(c) ==> settings_are_sound(c@) && c@ == (ProcessorSettings {
                    tiling,
                    ..self@
                })
            }),
    {
        proof {
            use_type_invariant(&self);
        }
        let tiling: TilingConfig = TilingConfig {
            do_image_splitting,
            min_tiles,
            max_tiles,
            use_thumbnail,
            min_image_tokens,
            max_image_tokens,
            encoder_patch_size,
            tile_size,
            max_pixels_tolerance,
        };
        check_tiling(tiling)?;
        Ok(Lfm2VlProcessorConfig { settings: ProcessorSettings { tiling, ..self.settings } })
    }

    /// The same processor with other bracket tokens. Whether brackets are emitted
    /// is another setting, which stays as it is.
    #[must_use]
    pub fn with_special_tokens(self, start: Option<i32>, end: Option<i32>) -> (r: Self)
        ensures
            r@ == (ProcessorSettings { image_start_token: start, image_end_token: end, ..self@ }),
    {
        proof {
            use_type_invariant(&self);
        }
        Lfm2VlProcessorConfig {
            settings: ProcessorSettings {
                image_start_token: start,
                image_end_token: end,
                ..self.settings
            },
        }
    }

    /// The same processor, with brackets emitted or not.
    #[must_use]
    pub fn with_use_image_special_tokens(self, enabled: bool) -> (r: Self)
        ensures
            r@ == (ProcessorSettings { use_image_special_tokens: enabled, ..self@ }),
    {
        proof {
            use_type_invariant(&self);
        }
        Lfm2VlProcessorConfig {
            settings: ProcessorSettings { use_image_special_tokens: enabled, ..self.settings },
        }
    }

    /// The same processor, with large images split or not.
    #[must_use]
    pub fn with_do_image_splitting(self, enabled: bool) -> (r: Self)
        ensures
            r@ == (ProcessorSettings {
                tiling: TilingConfig { do_image_splitting: enabled, ..self@.tiling },
                ..self@
            }),
    {
        proof {
            use_type_invariant(&self);
        }
        Lfm2VlProcessorConfig {
            settings: ProcessorSettings {
                tiling: TilingConfig { do_image_splitting: enabled, ..self.settings.tiling },
                ..self.settings
            },
        }
    }

    /// All of the settings.
    pub fn settings(&self) -> (r: ProcessorSettings)
        ensures
            r == self@,
            settings_are_sound(r),
    {
        proof {
            use_type_invariant(self);
        }
        self.settings
    }

    /// The side of a patch in pixels.
    pub fn patch_size(&self) -> (r: u32)
        ensures
            r == self@.patch_size,
    {
        self.settings.patch_size
    }

    /// The largest number of patches of an image.
    pub fn max_num_patches(&self) -> (r: u32)
        ensures
            r == self@.max_num_patches,
    {
        self.settings.max_num_patches
    }

    /// The number of patches that are folded into one token along each axis.
    pub fn downsample_factor(&self) -> (r: u32)
        ensures
            r == self@.downsample_factor,
    {
        self.settings.downsample_factor
    }

    /// The token that stands for an image.
    pub fn image_token(&self) -> (r: i32)
        ensures
            r == self@.image_token,
    {
        self.settings.image_token
    }

    /// Whether the tokens of an image are bracketed.
    pub fn use_image_special_tokens(&self) -> (r: bool)
        ensures
            r == self@.use_image_special_tokens,
    {
        self.settings.use_image_special_tokens
    }

    /// Whether a large image is split into tiles.
    pub fn do_image_splitting(&self) -> (r: bool)
        ensures
            r == self@.tiling.do_image_splitting,
    {
        self.settings.tiling.do_image_splitting
    }
}

// ---------------------------------------------------------------------------
// The inputs of one image
// ---------------------------------------------------------------------------

/// What the vision tower takes of one image.
#[derive(Debug)]
pub struct Lfm2VlImageInputs<T> {
    /// One row per patch of the budget, zero past the patches of the image.
    pub pixel_values: Array<T>,
    /// `1` for the patches of the image, `0` past them.
    pub pixel_attention_mask: Array<i32>,
    /// The patch grid of the image: rows, columns.
    pub spatial_shapes: Array<i32>,
}

/// The inputs of one image by what their arrays hold.
#[verifier::ext_equal]
pub struct InputsModel<T> {
    pub pixel_values: ArrayModel<T>,
    pub pixel_attention_mask: ArrayModel<i32>,
    pub spatial_shapes: ArrayModel<i32>,
}

impl<T> View for Lfm2VlImageInputs<T> {
    type V = InputsModel<T>;

    open spec fn view(&self) -> InputsModel<T> {
        InputsModel {
            pixel_values: self.pixel_values@,
            pixel_attention_mask: self.pixel_attention_mask@,
            spatial_shapes: self.spatial_shapes@,
        }
    }
}

impl<T> Lfm2VlImageInputs<T> {
    /// The inputs made of their parts.
    pub fn from_parts(
        pixel_values: Array<T>,
        pixel_attention_mask: Array<i32>,
        spatial_shapes: Array<i32>,
    ) -> (r: Self)
        ensures
            r == (Lfm2VlImageInputs { pixel_values, pixel_attention_mask, spatial_shapes }),
    {
        Lfm2VlImageInputs { pixel_values, pixel_attention_mask, spatial_shapes }
    }

    /// The patch grid of the image, which `spatial_shapes` alone carries.
    pub fn grid(&self) -> (r: Result<(i32, i32), Error>)
        ensures
            self.spatial_shapes@.shape == seq![2usize] ==> r == Ok::<(i32, i32), Error>(
                (self.spatial_shapes@.data[0], self.spatial_shapes@.data[1]),
            ),
            self.spatial_shapes@.shape != seq![2usize] ==> r == Err::<(i32, i32), Error>(
                rank_mismatch(
                    "lfm2_vl Lfm2VlImageInputs::grid: spatial_shapes must be a (2,) [H_p, W_p] array",
                    self.spatial_shapes@.shape.len() as usize,
                ),
            ),
    {
        let shape: &Vec<usize> = self.spatial_shapes.shape();
        if shape.len() != 1 || shape[0] != 2 {
            return Err(
                rank_mismatch(
                    "lfm2_vl Lfm2VlImageInputs::grid: spatial_shapes must be a (2,) [H_p, W_p] array",
                    shape.len(),
                ),
            );
        }
        assert(shape@ =~= seq![2usize]);
        let count: usize = self.spatial_shapes.len();
        proof {
            crate::array::lemma_product_1(2);
        }
        let data: &Vec<i32> = self.spatial_shapes.data();
        Ok((data[0], data[1]))
    }
}

// ---------------------------------------------------------------------------
// Tokens
// ---------------------------------------------------------------------------

/// A number rounded up to a multiple of a factor.
pub open spec fn padded(value: int, factor: int) -> int {
    if value % factor == 0 {
        value
    } else {
        value + (factor - value % factor)
    }
}

/// The number of blocks of `factor` that cover `value`.
pub open spec fn blocks(value: int, factor: int) -> int {
    padded(value, factor) / factor
}

/// The padded length of an axis, or an overflow.
pub open spec fn padded_axis(value: i32, factor: i32) -> Result<i32, Error> {
    if value as int % factor as int == 0 {
        Ok(value)
    } else {
        model_validation::sum_i32(
            "lfm2_vl processor: round up to multiple of factor",
            value,
            (factor - value as int % factor as int) as i32,
        )
    }
}

/// Rounds an axis up to a multiple of a factor.
fn round_up_to_multiple(value: i32, factor: i32) -> (r: Result<i32, Error>)
    requires
        value > 0,
        factor > 0,
    ensures
        r == padded_axis(value, factor),
        r matches Ok(n) ==> n == padded(value as int, factor as int) && n > 0,
{
    let rem: i32 = value % factor;
    if rem == 0 {
        return Ok(value);
    }
    checked_add("lfm2_vl processor: round up to multiple of factor", value, factor - rem)
}

/// The number of tokens of an image with the given patch grid, or why it has
/// none.
pub open spec fn token_count(rows: i32, cols: i32, factor: i32) -> Result<i32, Error> {
    if factor <= 0 {
        Err(
            out_of_range(
                "lfm2_vl processor: downsample_factor",
                "must be positive (> 0)",
                factor as i128,
            ),
        )
    } else if rows <= 0 {
        Err(
            out_of_range(
                "lfm2_vl processor: patch grid rows",
                "must be positive (> 0)",
                rows as i128,
            ),
        )
    } else if cols <= 0 {
        Err(
            out_of_range(
                "lfm2_vl processor: patch grid cols",
                "must be positive (> 0)",
                cols as i128,
            ),
        )
    } else {
        match padded_axis(rows, factor) {
            Err(e) => Err(e),
            Ok(_) => match padded_axis(cols, factor) {
                Err(e) => Err(e),
                Ok(_) => model_validation::product_i32(
                    "lfm2_vl processor: image token count (ceil(rows/f) * ceil(cols/f))",
                    blocks(rows as int, factor as int) as i32,
                    blocks(cols as int, factor as int) as i32,
                ),
            },
        }
    }
}

/// Blocks of `factor` cover a positive length, with less than one to spare.
pub proof fn lemma_blocks(value: int, factor: int)
    requires
        value > 0,
        factor > 0,
    ensures
        0 < blocks(value, factor) <= value,
        blocks(value, factor) * factor == padded(value, factor),
        value <= padded(value, factor) < value + factor,
{
    let q = value / factor;
    let r = value % factor;
    vstd::arithmetic::div_mod::lemma_fundamental_div_mod(value, factor);
    assert(factor * q == q * factor) by (nonlinear_arith);
    if r == 0 {
        vstd::arithmetic::div_mod::lemma_fundamental_div_mod_converse(value, factor, q, 0);
        assert(q > 0) by (nonlinear_arith)
            requires
                q * factor == value,
                value > 0,
                factor > 0,
        ;
        assert(q <= value) by (nonlinear_arith)
            requires
                q * factor == value,
                q > 0,
                factor > 0,
        ;
    } else {
        assert((q + 1) * factor == q * factor + factor) by (nonlinear_arith);
        vstd::arithmetic::div_mod::lemma_fundamental_div_mod_converse(
            padded(value, factor),
            factor,
            q + 1,
            0,
        );
        assert(q >= 0) by (nonlinear_arith)
            requires
                q * factor + r == value,
                value > 0,
                factor > 0,
                r < factor,
        ;
        assert(q + 1 <= value) by (nonlinear_arith)
            requires
                q * factor + r == value,
                r > 0,
                q >= 0,
                factor > 0,
        ;
    }
}

/// The number of placeholder tokens of an image with the given patch grid:
/// `ceil(rows / factor) * ceil(cols / factor)`; see [`token_count`].
pub fn num_image_tokens_from_patch_grid(rows: i32, cols: i32, factor: i32) -> (r: Result<
    i32,
    Error,
>)
    ensures
        r == token_count(rows, cols, factor),
        r matches Ok(n) ==> n > 0 && n == blocks(rows as int, factor as int) * blocks(
            cols as int,
            factor as int,
        ),
{
    require_positive("lfm2_vl processor: downsample_factor", factor)?;
    require_positive("lfm2_vl processor: patch grid rows", rows)?;
    require_positive("lfm2_vl processor: patch grid cols", cols)?;
    let padded_rows: i32 = round_up_to_multiple(rows, factor)?;
    let padded_cols: i32 = round_up_to_multiple(cols, factor)?;
    let down_rows: i32 = padded_rows / factor;
    let down_cols: i32 = padded_cols / factor;
    proof {
        lemma_blocks(rows as int, factor as int);
        lemma_blocks(cols as int, factor as int);
        assert(down_rows * down_cols > 0) by (nonlinear_arith)
            requires
                down_rows > 0,
                down_cols > 0,
        ;
    }
    checked_mul(
        "lfm2_vl processor: image token count (ceil(rows/f) * ceil(cols/f))",
        down_rows,
        down_cols,
    )
}

// ---------------------------------------------------------------------------
// Expanding the placeholders of a prompt
// ---------------------------------------------------------------------------

/// How many of the ids are the placeholder.
pub open spec fn placeholders(ids: Seq<i32>, token: i32) -> nat
    decreases ids.len(),
{
    if ids.len() == 0 {
        0
    } else {
        placeholders(ids.drop_last(), token) + (if ids.last() == token {
            1nat
        } else {
            0nat
        })
    }
}

/// What opens the tokens of an image.
pub open spec fn opening(s: ProcessorSettings) -> Seq<i32> {
    match s.image_start_token {
        Some(id) if s.use_image_special_tokens => seq![id],
        _ => Seq::empty(),
    }
}

/// What closes the tokens of an image.
pub open spec fn closing(s: ProcessorSettings) -> Seq<i32> {
    match s.image_end_token {
        Some(id) if s.use_image_special_tokens => seq![id],
        _ => Seq::empty(),
    }
}

/// The number of placeholder tokens of an image, where it has any.
pub open spec fn grid_tokens(s: ProcessorSettings, grid: (i32, i32)) -> nat {
    match token_count(grid.0, grid.1, s.downsample_factor as i32) {
        Ok(n) if n > 0 => n as nat,
        _ => 0,
    }
}

/// The tokens that stand for an image in the model's input.
pub open spec fn image_run(s: ProcessorSettings, grid: (i32, i32)) -> Seq<i32> {
    opening(s) + Seq::new(grid_tokens(s, grid), |i: int| s.image_token) + closing(s)
}

/// The ids with each placeholder replaced by the tokens of its image, in order.
pub open spec fn expanded(
    ids: Seq<i32>,
    grids: Seq<(i32, i32)>,
    s: ProcessorSettings,
) -> Seq<i32>
    decreases ids.len(),
{
    if ids.len() == 0 {
        Seq::empty()
    } else {
        let before = ids.drop_last();
        expanded(before, grids, s) + (if ids.last() == s.image_token {
            image_run(s, grids[placeholders(before, s.image_token) as int])
        } else {
            seq![ids.last()]
        })
    }
}

/// The number of ids after the first `k` images took their place among `kept`
/// other ids, or why there is none.
pub open spec fn expanded_len(
    grids: Seq<(i32, i32)>,
    s: ProcessorSettings,
    kept: int,
    k: int,
) -> Result<usize, Error>
    decreases k,
{
    if k <= 0 {
        Ok(kept as usize)
    } else {
        match expanded_len(grids, s, kept, k - 1) {
            Err(e) => Err(e),
            Ok(len) => match token_count(
                grids[k - 1].0,
                grids[k - 1].1,
                s.downsample_factor as i32,
            ) {
                Err(e) => Err(e),
                Ok(n) => {
                    let run = n + opening(s).len() + closing(s).len();
                    if len + run > usize::MAX {
                        Err(
                            overflow(
                                "lfm2_vl expand: cumulative expanded length",
                                "usize",
                                len as i128,
                                run as i128,
                            ),
                        )
                    } else {
                        Ok((len + run) as usize)
                    }
                },
            },
        }
    }
}

/// The number of ids of the expanded prompt, or why it cannot be expanded.
pub open spec fn expansion_outcome(
    ids: Seq<i32>,
    grids: Seq<(i32, i32)>,
    s: ProcessorSettings,
) -> Result<usize, Error> {
    if s.downsample_factor > i32::MAX {
        Err(
            out_of_range(
                "lfm2_vl expand: downsample_factor",
                "must fit in i32",
                s.downsample_factor as i128,
            ),
        )
    } else if placeholders(ids, s.image_token) != grids.len() {
        Err(
            length_mismatch(
                "lfm2_vl expand: <image> placeholder count vs image count (the number of images in the text and images should be the same)",
                grids.len() as usize,
                placeholders(ids, s.image_token) as usize,
            ),
        )
    } else {
        expanded_len(grids, s, ids.len() - grids.len(), grids.len() as int)
    }
}

/// There are no more placeholders than ids.
pub proof fn lemma_placeholders_bound(ids: Seq<i32>, token: i32)
    ensures
        placeholders(ids, token) <= ids.len(),
    decreases ids.len(),
{
    if ids.len() > 0 {
        lemma_placeholders_bound(ids.drop_last(), token);
    }
}

/// A prefix has no more placeholders than the whole.
pub proof fn lemma_placeholders_prefix(ids: Seq<i32>, token: i32, n: int)
    requires
        0 <= n <= ids.len(),
    ensures
        placeholders(ids.take(n), token) <= placeholders(ids, token),
    decreases ids.len(),
{
    if n == ids.len() {
        assert(ids.take(n) =~= ids);
    } else {
        lemma_placeholders_prefix(ids.drop_last(), token, n);
        assert(ids.drop_last().take(n) =~= ids.take(n));
    }
}

/// How many of the ids are the placeholder.
pub fn count_placeholders(ids: &[i32], token: i32) -> (r: usize)
    ensures
        r == placeholders(ids@, token),
        r <= ids@.len(),
{
    let mut n: usize = 0;
    let mut i: usize = 0;
    while i < ids.len()
        invariant
            i <= ids@.len(),
            n == placeholders(ids@.take(i as int), token),
            n <= i,
        decreases ids@.len() - i,
    {
        assert(ids@.take(i + 1).drop_last() =~= ids@.take(i as int));
        if ids[i] == token {
            n += 1;
        }
        i += 1;
    }
    assert(ids@.take(i as int) =~= ids@);
    n
}

fn bracket_count(s: &ProcessorSettings) -> (r: usize)
    ensures
        r == opening(*s).len() + closing(*s).len(),
        r <= 2,
{
    let mut n: usize = 0;
    if s.use_image_special_tokens && s.image_start_token.is_some() {
        n += 1;
    }
    if s.use_image_special_tokens && s.image_end_token.is_some() {
        n += 1;
    }
    n
}

proof fn lemma_expanded_len_prefix(
    grids: Seq<(i32, i32)>,
    s: ProcessorSettings,
    kept: int,
    j: int,
    k: int,
)
    requires
        0 <= j <= k,
        expanded_len(grids, s, kept, k) is Ok,
    ensures
        expanded_len(grids, s, kept, j) is Ok,
    decreases k,
{
    if j < k {
        lemma_expanded_len_prefix(grids, s, kept, j, k - 1);
    }
}

proof fn lemma_expanded_len_refused(
    grids: Seq<(i32, i32)>,
    s: ProcessorSettings,
    kept: int,
    j: int,
    k: int,
)
    requires
        0 <= j <= k,
        expanded_len(grids, s, kept, j) is Err,
    ensures
        expanded_len(grids, s, kept, k) == expanded_len(grids, s, kept, j),
    decreases k,
{
    if j < k {
        lemma_expanded_len_refused(grids, s, kept, j, k - 1);
    }
}

/// The number of ids of the expanded prompt; see [`expansion_outcome`].
pub fn plan_expansion(
    input_ids: &[i32],
    grids: &[(i32, i32)],
    cfg: &Lfm2VlProcessorConfig,
) -> (r: Result<usize, Error>)
    ensures
        r == expansion_outcome(input_ids@, grids@, cfg@),
{
    let s: ProcessorSettings = cfg.settings();
    if s.downsample_factor > i32::MAX as u32 {
        return Err(
            out_of_range(
                "lfm2_vl expand: downsample_factor",
                "must fit in i32",
                s.downsample_factor as i128,
            ),
        );
    }
    let factor: i32 = s.downsample_factor as i32;
    let found: usize = count_placeholders(input_ids, s.image_token);
    let images: usize = grids.len();
    if found != images {
        return Err(
            length_mismatch(
                "lfm2_vl expand: <image> placeholder count vs image count (the number of images in the text and images should be the same)",
                images,
                found,
            ),
        );
    }
    let brackets: usize = bracket_count(&s);
    let kept: usize = input_ids.len() - found;
    let mut len: usize = kept;
    let mut k: usize = 0;
    while k < images
        invariant
            k <= images,
            images == grids@.len(),
            s == cfg@,
            s.downsample_factor <= i32::MAX,
            placeholders(input_ids@, s.image_token) == images,
            kept == input_ids@.len() - images,
            factor == s.downsample_factor as i32,
            brackets == opening(s).len() + closing(s).len(),
            brackets <= 2,
            expanded_len(grids@, s, kept as int, k as int) == Ok::<usize, Error>(len),
        decreases images - k,
    {
        proof {
            if expanded_len(grids@, s, kept as int, k + 1) is Err {
                lemma_expanded_len_refused(grids@, s, kept as int, k + 1, images as int);
            }
        }
        let (rows, cols): (i32, i32) = grids[k];
        let tokens: i32 = num_image_tokens_from_patch_grid(rows, cols, factor)?;
        let run: usize = tokens as usize + brackets;
        match len.checked_add(run) {
            Some(n) => {
                len = n;
            },
            None => {
                return Err(
                    overflow(
                        "lfm2_vl expand: cumulative expanded length",
                        "usize",
                        len as i128,
                        run as i128,
                    ),
                );
            },
        }
        k += 1;
    }
    Ok(len)
}

/// Expands the placeholders of a prompt that [`plan_expansion`] admits into an
/// empty buffer.
pub fn fill_expansion(
    input_ids: &[i32],
    grids: &[(i32, i32)],
    cfg: &Lfm2VlProcessorConfig,
    buffer: Vec<i32>,
) -> (r: Vec<i32>)
    requires
        expansion_outcome(input_ids@, grids@, cfg@) is Ok,
        buffer@.len() == 0,
    ensures
        r@ == expanded(input_ids@, grids@, cfg@),
{
    let s: ProcessorSettings = cfg.settings();
    let factor: i32 = s.downsample_factor as i32;
    let ghost kept = input_ids@.len() - grids@.len();
    let mut out: Vec<i32> = buffer;
    let mut image: usize = 0;
    let mut i: usize = 0;
    assert(out@ =~= expanded(input_ids@.take(0), grids@, s));
    while i < input_ids.len()
        invariant
            i <= input_ids@.len(),
            s == cfg@,
            factor == s.downsample_factor as i32,
            expansion_outcome(input_ids@, grids@, s) is Ok,
            kept == input_ids@.len() - grids@.len(),
            image == placeholders(input_ids@.take(i as int), s.image_token),
            image <= grids@.len(),
            out@ == expanded(input_ids@.take(i as int), grids@, s),
        decreases input_ids@.len() - i,
    {
        let id: i32 = input_ids[i];
        let ghost before = out@;
        proof {
            assert(input_ids@.take(i + 1).drop_last() =~= input_ids@.take(i as int));
            lemma_placeholders_prefix(input_ids@, s.image_token, i + 1);
        }
        if id == s.image_token {
            proof {
                lemma_expanded_len_prefix(grids@, s, kept, image + 1, grids@.len() as int);
            }
            let (rows, cols): (i32, i32) = grids[image];
            if s.use_image_special_tokens {
                match s.image_start_token {
                    Some(start) => {
                        out.push(start);
                    },
                    None => {},
                }
            }
            assert(out@ =~= before + opening(s));
            match num_image_tokens_from_patch_grid(rows, cols, factor) {
                Ok(tokens) => {
                    push_repeated(&mut out, s.image_token, tokens as usize);
                },
                Err(_) => {},
            }
            if s.use_image_special_tokens {
                match s.image_end_token {
                    Some(end) => {
                        out.push(end);
                    },
                    None => {},
                }
            }
            assert(out@ =~= before + image_run(s, grids@[image as int]));
            image += 1;
        } else {
            out.push(id);
            assert(out@ =~= before + seq![id]);
        }
        i += 1;
    }
    assert(input_ids@.take(i as int) =~= input_ids@);
    out
}

/// Replaces each placeholder of a prompt by the tokens of its image.
///
/// A prompt that cannot be expanded is refused as [`expansion_outcome`] says;
/// otherwise the answer is the prompt as [`expanded`] says, or
/// `Error::AllocFailure` where the allocator declines the buffer, which it does not
/// for an empty prompt.
pub fn expand_image_tokens(
    input_ids: &[i32],
    grids: &[(i32, i32)],
    cfg: &Lfm2VlProcessorConfig,
) -> (r: Result<Vec<i32>, Error>)
    ensures
        match expansion_outcome(input_ids@, grids@, cfg@) {
            Err(e) => r == Err::<Vec<i32>, Error>(e),
            Ok(_) => match r {
                Ok(out) => out@ == expanded(input_ids@, grids@, cfg@),
                Err(e) => e == (Error::AllocFailure {
                    context: "lfm2_vl expand: expanded token id",
                }),
            },
        },
        input_ids@.len() == 0 && expansion_outcome(input_ids@, grids@, cfg@) is Ok ==> r is Ok,
{
    let len: usize = plan_expansion(input_ids, grids, cfg)?;
    let buffer: Vec<i32> = reserve_or_error(len, "lfm2_vl expand: expanded token id")?;
    Ok(fill_expansion(input_ids, grids, cfg, buffer))
}

// ---------------------------------------------------------------------------
// Laws
// ---------------------------------------------------------------------------

/// An image has `ceil(rows / factor) * ceil(cols / factor)` tokens: enough blocks
/// of `factor` to cover each axis of its grid, and none to spare.
pub proof fn law_tokens_cover_the_patch_grid(rows: i32, cols: i32, factor: i32)
    requires
        token_count(rows, cols, factor) is Ok,
    ensures
        ({
            let f = factor as int;
            let down_rows = blocks(rows as int, f);
            let down_cols = blocks(cols as int, f);
            &&& token_count(rows, cols, factor)->Ok_0 == down_rows * down_cols
            &&& rows <= down_rows * f < rows + f
            &&& cols <= down_cols * f < cols + f
        }),
{
    lemma_blocks(rows as int, factor as int);
    lemma_blocks(cols as int, factor as int);
}

spec fn run_total(grids: Seq<(i32, i32)>, s: ProcessorSettings, k: int) -> int
    decreases k,
{
    if k <= 0 {
        0
    } else {
        run_total(grids, s, k - 1) + image_run(s, grids[k - 1]).len()
    }
}

proof fn lemma_len_is_total(grids: Seq<(i32, i32)>, s: ProcessorSettings, kept: int, k: int)
    requires
        0 <= kept <= usize::MAX,
        0 <= k,
        expanded_len(grids, s, kept, k) is Ok,
    ensures
        expanded_len(grids, s, kept, k)->Ok_0 == kept + run_total(grids, s, k),
    decreases k,
{
    if k > 0 {
        lemma_len_is_total(grids, s, kept, k - 1);
        let rows = grids[k - 1].0;
        let cols = grids[k - 1].1;
        let f = s.downsample_factor as i32;
        lemma_blocks(rows as int, f as int);
        lemma_blocks(cols as int, f as int);
        assert(blocks(rows as int, f as int) * blocks(cols as int, f as int) > 0)
            by (nonlinear_arith)
            requires
                blocks(rows as int, f as int) > 0,
                blocks(cols as int, f as int) > 0,
        ;
    }
}

proof fn lemma_expanded_is_total(ids: Seq<i32>, grids: Seq<(i32, i32)>, s: ProcessorSettings)
    ensures
        expanded(ids, grids, s).len() == ids.len() - placeholders(ids, s.image_token) + run_total(
            grids,
            s,
            placeholders(ids, s.image_token) as int,
        ),
    decreases ids.len(),
{
    if ids.len() > 0 {
        lemma_expanded_is_total(ids.drop_last(), grids, s);
    }
}

/// The expanded prompt is as long as it was planned to be.
pub proof fn law_expansion_has_the_planned_length(
    ids: Seq<i32>,
    grids: Seq<(i32, i32)>,
    s: ProcessorSettings,
)
    requires
        ids.len() <= usize::MAX,
        expansion_outcome(ids, grids, s) is Ok,
    ensures
        expanded(ids, grids, s).len() == expansion_outcome(ids, grids, s)->Ok_0,
{
    lemma_placeholders_bound(ids, s.image_token);
    lemma_expanded_is_total(ids, grids, s);
    lemma_len_is_total(grids, s, ids.len() - grids.len(), grids.len() as int);
}

/// A prompt without placeholders comes back as it was.
pub proof fn law_no_placeholders_no_change(
    ids: Seq<i32>,
    grids: Seq<(i32, i32)>,
    s: ProcessorSettings,
)
    requires
        placeholders(ids, s.image_token) == 0,
    ensures
        expanded(ids, grids, s) == ids,
    decreases ids.len(),
{
    if ids.len() > 0 {
        law_no_placeholders_no_change(ids.drop_last(), grids, s);
        assert(ids =~= ids.drop_last() + seq![ids.last()]);
    }
}

/// The flag alone decides whether brackets are emitted: with it off, the bracket
/// tokens make no difference.
pub proof fn law_the_flag_gates_the_brackets(
    ids: Seq<i32>,
    grids: Seq<(i32, i32)>,
    s: ProcessorSettings,
)
    requires
        !s.use_image_special_tokens,
    ensures
        expanded(ids, grids, s) == expanded(
            ids,
            grids,
            ProcessorSettings { image_start_token: None, image_end_token: None, ..s },
        ),
    decreases ids.len(),
{
    let bare = ProcessorSettings { image_start_token: None, image_end_token: None, ..s };
    if ids.len() > 0 {
        law_the_flag_gates_the_brackets(ids.drop_last(), grids, s);
        let grid = grids[placeholders(ids.drop_last(), s.image_token) as int];
        assert(image_run(s, grid) =~= image_run(bare, grid));
    }
}

/// The number of placeholder tokens of the first `k` images.
pub open spec fn tokens_of_images(grids: Seq<(i32, i32)>, s: ProcessorSettings, k: int) -> int
    decreases k,
{
    if k <= 0 {
        0
    } else {
        tokens_of_images(grids, s, k - 1) + grid_tokens(s, grids[k - 1])
    }
}

proof fn lemma_placeholders_add(a: Seq<i32>, b: Seq<i32>, token: i32)
    ensures
        placeholders(a + b, token) == placeholders(a, token) + placeholders(b, token),
    decreases b.len(),
{
    if b.len() == 0 {
        assert(a + b =~= a);
    } else {
        lemma_placeholders_add(a, b.drop_last(), token);
        assert((a + b).drop_last() =~= a + b.drop_last());
    }
}

proof fn lemma_placeholders_repeated(token: i32, n: nat)
    ensures
        placeholders(Seq::new(n, |i: int| token), token) == n,
    decreases n,
{
    if n > 0 {
        lemma_placeholders_repeated(token, (n - 1) as nat);
        assert(Seq::new(n, |i: int| token).drop_last() =~= Seq::new(
            (n - 1) as nat,
            |i: int| token,
        ));
    }
}

proof fn lemma_placeholders_one(id: i32, token: i32)
    ensures
        placeholders(seq![id], token) == (if id == token {
            1nat
        } else {
            0nat
        }),
{
    reveal_with_fuel(placeholders, 2);
    assert(seq![id].drop_last() =~= Seq::<i32>::empty());
}

/// The expanded prompt holds one placeholder per token of its images, whether or
/// not they are bracketed, as long as no bracket is itself the placeholder.
pub proof fn law_expansion_holds_the_image_tokens(
    ids: Seq<i32>,
    grids: Seq<(i32, i32)>,
    s: ProcessorSettings,
)
    requires
        s.image_start_token != Some(s.image_token),
        s.image_end_token != Some(s.image_token),
    ensures
        placeholders(expanded(ids, grids, s), s.image_token) == tokens_of_images(
            grids,
            s,
            placeholders(ids, s.image_token) as int,
        ),
    decreases ids.len(),
{
    let token = s.image_token;
    if ids.len() > 0 {
        let before = ids.drop_last();
        law_expansion_holds_the_image_tokens(before, grids, s);
        let grid = grids[placeholders(before, token) as int];
        let run = Seq::new(grid_tokens(s, grid), |i: int| token);
        lemma_placeholders_repeated(token, grid_tokens(s, grid));
        lemma_placeholders_add(opening(s), run, token);
        lemma_placeholders_add(opening(s) + run, closing(s), token);
        if s.image_start_token is Some {
            lemma_placeholders_one(s.image_start_token->Some_0, token);
        }
        if s.image_end_token is Some {
            lemma_placeholders_one(s.image_end_token->Some_0, token);
        }
        lemma_placeholders_one(ids.last(), token);
        lemma_placeholders_add(expanded(before, grids, s), image_run(s, grid), token);
        lemma_placeholders_add(expanded(before, grids, s), seq![ids.last()], token);
    }
}


/// The placeholders of a prompt are counted as often as they occur.
pub proof fn law_placeholders_are_counted(ids: Seq<i32>, token: i32)
    ensures
        placeholders(ids, token) == ids.to_multiset().count(token),
    decreases ids.len(),
{
    broadcast use vstd::seq_lib::group_to_multiset_ensures;

    if ids.len() > 0 {
        law_placeholders_are_counted(ids.drop_last(), token);
        assert(ids.drop_last().push(ids.last()) =~= ids);
    } else {
        assert(ids =~= Seq::<i32>::empty());
    }
}

/// An image of `rows` by `cols` patches has a token for each square of `factor` by
/// `factor` patches, squares that stick out of the grid among them. It has none where a
/// number is not positive, or where an axis rounded up or the number of tokens does not
/// fit.
pub proof fn law_images_have_a_token_per_square(rows: i32, cols: i32, factor: i32)
    ensures
        token_count(rows, cols, factor) is Ok <==> {
            &&& 0 < rows
            &&& 0 < cols
            &&& 0 < factor
            &&& ((rows + factor - 1) / (factor as int)) * factor <= i32::MAX
            &&& ((cols + factor - 1) / (factor as int)) * factor <= i32::MAX
            &&& ((rows + factor - 1) / (factor as int)) * ((cols + factor - 1) / (factor as int))
                <= i32::MAX
        },
        token_count(rows, cols, factor) matches Ok(n) ==> n == ((rows + factor - 1) / (
        factor as int)) * ((cols + factor - 1) / (factor as int)),
{
    if 0 < rows && 0 < cols && 0 < factor {
        lemma_blocks_round_up(rows as int, factor as int);
        lemma_blocks_round_up(cols as int, factor as int);
        let r = (rows + factor - 1) / (factor as int);
        let c = (cols + factor - 1) / (factor as int);
        assert(0 < r <= r * factor && 0 < c <= c * factor && 0 <= r * c) by (nonlinear_arith)
            requires
                0 < factor,
                rows <= r * factor,
                cols <= c * factor,
                0 < rows,
                0 < cols,
        ;
    }
}

/// A number rounded up to a multiple of a factor, in terms of a quotient.
pub proof fn lemma_blocks_round_up(value: int, factor: int)
    requires
        0 <= value,
        0 < factor,
    ensures
        blocks(value, factor) == (value + factor - 1) / factor,
        padded(value, factor) == ((value + factor - 1) / factor) * factor,
        value <= padded(value, factor) < value + factor,
{
    vstd::arithmetic::div_mod::lemma_fundamental_div_mod(value, factor);
    let q = value / factor;
    let r = value % factor;
    assert(factor * q == q * factor) by (nonlinear_arith);
    if r == 0 {
        vstd::arithmetic::div_mod::lemma_fundamental_div_mod_converse(
            value + factor - 1,
            factor,
            q,
            factor - 1,
        );
        vstd::arithmetic::div_mod::lemma_fundamental_div_mod_converse(value, factor, q, 0);
    } else {
        assert((q + 1) * factor == q * factor + factor) by (nonlinear_arith);
        vstd::arithmetic::div_mod::lemma_fundamental_div_mod_converse(
            value + factor - 1,
            factor,
            q + 1,
            r - 1,
        );
        vstd::arithmetic::div_mod::lemma_fundamental_div_mod_converse(
            value + (factor - r),
            factor,
            q + 1,
            0,
        );
    }
}

/// An id that is no placeholder is kept where it stands, and an empty prompt stays
/// empty.
pub proof fn law_other_ids_are_kept(
    ids: Seq<i32>,
    grids: Seq<(i32, i32)>,
    s: ProcessorSettings,
    id: i32,
)
    requires
        id != s.image_token,
    ensures
        expanded(Seq::empty(), grids, s) == Seq::<i32>::empty(),
        expanded(ids.push(id), grids, s) == expanded(ids, grids, s).push(id),
{
    assert(ids.push(id).drop_last() =~= ids);
    assert(expanded(ids, grids, s) + seq![id] =~= expanded(ids, grids, s).push(id));
}

/// The placeholder of an image gives way to a run of placeholders, one for each token of
/// the image at its place in the order; where brackets are in use, the opening one stands
/// before the run and the closing one behind it.
pub proof fn law_a_placeholder_becomes_the_run_of_its_image(
    ids: Seq<i32>,
    grids: Seq<(i32, i32)>,
    s: ProcessorSettings,
)
    requires
        ids.to_multiset().count(s.image_token) < grids.len(),
        0 < s.downsample_factor <= i32::MAX,
    ensures
        ({
            let before = expanded(ids, grids, s);
            let after = expanded(ids.push(s.image_token), grids, s);
            let grid = grids[ids.to_multiset().count(s.image_token) as int];
            let count = token_count(grid.0, grid.1, s.downsample_factor as i32);
            let opens = s.use_image_special_tokens && s.image_start_token is Some;
            let closes = s.use_image_special_tokens && s.image_end_token is Some;
            let lead: int = if opens {
                1
            } else {
                0
            };
            let tail: int = if closes {
                1
            } else {
                0
            };
            count is Ok ==> {
                &&& after.len() == before.len() + lead + count->Ok_0 + tail
                &&& after.subrange(0, before.len() as int) == before
                &&& opens ==> Some(after[before.len() as int]) == s.image_start_token
                &&& closes ==> Some(after[after.len() - 1]) == s.image_end_token
                &&& forall|i: int|
                    before.len() + lead <= i < before.len() + lead + count->Ok_0
                        ==> #[trigger] after[i] == s.image_token
            }
        }),
{
    law_placeholders_are_counted(ids, s.image_token);
    assert(ids.push(s.image_token).drop_last() =~= ids);
    let before = expanded(ids, grids, s);
    let after = expanded(ids.push(s.image_token), grids, s);
    let grid = grids[ids.to_multiset().count(s.image_token) as int];
    law_images_have_a_token_per_square(grid.0, grid.1, s.downsample_factor as i32);
    assert(after == before + image_run(s, grid));
    if token_count(grid.0, grid.1, s.downsample_factor as i32) is Ok {
        lemma_blocks_round_up(grid.0 as int, s.downsample_factor as int);
        lemma_blocks_round_up(grid.1 as int, s.downsample_factor as int);
        let f = s.downsample_factor as int;
        let r = (grid.0 + f - 1) / f;
        let c = (grid.1 + f - 1) / f;
        assert(0 < r * c) by (nonlinear_arith)
            requires
                0 < f,
                0 < grid.0 <= r * f,
                0 < grid.1 <= c * f,
        ;
        assert(after.subrange(0, before.len() as int) =~= before);
    }
}

/// A prompt is expanded where it has as many placeholders as there are images, each of
/// which has tokens, and where the expanded prompt fits.
pub proof fn law_prompts_of_as_many_images_are_expanded(
    ids: Seq<i32>,
    grids: Seq<(i32, i32)>,
    s: ProcessorSettings,
)
    requires
        ids.len() <= usize::MAX,
    ensures
        expansion_outcome(ids, grids, s) is Ok <==> {
            &&& s.downsample_factor <= i32::MAX
            &&& ids.to_multiset().count(s.image_token) == grids.len()
            &&& forall|k: int|
                0 <= k < grids.len() ==> token_count(
                    (#[trigger] grids[k]).0,
                    grids[k].1,
                    s.downsample_factor as i32,
                ) is Ok
            &&& expanded(ids, grids, s).len() <= usize::MAX
        },
        expansion_outcome(ids, grids, s) matches Ok(len) ==> len == expanded(ids, grids, s).len(),
{
    law_placeholders_are_counted(ids, s.image_token);
    lemma_placeholders_are_few(ids, s.image_token);
    if s.downsample_factor <= i32::MAX && placeholders(ids, s.image_token) == grids.len() {
        lemma_expanded_len_is_the_total(grids, s, ids.len() - grids.len(), grids.len() as int);
        lemma_expanded_is_the_total(ids, grids, s);
    }
}

proof fn lemma_placeholders_are_few(ids: Seq<i32>, token: i32)
    ensures
        placeholders(ids, token) <= ids.len(),
    decreases ids.len(),
{
    if ids.len() > 0 {
        lemma_placeholders_are_few(ids.drop_last(), token);
    }
}

proof fn lemma_expanded_len_is_the_total(
    grids: Seq<(i32, i32)>,
    s: ProcessorSettings,
    kept: int,
    k: int,
)
    requires
        0 <= k <= grids.len(),
        0 <= kept <= usize::MAX,
        s.downsample_factor <= i32::MAX,
    ensures
        0 <= run_total(grids, s, k),
        expanded_len(grids, s, kept, k) is Ok <==> {
            &&& forall|j: int|
                0 <= j < k ==> token_count(
                    (#[trigger] grids[j]).0,
                    grids[j].1,
                    s.downsample_factor as i32,
                ) is Ok
            &&& kept + run_total(grids, s, k) <= usize::MAX
        },
        expanded_len(grids, s, kept, k) matches Ok(len) ==> len == kept + run_total(grids, s, k),
    decreases k,
{
    if k > 0 {
        lemma_expanded_len_is_the_total(grids, s, kept, k - 1);
        let grid = grids[k - 1];
        law_images_have_a_token_per_square(grid.0, grid.1, s.downsample_factor as i32);
        if token_count(grid.0, grid.1, s.downsample_factor as i32) is Ok {
            let f = s.downsample_factor as int;
            lemma_blocks_round_up(grid.0 as int, f);
            lemma_blocks_round_up(grid.1 as int, f);
            let r = (grid.0 + f - 1) / f;
            let c = (grid.1 + f - 1) / f;
            assert(0 < r * c) by (nonlinear_arith)
                requires
                    0 < f,
                    0 < grid.0 <= r * f,
                    0 < grid.1 <= c * f,
            ;
        }
    }
}

proof fn lemma_expanded_is_the_total(ids: Seq<i32>, grids: Seq<(i32, i32)>, s: ProcessorSettings)
    requires
        placeholders(ids, s.image_token) <= grids.len(),
    ensures
        expanded(ids, grids, s).len() == ids.len() - placeholders(ids, s.image_token) + run_total(
            grids,
            s,
            placeholders(ids, s.image_token) as int,
        ),
    decreases ids.len(),
{
    if ids.len() > 0 {
        lemma_expanded_is_the_total(ids.drop_last(), grids, s);
    }
}

/// A new processor is made of positive sizes and a token that is no negative number.
pub proof fn law_settings_are_positive(
    image_token: i32,
    downsample_factor: u32,
    patch_size: u32,
    max_num_patches: u32,
)
    ensures
        settings_refused(image_token, downsample_factor, patch_size, max_num_patches) is None <==> {
            &&& 0 < patch_size
            &&& 0 < max_num_patches
            &&& 0 < downsample_factor
            &&& 0 <= image_token
        },
{
}

/// A tiling is admitted where its bounds are positive and in order, where it has at most
/// 1024 tiles and its tiles are whole patches, and where it tolerates something.
pub proof fn law_tilings_are_in_order(t: TilingConfig)
    ensures
        tiling_refused(t) is None <==> {
            &&& 0 < t.min_tiles <= t.max_tiles <= 1024
            &&& 0 < t.min_image_tokens <= t.max_image_tokens
            &&& 0 < t.encoder_patch_size
            &&& 0 < t.tile_size
            &&& t.tile_size as int % t.encoder_patch_size as int == 0
            &&& t.max_pixels_tolerance is Positive
        },
{
}



/// An image without patches, or a factor that is not positive, is out of range; a number of
/// tokens that does not fit is an overflow.
pub proof fn law_refused_grids_say_what_is_wrong(rows: i32, cols: i32, factor: i32)
    ensures
        token_count(rows, cols, factor) matches Err(e) ==> {
            &&& e is OutOfRange <==> rows <= 0 || cols <= 0 || factor <= 0
            &&& e is ArithmeticOverflow <==> 0 < rows && 0 < cols && 0 < factor
        },
{
}

/// A prompt with another number of placeholders than images is refused with both numbers.
pub proof fn law_prompts_of_other_images_are_refused(
    ids: Seq<i32>,
    grids: Seq<(i32, i32)>,
    s: ProcessorSettings,
)
    requires
        s.downsample_factor <= i32::MAX,
        ids.len() <= usize::MAX,
        grids.len() <= usize::MAX,
        ids.to_multiset().count(s.image_token) != grids.len(),
    ensures
        expansion_outcome(ids, grids, s) matches Err(Error::LengthMismatch(p)) && p.expected
            == grids.len() && p.actual == ids.to_multiset().count(s.image_token),
{
    law_placeholders_are_counted(ids, s.image_token);
    lemma_placeholders_are_few(ids, s.image_token);
}

} // verus!
