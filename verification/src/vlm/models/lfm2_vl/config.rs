//! The configuration of an LFM2-VL model, and what makes one admissible.

use vstd::prelude::*;

use crate::error::{self, out_of_range, Error, ErrorModel};
use crate::model_validation::{
    self, checked_mul, isqrt_exact, pin_i32, pin_str, require_cardinality, require_divisible,
    require_in_range, require_positive, require_positive_finite, Single,
};
use crate::text::same_text;

verus! {

/// The largest value of a field that sizes a layer.
pub const MAX_CONFIG_DIM: i32 = 1048576;

/// The largest value of a field that counts layers, heads or channels.
pub const MAX_CARDINALITY: i32 = 4096;

/// The largest value of a field that measures the patch budget of an image.
pub const MAX_PATCH_BUDGET: i32 = 65536;

/// The largest number of tiles that an image may be split into.
pub const MAX_TILES: i32 = 1024;

/// The end-of-sequence token of a configuration that names none.
pub const DEFAULT_EOS_TOKEN_ID: i32 = 7;

/// The bits of one millionth as a double, the default of `layer_norm_eps`.
pub const LAYER_NORM_EPS_BITS: u64 = 0x3EB0_C6F7_A0B5_ED8D;

/// The number of colour channels that the model and its processor work on.
pub const RGB_CHANNELS: i32 = 3;

/// A value, or the default of its field where it is absent.
pub open spec fn or_default<T>(value: Option<T>, default: T) -> T {
    match value {
        Some(v) => v,
        None => default,
    }
}

/// The characters of a text, or those of the default of its field.
pub open spec fn text_or_default(value: Option<String>, default: Seq<char>) -> Seq<char> {
    match value {
        Some(s) => s@,
        None => default,
    }
}

fn int_or(value: Option<i32>, default: i32) -> (r: i32)
    ensures
        r == or_default(value, default),
{
    match value {
        Some(v) => v,
        None => default,
    }
}

fn flag_or(value: Option<bool>, default: bool) -> (r: bool)
    ensures
        r == or_default(value, default),
{
    match value {
        Some(v) => v,
        None => default,
    }
}

fn text_or(value: Option<String>, default: &str) -> (r: String)
    ensures
        r@ == text_or_default(value, default@),
{
    match value {
        Some(s) => s,
        None => default.to_owned(),
    }
}

// ---------------------------------------------------------------------------
// The vision tower
// ---------------------------------------------------------------------------

/// The fields of a vision tower as a document gives them: `None` where a field
/// is absent.
#[derive(Debug)]
pub struct RawVisionConfig {
    pub model_type: Option<String>,
    pub hidden_size: Option<i32>,
    pub intermediate_size: Option<i32>,
    pub num_hidden_layers: Option<i32>,
    pub num_attention_heads: Option<i32>,
    pub num_channels: Option<i32>,
    pub image_size: Option<i32>,
    pub patch_size: Option<i32>,
    pub num_patches: Option<i32>,
    pub layer_norm_eps: Option<u64>,
    pub hidden_act: Option<String>,
}

/// The configuration of the vision tower.
#[derive(Debug)]
pub struct VisionConfig {
    /// The architecture of the tower.
    pub model_type: String,
    /// The width of the transformer.
    pub hidden_size: i32,
    /// The width of the feed-forward layers.
    pub intermediate_size: i32,
    /// The number of encoder layers.
    pub num_hidden_layers: i32,
    /// The number of attention heads.
    pub num_attention_heads: i32,
    /// The number of input channels.
    pub num_channels: i32,
    /// The nominal side of a square image.
    pub image_size: i32,
    /// The side of a patch in pixels.
    pub patch_size: i32,
    /// The number of learned positions, a square.
    pub num_patches: i32,
    /// What the normalisations of the encoder add to a variance: the bits of a
    /// double.
    pub layer_norm_eps: u64,
    /// The activation of the feed-forward layers.
    pub hidden_act: String,
}

/// Whether a vision tower of this kind is supported.
pub open spec fn is_vision_kind(kind: Seq<char>) -> bool {
    kind == "lfm2_vl"@ || kind == "siglip2_vision_model"@
}

/// The width of a flattened patch, or why it has none.
pub open spec fn patch_width(patch_size: i32, num_channels: i32) -> Result<i32, ErrorModel> {
    let refused = error::first(
        model_validation::positive("lfm2_vl::VisionConfig: patch_size", patch_size),
        model_validation::positive("lfm2_vl::VisionConfig: num_channels", num_channels),
    );
    match refused {
        Some(m) => Err(m),
        None => match model_validation::product_i32(
            "lfm2_vl::VisionConfig: patch_size^2",
            patch_size,
            patch_size,
        ) {
            Err(e) => Err(e@),
            Ok(area) => match model_validation::product_i32(
                "lfm2_vl::VisionConfig: num_channels * patch_size^2",
                num_channels,
                area,
            ) {
                Err(e) => Err(e@),
                Ok(n) => Ok(n),
            },
        },
    }
}

impl VisionConfig {
    /// The configuration that a document describes: absent fields take their
    /// defaults.
    pub fn from_raw(raw: RawVisionConfig) -> (r: VisionConfig)
        ensures
            r.model_type@ == text_or_default(raw.model_type, "lfm2_vl"@),
            r.hidden_size == or_default(raw.hidden_size, 768),
            r.intermediate_size == or_default(raw.intermediate_size, 3072),
            r.num_hidden_layers == or_default(raw.num_hidden_layers, 12),
            r.num_attention_heads == or_default(raw.num_attention_heads, 12),
            r.num_channels == or_default(raw.num_channels, 3),
            r.image_size == or_default(raw.image_size, 224),
            r.patch_size == or_default(raw.patch_size, 16),
            r.num_patches == or_default(raw.num_patches, 256),
            r.layer_norm_eps == or_default(raw.layer_norm_eps, LAYER_NORM_EPS_BITS),
            r.hidden_act@ == text_or_default(raw.hidden_act, "gelu_pytorch_tanh"@),
    {
        VisionConfig {
            model_type: text_or(raw.model_type, "lfm2_vl"),
            hidden_size: int_or(raw.hidden_size, 768),
            intermediate_size: int_or(raw.intermediate_size, 3072),
            num_hidden_layers: int_or(raw.num_hidden_layers, 12),
            num_attention_heads: int_or(raw.num_attention_heads, 12),
            num_channels: int_or(raw.num_channels, 3),
            image_size: int_or(raw.image_size, 224),
            patch_size: int_or(raw.patch_size, 16),
            num_patches: int_or(raw.num_patches, 256),
            layer_norm_eps: match raw.layer_norm_eps {
                Some(bits) => bits,
                None => LAYER_NORM_EPS_BITS,
            },
            hidden_act: text_or(raw.hidden_act, "gelu_pytorch_tanh"),
        }
    }

    /// The architecture that the configuration names.
    pub fn model_type(&self) -> (r: &str)
        ensures
            r@ == self.model_type@,
    {
        self.model_type.as_str()
    }

    /// The width of a flattened patch: `num_channels * patch_size^2`.
    pub fn patch_feature_dim(&self) -> (r: Result<i32, Error>)
        ensures
            match patch_width(self.patch_size, self.num_channels) {
                Ok(n) => r == Ok::<i32, Error>(n),
                Err(m) => r matches Err(e) && e@ == m,
            },
    {
        require_positive("lfm2_vl::VisionConfig: patch_size", self.patch_size)?;
        require_positive("lfm2_vl::VisionConfig: num_channels", self.num_channels)?;
        match checked_mul(
            "lfm2_vl::VisionConfig: patch_size^2",
            self.patch_size,
            self.patch_size,
        ) {
            Err(e) => Err(e),
            Ok(area) => checked_mul(
                "lfm2_vl::VisionConfig: num_channels * patch_size^2",
                self.num_channels,
                area,
            ),
        }
    }

    /// The first thing that makes the configuration inadmissible.
    pub open spec fn refused(&self) -> Option<ErrorModel> {
        error::first(
            model_validation::pinned_text(
                "lfm2_vl::VisionConfig: model_type",
                is_vision_kind(self.model_type@),
                self.model_type@,
                "lfm2_vl, siglip2_vision_model",
            ),
            error::first(
                model_validation::pinned_text(
                    "lfm2_vl::VisionConfig: hidden_act",
                    self.hidden_act@ == "gelu_pytorch_tanh"@,
                    self.hidden_act@,
                    "gelu_pytorch_tanh",
                ),
                error::first(
                    self.width_refused(),
                    error::first(
                        self.count_refused(),
                        error::first(
                            model_validation::divisible(
                                "lfm2_vl::VisionConfig: hidden_size, num_attention_heads",
                                self.hidden_size,
                                self.num_attention_heads,
                            ),
                            error::first(
                                model_validation::perfect_square(
                                    "lfm2_vl::VisionConfig: num_patches",
                                    self.num_patches,
                                ),
                                match patch_width(self.patch_size, self.num_channels) {
                                    Ok(_) => None,
                                    Err(m) => Some(m),
                                },
                            ),
                        ),
                    ),
                ),
            ),
        )
    }

    /// The first width that is out of bounds.
    pub open spec fn width_refused(&self) -> Option<ErrorModel> {
        error::first(
            model_validation::in_range(
                "lfm2_vl::VisionConfig: hidden_size",
                self.hidden_size,
                1,
                MAX_CONFIG_DIM,
            ),
            error::first(
                model_validation::in_range(
                    "lfm2_vl::VisionConfig: intermediate_size",
                    self.intermediate_size,
                    1,
                    MAX_CONFIG_DIM,
                ),
                error::first(
                    model_validation::in_range(
                        "lfm2_vl::VisionConfig: image_size",
                        self.image_size,
                        1,
                        MAX_CONFIG_DIM,
                    ),
                    error::first(
                        model_validation::in_range(
                            "lfm2_vl::VisionConfig: patch_size",
                            self.patch_size,
                            1,
                            MAX_CONFIG_DIM,
                        ),
                        model_validation::in_range(
                            "lfm2_vl::VisionConfig: num_patches",
                            self.num_patches,
                            1,
                            MAX_CONFIG_DIM,
                        ),
                    ),
                ),
            ),
        )
    }

    /// The first count that is out of bounds.
    pub open spec fn count_refused(&self) -> Option<ErrorModel> {
        error::first(
            model_validation::cardinality(
                "lfm2_vl::VisionConfig: num_attention_heads",
                self.num_attention_heads,
                MAX_CARDINALITY,
            ),
            error::first(
                model_validation::cardinality(
                    "lfm2_vl::VisionConfig: num_hidden_layers",
                    self.num_hidden_layers,
                    MAX_CARDINALITY,
                ),
                model_validation::cardinality(
                    "lfm2_vl::VisionConfig: num_channels",
                    self.num_channels,
                    MAX_CARDINALITY,
                ),
            ),
        )
    }

    fn check_widths(&self) -> (r: Result<(), Error>)
        ensures
            error::answers(r, self.width_refused()),
    {
        require_in_range(
            "lfm2_vl::VisionConfig: hidden_size",
            self.hidden_size,
            1,
            MAX_CONFIG_DIM,
        )?;
        require_in_range(
            "lfm2_vl::VisionConfig: intermediate_size",
            self.intermediate_size,
            1,
            MAX_CONFIG_DIM,
        )?;
        require_in_range(
            "lfm2_vl::VisionConfig: image_size",
            self.image_size,
            1,
            MAX_CONFIG_DIM,
        )?;
        require_in_range(
            "lfm2_vl::VisionConfig: patch_size",
            self.patch_size,
            1,
            MAX_CONFIG_DIM,
        )?;
        require_in_range(
            "lfm2_vl::VisionConfig: num_patches",
            self.num_patches,
            1,
            MAX_CONFIG_DIM,
        )
    }

    fn check_counts(&self) -> (r: Result<(), Error>)
        ensures
            error::answers(r, self.count_refused()),
    {
        require_cardinality(
            "lfm2_vl::VisionConfig: num_attention_heads",
            self.num_attention_heads,
            MAX_CARDINALITY,
        )?;
        require_cardinality(
            "lfm2_vl::VisionConfig: num_hidden_layers",
            self.num_hidden_layers,
            MAX_CARDINALITY,
        )?;
        require_cardinality(
            "lfm2_vl::VisionConfig: num_channels",
            self.num_channels,
            MAX_CARDINALITY,
        )
    }

    /// Admits the configuration, or refuses it for the first thing that is wrong
    /// with it; see [`VisionConfig::refused`].
    pub fn validate(&self) -> (r: Result<(), Error>)
        ensures
            error::answers(r, self.refused()),
    {
        let kind: &str = self.model_type();
        let known: bool = same_text(kind, "lfm2_vl") || same_text(kind, "siglip2_vision_model");
        pin_str(
            "lfm2_vl::VisionConfig: model_type",
            known,
            kind,
            "lfm2_vl, siglip2_vision_model",
        )?;
        let act: &str = self.hidden_act.as_str();
        pin_str(
            "lfm2_vl::VisionConfig: hidden_act",
            same_text(act, "gelu_pytorch_tanh"),
            act,
            "gelu_pytorch_tanh",
        )?;
        self.check_widths()?;
        self.check_counts()?;
        require_divisible(
            "lfm2_vl::VisionConfig: hidden_size, num_attention_heads",
            self.hidden_size,
            self.num_attention_heads,
        )?;
        isqrt_exact("lfm2_vl::VisionConfig: num_patches", self.num_patches)?;
        match self.patch_feature_dim() {
            Ok(_) => Ok(()),
            Err(e) => Err(e),
        }
    }
}

// ---------------------------------------------------------------------------
// The whole model
// ---------------------------------------------------------------------------

/// A document in JSON, as `serde_json` holds it.
#[verifier::external_type_specification]
#[verifier::external_body]
pub struct ExJsonValue(serde_json::Value);

/// The members of a JSON object that are integers in the range of `i64`; empty
/// for a document that is no object.
pub uninterp spec fn json_integers(document: serde_json::Value) -> Map<Seq<char>, i64>;

/// The integer that a JSON object holds under a key.
///
/// Calls `serde_json::Value::get`, which finds the member of an object, and
/// `serde_json::Value::as_i64`, which gives the number of an integer in the range
/// of `i64`. The contract says that the answer is the entry of the key in the map
/// of such members, and `None` where the map has none.
#[verifier::external_body]
fn integer_member(document: &serde_json::Value, key: &str) -> (r: Option<i64>)
    ensures
        r == member(json_integers(*document), key@),
{
    document.get(key).and_then(serde_json::Value::as_i64)
}

/// The entry of a key, where there is one.
pub open spec fn member(entries: Map<Seq<char>, i64>, key: Seq<char>) -> Option<i64> {
    if entries.contains_key(key) {
        Some(entries[key])
    } else {
        None
    }
}

/// What the model reads of the configuration of its text tower.
#[derive(Debug, Clone, Copy)]
pub struct TextConfig {
    /// The width of the language model.
    pub hidden_size: i32,
    /// The number of token ids.
    pub vocab_size: i32,
}

/// The fields of a model as a document gives them: `None` where a field is absent.
#[derive(Debug)]
pub struct RawModelConfig {
    pub text_config: TextConfig,
    pub vision_config: VisionConfig,
    pub model_type: Option<String>,
    pub downsample_factor: Option<i32>,
    pub image_token_index: Option<i32>,
    pub projector_hidden_size: Option<i32>,
    pub projector_use_layernorm: Option<bool>,
    pub projector_bias: Option<bool>,
    pub vision_feature_layer: Option<i32>,
    pub max_num_patches: Option<i32>,
    pub do_image_splitting: Option<bool>,
    pub encoder_patch_size: Option<i32>,
    pub max_image_tokens: Option<i32>,
    pub min_image_tokens: Option<i32>,
    pub max_tiles: Option<i32>,
    pub min_tiles: Option<i32>,
    pub max_pixels_tolerance: Option<Single>,
    pub tile_size: Option<i32>,
    pub use_thumbnail: Option<bool>,
    pub use_image_special_tokens: Option<bool>,
    pub projector_hidden_act: Option<String>,
    pub eos_token_id: Option<i32>,
    pub quantization: Option<serde_json::Value>,
}

/// The configuration of an LFM2-VL model.
#[derive(Debug)]
pub struct ModelConfig {
    /// The text tower.
    pub text_config: TextConfig,
    /// The vision tower.
    pub vision_config: VisionConfig,
    /// The architecture of the model.
    pub model_type: String,
    /// The number of patches that are folded into one token along each axis.
    pub downsample_factor: i32,
    /// The token that stands for an image.
    pub image_token_index: i32,
    /// The width inside the projector.
    pub projector_hidden_size: i32,
    /// Whether the projector normalises its input.
    pub projector_use_layernorm: bool,
    /// Whether the layers of the projector have biases.
    pub projector_bias: bool,
    /// The encoder layer whose output feeds the projector; `-1` for the last.
    pub vision_feature_layer: i32,
    /// The largest number of patches of an image.
    pub max_num_patches: i32,
    /// Whether a large image is split into tiles.
    pub do_image_splitting: bool,
    /// The side of a patch of a tile in pixels.
    pub encoder_patch_size: i32,
    /// The largest number of tokens that a tile grid aims at.
    pub max_image_tokens: i32,
    /// The smallest number of tokens that a tile grid aims at.
    pub min_image_tokens: i32,
    /// The largest number of tiles.
    pub max_tiles: i32,
    /// The smallest number of tiles.
    pub min_tiles: i32,
    /// How far over the token budget an image may be before it is split.
    pub max_pixels_tolerance: Single,
    /// The side of a tile in pixels.
    pub tile_size: i32,
    /// Whether a split image is followed by a thumbnail.
    pub use_thumbnail: bool,
    /// Whether the tokens of an image are bracketed.
    pub use_image_special_tokens: bool,
    /// The activation of the projector.
    pub projector_hidden_act: String,
    /// The end-of-sequence token, where the document names one.
    pub eos_token_id: Option<i32>,
    /// The quantization of the weights, as the document gives it.
    pub quantization: Option<serde_json::Value>,
}

/// The end-of-sequence token that a document names: the one at the top level, or
/// else the one of the text tower where it fits `i32`.
pub open spec fn named_eos(top: Option<i32>, nested: Option<i64>) -> Option<i32> {
    match top {
        Some(id) => Some(id),
        None => match nested {
            Some(id) if i32::MIN <= id <= i32::MAX => Some(id as i32),
            _ => None,
        },
    }
}

/// Picks the end-of-sequence token; see [`named_eos`].
pub fn choose_eos_token_id(top: Option<i32>, nested: Option<i64>) -> (r: Option<i32>)
    ensures
        r == named_eos(top, nested),
{
    match top {
        Some(id) => Some(id),
        None => match nested {
            Some(id) => if id >= -2147483648 && id <= 2147483647 {
                Some(id as i32)
            } else {
                None
            },
            None => None,
        },
    }
}

/// The end-of-sequence token of a document whose text tower is `text_config`.
pub fn resolve_eos_token_id(top: Option<i32>, text_config: &serde_json::Value) -> (r: Option<i32>)
    ensures
        r == named_eos(top, member(json_integers(*text_config), "eos_token_id"@)),
{
    choose_eos_token_id(top, integer_member(text_config, "eos_token_id"))
}

/// Whether a model of this kind is supported.
pub open spec fn is_model_kind(kind: Seq<char>) -> bool {
    kind == "lfm2-vl"@ || kind == "lfm2_vl"@
}

/// The number of encoder layers that feed the projector, or why there is none.
pub open spec fn layers_kept(vision_feature_layer: i32, num_hidden_layers: i32) -> Result<
    i32,
    Error,
> {
    let kept = if vision_feature_layer == -1 {
        num_hidden_layers as int
    } else if vision_feature_layer == i32::MAX {
        i32::MAX as int
    } else {
        vision_feature_layer + 1
    };
    if 1 <= kept <= num_hidden_layers {
        Ok(kept as i32)
    } else {
        Err(
            out_of_range(
                "lfm2_vl::ModelConfig: vision_feature_layer",
                "resolved kept-layer count must be in [1, vision num_hidden_layers]",
                vision_feature_layer as i128,
            ),
        )
    }
}

/// The number two.
#[verifier::allow_in_spec]
pub fn two() -> Single
    returns
        (Single::Positive { mantissa: 0x80_0000, exponent: -22i32 }),
{
    Single::Positive { mantissa: 0x80_0000, exponent: -22 }
}

impl ModelConfig {
    /// The configuration that a document describes: absent fields take their
    /// defaults, and the end-of-sequence token is looked for at the top level and
    /// then in the text tower, whose document is `text_document`.
    pub fn from_raw(raw: RawModelConfig, text_document: &serde_json::Value) -> (r: ModelConfig)
        ensures
            r.text_config == raw.text_config,
            r.vision_config == raw.vision_config,
            r.model_type@ == text_or_default(raw.model_type, "lfm2-vl"@),
            r.downsample_factor == or_default(raw.downsample_factor, 2),
            r.image_token_index == or_default(raw.image_token_index, 396),
            r.projector_hidden_size == or_default(raw.projector_hidden_size, 2560),
            r.projector_use_layernorm == or_default(raw.projector_use_layernorm, true),
            r.projector_bias == or_default(raw.projector_bias, true),
            r.vision_feature_layer == or_default(raw.vision_feature_layer, -1i32),
            r.max_num_patches == or_default(raw.max_num_patches, 1024),
            r.do_image_splitting == or_default(raw.do_image_splitting, true),
            r.encoder_patch_size == or_default(raw.encoder_patch_size, 16),
            r.max_image_tokens == or_default(raw.max_image_tokens, 256),
            r.min_image_tokens == or_default(raw.min_image_tokens, 64),
            r.max_tiles == or_default(raw.max_tiles, 10),
            r.min_tiles == or_default(raw.min_tiles, 2),
            r.max_pixels_tolerance == or_default(raw.max_pixels_tolerance, two()),
            r.tile_size == or_default(raw.tile_size, 512),
            r.use_thumbnail == or_default(raw.use_thumbnail, false),
            r.use_image_special_tokens == or_default(raw.use_image_special_tokens, true),
            r.projector_hidden_act@ == text_or_default(raw.projector_hidden_act, "gelu"@),
            r.eos_token_id == named_eos(
                raw.eos_token_id,
                member(json_integers(*text_document), "eos_token_id"@),
            ),
            r.quantization == raw.quantization,
    {
        ModelConfig {
            text_config: raw.text_config,
            vision_config: raw.vision_config,
            model_type: text_or(raw.model_type, "lfm2-vl"),
            downsample_factor: int_or(raw.downsample_factor, 2),
            image_token_index: int_or(raw.image_token_index, 396),
            projector_hidden_size: int_or(raw.projector_hidden_size, 2560),
            projector_use_layernorm: flag_or(raw.projector_use_layernorm, true),
            projector_bias: flag_or(raw.projector_bias, true),
            vision_feature_layer: int_or(raw.vision_feature_layer, -1),
            max_num_patches: int_or(raw.max_num_patches, 1024),
            do_image_splitting: flag_or(raw.do_image_splitting, true),
            encoder_patch_size: int_or(raw.encoder_patch_size, 16),
            max_image_tokens: int_or(raw.max_image_tokens, 256),
            min_image_tokens: int_or(raw.min_image_tokens, 64),
            max_tiles: int_or(raw.max_tiles, 10),
            min_tiles: int_or(raw.min_tiles, 2),
            max_pixels_tolerance: match raw.max_pixels_tolerance {
                Some(v) => v,
                None => two(),
            },
            tile_size: int_or(raw.tile_size, 512),
            use_thumbnail: flag_or(raw.use_thumbnail, false),
            use_image_special_tokens: flag_or(raw.use_image_special_tokens, true),
            projector_hidden_act: text_or(raw.projector_hidden_act, "gelu"),
            eos_token_id: resolve_eos_token_id(raw.eos_token_id, text_document),
            quantization: raw.quantization,
        }
    }

    /// The architecture that the configuration names.
    pub fn model_type(&self) -> (r: &str)
        ensures
            r@ == self.model_type@,
    {
        self.model_type.as_str()
    }

    /// The quantization of the weights, where the document gives one.
    pub fn quantization(&self) -> (r: Option<&serde_json::Value>)
        ensures
            match self.quantization {
                Some(block) => r == Some(&block),
                None => r is None,
            },
    {
        self.quantization.as_ref()
    }

    /// The end-of-sequence token: the one that the document names, or else
    /// [`DEFAULT_EOS_TOKEN_ID`].
    pub fn eos_token_id(&self) -> (r: i32)
        ensures
            r == or_default(self.eos_token_id, DEFAULT_EOS_TOKEN_ID),
    {
        match self.eos_token_id {
            Some(id) => id,
            None => DEFAULT_EOS_TOKEN_ID,
        }
    }

    /// The number of encoder layers that are kept: all of them for `-1`, and one
    /// more than `vision_feature_layer` otherwise.
    pub fn vision_feature_layers_kept(&self) -> (r: Result<i32, Error>)
        ensures
            r == layers_kept(self.vision_feature_layer, self.vision_config.num_hidden_layers),
    {
        let total: i32 = self.vision_config.num_hidden_layers;
        let kept: i32 = if self.vision_feature_layer == -1 {
            total
        } else if self.vision_feature_layer == i32::MAX {
            i32::MAX
        } else {
            self.vision_feature_layer + 1
        };
        if kept < 1 || kept > total {
            Err(
                out_of_range(
                    "lfm2_vl::ModelConfig: vision_feature_layer",
                    "resolved kept-layer count must be in [1, vision num_hidden_layers]",
                    self.vision_feature_layer as i128,
                ),
            )
        } else {
            Ok(kept)
        }
    }

    /// The first size that is out of bounds.
    pub open spec fn size_refused(&self) -> Option<ErrorModel> {
        error::first(
            model_validation::in_range(
                "lfm2_vl::ModelConfig: downsample_factor",
                self.downsample_factor,
                1,
                MAX_CONFIG_DIM,
            ),
            error::first(
                model_validation::in_range(
                    "lfm2_vl::ModelConfig: projector_hidden_size",
                    self.projector_hidden_size,
                    1,
                    MAX_CONFIG_DIM,
                ),
                error::first(
                    model_validation::in_range(
                        "lfm2_vl::ModelConfig: max_num_patches",
                        self.max_num_patches,
                        1,
                        MAX_PATCH_BUDGET,
                    ),
                    error::first(
                        model_validation::in_range(
                            "lfm2_vl::ModelConfig: tile_size",
                            self.tile_size,
                            1,
                            MAX_PATCH_BUDGET,
                        ),
                        error::first(
                            model_validation::in_range(
                                "lfm2_vl::ModelConfig: encoder_patch_size",
                                self.encoder_patch_size,
                                1,
                                MAX_PATCH_BUDGET,
                            ),
                            error::first(
                                model_validation::in_range(
                                    "lfm2_vl::ModelConfig: max_image_tokens",
                                    self.max_image_tokens,
                                    1,
                                    MAX_PATCH_BUDGET,
                                ),
                                model_validation::in_range(
                                    "lfm2_vl::ModelConfig: min_image_tokens",
                                    self.min_image_tokens,
                                    1,
                                    MAX_PATCH_BUDGET,
                                ),
                            ),
                        ),
                    ),
                ),
            ),
        )
    }

    /// The first thing that is wrong with the tiling or the token ids.
    pub open spec fn tiling_refused(&self) -> Option<ErrorModel> {
        error::first(
            model_validation::positive("lfm2_vl::ModelConfig: max_tiles", self.max_tiles),
            error::first(
                model_validation::positive("lfm2_vl::ModelConfig: min_tiles", self.min_tiles),
                error::first(
                    error::refusal(
                        self.max_tiles <= MAX_TILES,
                        out_of_range(
                            "lfm2_vl::ModelConfig: max_tiles",
                            "must not exceed the tile-grid cardinality cap (1024)",
                            self.max_tiles as i128,
                        ),
                    ),
                    error::first(
                        ordered(
                            "lfm2_vl::ModelConfig: min_tiles <= max_tiles",
                            self.min_tiles,
                            self.max_tiles,
                        ),
                        error::first(
                            ordered(
                                "lfm2_vl::ModelConfig: min_image_tokens <= max_image_tokens",
                                self.min_image_tokens,
                                self.max_image_tokens,
                            ),
                            error::first(
                                model_validation::positive_finite(
                                    "lfm2_vl::ModelConfig: max_pixels_tolerance",
                                    self.max_pixels_tolerance,
                                ),
                                error::first(
                                    token_id(
                                        "lfm2_vl::ModelConfig: image_token_index",
                                        self.image_token_index,
                                    ),
                                    token_id(
                                        "lfm2_vl::ModelConfig: eos_token_id",
                                        or_default(self.eos_token_id, DEFAULT_EOS_TOKEN_ID),
                                    ),
                                ),
                            ),
                        ),
                    ),
                ),
            ),
        )
    }

    /// The first thing that makes the configuration inadmissible, where `text` is
    /// what makes its text tower so.
    pub open spec fn refused(&self, text: Option<ErrorModel>) -> Option<ErrorModel> {
        error::first(
            model_validation::pinned_text(
                "lfm2_vl::ModelConfig: model_type",
                is_model_kind(self.model_type@),
                self.model_type@,
                "lfm2-vl, lfm2_vl",
            ),
            error::first(
                model_validation::pinned_text(
                    "lfm2_vl::ModelConfig: projector_hidden_act",
                    self.projector_hidden_act@ == "gelu"@,
                    self.projector_hidden_act@,
                    "gelu",
                ),
                error::first(
                    self.size_refused(),
                    error::first(
                        self.tiling_refused(),
                        error::first(
                            text,
                            error::first(
                                self.vision_config.refused(),
                                error::first(
                                    model_validation::pinned(
                                        "lfm2_vl::ModelConfig: vision_config.num_channels",
                                        self.vision_config.num_channels,
                                        RGB_CHANNELS,
                                    ),
                                    match layers_kept(
                                        self.vision_feature_layer,
                                        self.vision_config.num_hidden_layers,
                                    ) {
                                        Ok(_) => None,
                                        Err(e) => Some(e@),
                                    },
                                ),
                            ),
                        ),
                    ),
                ),
            ),
        )
    }

    fn check_sizes(&self) -> (r: Result<(), Error>)
        ensures
            error::answers(r, self.size_refused()),
    {
        require_in_range(
            "lfm2_vl::ModelConfig: downsample_factor",
            self.downsample_factor,
            1,
            MAX_CONFIG_DIM,
        )?;
        require_in_range(
            "lfm2_vl::ModelConfig: projector_hidden_size",
            self.projector_hidden_size,
            1,
            MAX_CONFIG_DIM,
        )?;
        require_in_range(
            "lfm2_vl::ModelConfig: max_num_patches",
            self.max_num_patches,
            1,
            MAX_PATCH_BUDGET,
        )?;
        require_in_range("lfm2_vl::ModelConfig: tile_size", self.tile_size, 1, MAX_PATCH_BUDGET)?;
        require_in_range(
            "lfm2_vl::ModelConfig: encoder_patch_size",
            self.encoder_patch_size,
            1,
            MAX_PATCH_BUDGET,
        )?;
        require_in_range(
            "lfm2_vl::ModelConfig: max_image_tokens",
            self.max_image_tokens,
            1,
            MAX_PATCH_BUDGET,
        )?;
        require_in_range(
            "lfm2_vl::ModelConfig: min_image_tokens",
            self.min_image_tokens,
            1,
            MAX_PATCH_BUDGET,
        )
    }

    fn check_tiling(&self) -> (r: Result<(), Error>)
        ensures
            error::answers(r, self.tiling_refused()),
    {
        require_positive("lfm2_vl::ModelConfig: max_tiles", self.max_tiles)?;
        require_positive("lfm2_vl::ModelConfig: min_tiles", self.min_tiles)?;
        if self.max_tiles > MAX_TILES {
            return Err(
                out_of_range(
                    "lfm2_vl::ModelConfig: max_tiles",
                    "must not exceed the tile-grid cardinality cap (1024)",
                    self.max_tiles as i128,
                ),
            );
        }
        require_ordered(
            "lfm2_vl::ModelConfig: min_tiles <= max_tiles",
            self.min_tiles,
            self.max_tiles,
        )?;
        require_ordered(
            "lfm2_vl::ModelConfig: min_image_tokens <= max_image_tokens",
            self.min_image_tokens,
            self.max_image_tokens,
        )?;
        require_positive_finite(
            "lfm2_vl::ModelConfig: max_pixels_tolerance",
            self.max_pixels_tolerance,
        )?;
        require_token_id("lfm2_vl::ModelConfig: image_token_index", self.image_token_index)?;
        require_token_id("lfm2_vl::ModelConfig: eos_token_id", self.eos_token_id())
    }

    /// Admits the configuration, or refuses it for the first thing that is wrong
    /// with it, where `text` is the verdict on its text tower; see
    /// [`ModelConfig::refused`].
    pub fn validate(&self, text: Result<(), Error>) -> (r: Result<(), Error>)
        ensures
            error::answers(r, self.refused(error::verdict(text))),
    {
        let kind: &str = self.model_type();
        let known: bool = same_text(kind, "lfm2-vl") || same_text(kind, "lfm2_vl");
        pin_str("lfm2_vl::ModelConfig: model_type", known, kind, "lfm2-vl, lfm2_vl")?;
        let act: &str = self.projector_hidden_act.as_str();
        pin_str(
            "lfm2_vl::ModelConfig: projector_hidden_act",
            same_text(act, "gelu"),
            act,
            "gelu",
        )?;
        self.check_sizes()?;
        self.check_tiling()?;
        text?;
        self.vision_config.validate()?;
        pin_i32(
            "lfm2_vl::ModelConfig: vision_config.num_channels",
            self.vision_config.num_channels,
            RGB_CHANNELS,
        )?;
        self.vision_feature_layers_kept()?;
        Ok(())
    }
}

/// The refusal of a band whose minimum is over its maximum.
pub open spec fn ordered(context: &'static str, min: i32, max: i32) -> Option<ErrorModel> {
    error::refusal(
        min <= max,
        out_of_range(context, "the minimum must not exceed the maximum", min as i128),
    )
}

fn require_ordered(context: &'static str, min: i32, max: i32) -> (r: Result<(), Error>)
    ensures
        error::answers(r, ordered(context, min, max)),
{
    if min <= max {
        Ok(())
    } else {
        Err(out_of_range(context, "the minimum must not exceed the maximum", min as i128))
    }
}

/// The refusal of a negative token id.
pub open spec fn token_id(context: &'static str, id: i32) -> Option<ErrorModel> {
    error::refusal(
        id >= 0,
        out_of_range(context, "must be a non-negative token id (>= 0)", id as i128),
    )
}

fn require_token_id(context: &'static str, id: i32) -> (r: Result<(), Error>)
    ensures
        error::answers(r, token_id(context, id)),
{
    if id >= 0 {
        Ok(())
    } else {
        Err(out_of_range(context, "must be a non-negative token id (>= 0)", id as i128))
    }
}

/// What the vision tower is built from, for a configuration that is admitted.
pub proof fn law_admitted_towers_are_bounded(config: VisionConfig)
    requires
        config.refused() is None,
    ensures
        1 <= config.hidden_size <= MAX_CONFIG_DIM,
        1 <= config.intermediate_size <= MAX_CONFIG_DIM,
        1 <= config.image_size <= MAX_CONFIG_DIM,
        1 <= config.patch_size <= MAX_CONFIG_DIM,
        1 <= config.num_patches <= MAX_CONFIG_DIM,
        1 <= config.num_attention_heads <= MAX_CARDINALITY,
        1 <= config.num_hidden_layers <= MAX_CARDINALITY,
        1 <= config.num_channels <= MAX_CARDINALITY,
        config.hidden_size as int % config.num_attention_heads as int == 0,
        exists|side: int| 0 < side && #[trigger] (side * side) == config.num_patches,
        config.num_channels * (config.patch_size * config.patch_size) <= i32::MAX,
{
}

/// An admitted model configuration bounds every field that sizes an allocation,
/// names valid token ids, works on three channels, and keeps at least one encoder
/// layer and no more than there are.
pub proof fn law_admitted_models_are_bounded(config: ModelConfig, text: Option<ErrorModel>)
    requires
        config.refused(text) is None,
    ensures
        text is None,
        config.vision_config.refused() is None,
        config.vision_config.num_channels == 3,
        1 <= config.downsample_factor <= MAX_CONFIG_DIM,
        1 <= config.projector_hidden_size <= MAX_CONFIG_DIM,
        1 <= config.max_num_patches <= MAX_PATCH_BUDGET,
        1 <= config.tile_size <= MAX_PATCH_BUDGET,
        1 <= config.encoder_patch_size <= MAX_PATCH_BUDGET,
        1 <= config.min_image_tokens <= config.max_image_tokens <= MAX_PATCH_BUDGET,
        1 <= config.min_tiles <= config.max_tiles <= MAX_TILES,
        config.max_pixels_tolerance is Positive,
        config.image_token_index >= 0,
        or_default(config.eos_token_id, DEFAULT_EOS_TOKEN_ID) >= 0,
        layers_kept(
            config.vision_feature_layer,
            config.vision_config.num_hidden_layers,
        ) matches Ok(n) && 1 <= n <= config.vision_config.num_hidden_layers,
{
}


/// A value that is there is taken as it is, and the default only in its absence.
pub proof fn law_defaults_fill_what_is_absent<T>(value: T, default: T, text: String, other: Seq<char>)
    ensures
        or_default(Some(value), default) == value,
        or_default(None, default) == default,
        text_or_default(Some(text), other) == text@,
        text_or_default(None, other) == other,
{
}

/// The token at the top level names the end of a sequence; without one, that of the text
/// tower does, where it fits.
pub proof fn law_the_top_level_names_the_end(top: i32, nested: i64)
    ensures
        named_eos(Some(top), Some(nested)) == Some(top),
        named_eos(Some(top), None) == Some(top),
        named_eos(None, None) is None,
        named_eos(None, Some(nested)) is Some <==> -2147483648 <= nested <= 2147483647,
        named_eos(None, Some(nested)) matches Some(id) ==> id == nested,
{
}

/// A flattened patch is as wide as its pixels times its channels, where that fits.
pub proof fn law_patches_are_as_wide_as_their_pixels(patch_size: i32, num_channels: i32)
    ensures
        patch_width(patch_size, num_channels) is Ok <==> 0 < patch_size && 0 < num_channels
            && num_channels * (patch_size * patch_size) <= i32::MAX,
        patch_width(patch_size, num_channels) matches Ok(n) ==> n == num_channels * (patch_size
            * patch_size),
{
    if 0 < patch_size && 0 < num_channels {
        let area = patch_size * patch_size;
        assert(0 < area && area <= num_channels * area) by (nonlinear_arith)
            requires
                area == patch_size * patch_size,
                0 < patch_size,
                0 < num_channels,
        ;
    }
}

/// The layer whose output is taken is counted from zero, and minus one is the last; the
/// layers up to it are kept, where the tower has them.
pub proof fn law_layers_are_kept_up_to_the_feature_layer(layer: i32, count: i32)
    requires
        count < i32::MAX,
    ensures
        layers_kept(layer, count) is Ok <==> (layer == -1 && 1 <= count) || 0 <= layer && layer
            < count,
        layers_kept(layer, count) matches Ok(n) ==> n == if layer == -1 {
            count as int
        } else {
            layer + 1
        },
{
}

/// A vision tower is admitted where it is of a supported kind, its sizes and counts are
/// within their bounds, its heads share its width evenly, its positions form a square, and
/// its patches have a width.
pub proof fn law_towers_within_bounds_are_admitted(config: VisionConfig)
    ensures
        config.refused() is None <==> {
            &&& config.model_type@ == "lfm2_vl"@ || config.model_type@ == "siglip2_vision_model"@
            &&& config.hidden_act@ == "gelu_pytorch_tanh"@
            &&& 1 <= config.hidden_size <= 1048576
            &&& 1 <= config.intermediate_size <= 1048576
            &&& 1 <= config.image_size <= 1048576
            &&& 1 <= config.patch_size <= 1048576
            &&& 1 <= config.num_patches <= 1048576
            &&& 1 <= config.num_attention_heads <= 4096
            &&& 1 <= config.num_hidden_layers <= 4096
            &&& 1 <= config.num_channels <= 4096
            &&& config.hidden_size as int % config.num_attention_heads as int == 0
            &&& exists|side: int| 0 < side && #[trigger] (side * side) == config.num_patches
            &&& config.num_channels * (config.patch_size * config.patch_size) <= i32::MAX
        },
{
    law_patches_are_as_wide_as_their_pixels(config.patch_size, config.num_channels);
}

/// A model is admitted where it is of a supported kind, its sizes, tilings and tokens are
/// within their bounds and in order, its text tower and its vision tower are admitted, the
/// latter with three channels, and its feature layer is one of the tower's.
pub proof fn law_models_within_bounds_are_admitted(config: ModelConfig, text: Option<ErrorModel>)
    ensures
        config.refused(text) is None <==> {
            &&& config.model_type@ == "lfm2-vl"@ || config.model_type@ == "lfm2_vl"@
            &&& config.projector_hidden_act@ == "gelu"@
            &&& 1 <= config.downsample_factor <= 1048576
            &&& 1 <= config.projector_hidden_size <= 1048576
            &&& 1 <= config.max_num_patches <= 65536
            &&& 1 <= config.tile_size <= 65536
            &&& 1 <= config.encoder_patch_size <= 65536
            &&& 1 <= config.min_image_tokens <= config.max_image_tokens <= 65536
            &&& 1 <= config.min_tiles <= config.max_tiles <= 1024
            &&& config.max_pixels_tolerance is Positive
            &&& 0 <= config.image_token_index
            &&& config.eos_token_id matches Some(id) ==> 0 <= id
            &&& text is None
            &&& config.vision_config.refused() is None
            &&& config.vision_config.num_channels == 3
            &&& config.vision_feature_layer == -1 || 0 <= config.vision_feature_layer
                && config.vision_feature_layer < config.vision_config.num_hidden_layers
        },
{
    if config.vision_config.refused() is None {
        law_admitted_towers_are_bounded(config.vision_config);
        law_layers_are_kept_up_to_the_feature_layer(
            config.vision_feature_layer,
            config.vision_config.num_hidden_layers,
        );
    }
}


/// A key has the entry that stands under it, and none where nothing does.
pub proof fn law_members_are_the_entries(entries: Map<Seq<char>, i64>, key: Seq<char>)
    ensures
        entries.contains_key(key) ==> member(entries, key) == Some(entries[key]),
        !entries.contains_key(key) ==> member(entries, key) is None,
{
}

} // verus!
