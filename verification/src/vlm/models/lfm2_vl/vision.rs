//! The vision tower: its weights, its heads, its positions, and the keys that its
//! attention leaves out.

use vstd::prelude::*;

use crate::array::{self, exchange, Array, ArrayModel};
use crate::buffer::{push_repeated, reserve_or_error};
use crate::error::{
    self, length_mismatch, out_of_range, overflow, rank_mismatch, Error, ErrorModel,
};
use crate::model_validation::{
    self, checked_mul, isqrt_exact, require_divisible, require_positive,
};
use crate::text::{self, joined, push_decimal};
use crate::vlm::models::lfm2_vl::config::VisionConfig;
use crate::vlm::models::lfm2_vl::layers::{
    self, take_linear_with_bias, take_norm, Linear, Norm, Schemes,
};
use crate::vlm::models::lfm2_vl::projector::{self, dim_i32, saturating_product};
use crate::weights::{self, WeightMap};

verus! {

// ---------------------------------------------------------------------------
// Weights
// ---------------------------------------------------------------------------

/// The lookup that a missing weight of the tower names.
#[verifier::allow_in_spec]
pub fn tower_context() -> &'static str
    returns
        "lfm2_vl::VisionModel::from_weights",
{
    "lfm2_vl::VisionModel::from_weights"
}

/// How the width of the transformer is split among the attention heads.
#[derive(Debug, Clone, Copy, PartialEq, Eq, Structural)]
pub struct LayerDims {
    /// The number of attention heads.
    pub num_heads: i32,
    /// The width of one head.
    pub head_dim: i32,
}

/// The split of a width among heads, or why there is none.
pub open spec fn head_split(hidden: i32, num_heads: i32) -> Result<LayerDims, ErrorModel> {
    let refused = error::first(
        model_validation::positive("lfm2_vl vision: num_attention_heads", num_heads),
        model_validation::divisible(
            "lfm2_vl vision: hidden_size, num_attention_heads",
            hidden,
            num_heads,
        ),
    );
    match refused {
        Some(m) => Err(m),
        None => Ok(LayerDims { num_heads, head_dim: (hidden as int / num_heads as int) as i32 }),
    }
}

impl LayerDims {
    /// Splits a width among heads, whose number has to divide it.
    pub fn new(hidden: i32, num_heads: i32) -> (r: Result<Self, Error>)
        requires
            hidden >= 0,
        ensures
            match head_split(hidden, num_heads) {
                Ok(dims) => r == Ok::<Self, Error>(dims),
                Err(m) => r matches Err(e) && e@ == m,
            },
    {
        require_positive("lfm2_vl vision: num_attention_heads", num_heads)?;
        require_divisible("lfm2_vl vision: hidden_size, num_attention_heads", hidden, num_heads)?;
        Ok(LayerDims { num_heads, head_dim: hidden / num_heads })
    }
}

/// The self-attention of an encoder layer.
#[derive(Debug)]
pub struct Attention<W> {
    pub q_proj: Linear<W>,
    pub k_proj: Linear<W>,
    pub v_proj: Linear<W>,
    pub out_proj: Linear<W>,
    pub dims: LayerDims,
}

/// The feed-forward part of an encoder layer.
#[derive(Debug)]
pub struct Mlp<W> {
    pub fc1: Linear<W>,
    pub fc2: Linear<W>,
}

/// One encoder layer.
#[derive(Debug)]
pub struct EncoderLayer<W> {
    pub layer_norm1: Norm<W>,
    pub self_attn: Attention<W>,
    pub layer_norm2: Norm<W>,
    pub mlp: Mlp<W>,
}

/// A linear layer of the tower: its scheme is looked up under its full path.
pub open spec fn tower_linear<W>(
    m: Map<Seq<char>, W>,
    path: Seq<char>,
    schemes: Schemes,
    tower: Seq<char>,
) -> Result<(Linear<W>, Map<Seq<char>, W>), ErrorModel> {
    layers::linear_with_bias(m, tower_context(), path, schemes.covers(tower + path))
}

fn take_tower_linear<W>(
    weights: &mut WeightMap<W>,
    path: &str,
    schemes: &Schemes,
    tower: &str,
) -> (r: Result<Linear<W>, Error>)
    ensures
        weights::took(
            r,
            old(weights)@,
            final(weights)@,
            tower_linear(old(weights)@, path@, *schemes, tower@),
        ),
{
    take_linear_with_bias(weights, tower_context(), path, schemes.has_scheme(tower, path))
}

/// The self-attention under a prefix, and what is left.
pub open spec fn attention<W>(
    m: Map<Seq<char>, W>,
    prefix: Seq<char>,
    dims: LayerDims,
    schemes: Schemes,
    tower: Seq<char>,
) -> Result<(Attention<W>, Map<Seq<char>, W>), ErrorModel> {
    match tower_linear(m, prefix + ".q_proj"@, schemes, tower) {
        Err(e) => Err(e),
        Ok((q_proj, m1)) => match tower_linear(m1, prefix + ".k_proj"@, schemes, tower) {
            Err(e) => Err(e),
            Ok((k_proj, m2)) => match tower_linear(m2, prefix + ".v_proj"@, schemes, tower) {
                Err(e) => Err(e),
                Ok((v_proj, m3)) => match tower_linear(m3, prefix + ".out_proj"@, schemes, tower) {
                    Err(e) => Err(e),
                    Ok((out_proj, m4)) => Ok(
                        (Attention { q_proj, k_proj, v_proj, out_proj, dims }, m4),
                    ),
                },
            },
        },
    }
}

fn take_attention<W>(
    weights: &mut WeightMap<W>,
    prefix: &str,
    dims: LayerDims,
    schemes: &Schemes,
    tower: &str,
) -> (r: Result<Attention<W>, Error>)
    ensures
        weights::took(
            r,
            old(weights)@,
            final(weights)@,
            attention(old(weights)@, prefix@, dims, *schemes, tower@),
        ),
{
    let q_proj: Linear<W> = take_tower_linear(
        weights,
        joined(prefix, ".q_proj").as_str(),
        schemes,
        tower,
    )?;
    let k_proj: Linear<W> = take_tower_linear(
        weights,
        joined(prefix, ".k_proj").as_str(),
        schemes,
        tower,
    )?;
    let v_proj: Linear<W> = take_tower_linear(
        weights,
        joined(prefix, ".v_proj").as_str(),
        schemes,
        tower,
    )?;
    let out_proj: Linear<W> = take_tower_linear(
        weights,
        joined(prefix, ".out_proj").as_str(),
        schemes,
        tower,
    )?;
    Ok(Attention { q_proj, k_proj, v_proj, out_proj, dims })
}

/// The feed-forward part under a prefix, and what is left.
pub open spec fn mlp<W>(
    m: Map<Seq<char>, W>,
    prefix: Seq<char>,
    schemes: Schemes,
    tower: Seq<char>,
) -> Result<(Mlp<W>, Map<Seq<char>, W>), ErrorModel> {
    match tower_linear(m, prefix + ".fc1"@, schemes, tower) {
        Err(e) => Err(e),
        Ok((fc1, m1)) => match tower_linear(m1, prefix + ".fc2"@, schemes, tower) {
            Err(e) => Err(e),
            Ok((fc2, m2)) => Ok((Mlp { fc1, fc2 }, m2)),
        },
    }
}

fn take_mlp<W>(weights: &mut WeightMap<W>, prefix: &str, schemes: &Schemes, tower: &str) -> (r:
    Result<Mlp<W>, Error>)
    ensures
        weights::took(
            r,
            old(weights)@,
            final(weights)@,
            mlp(old(weights)@, prefix@, *schemes, tower@),
        ),
{
    let fc1: Linear<W> = take_tower_linear(
        weights,
        joined(prefix, ".fc1").as_str(),
        schemes,
        tower,
    )?;
    let fc2: Linear<W> = take_tower_linear(
        weights,
        joined(prefix, ".fc2").as_str(),
        schemes,
        tower,
    )?;
    Ok(Mlp { fc1, fc2 })
}

/// The path of an encoder layer.
pub open spec fn layer_path(i: nat) -> Seq<char> {
    "encoder.layers."@ + text::decimal(i)
}

/// An encoder layer, and what is left.
pub open spec fn encoder_layer<W>(
    m: Map<Seq<char>, W>,
    i: nat,
    dims: LayerDims,
    schemes: Schemes,
    tower: Seq<char>,
) -> Result<(EncoderLayer<W>, Map<Seq<char>, W>), ErrorModel> {
    let path = layer_path(i);
    match layers::norm(m, tower_context(), path + ".layer_norm1"@) {
        Err(e) => Err(e),
        Ok((layer_norm1, m1)) => match attention(m1, path + ".self_attn"@, dims, schemes, tower) {
            Err(e) => Err(e),
            Ok((self_attn, m2)) => match layers::norm(
                m2,
                tower_context(),
                path + ".layer_norm2"@,
            ) {
                Err(e) => Err(e),
                Ok((layer_norm2, m3)) => match mlp(m3, path + ".mlp"@, schemes, tower) {
                    Err(e) => Err(e),
                    Ok((mlp, m4)) => Ok(
                        (EncoderLayer { layer_norm1, self_attn, layer_norm2, mlp }, m4),
                    ),
                },
            },
        },
    }
}

fn take_encoder_layer<W>(
    weights: &mut WeightMap<W>,
    i: usize,
    dims: LayerDims,
    schemes: &Schemes,
    tower: &str,
) -> (r: Result<EncoderLayer<W>, Error>)
    ensures
        weights::took(
            r,
            old(weights)@,
            final(weights)@,
            encoder_layer(old(weights)@, i as nat, dims, *schemes, tower@),
        ),
{
    let mut path: String = "encoder.layers.".to_owned();
    push_decimal(&mut path, i);
    let layer_norm1: Norm<W> = take_norm(
        weights,
        tower_context(),
        joined(path.as_str(), ".layer_norm1").as_str(),
    )?;
    let self_attn: Attention<W> = take_attention(
        weights,
        joined(path.as_str(), ".self_attn").as_str(),
        dims,
        schemes,
        tower,
    )?;
    let layer_norm2: Norm<W> = take_norm(
        weights,
        tower_context(),
        joined(path.as_str(), ".layer_norm2").as_str(),
    )?;
    let mlp: Mlp<W> = take_mlp(weights, joined(path.as_str(), ".mlp").as_str(), schemes, tower)?;
    Ok(EncoderLayer { layer_norm1, self_attn, layer_norm2, mlp })
}

/// The first `count` encoder layers, and what is left.
pub open spec fn encoder_layers<W>(
    m: Map<Seq<char>, W>,
    count: nat,
    dims: LayerDims,
    schemes: Schemes,
    tower: Seq<char>,
) -> Result<(Seq<EncoderLayer<W>>, Map<Seq<char>, W>), ErrorModel>
    decreases count,
{
    if count == 0 {
        Ok((Seq::empty(), m))
    } else {
        match encoder_layers(m, (count - 1) as nat, dims, schemes, tower) {
            Err(e) => Err(e),
            Ok((taken, rest)) => match encoder_layer(
                rest,
                (count - 1) as nat,
                dims,
                schemes,
                tower,
            ) {
                Err(e) => Err(e),
                Ok((layer, rest)) => Ok((taken.push(layer), rest)),
            },
        }
    }
}

proof fn lemma_layers_refused<W>(
    m: Map<Seq<char>, W>,
    j: nat,
    count: nat,
    dims: LayerDims,
    schemes: Schemes,
    tower: Seq<char>,
)
    requires
        j <= count,
        encoder_layers(m, j, dims, schemes, tower) is Err,
    ensures
        encoder_layers(m, count, dims, schemes, tower) == encoder_layers(
            m,
            j,
            dims,
            schemes,
            tower,
        ),
    decreases count,
{
    if j < count {
        lemma_layers_refused(m, j, (count - 1) as nat, dims, schemes, tower);
    }
}

/// A result by what its vector holds.
pub open spec fn contents<T>(r: Result<Vec<T>, Error>) -> Result<Seq<T>, Error> {
    match r {
        Ok(v) => Ok(v@),
        Err(e) => Err(e),
    }
}

fn take_encoder_layers<W>(
    weights: &mut WeightMap<W>,
    count: usize,
    dims: LayerDims,
    schemes: &Schemes,
    tower: &str,
    buffer: Vec<EncoderLayer<W>>,
) -> (r: Result<Vec<EncoderLayer<W>>, Error>)
    requires
        buffer@.len() == 0,
    ensures
        weights::took(
            contents(r),
            old(weights)@,
            final(weights)@,
            encoder_layers(old(weights)@, count as nat, dims, *schemes, tower@),
        ),
{
    let ghost before = weights@;
    let mut out: Vec<EncoderLayer<W>> = buffer;
    let mut i: usize = 0;
    assert(out@ =~= Seq::empty());
    while i < count
        invariant
            i <= count,
            before == old(weights)@,
            weights::is_part(weights@, before),
            encoder_layers(before, i as nat, dims, *schemes, tower@) == Ok::<
                (Seq<EncoderLayer<W>>, Map<Seq<char>, W>),
                ErrorModel,
            >((out@, weights@)),
        decreases count - i,
    {
        proof {
            if encoder_layers(before, (i + 1) as nat, dims, *schemes, tower@) is Err {
                lemma_layers_refused(before, (i + 1) as nat, count as nat, dims, *schemes, tower@);
            }
        }
        let layer: EncoderLayer<W> = take_encoder_layer(weights, i, dims, schemes, tower)?;
        out.push(layer);
        i += 1;
    }
    Ok(out)
}

/// The weights of the vision tower.
#[derive(Debug)]
pub struct VisionModel<W> {
    /// The layer that embeds the flattened patches.
    pub patch_embedding: Linear<W>,
    /// The table of the learned positions.
    pub position_embedding: W,
    /// The side of the square grid of learned positions.
    pub pos_grid_side: i32,
    /// The encoder layers that are kept.
    pub layers: Vec<EncoderLayer<W>>,
    /// The normalisation of the output.
    pub post_layernorm: Norm<W>,
    /// The width of the transformer.
    pub hidden: i32,
}

/// The vision tower by what it holds.
#[verifier::ext_equal]
pub struct TowerModel<W> {
    pub patch_embedding: Linear<W>,
    pub position_embedding: W,
    pub pos_grid_side: i32,
    pub layers: Seq<EncoderLayer<W>>,
    pub post_layernorm: Norm<W>,
    pub hidden: i32,
}

impl<W> View for VisionModel<W> {
    type V = TowerModel<W>;

    open spec fn view(&self) -> TowerModel<W> {
        TowerModel {
            patch_embedding: self.patch_embedding,
            position_embedding: self.position_embedding,
            pos_grid_side: self.pos_grid_side,
            layers: self.layers@,
            post_layernorm: self.post_layernorm,
            hidden: self.hidden,
        }
    }
}

/// Why a tower cannot be built of a configuration, whatever the weights.
pub open spec fn tower_refused(config: VisionConfig, layers_kept: i32) -> Option<ErrorModel> {
    error::first(
        config.refused(),
        error::refusal(
            1 <= layers_kept <= config.num_hidden_layers,
            out_of_range(
                "lfm2_vl vision: layers_kept (vision_feature_layer + 1)",
                "must be in [1, num_hidden_layers]",
                layers_kept as i128,
            ),
        ),
    )
}

/// The side of a square, where the number is one.
pub open spec fn square_side(value: int) -> int {
    choose|side: int| 0 < side && #[trigger] (side * side) == value
}

/// The vision tower and what is left of the weights, or the first thing that is
/// missing.
pub open spec fn tower<W>(
    m: Map<Seq<char>, W>,
    config: VisionConfig,
    layers_kept: i32,
    schemes: Schemes,
    prefix: Seq<char>,
) -> Result<(TowerModel<W>, Map<Seq<char>, W>), ErrorModel> {
    let dims = LayerDims {
        num_heads: config.num_attention_heads,
        head_dim: (config.hidden_size as int / config.num_attention_heads as int) as i32,
    };
    match tower_linear(m, "embeddings.patch_embedding"@, schemes, prefix) {
        Err(e) => Err(e),
        Ok((patch_embedding, m1)) => match weights::taken(
            m1,
            tower_context(),
            "embeddings.position_embedding.weight"@,
        ) {
            Err(e) => Err(e),
            Ok((position_embedding, m2)) => match encoder_layers(
                m2,
                layers_kept as nat,
                dims,
                schemes,
                prefix,
            ) {
                Err(e) => Err(e),
                Ok((layers, m3)) => match layers::norm(m3, tower_context(), "post_layernorm"@) {
                    Err(e) => Err(e),
                    Ok((post_layernorm, m4)) => Ok(
                        (
                            TowerModel {
                                patch_embedding,
                                position_embedding,
                                pos_grid_side: square_side(config.num_patches as int) as i32,
                                layers,
                                post_layernorm,
                                hidden: config.hidden_size,
                            },
                            m4,
                        ),
                    ),
                },
            },
        },
    }
}

/// A tower by what it holds, or the refusal.
pub open spec fn tower_contents<W>(r: Result<VisionModel<W>, Error>) -> Result<
    TowerModel<W>,
    Error,
> {
    match r {
        Ok(t) => Ok(t@),
        Err(e) => Err(e),
    }
}

/// Admits a configuration and a number of layers; see [`tower_refused`].
pub fn check_tower(config: &VisionConfig, layers_kept: i32) -> (r: Result<(), Error>)
    ensures
        error::answers(r, tower_refused(*config, layers_kept)),
{
    config.validate()?;
    if layers_kept < 1 || layers_kept > config.num_hidden_layers {
        return Err(
            out_of_range(
                "lfm2_vl vision: layers_kept (vision_feature_layer + 1)",
                "must be in [1, num_hidden_layers]",
                layers_kept as i128,
            ),
        );
    }
    Ok(())
}

proof fn lemma_side_is_unique(value: int, side: int)
    requires
        0 < side,
        side * side == value,
    ensures
        square_side(value) == side,
{
    let other = square_side(value);
    assert(other == side) by (nonlinear_arith)
        requires
            0 < side,
            0 < other,
            side * side == other * other,
    ;
}

impl<W> VisionModel<W> {
    /// Takes the tower off the weights, whose names have lost `prefix`, for a
    /// configuration that [`check_tower`] admits; see [`tower`]. The encoder layers
    /// go into the empty `buffer`.
    pub fn take(
        config: &VisionConfig,
        layers_kept: i32,
        weights: &mut WeightMap<W>,
        schemes: &Schemes,
        prefix: &str,
        buffer: Vec<EncoderLayer<W>>,
    ) -> (r: Result<Self, Error>)
        requires
            tower_refused(*config, layers_kept) is None,
            buffer@.len() == 0,
        ensures
            weights::took(
                tower_contents(r),
                old(weights)@,
                final(weights)@,
                tower(old(weights)@, *config, layers_kept, *schemes, prefix@),
            ),
    {
        let dims: LayerDims = LayerDims::new(config.hidden_size, config.num_attention_heads)?;
        let patch_embedding: Linear<W> = take_tower_linear(
            weights,
            "embeddings.patch_embedding",
            schemes,
            prefix,
        )?;
        let position_embedding: W = weights.take_weight(
            tower_context(),
            "embeddings.position_embedding.weight",
        )?;
        let pos_grid_side: i32 = isqrt_exact(
            "lfm2_vl::VisionConfig: num_patches",
            config.num_patches,
        )?;
        proof {
            lemma_side_is_unique(config.num_patches as int, pos_grid_side as int);
        }
        let layers: Vec<EncoderLayer<W>> = take_encoder_layers(
            weights,
            layers_kept as usize,
            dims,
            schemes,
            prefix,
            buffer,
        )?;
        let post_layernorm: Norm<W> = take_norm(weights, tower_context(), "post_layernorm")?;
        Ok(
            VisionModel {
                patch_embedding,
                position_embedding,
                pos_grid_side,
                layers,
                post_layernorm,
                hidden: config.hidden_size,
            },
        )
    }

    /// Takes the tower off the weights, whose names have lost `prefix`; see
    /// [`tower_refused`] and [`tower`].
    ///
    /// A configuration that is admitted can still fail for want of memory; nothing
    /// is taken then.
    pub fn from_weights(
        config: &VisionConfig,
        layers_kept: i32,
        weights: &mut WeightMap<W>,
        schemes: &Schemes,
        prefix: &str,
    ) -> (r: Result<Self, Error>)
        ensures
            match tower_refused(*config, layers_kept) {
                Some(m) => r matches Err(e) && e@ == m && final(weights)@ == old(weights)@,
                None => {
                    ||| r == Err::<Self, Error>(
                        Error::AllocFailure { context: "lfm2_vl EncoderLayer" },
                    ) && final(weights)@ == old(weights)@
                    ||| weights::took(
                        tower_contents(r),
                        old(weights)@,
                        final(weights)@,
                        tower(old(weights)@, *config, layers_kept, *schemes, prefix@),
                    )
                },
            },
    {
        check_tower(config, layers_kept)?;
        let buffer: Vec<EncoderLayer<W>> = reserve_or_error(
            layers_kept as usize,
            "lfm2_vl EncoderLayer",
        )?;
        Self::take(config, layers_kept, weights, schemes, prefix, buffer)
    }

    /// Drops the weights that hold no parameters.
    pub fn sanitize(weights: &mut WeightMap<W>)
        ensures
            final(weights)@ == weights::without_part(old(weights)@, "position_ids"@),
    {
        weights.drop_containing("position_ids");
    }
}

proof fn lemma_layer_count<W>(
    m: Map<Seq<char>, W>,
    count: nat,
    dims: LayerDims,
    schemes: Schemes,
    prefix: Seq<char>,
)
    requires
        encoder_layers(m, count, dims, schemes, prefix) is Ok,
    ensures
        encoder_layers(m, count, dims, schemes, prefix)->Ok_0.0.len() == count,
    decreases count,
{
    if count > 0 {
        lemma_layer_count(m, (count - 1) as nat, dims, schemes, prefix);
    }
}

/// A tower has the layers that are kept, in order, and no others.
pub proof fn law_the_kept_layers_are_built<W>(
    m: Map<Seq<char>, W>,
    config: VisionConfig,
    layers_kept: i32,
    schemes: Schemes,
    prefix: Seq<char>,
)
    requires
        tower_refused(config, layers_kept) is None,
        tower(m, config, layers_kept, schemes, prefix) is Ok,
    ensures
        tower(m, config, layers_kept, schemes, prefix)->Ok_0.0.layers.len() == layers_kept,
        1 <= layers_kept <= config.num_hidden_layers,
{
    let m1 = tower_linear(m, "embeddings.patch_embedding"@, schemes, prefix)->Ok_0.1;
    let m2 = weights::taken(m1, tower_context(), "embeddings.position_embedding.weight"@)->Ok_0.1;
    let dims = LayerDims {
        num_heads: config.num_attention_heads,
        head_dim: (config.hidden_size as int / config.num_attention_heads as int) as i32,
    };
    lemma_layer_count(m2, layers_kept as nat, dims, schemes, prefix);
}

// ---------------------------------------------------------------------------
// Attention heads
// ---------------------------------------------------------------------------

/// Why hidden states cannot be split among heads, if they cannot.
pub open spec fn split_outcome(shape: Seq<usize>, dims: LayerDims) -> Result<(), Error> {
    if shape.len() != 3 {
        Err(
            rank_mismatch(
                "lfm2_vl vision Attention: hidden states must be rank-3 (B, L, C)",
                shape.len() as usize,
            ),
        )
    } else if shape[2] != dims.num_heads * dims.head_dim {
        Err(
            length_mismatch(
                "lfm2_vl vision Attention: num_heads * head_dim vs hidden width",
                (dims.num_heads * dims.head_dim) as usize,
                shape[2],
            ),
        )
    } else {
        Ok(())
    }
}

/// Hidden states `(B, L, C)` as heads `(B, n_heads, L, head_dim)`.
pub open spec fn heads<T>(x: ArrayModel<T>, dims: LayerDims) -> ArrayModel<T> {
    ArrayModel {
        shape: seq![x.shape[0], dims.num_heads as usize, x.shape[1], dims.head_dim as usize],
        data: array::exchanged(
            x.data,
            x.shape[0] as int,
            dims.num_heads as int,
            x.shape[1] as int,
            dims.head_dim as int,
        ),
    }
}

/// Why heads cannot be joined, if they cannot.
pub open spec fn join_outcome(shape: Seq<usize>, dims: LayerDims) -> Result<(), Error> {
    if shape.len() != 4 {
        Err(
            rank_mismatch(
                "lfm2_vl vision Attention: heads must be rank-4 (B, n_heads, L, head_dim)",
                shape.len() as usize,
            ),
        )
    } else if shape[1] != dims.num_heads {
        Err(
            length_mismatch(
                "lfm2_vl vision Attention: number of heads",
                dims.num_heads as usize,
                shape[1],
            ),
        )
    } else if shape[3] != dims.head_dim {
        Err(
            length_mismatch(
                "lfm2_vl vision Attention: head width",
                dims.head_dim as usize,
                shape[3],
            ),
        )
    } else {
        Ok(())
    }
}

/// Heads `(B, n_heads, L, head_dim)` as hidden states `(B, L, C)`.
pub open spec fn joined_heads<T>(x: ArrayModel<T>, dims: LayerDims) -> ArrayModel<T> {
    ArrayModel {
        shape: seq![x.shape[0], x.shape[2], (dims.num_heads * dims.head_dim) as usize],
        data: array::exchanged(
            x.data,
            x.shape[0] as int,
            x.shape[2] as int,
            dims.num_heads as int,
            dims.head_dim as int,
        ),
    }
}

/// Whether a split can be carried out: both parts are positive, and so small that
/// their product is a width.
pub open spec fn is_split(dims: LayerDims) -> bool {
    0 < dims.num_heads && 0 < dims.head_dim && dims.num_heads * dims.head_dim <= i32::MAX
}

proof fn lemma_rows_fit(b: int, l: int, h: int, d: int)
    requires
        0 <= b,
        0 <= l,
        0 < h,
        0 < d,
    ensures
        b * l * h * d == b * l * (h * d),
        b * l * h <= b * l * h * d,
        b * h * l == b * l * h,
        b * h * l * d == b * l * h * d,
        0 <= b * l * h,
{
    assert(b * l * h * d == b * l * (h * d)) by (nonlinear_arith);
    assert(b * h * l == b * l * h) by (nonlinear_arith);
    assert(0 <= b * l) by (nonlinear_arith)
        requires
            0 <= b,
            0 <= l,
    ;
    let a = b * l;
    assert(0 <= a * h) by (nonlinear_arith)
        requires
            0 <= a,
            0 < h,
    ;
    let rows = a * h;
    assert(rows <= rows * d) by (nonlinear_arith)
        requires
            0 <= rows,
            1 <= d,
    ;
}

/// Splits hidden states among the heads; see [`split_outcome`] and [`heads`].
///
/// States that are not refused can still fail for want of memory, unless they have
/// no items.
pub fn split_heads<T: Copy>(x: &Array<T>, dims: LayerDims) -> (r: Result<Array<T>, Error>)
    requires
        is_split(dims),
    ensures
        match split_outcome(x@.shape, dims) {
            Err(e) => r == Err::<Array<T>, Error>(e),
            Ok(_) => match r {
                Ok(out) => out@ == heads(x@, dims),
                Err(e) => e == (Error::AllocFailure {
                    context: "lfm2_vl vision Attention: heads",
                }),
            },
        },
        x@.data.len() == 0 && split_outcome(x@.shape, dims) is Ok ==> r is Ok,
{
    let shape: &Vec<usize> = x.shape();
    if shape.len() != 3 {
        return Err(
            rank_mismatch(
                "lfm2_vl vision Attention: hidden states must be rank-3 (B, L, C)",
                shape.len(),
            ),
        );
    }
    assert(0 < dims.num_heads * dims.head_dim) by (nonlinear_arith)
        requires
            0 < dims.num_heads,
            0 < dims.head_dim,
    ;
    let width: i32 = dims.num_heads * dims.head_dim;
    if shape[2] != width as usize {
        return Err(
            length_mismatch(
                "lfm2_vl vision Attention: num_heads * head_dim vs hidden width",
                width as usize,
                shape[2],
            ),
        );
    }
    let (b, l): (usize, usize) = (shape[0], shape[1]);
    let (h, d): (usize, usize) = (dims.num_heads as usize, dims.head_dim as usize);
    let len: usize = x.len();
    proof {
        assert(shape@ =~= seq![b, l, width as usize]);
        array::lemma_product_3(b, l, width as usize);
        lemma_rows_fit(b as int, l as int, h as int, d as int);
    }
    let buffer: Vec<T> = reserve_or_error(len, "lfm2_vl vision Attention: heads")?;
    let data: Vec<T> = exchange(x.data().as_slice(), b, h, l, d, buffer);
    let out_shape: Vec<usize> = vec![b, h, l, d];
    proof {
        assert(out_shape@ =~= seq![b, h, l, d]);
        array::lemma_product_4(b, h, l, d);
    }
    let out: Array<T> = Array::of(data, out_shape);
    assert(out@ =~= heads(x@, dims));
    Ok(out)
}

/// Joins the heads again; see [`join_outcome`] and [`joined_heads`].
///
/// Heads that are not refused can still fail for want of memory, unless they have no
/// items.
pub fn join_heads<T: Copy>(x: &Array<T>, dims: LayerDims) -> (r: Result<Array<T>, Error>)
    requires
        is_split(dims),
    ensures
        match join_outcome(x@.shape, dims) {
            Err(e) => r == Err::<Array<T>, Error>(e),
            Ok(_) => match r {
                Ok(out) => out@ == joined_heads(x@, dims),
                Err(e) => e == (Error::AllocFailure {
                    context: "lfm2_vl vision Attention: hidden states",
                }),
            },
        },
        x@.data.len() == 0 && join_outcome(x@.shape, dims) is Ok ==> r is Ok,
{
    let shape: &Vec<usize> = x.shape();
    if shape.len() != 4 {
        return Err(
            rank_mismatch(
                "lfm2_vl vision Attention: heads must be rank-4 (B, n_heads, L, head_dim)",
                shape.len(),
            ),
        );
    }
    if shape[1] != dims.num_heads as usize {
        return Err(
            length_mismatch(
                "lfm2_vl vision Attention: number of heads",
                dims.num_heads as usize,
                shape[1],
            ),
        );
    }
    if shape[3] != dims.head_dim as usize {
        return Err(
            length_mismatch(
                "lfm2_vl vision Attention: head width",
                dims.head_dim as usize,
                shape[3],
            ),
        );
    }
    let (b, l): (usize, usize) = (shape[0], shape[2]);
    let (h, d): (usize, usize) = (shape[1], shape[3]);
    let len: usize = x.len();
    proof {
        assert(shape@ =~= seq![b, h, l, d]);
        array::lemma_product_4(b, h, l, d);
        lemma_rows_fit(b as int, l as int, h as int, d as int);
    }
    let buffer: Vec<T> = reserve_or_error(len, "lfm2_vl vision Attention: hidden states")?;
    let data: Vec<T> = exchange(x.data().as_slice(), b, l, h, d, buffer);
    assert(0 < dims.num_heads * dims.head_dim) by (nonlinear_arith)
        requires
            0 < dims.num_heads,
            0 < dims.head_dim,
    ;
    let width: i32 = dims.num_heads * dims.head_dim;
    let out_shape: Vec<usize> = vec![b, l, width as usize];
    proof {
        assert(out_shape@ =~= seq![b, l, width as usize]);
        array::lemma_product_3(b, l, width as usize);
    }
    let out: Array<T> = Array::of(data, out_shape);
    assert(out@ =~= joined_heads(x@, dims));
    Ok(out)
}

/// Joining heads undoes splitting them.
pub proof fn law_joining_undoes_splitting<T>(x: ArrayModel<T>, dims: LayerDims)
    requires
        is_split(dims),
        split_outcome(x.shape, dims) is Ok,
        x.data.len() == x.shape[0] * x.shape[1] * x.shape[2],
    ensures
        join_outcome(heads(x, dims).shape, dims) is Ok,
        joined_heads(heads(x, dims), dims) == x,
{
    let b = x.shape[0] as int;
    let l = x.shape[1] as int;
    let h = dims.num_heads as int;
    let d = dims.head_dim as int;
    lemma_rows_fit(b, l, h, d);
    array::law_exchanging_twice_changes_nothing(x.data, b, h, l, d);
    assert(joined_heads(heads(x, dims), dims).shape =~= x.shape);
    assert(joined_heads(heads(x, dims), dims) =~= x);
}

// ---------------------------------------------------------------------------
// Grids and masks
// ---------------------------------------------------------------------------

/// The number of patches of an image with the given grid, or why the grid is
/// refused.
pub open spec fn active_patches(rows: i32, cols: i32, num_patches: i32) -> Result<i32, Error> {
    if rows <= 0 {
        Err(out_of_range("lfm2_vl vision: H_patch", "must be positive (> 0)", rows as i128))
    } else if cols <= 0 {
        Err(out_of_range("lfm2_vl vision: W_patch", "must be positive (> 0)", cols as i128))
    } else {
        match model_validation::product_i32("lfm2_vl vision: H_patch * W_patch", rows, cols) {
            Err(e) => Err(e),
            Ok(active) => if active > num_patches {
                Err(
                    out_of_range(
                        "lfm2_vl vision: active patches (H_p * W_p)",
                        "must not exceed num_patches (the pixel_values patch dim)",
                        active as i128,
                    ),
                )
            } else {
                Ok(active)
            },
        }
    }
}

/// The number of patches of an image with the given grid; see [`active_patches`].
pub fn validate_active_grid(rows: i32, cols: i32, num_patches: i32) -> (r: Result<i32, Error>)
    ensures
        r == active_patches(rows, cols, num_patches),
        r matches Ok(n) ==> 0 < n <= num_patches && n == rows * cols,
{
    require_positive("lfm2_vl vision: H_patch", rows)?;
    require_positive("lfm2_vl vision: W_patch", cols)?;
    let active: i32 = checked_mul("lfm2_vl vision: H_patch * W_patch", rows, cols)?;
    assert(0 < rows * cols) by (nonlinear_arith)
        requires
            0 < rows,
            0 < cols,
    ;
    if active > num_patches {
        return Err(
            out_of_range(
                "lfm2_vl vision: active patches (H_p * W_p)",
                "must not exceed num_patches (the pixel_values patch dim)",
                active as i128,
            ),
        );
    }
    Ok(active)
}

/// The patch grids of the images of a batch: the pairs of an `(N, 2)` array.
pub open spec fn grids_of(shapes: ArrayModel<i32>) -> Seq<(i32, i32)> {
    Seq::new(
        shapes.shape[0] as nat,
        |i: int| (shapes.data[2 * i], shapes.data[2 * i + 1]),
    )
}

/// Reads the patch grids of `n` images into an empty buffer.
pub fn fill_grids(shapes: &Array<i32>, n: usize, buffer: Vec<(i32, i32)>) -> (r: Vec<(i32, i32)>)
    requires
        shapes@.shape == seq![n, 2usize],
        buffer@.len() == 0,
    ensures
        r@ == grids_of(shapes@),
{
    let len: usize = shapes.len();
    proof {
        array::lemma_product_2(n, 2);
    }
    let data: &Vec<i32> = shapes.data();
    let mut out: Vec<(i32, i32)> = buffer;
    let mut i: usize = 0;
    while i < n
        invariant
            i <= n,
            data@ == shapes@.data,
            len == data@.len(),
            len == n * 2,
            out@.len() == i,
            forall|j: int|
                0 <= j < i ==> #[trigger] out@[j] == (shapes@.data[2 * j], shapes@.data[2 * j + 1]),
        decreases n - i,
    {
        out.push((data[2 * i], data[2 * i + 1]));
        i += 1;
    }
    assert(out@ =~= grids_of(shapes@));
    out
}

/// Requires an `(N, 2)` array.
fn check_spatial_shapes(spatial_shapes: &Array<i32>, n: usize) -> (r: Result<(), Error>)
    ensures
        r == (if spatial_shapes@.shape == seq![n, 2usize] {
            Ok::<(), Error>(())
        } else {
            Err(
                rank_mismatch(
                    "lfm2_vl vision: spatial_shapes must be (N, 2) [H_patch, W_patch] per image",
                    spatial_shapes@.shape.len() as usize,
                ),
            )
        }),
{
    let shape: &Vec<usize> = spatial_shapes.shape();
    if shape.len() != 2 || shape[0] != n || shape[1] != 2 {
        return Err(
            rank_mismatch(
                "lfm2_vl vision: spatial_shapes must be (N, 2) [H_patch, W_patch] per image",
                shape.len(),
            ),
        );
    }
    assert(shape@ =~= seq![n, 2usize]);
    Ok(())
}

/// Reads the patch grids of `n` images off an `(N, 2)` array.
///
/// Grids that are not refused can still fail for want of memory, unless there are
/// none.
pub fn read_spatial_shapes(spatial_shapes: &Array<i32>, n: usize) -> (r: Result<
    Vec<(i32, i32)>,
    Error,
>)
    ensures
        spatial_shapes@.shape != seq![n, 2usize] ==> r == Err::<Vec<(i32, i32)>, Error>(
            rank_mismatch(
                "lfm2_vl vision: spatial_shapes must be (N, 2) [H_patch, W_patch] per image",
                spatial_shapes@.shape.len() as usize,
            ),
        ),
        spatial_shapes@.shape == seq![n, 2usize] ==> match r {
            Ok(grids) => grids@ == grids_of(spatial_shapes@),
            Err(e) => e == (Error::AllocFailure { context: "lfm2_vl vision spatial shape" }),
        },
        n == 0 && spatial_shapes@.shape == seq![n, 2usize] ==> r is Ok,
{
    check_spatial_shapes(spatial_shapes, n)?;
    let buffer: Vec<(i32, i32)> = reserve_or_error(n, "lfm2_vl vision spatial shape")?;
    Ok(fill_grids(spatial_shapes, n, buffer))
}

/// The first refusal of the grids from `i` on.
pub open spec fn first_bad_grid(grids: Seq<(i32, i32)>, num_patches: i32, i: int) -> Result<
    (),
    Error,
>
    decreases grids.len() - i,
{
    if i < 0 || i >= grids.len() {
        Ok(())
    } else {
        match active_patches(grids[i].0, grids[i].1, num_patches) {
            Err(e) => Err(e),
            Ok(_) => first_bad_grid(grids, num_patches, i + 1),
        }
    }
}

/// Whether every grid fits the patch budget.
pub open spec fn grids_fit(grids: Seq<(i32, i32)>, num_patches: i32) -> bool {
    forall|i: int|
        0 <= i < grids.len() ==> active_patches(
            (#[trigger] grids[i]).0,
            grids[i].1,
            num_patches,
        ) is Ok
}

/// Admits the grids of a batch, or refuses the first that does not fit.
pub fn check_grids(shapes: &Array<i32>, n: usize, num_patches: i32) -> (r: Result<(), Error>)
    requires
        shapes@.shape == seq![n, 2usize],
    ensures
        r == first_bad_grid(grids_of(shapes@), num_patches, 0),
        r is Ok <==> grids_fit(grids_of(shapes@), num_patches),
{
    let ghost grids = grids_of(shapes@);
    let len: usize = shapes.len();
    proof {
        array::lemma_product_2(n, 2);
    }
    let data: &Vec<i32> = shapes.data();
    let mut i: usize = 0;
    while i < n
        invariant
            i <= n,
            data@ == shapes@.data,
            len == data@.len(),
            len == n * 2,
            shapes@.shape == seq![n, 2usize],
            grids == grids_of(shapes@),
            first_bad_grid(grids, num_patches, 0) == first_bad_grid(grids, num_patches, i as int),
            forall|j: int|
                0 <= j < i ==> active_patches((#[trigger] grids[j]).0, grids[j].1, num_patches) is Ok,
        decreases n - i,
    {
        match validate_active_grid(data[2 * i], data[2 * i + 1], num_patches) {
            Ok(_) => {
                assert(active_patches(grids[i as int].0, grids[i as int].1, num_patches) is Ok);
            },
            Err(e) => {
                assert(active_patches(grids[i as int].0, grids[i as int].1, num_patches) is Err);
                return Err(e);
            },
        }
        i += 1;
    }
    Ok(())
}

/// Whether some image of a batch has fewer patches than the budget.
pub open spec fn some_padding(grids: Seq<(i32, i32)>, num_patches: i32) -> bool {
    exists|i: int|
        0 <= i < grids.len() && (#[trigger] grids[i]).0 * grids[i].1 < num_patches
}

/// Whether some image of a batch has fewer patches than the budget.
pub fn has_padding(shapes: &Array<i32>, n: usize, num_patches: i32) -> (r: bool)
    requires
        shapes@.shape == seq![n, 2usize],
        grids_fit(grids_of(shapes@), num_patches),
    ensures
        r == some_padding(grids_of(shapes@), num_patches),
{
    let ghost grids = grids_of(shapes@);
    let len: usize = shapes.len();
    proof {
        array::lemma_product_2(n, 2);
    }
    let data: &Vec<i32> = shapes.data();
    let mut i: usize = 0;
    while i < n
        invariant
            i <= n,
            data@ == shapes@.data,
            len == data@.len(),
            len == n * 2,
            shapes@.shape == seq![n, 2usize],
            grids == grids_of(shapes@),
            grids_fit(grids, num_patches),
            forall|j: int| 0 <= j < i ==> (#[trigger] grids[j]).0 * grids[j].1 >= num_patches,
        decreases n - i,
    {
        let rows: i32 = data[2 * i];
        let cols: i32 = data[2 * i + 1];
        assert(active_patches(grids[i as int].0, grids[i as int].1, num_patches) is Ok);
        assert(0 < rows * cols) by (nonlinear_arith)
            requires
                0 < rows,
                0 < cols,
        ;
        if rows * cols < num_patches {
            assert(grids[i as int].0 * grids[i as int].1 < num_patches);
            return true;
        }
        i += 1;
    }
    false
}

/// The values of the keys of a batch: `active` for the patches of an image, and
/// `padded` past them.
pub open spec fn key_values<T>(
    grids: Seq<(i32, i32)>,
    num_patches: int,
    active: T,
    padded: T,
    images: int,
) -> Seq<T> {
    Seq::new(
        (images * num_patches) as nat,
        |k: int|
            if k % num_patches < grids[k / num_patches].0 * grids[k / num_patches].1 {
                active
            } else {
                padded
            },
    )
}

/// The mask of the keys of a batch.
pub open spec fn key_mask<T>(
    grids: Seq<(i32, i32)>,
    num_patches: i32,
    active: T,
    padded: T,
) -> ArrayModel<T> {
    ArrayModel {
        shape: seq![grids.len() as usize, 1, 1, num_patches as usize],
        data: key_values(grids, num_patches as int, active, padded, grids.len() as int),
    }
}

/// The number of items of a key mask, or an overflow.
pub open spec fn mask_items(images: nat, num_patches: i32) -> Result<usize, Error> {
    if images * num_patches > i32::MAX {
        Err(
            overflow(
                "lfm2_vl vision: attention mask elements (N * num_patches)",
                "i32",
                images as i128,
                num_patches as i128,
            ),
        )
    } else {
        Ok((images * num_patches) as usize)
    }
}

/// The number of items of a key mask; see [`mask_items`].
pub fn plan_attention_mask(images: usize, num_patches: i32) -> (r: Result<usize, Error>)
    requires
        num_patches >= 0,
    ensures
        r == mask_items(images as nat, num_patches),
{
    assert(0 <= images * num_patches <= usize::MAX * 0x7fff_ffff) by (nonlinear_arith)
        requires
            0 <= images <= usize::MAX,
            0 <= num_patches <= 0x7fff_ffff,
    ;
    let items: u128 = images as u128 * num_patches as u128;
    if items > i32::MAX as u128 {
        return Err(
            overflow(
                "lfm2_vl vision: attention mask elements (N * num_patches)",
                "i32",
                images as i128,
                num_patches as i128,
            ),
        );
    }
    Ok(items as usize)
}

/// Fills an empty buffer with the values of the keys of a batch.
fn fill_keys<T: Copy>(
    grids: &[(i32, i32)],
    num_patches: i32,
    active: T,
    padded: T,
    buffer: Vec<T>,
) -> (r: Vec<T>)
    requires
        grids_fit(grids@, num_patches),
        buffer@.len() == 0,
    ensures
        r@ == key_values(grids@, num_patches as int, active, padded, grids@.len() as int),
{
    let ghost np = num_patches as int;
    let ghost g = |k: int|
        if k % np < grids@[k / np].0 * grids@[k / np].1 {
            active
        } else {
            padded
        };
    let mut out: Vec<T> = buffer;
    let mut i: usize = 0;
    assert(out@ =~= Seq::new((0 * np) as nat, g));
    while i < grids.len()
        invariant
            i <= grids@.len(),
            grids_fit(grids@, num_patches),
            np == num_patches,
            g == (|k: int|
                if k % np < grids@[k / np].0 * grids@[k / np].1 {
                    active
                } else {
                    padded
                }),
            out@ == Seq::new((i * np) as nat, g),
        decreases grids@.len() - i,
    {
        let (rows, cols): (i32, i32) = grids[i];
        let ghost before = out@;
        assert(active_patches(grids@[i as int].0, grids@[i as int].1, num_patches) is Ok);
        assert(0 < rows * cols) by (nonlinear_arith)
            requires
                0 < rows,
                0 < cols,
        ;
        let count: i32 = rows * cols;
        push_repeated(&mut out, active, count as usize);
        push_repeated(&mut out, padded, (num_patches - count) as usize);
        proof {
            array::lemma_block_position(i as int, np, 0);
            assert forall|k: int| 0 <= k < (i + 1) * np implies #[trigger] out@[k] == g(k) by {
                if k < i * np {
                    assert(out@[k] == before[k]);
                } else {
                    array::lemma_block_position(i as int, np, k - i * np);
                }
            }
            assert(out@ =~= Seq::new(((i + 1) * np) as nat, g));
        }
        i += 1;
    }
    assert(out@ =~= key_values(grids@, np, active, padded, grids@.len() as int));
    out
}

/// Builds the mask of the keys of a batch from its grids alone; see
/// [`mask_items`] and [`key_mask`].
///
/// A mask that is not refused can still fail for want of memory, unless there are no
/// images.
pub fn build_attention_mask<T: Copy>(
    grids: &[(i32, i32)],
    num_patches: i32,
    active: T,
    padded: T,
) -> (r: Result<Array<T>, Error>)
    requires
        grids_fit(grids@, num_patches),
        num_patches >= 0,
    ensures
        match mask_items(grids@.len(), num_patches) {
            Err(e) => r == Err::<Array<T>, Error>(e),
            Ok(_) => match r {
                Ok(mask) => mask@ == key_mask(grids@, num_patches, active, padded),
                Err(e) => e == (Error::AllocFailure { context: "lfm2_vl vision attention mask" }),
            },
        },
        grids@.len() == 0 ==> r is Ok,
{
    assert(0 * num_patches == 0) by (nonlinear_arith);
    let items: usize = plan_attention_mask(grids.len(), num_patches)?;
    let buffer: Vec<T> = reserve_or_error(items, "lfm2_vl vision attention mask")?;
    Ok(fill_attention_mask(grids, num_patches, active, padded, buffer))
}

/// Makes a mask that is admitted in an empty buffer; see [`key_mask`].
pub fn fill_attention_mask<T: Copy>(
    grids: &[(i32, i32)],
    num_patches: i32,
    active: T,
    padded: T,
    buffer: Vec<T>,
) -> (r: Array<T>)
    requires
        grids_fit(grids@, num_patches),
        num_patches >= 0,
        mask_items(grids@.len(), num_patches) is Ok,
        buffer@.len() == 0,
    ensures
        r@ == key_mask(grids@, num_patches, active, padded),
{
    let n: usize = grids.len();
    let data: Vec<T> = fill_keys(grids, num_patches, active, padded, buffer);
    let shape: Vec<usize> = vec![n, 1, 1, num_patches as usize];
    proof {
        assert(shape@ =~= seq![n, 1, 1, num_patches as usize]);
        array::lemma_product_4(n, 1, 1, num_patches as usize);
    }
    let mask: Array<T> = Array::of(data, shape);
    assert(mask@ =~= key_mask(grids@, num_patches, active, padded));
    mask
}

/// What the encoder needs to know of a batch beyond its patches.
#[derive(Debug)]
pub struct ForwardPlan<T> {
    /// The number of patches of each image, padding included.
    pub num_patches: i32,
    /// The patch grid of each image.
    pub grids: Vec<(i32, i32)>,
    /// The mask of the keys, where some are to be left out.
    pub mask: Option<Array<T>>,
}

/// Why a batch is refused before it reaches the encoder, if it is.
pub open spec fn forward_refused(
    pixels: Seq<usize>,
    shapes: ArrayModel<i32>,
    companion: Option<Seq<usize>>,
) -> Result<(), Error> {
    if pixels.len() != 3 {
        Err(
            rank_mismatch(
                "lfm2_vl vision: pixel_values must be rank-3 (N, num_patches, patch_feature_dim)",
                pixels.len() as usize,
            ),
        )
    } else {
        match projector::extent_i32(pixels[1], "lfm2_vl vision: num_patches") {
            Err(e) => Err(e),
            Ok(num_patches) => if shapes.shape != seq![pixels[0], 2usize] {
                Err(
                    rank_mismatch(
                        "lfm2_vl vision: spatial_shapes must be (N, 2) [H_patch, W_patch] per image",
                        shapes.shape.len() as usize,
                    ),
                )
            } else {
                match first_bad_grid(grids_of(shapes), num_patches, 0) {
                    Err(e) => Err(e),
                    Ok(_) => match companion {
                        None => Ok(()),
                        Some(shape) => if shape != seq![pixels[0], pixels[1]] {
                            Err(
                                rank_mismatch(
                                    "lfm2_vl vision: pixel_attention_mask must be (N, num_patches) matching pixel_values",
                                    shape.len() as usize,
                                ),
                            )
                        } else if some_padding(grids_of(shapes), num_patches) {
                            match mask_items(pixels[0] as nat, num_patches) {
                                Err(e) => Err(e),
                                Ok(_) => Ok(()),
                            }
                        } else {
                            Ok(())
                        },
                    },
                }
            },
        }
    }
}

/// The mask of a batch: only where a companion mask is given and some image is
/// padded, and then made of the grids alone.
pub open spec fn forward_mask<T>(
    pixels: Seq<usize>,
    shapes: ArrayModel<i32>,
    companion: Option<Seq<usize>>,
    active: T,
    padded: T,
) -> Option<ArrayModel<T>> {
    if companion is Some && some_padding(grids_of(shapes), pixels[1] as i32) {
        Some(key_mask(grids_of(shapes), pixels[1] as i32, active, padded))
    } else {
        None
    }
}

/// What an optional array holds.
pub open spec fn optional_model<T>(a: Option<Array<T>>) -> Option<ArrayModel<T>> {
    match a {
        Some(a) => Some(a@),
        None => None,
    }
}

/// The shape of an optional array.
pub open spec fn optional_shape<T>(a: Option<&Array<T>>) -> Option<Seq<usize>> {
    match a {
        Some(a) => Some(a@.shape),
        None => None,
    }
}

/// Checks the companion mask of a batch, whose content does not matter.
pub fn validate_mask_shape<T>(mask: &Array<T>, n: usize, num_patches: usize) -> (r: Result<
    (),
    Error,
>)
    ensures
        r == (if mask@.shape == seq![n, num_patches] {
            Ok::<(), Error>(())
        } else {
            Err(
                rank_mismatch(
                    "lfm2_vl vision: pixel_attention_mask must be (N, num_patches) matching pixel_values",
                    mask@.shape.len() as usize,
                ),
            )
        }),
{
    let shape: &Vec<usize> = mask.shape();
    if shape.len() != 2 || shape[0] != n || shape[1] != num_patches {
        return Err(
            rank_mismatch(
                "lfm2_vl vision: pixel_attention_mask must be (N, num_patches) matching pixel_values",
                shape.len(),
            ),
        );
    }
    assert(shape@ =~= seq![n, num_patches]);
    Ok(())
}

/// Admits a batch, or refuses it; see [`forward_refused`].
pub fn check_forward<P, M>(
    pixel_values: &Array<P>,
    spatial_shapes: &Array<i32>,
    pixel_attention_mask: Option<&Array<M>>,
) -> (r: Result<(), Error>)
    ensures
        r == forward_refused(
            pixel_values@.shape,
            spatial_shapes@,
            optional_shape(pixel_attention_mask),
        ),
{
    let shape: &Vec<usize> = pixel_values.shape();
    if shape.len() != 3 {
        return Err(
            rank_mismatch(
                "lfm2_vl vision: pixel_values must be rank-3 (N, num_patches, patch_feature_dim)",
                shape.len(),
            ),
        );
    }
    let n: usize = shape[0];
    let num_patches: i32 = dim_i32(shape[1], "lfm2_vl vision: num_patches")?;
    check_spatial_shapes(spatial_shapes, n)?;
    check_grids(spatial_shapes, n, num_patches)?;
    match pixel_attention_mask {
        None => {},
        Some(companion) => {
            validate_mask_shape(companion, n, shape[1])?;
            if has_padding(spatial_shapes, n, num_patches) {
                plan_attention_mask(n, num_patches)?;
            }
        },
    }
    Ok(())
}

/// Plans the pass of a batch through the tower; see [`forward_refused`] and
/// [`forward_mask`]. A key that is to be seen counts `active`, another one
/// `padded`.
///
/// A batch that is not refused can still fail for want of memory, unless it has no
/// images.
pub fn plan_forward<P, M, T: Copy>(
    pixel_values: &Array<P>,
    spatial_shapes: &Array<i32>,
    pixel_attention_mask: Option<&Array<M>>,
    active: T,
    padded: T,
) -> (r: Result<ForwardPlan<T>, Error>)
    ensures
        match forward_refused(
            pixel_values@.shape,
            spatial_shapes@,
            optional_shape(pixel_attention_mask),
        ) {
            Err(e) => r == Err::<ForwardPlan<T>, Error>(e),
            Ok(_) => match r {
                Ok(plan) => {
                    &&& plan.num_patches == pixel_values@.shape[1]
                    &&& plan.grids@ == grids_of(spatial_shapes@)
                    &&& optional_model(plan.mask) == forward_mask(
                        pixel_values@.shape,
                        spatial_shapes@,
                        optional_shape(pixel_attention_mask),
                        active,
                        padded,
                    )
                },
                Err(e) => e is AllocFailure,
            },
        },
        pixel_values@.shape[0] == 0 && forward_refused(
            pixel_values@.shape,
            spatial_shapes@,
            optional_shape(pixel_attention_mask),
        ) is Ok ==> r is Ok,
{
    check_forward(pixel_values, spatial_shapes, pixel_attention_mask)?;
    let n: usize = pixel_values.shape()[0];
    let num_patches: i32 = pixel_values.shape()[1] as i32;
    let grids: Vec<(i32, i32)> = read_spatial_shapes(spatial_shapes, n)?;
    proof {
        lemma_no_bad_grid(grids@, num_patches, 0);
    }
    let mask: Option<Array<T>> = if pixel_attention_mask.is_some() && has_padding(
        spatial_shapes,
        n,
        num_patches,
    ) {
        Some(build_attention_mask(grids.as_slice(), num_patches, active, padded)?)
    } else {
        None
    };
    Ok(ForwardPlan { num_patches, grids, mask })
}

proof fn lemma_no_bad_grid(grids: Seq<(i32, i32)>, num_patches: i32, i: int)
    requires
        0 <= i <= grids.len(),
        first_bad_grid(grids, num_patches, i) is Ok,
    ensures
        forall|j: int|
            i <= j < grids.len() ==> active_patches(
                (#[trigger] grids[j]).0,
                grids[j].1,
                num_patches,
            ) is Ok,
    decreases grids.len() - i,
{
    if i < grids.len() {
        lemma_no_bad_grid(grids, num_patches, i + 1);
    }
}

/// What a companion mask holds makes no difference: two of one shape lead to the
/// same refusal or to the same mask.
pub proof fn law_the_companion_is_not_trusted<T, M>(
    pixels: Seq<usize>,
    shapes: ArrayModel<i32>,
    one: Array<M>,
    other: Array<M>,
    active: T,
    padded: T,
)
    requires
        one@.shape == other@.shape,
    ensures
        forward_refused(pixels, shapes, optional_shape(Some(&one))) == forward_refused(
            pixels,
            shapes,
            optional_shape(Some(&other)),
        ),
        forward_mask(pixels, shapes, optional_shape(Some(&one)), active, padded) == forward_mask(
            pixels,
            shapes,
            optional_shape(Some(&other)),
            active,
            padded,
        ),
{
}

/// Whether an image has a patch grid that is not positive, or larger than the patch
/// budget.
pub open spec fn is_bad_grid(grid: (i32, i32), num_patches: int) -> bool {
    grid.0 <= 0 || grid.1 <= 0 || grid.0 * grid.1 > num_patches
}

proof fn lemma_bad_grid_is_out_of_range(
    grids: Seq<(i32, i32)>,
    num_patches: i32,
    i: int,
    bad: int,
)
    requires
        0 <= i <= bad < grids.len(),
        is_bad_grid(grids[bad], num_patches as int),
        forall|j: int|
            0 <= j < grids.len() ==> (#[trigger] grids[j]).0 * grids[j].1 <= i32::MAX,
    ensures
        first_bad_grid(grids, num_patches, i) matches Err(e) && e is OutOfRange,
    decreases bad - i,
{
    assert(grids[i].0 * grids[i].1 <= i32::MAX);
    if 0 < grids[i].0 && 0 < grids[i].1 {
        assert(0 < grids[i].0 * grids[i].1) by (nonlinear_arith)
            requires
                0 < grids[i].0,
                0 < grids[i].1,
        ;
    }
    if i < bad {
        lemma_bad_grid_is_out_of_range(grids, num_patches, i + 1, bad);
    }
}

/// A batch of the right shapes with an image whose patch grid is not positive, or
/// larger than the patch budget, is refused as out of range, where the area of every
/// grid fits 32 bits.
pub proof fn law_bad_grids_are_out_of_range(
    pixels: Seq<usize>,
    shapes: ArrayModel<i32>,
    companion: Option<Seq<usize>>,
    image: int,
)
    requires
        pixels.len() == 3,
        pixels[1] <= i32::MAX,
        shapes.shape == seq![pixels[0], 2usize],
        0 <= image < pixels[0],
        is_bad_grid(grids_of(shapes)[image], pixels[1] as int),
        forall|j: int|
            0 <= j < pixels[0] ==> (#[trigger] grids_of(shapes)[j]).0 * grids_of(shapes)[j].1
                <= i32::MAX,
    ensures
        forward_refused(pixels, shapes, companion) matches Err(e) && e is OutOfRange,
{
    lemma_bad_grid_is_out_of_range(grids_of(shapes), pixels[1] as i32, 0, image);
}

/// In a mask, the keys of an image are its first `rows * cols`, and the others
/// are left out.
pub proof fn law_the_first_keys_are_the_patches<T>(
    pixels: Seq<usize>,
    shapes: ArrayModel<i32>,
    companion: Seq<usize>,
    active: T,
    padded: T,
    image: int,
    key: int,
)
    requires
        forward_refused(pixels, shapes, Some(companion)) is Ok,
        forward_mask(pixels, shapes, Some(companion), active, padded) is Some,
        0 <= image < pixels[0],
        0 <= key < pixels[1],
    ensures
        ({
            let grid = grids_of(shapes)[image];
            let mask = forward_mask(pixels, shapes, Some(companion), active, padded)->Some_0;
            &&& mask.shape == seq![pixels[0], 1, 1, pixels[1]]
            &&& mask.data[image * pixels[1] + key] == (if key < grid.0 * grid.1 {
                active
            } else {
                padded
            })
        }),
{
    let grids = grids_of(shapes);
    let np = pixels[1] as int;
    array::lemma_pair_bound(image, grids.len() as int, key, np);
    array::lemma_block_position(image, np, key);
    assert(key_mask(grids, pixels[1] as i32, active, padded).shape =~= seq![
        pixels[0],
        1,
        1,
        pixels[1],
    ]);
}

/// A batch whose images all fill the budget gets no mask.
pub proof fn law_full_images_get_no_mask<T>(
    pixels: Seq<usize>,
    shapes: ArrayModel<i32>,
    companion: Option<Seq<usize>>,
    active: T,
    padded: T,
)
    requires
        pixels.len() == 3,
        pixels[1] <= i32::MAX,
        forall|i: int|
            0 <= i < grids_of(shapes).len() ==> (#[trigger] grids_of(shapes)[i]).0 * grids_of(
                shapes,
            )[i].1 == pixels[1],
    ensures
        forward_mask(pixels, shapes, companion, active, padded) is None,
{
}

// ---------------------------------------------------------------------------
// Positions
// ---------------------------------------------------------------------------

/// The learned positions `(side * side, hidden)` as a `(1, hidden, side, side)`
/// grid.
pub open spec fn position_planes<T>(table: ArrayModel<T>, side: int, hidden: int) -> ArrayModel<T> {
    ArrayModel {
        shape: seq![1, hidden as usize, side as usize, side as usize],
        data: array::exchanged(table.data, 1, hidden, side * side, 1),
    }
}

/// Lays the learned positions out as one plane per channel; see
/// [`position_planes`].
///
/// A table of the wrong size is refused, and one of the right size can still fail
/// for want of memory.
pub fn position_grid<T: Copy>(table: &Array<T>, side: i32, hidden: i32) -> (r: Result<
    Array<T>,
    Error,
>)
    requires
        0 < side,
        side * side <= i32::MAX,
        0 < hidden,
    ensures
        table@.data.len() != side * side * hidden ==> r == Err::<Array<T>, Error>(
            length_mismatch(
                "lfm2_vl vision: position table items vs side * side * hidden",
                projector::saturated((side * side) as usize, hidden as usize),
                table@.data.len() as usize,
            ),
        ),
        table@.data.len() == side * side * hidden ==> match r {
            Ok(grid) => grid@ == position_planes(table@, side as int, hidden as int),
            Err(e) => e == (Error::AllocFailure { context: "lfm2_vl vision position grid" }),
        },
{
    let len: usize = table.len();
    assert(0 < side * side) by (nonlinear_arith)
        requires
            0 < side,
    ;
    let places: usize = (side * side) as usize;
    let h: usize = hidden as usize;
    let expected: usize = saturating_product(places, h);
    proof {
        assert(0 < places * h) by (nonlinear_arith)
            requires
                0 < places,
                0 < h,
        ;
    }
    let fits: bool = match places.checked_mul(h) {
        Some(n) => n == len,
        None => false,
    };
    if !fits {
        return Err(
            length_mismatch(
                "lfm2_vl vision: position table items vs side * side * hidden",
                expected,
                len,
            ),
        );
    }
    let buffer: Vec<T> = reserve_or_error(len, "lfm2_vl vision position grid")?;
    proof {
        lemma_rows_fit(1, places as int, h as int, 1);
    }
    let data: Vec<T> = exchange(table.data().as_slice(), 1, h, places, 1, buffer);
    let shape: Vec<usize> = vec![1, h, side as usize, side as usize];
    proof {
        assert(shape@ =~= seq![1, h, side as usize, side as usize]);
        array::lemma_product_4(1, h, side as usize, side as usize);
        assert(1 * h * side * side == 1 * h * places * 1) by (nonlinear_arith)
            requires
                places == side * side,
        ;
    }
    let grid: Array<T> = Array::of(data, shape);
    assert(grid@ =~= position_planes(table@, side as int, hidden as int));
    Ok(grid)
}

/// One item of the positions of an image: past its patches, every row is the
/// first one. The positions come as one plane per channel, `patches` items each.
pub open spec fn position_item<T>(planes: Seq<T>, patches: int, hidden: int, k: int) -> T {
    let row = k / hidden;
    planes[(k % hidden) * patches + (if row < patches {
        row
    } else {
        0
    })]
}

/// The positions of one image: one row per patch of the budget.
pub open spec fn position_rows<T>(
    planes: Seq<T>,
    patches: int,
    hidden: int,
    num_patches: int,
) -> Seq<T> {
    Seq::new((num_patches * hidden) as nat, |k: int| position_item(planes, patches, hidden, k))
}

/// Appends the positions of one image.
fn push_positions<T: Copy>(
    out: &mut Vec<T>,
    planes: &[T],
    patches: usize,
    hidden: usize,
    num_patches: usize,
)
    requires
        planes@.len() == hidden * patches,
        0 < patches <= num_patches,
        num_patches * hidden <= usize::MAX,
    ensures
        final(out)@ == old(out)@ + position_rows(
            planes@,
            patches as int,
            hidden as int,
            num_patches as int,
        ),
{
    let len: usize = planes.len();
    let total: usize = num_patches * hidden;
    let ghost g = |k: int| position_item(planes@, patches as int, hidden as int, k);
    let mut k: usize = 0;
    assert(out@ =~= old(out)@ + Seq::new(0, g));
    while k < total
        invariant
            k <= total,
            total == num_patches * hidden,
            len == planes@.len(),
            planes@.len() == hidden * patches,
            0 < patches <= num_patches,
            g == (|k: int| position_item(planes@, patches as int, hidden as int, k)),
            out@ == old(out)@ + Seq::new(k as nat, g),
        decreases total - k,
    {
        proof {
            array::lemma_cell(k as int, num_patches as int, hidden as int, 1);
        }
        let row: usize = k / hidden;
        let place: usize = if row < patches {
            row
        } else {
            0
        };
        proof {
            array::lemma_pair_bound(
                k as int % hidden as int,
                hidden as int,
                place as int,
                patches as int,
            );
        }
        out.push(planes[(k % hidden) * patches + place]);
        k += 1;
        assert(out@ =~= old(out)@ + Seq::new(k as nat, g));
    }
    assert(Seq::new(k as nat, g) =~= position_rows(
        planes@,
        patches as int,
        hidden as int,
        num_patches as int,
    ));
}

/// The positions of the first `images` images of a batch.
pub open spec fn batch_positions<T>(
    planes: Seq<Seq<T>>,
    grids: Seq<(i32, i32)>,
    hidden: int,
    num_patches: int,
    images: int,
) -> Seq<T>
    decreases images,
{
    if images <= 0 {
        Seq::empty()
    } else {
        let i = images - 1;
        batch_positions(planes, grids, hidden, num_patches, i) + position_rows(
            planes[i],
            grids[i].0 * grids[i].1,
            hidden,
            num_patches,
        )
    }
}

/// What each array holds.
pub open spec fn items_of<T>(arrays: Seq<Array<T>>) -> Seq<Seq<T>> {
    Seq::new(arrays.len(), |i: int| arrays[i]@.data)
}

/// The first refusal of the resized positions from `i` on: each has to hold one
/// plane per channel.
pub open spec fn first_bad_planes<T>(
    planes: Seq<Seq<T>>,
    grids: Seq<(i32, i32)>,
    hidden: i32,
    i: int,
) -> Result<(), Error>
    decreases planes.len() - i,
{
    if i < 0 || i >= planes.len() {
        Ok(())
    } else if planes[i].len() != hidden * (grids[i].0 * grids[i].1) {
        Err(
            length_mismatch(
                "lfm2_vl vision: resized position items vs hidden * H_p * W_p",
                projector::saturated(hidden as usize, (grids[i].0 * grids[i].1) as usize),
                planes[i].len() as usize,
            ),
        )
    } else {
        first_bad_planes(planes, grids, hidden, i + 1)
    }
}

/// Why resized positions do not fit a batch, if they do not.
pub open spec fn positions_refused<T>(
    planes: Seq<Seq<T>>,
    grids: Seq<(i32, i32)>,
    hidden: i32,
    num_patches: i32,
) -> Result<(), Error> {
    if planes.len() != grids.len() {
        Err(
            length_mismatch(
                "lfm2_vl vision: resized positions vs images",
                grids.len() as usize,
                planes.len() as usize,
            ),
        )
    } else {
        match first_bad_planes(planes, grids, hidden, 0) {
            Err(e) => Err(e),
            Ok(_) => if grids.len() * (num_patches * hidden) > usize::MAX {
                Err(
                    overflow(
                        "lfm2_vl vision: position items",
                        "usize",
                        grids.len() as i128,
                        (num_patches * hidden) as i128,
                    ),
                )
            } else {
                Ok(())
            },
        }
    }
}

proof fn lemma_bad_planes<T>(planes: Seq<Seq<T>>, grids: Seq<(i32, i32)>, hidden: i32, i: int)
    requires
        0 <= i <= planes.len(),
        first_bad_planes(planes, grids, hidden, i) is Ok,
    ensures
        forall|j: int|
            i <= j < planes.len() ==> (#[trigger] planes[j]).len() == hidden * (grids[j].0
                * grids[j].1),
    decreases planes.len() - i,
{
    if i < planes.len() {
        lemma_bad_planes(planes, grids, hidden, i + 1);
    }
}

/// Admits the resized positions of a batch; see [`positions_refused`].
pub fn check_positions<T>(
    resized: &Vec<Array<T>>,
    grids: &[(i32, i32)],
    hidden: i32,
    num_patches: i32,
) -> (r: Result<(), Error>)
    requires
        0 < hidden,
        grids_fit(grids@, num_patches),
        0 <= num_patches,
    ensures
        r == positions_refused(items_of(resized@), grids@, hidden, num_patches),
{
    let ghost planes = items_of(resized@);
    if resized.len() != grids.len() {
        return Err(
            length_mismatch(
                "lfm2_vl vision: resized positions vs images",
                grids.len(),
                resized.len(),
            ),
        );
    }
    let mut i: usize = 0;
    while i < resized.len()
        invariant
            i <= resized@.len(),
            resized@.len() == grids@.len(),
            planes == items_of(resized@),
            0 < hidden,
            grids_fit(grids@, num_patches),
            first_bad_planes(planes, grids@, hidden, 0) == first_bad_planes(
                planes,
                grids@,
                hidden,
                i as int,
            ),
        decreases resized@.len() - i,
    {
        let (rows, cols): (i32, i32) = grids[i];
        assert(active_patches(grids@[i as int].0, grids@[i as int].1, num_patches) is Ok);
        assert(0 < rows * cols) by (nonlinear_arith)
            requires
                0 < rows,
                0 < cols,
        ;
        let patches: usize = (rows * cols) as usize;
        let items: usize = resized[i].len();
        let fits: bool = match (hidden as usize).checked_mul(patches) {
            Some(n) => n == items,
            None => false,
        };
        proof {
            assert(planes[i as int].len() == items);
            assert(0 < hidden * patches) by (nonlinear_arith)
                requires
                    0 < hidden,
                    0 < patches,
            ;
        }
        if !fits {
            return Err(
                length_mismatch(
                    "lfm2_vl vision: resized position items vs hidden * H_p * W_p",
                    saturating_product(hidden as usize, patches),
                    items,
                ),
            );
        }
        i += 1;
    }
    assert(0 <= num_patches * hidden <= 0x7fff_ffff * 0x7fff_ffff) by (nonlinear_arith)
        requires
            0 <= num_patches <= 0x7fff_ffff,
            0 < hidden <= 0x7fff_ffff,
    ;
    let each: u64 = num_patches as u64 * hidden as u64;
    let images: usize = grids.len();
    assert(0 <= images * each <= 0xffff_ffff_ffff_ffff * 0xffff_ffff_ffff_ffff)
        by (nonlinear_arith)
        requires
            0 <= images <= 0xffff_ffff_ffff_ffff,
            0 <= each <= 0xffff_ffff_ffff_ffff,
    ;
    let items: u128 = images as u128 * each as u128;
    if items > usize::MAX as u128 {
        return Err(
            overflow(
                "lfm2_vl vision: position items",
                "usize",
                images as i128,
                each as i128,
            ),
        );
    }
    Ok(())
}

proof fn lemma_batch_len<T>(
    planes: Seq<Seq<T>>,
    grids: Seq<(i32, i32)>,
    hidden: int,
    num_patches: int,
    images: int,
)
    requires
        0 <= images,
        0 <= hidden,
        0 <= num_patches,
    ensures
        batch_positions(planes, grids, hidden, num_patches, images).len() == images * (num_patches
            * hidden),
    decreases images,
{
    assert(0 <= num_patches * hidden) by (nonlinear_arith)
        requires
            0 <= num_patches,
            0 <= hidden,
    ;
    let each = num_patches * hidden;
    if images > 0 {
        lemma_batch_len(planes, grids, hidden, num_patches, images - 1);
        assert((images - 1) * each + each == images * each) by (nonlinear_arith);
    } else {
        assert(images * each == 0) by (nonlinear_arith)
            requires
                images == 0,
        ;
    }
}

/// Puts the resized positions of a batch together, `(N, num_patches, hidden)`:
/// those of an image come first, and the first of them fills the rest; see
/// [`positions_refused`] and [`batch_positions`].
///
/// Positions that are not refused can still fail for want of memory, unless there
/// are no images.
pub fn join_positions<T: Copy>(
    resized: &Vec<Array<T>>,
    grids: &[(i32, i32)],
    hidden: i32,
    num_patches: i32,
) -> (r: Result<Array<T>, Error>)
    requires
        0 < hidden,
        grids_fit(grids@, num_patches),
        0 <= num_patches,
    ensures
        match positions_refused(items_of(resized@), grids@, hidden, num_patches) {
            Err(e) => r == Err::<Array<T>, Error>(e),
            Ok(_) => match r {
                Ok(out) => out@ == (ArrayModel {
                    shape: seq![grids@.len() as usize, num_patches as usize, hidden as usize],
                    data: batch_positions(
                        items_of(resized@),
                        grids@,
                        hidden as int,
                        num_patches as int,
                        grids@.len() as int,
                    ),
                }),
                Err(e) => e == (Error::AllocFailure { context: "lfm2_vl vision position term" }),
            },
        },
        grids@.len() == 0 && positions_refused(
            items_of(resized@),
            grids@,
            hidden,
            num_patches,
        ) is Ok ==> r is Ok,
{
    check_positions(resized, grids, hidden, num_patches)?;
    let n: usize = grids.len();
    let np: usize = num_patches as usize;
    let h: usize = hidden as usize;
    proof {
        assert(n > 0 ==> np * h <= n * (np * h)) by (nonlinear_arith)
            requires
                0 <= np * h,
                0 <= n,
        ;
    }
    let items: usize = if n == 0 {
        0
    } else {
        n * (np * h)
    };
    let buffer: Vec<T> = reserve_or_error(items, "lfm2_vl vision position term")?;
    Ok(fill_positions(resized, grids, hidden, num_patches, buffer))
}

/// Joins the positions of the images of a batch that are admitted in an empty
/// buffer; see [`batch_positions`].
pub fn fill_positions<T: Copy>(
    resized: &Vec<Array<T>>,
    grids: &[(i32, i32)],
    hidden: i32,
    num_patches: i32,
    buffer: Vec<T>,
) -> (r: Array<T>)
    requires
        0 < hidden,
        grids_fit(grids@, num_patches),
        0 <= num_patches,
        positions_refused(items_of(resized@), grids@, hidden, num_patches) is Ok,
        buffer@.len() == 0,
    ensures
        r@ == (ArrayModel {
            shape: seq![grids@.len() as usize, num_patches as usize, hidden as usize],
            data: batch_positions(
                items_of(resized@),
                grids@,
                hidden as int,
                num_patches as int,
                grids@.len() as int,
            ),
        }),
{
    let ghost planes = items_of(resized@);
    let n: usize = grids.len();
    let np: usize = num_patches as usize;
    let h: usize = hidden as usize;
    proof {
        lemma_bad_planes(planes, grids@, hidden, 0);
        lemma_batch_len(planes, grids@, h as int, np as int, n as int);
        assert(n * (np * h) == n * np * h) by (nonlinear_arith);
        assert(n > 0 ==> np * h <= n * (np * h)) by (nonlinear_arith)
            requires
                0 <= np * h,
                0 <= n,
        ;
    }
    let mut out: Vec<T> = buffer;
    let mut i: usize = 0;
    assert(out@ =~= batch_positions(planes, grids@, h as int, np as int, 0));
    while i < n
        invariant
            i <= n,
            n == grids@.len(),
            resized@.len() == n,
            planes == items_of(resized@),
            h == hidden,
            np == num_patches,
            n > 0 ==> np * h <= usize::MAX,
            grids_fit(grids@, num_patches),
            forall|j: int|
                0 <= j < planes.len() ==> (#[trigger] planes[j]).len() == hidden * (grids@[j].0
                    * grids@[j].1),
            out@ == batch_positions(planes, grids@, h as int, np as int, i as int),
        decreases n - i,
    {
        let (rows, cols): (i32, i32) = grids[i];
        assert(active_patches(grids@[i as int].0, grids@[i as int].1, num_patches) is Ok);
        assert(0 < rows * cols) by (nonlinear_arith)
            requires
                0 < rows,
                0 < cols,
        ;
        assert(planes[i as int] == resized@[i as int]@.data);
        push_positions(&mut out, resized[i].data().as_slice(), (rows * cols) as usize, h, np);
        i += 1;
    }
    let shape: Vec<usize> = vec![n, np, h];
    proof {
        assert(shape@ =~= seq![n, np, h]);
        array::lemma_product_3(n, np, h);
    }
    Array::of(out, shape)
}

/// The rows of an image past its patches are its first row.
pub proof fn law_padding_repeats_the_first_position<T>(
    planes: Seq<T>,
    patches: int,
    hidden: int,
    num_patches: int,
    row: int,
    c: int,
)
    requires
        0 < patches <= row < num_patches,
        0 <= c < hidden,
    ensures
        position_rows(planes, patches, hidden, num_patches)[row * hidden + c] == position_rows(
            planes,
            patches,
            hidden,
            num_patches,
        )[c],
{
    array::lemma_pair_bound(row, num_patches, c, hidden);
    array::lemma_pair_bound(0, num_patches, c, hidden);
    array::lemma_block_position(row, hidden, c);
    array::lemma_block_position(0, hidden, c);
}

/// The row of a patch holds its position in every channel.
pub proof fn law_patches_keep_their_positions<T>(
    planes: Seq<T>,
    patches: int,
    hidden: int,
    num_patches: int,
    row: int,
    c: int,
)
    requires
        0 <= row < patches <= num_patches,
        0 <= c < hidden,
    ensures
        position_rows(planes, patches, hidden, num_patches)[row * hidden + c] == planes[c * patches
            + row],
{
    array::lemma_pair_bound(row, num_patches, c, hidden);
    array::lemma_block_position(row, hidden, c);
}


// ---------------------------------------------------------------------------
// What a tower is built of
// ---------------------------------------------------------------------------

/// Whether a self-attention holds the weights of a checkpoint under a path, each
/// projection those of its own name.
pub open spec fn holds_attention<W>(
    a: Attention<W>,
    m: Map<Seq<char>, W>,
    path: Seq<char>,
    schemes: Schemes,
    tower: Seq<char>,
) -> bool {
    let q = path + ".q_proj"@;
    let k = path + ".k_proj"@;
    let v = path + ".v_proj"@;
    let o = path + ".out_proj"@;
    &&& layers::holds_linear(a.q_proj, m, q, schemes.covers(tower + q))
    &&& layers::holds_linear(a.k_proj, m, k, schemes.covers(tower + k))
    &&& layers::holds_linear(a.v_proj, m, v, schemes.covers(tower + v))
    &&& layers::holds_linear(a.out_proj, m, o, schemes.covers(tower + o))
}

/// Whether a feed-forward part holds the weights of a checkpoint under a path.
pub open spec fn holds_mlp<W>(
    f: Mlp<W>,
    m: Map<Seq<char>, W>,
    path: Seq<char>,
    schemes: Schemes,
    tower: Seq<char>,
) -> bool {
    &&& layers::holds_linear(
        f.fc1,
        m,
        path + ".fc1"@,
        schemes.covers(tower + (path + ".fc1"@)),
    )
    &&& layers::holds_linear(
        f.fc2,
        m,
        path + ".fc2"@,
        schemes.covers(tower + (path + ".fc2"@)),
    )
}

/// Whether an encoder layer holds the weights of a checkpoint of its own number, each
/// part those of its own name.
pub open spec fn holds_layer<W>(
    layer: EncoderLayer<W>,
    m: Map<Seq<char>, W>,
    i: nat,
    schemes: Schemes,
    tower: Seq<char>,
) -> bool {
    let path = "encoder.layers."@ + text::decimal(i);
    &&& layers::holds_norm(layer.layer_norm1, m, path + ".layer_norm1"@)
    &&& holds_attention(layer.self_attn, m, path + ".self_attn"@, schemes, tower)
    &&& layers::holds_norm(layer.layer_norm2, m, path + ".layer_norm2"@)
    &&& holds_mlp(layer.mlp, m, path + ".mlp"@, schemes, tower)
}

proof fn lemma_agree_join<W>(
    a: Map<Seq<char>, W>,
    b: Map<Seq<char>, W>,
    c: Map<Seq<char>, W>,
    start: Seq<char>,
)
    requires
        layers::agree_outside(a, b, start),
        layers::agree_outside(b, c, start),
    ensures
        layers::agree_outside(a, c, start),
{
    reveal(layers::agree_outside);
    assert forall|key: Seq<char>|
        #![trigger a.contains_key(key)]
        #![trigger c.contains_key(key)]
        !layers::starts(key, start) implies layers::agree_on(a, c, key) by {
        assert(a.contains_key(key) || !a.contains_key(key));
        assert(b.contains_key(key) || !b.contains_key(key));
        assert(c.contains_key(key) || !c.contains_key(key));
    }
}

proof fn lemma_tower_linear<W>(
    m: Map<Seq<char>, W>,
    path: Seq<char>,
    schemes: Schemes,
    tower: Seq<char>,
    start: Seq<char>,
)
    requires
        layers::starts(path, start),
    ensures
        tower_linear(m, path, schemes, tower) is Ok <==> m.contains_key(path + ".weight"@),
        tower_linear(m, path, schemes, tower) matches Ok((l, rest)) ==> {
            &&& layers::holds_linear(l, m, path, schemes.covers(tower + path))
            &&& layers::agree_outside(m, rest, start)
            &&& layers::agree_outside(m, rest, path)
        },
{
    layers::law_a_linear_layer_is_the_weights_of_its_path(
        m,
        tower_context(),
        path,
        schemes.covers(tower + path),
    );
    if let Ok((l, rest)) = tower_linear(m, path, schemes, tower) {
        layers::lemma_only_under_is_inside(m, rest, path, start);
        layers::lemma_only_under_is_inside(m, rest, path, path);
    }
}

proof fn lemma_tower_norm<W>(m: Map<Seq<char>, W>, path: Seq<char>, start: Seq<char>)
    requires
        layers::starts(path, start),
    ensures
        layers::norm(m, tower_context(), path) is Ok <==> m.contains_key(path + ".weight"@)
            && m.contains_key(path + ".bias"@),
        layers::norm(m, tower_context(), path) matches Ok((n, rest)) ==> {
            &&& layers::holds_norm(n, m, path)
            &&& layers::agree_outside(m, rest, start)
            &&& layers::agree_outside(m, rest, path)
        },
{
    layers::law_a_norm_is_the_weights_of_its_path(m, tower_context(), path);
    if let Ok((n, rest)) = layers::norm(m, tower_context(), path) {
        layers::lemma_only_under_is_inside(m, rest, path, start);
        layers::lemma_only_under_is_inside(m, rest, path, path);
    }
}

proof fn lemma_attention<W>(
    m: Map<Seq<char>, W>,
    path: Seq<char>,
    dims: LayerDims,
    schemes: Schemes,
    tower: Seq<char>,
)
    ensures
        attention(m, path, dims, schemes, tower) is Ok <==> {
            &&& m.contains_key(path + ".q_proj"@ + ".weight"@)
            &&& m.contains_key(path + ".k_proj"@ + ".weight"@)
            &&& m.contains_key(path + ".v_proj"@ + ".weight"@)
            &&& m.contains_key(path + ".out_proj"@ + ".weight"@)
        },
        attention(m, path, dims, schemes, tower) matches Ok((a, rest)) ==> {
            &&& holds_attention(a, m, path, schemes, tower)
            &&& a.dims == dims
            &&& layers::agree_outside(m, rest, path)
        },
{
    reveal_strlit(".q_proj");
    reveal_strlit(".k_proj");
    reveal_strlit(".v_proj");
    reveal_strlit(".out_proj");
    let q = path + ".q_proj"@;
    let k = path + ".k_proj"@;
    let v = path + ".v_proj"@;
    let o = path + ".out_proj"@;
    let n = path.len() as int + 1;
    assert(q[n] == 'q' && k[n] == 'k' && v[n] == 'v' && o[n] == 'o');
    lemma_tower_linear(m, q, schemes, tower, path);
    if let Ok((q_proj, m1)) = tower_linear(m, q, schemes, tower) {
        layers::lemma_agree_apart(m, m1, q, k, n);
        layers::lemma_agree_apart(m, m1, q, v, n);
        layers::lemma_agree_apart(m, m1, q, o, n);
        lemma_tower_linear(m1, k, schemes, tower, path);
        if let Ok((k_proj, m2)) = tower_linear(m1, k, schemes, tower) {
            layers::lemma_agree_apart(m1, m2, k, v, n);
            layers::lemma_agree_apart(m1, m2, k, o, n);
            lemma_agree_join(m, m1, m2, path);
            lemma_tower_linear(m2, v, schemes, tower, path);
            if let Ok((v_proj, m3)) = tower_linear(m2, v, schemes, tower) {
                layers::lemma_agree_apart(m2, m3, v, o, n);
                lemma_agree_join(m, m2, m3, path);
                lemma_tower_linear(m3, o, schemes, tower, path);
                if let Ok((out_proj, m4)) = tower_linear(m3, o, schemes, tower) {
                    lemma_agree_join(m, m3, m4, path);
                }
            }
        }
    }
}

proof fn lemma_mlp<W>(
    m: Map<Seq<char>, W>,
    path: Seq<char>,
    schemes: Schemes,
    tower: Seq<char>,
)
    ensures
        mlp(m, path, schemes, tower) is Ok <==> {
            &&& m.contains_key(path + ".fc1"@ + ".weight"@)
            &&& m.contains_key(path + ".fc2"@ + ".weight"@)
        },
        mlp(m, path, schemes, tower) matches Ok((f, rest)) ==> {
            &&& holds_mlp(f, m, path, schemes, tower)
            &&& layers::agree_outside(m, rest, path)
        },
{
    reveal_strlit(".fc1");
    reveal_strlit(".fc2");
    let a = path + ".fc1"@;
    let b = path + ".fc2"@;
    let n = path.len() as int + 3;
    assert(a[n] == '1' && b[n] == '2');
    lemma_tower_linear(m, a, schemes, tower, path);
    if let Ok((fc1, m1)) = tower_linear(m, a, schemes, tower) {
        layers::lemma_agree_apart(m, m1, a, b, n);
        lemma_tower_linear(m1, b, schemes, tower, path);
        if let Ok((fc2, m2)) = tower_linear(m1, b, schemes, tower) {
            lemma_agree_join(m, m1, m2, path);
        }
    }
}


/// Whether a checkpoint has what an encoder layer needs.
pub open spec fn layer_is_there<W>(m: Map<Seq<char>, W>, i: nat) -> bool {
    let path = "encoder.layers."@ + text::decimal(i);
    &&& m.contains_key(path + ".layer_norm1"@ + ".weight"@)
    &&& m.contains_key(path + ".layer_norm1"@ + ".bias"@)
    &&& m.contains_key(path + ".self_attn"@ + ".q_proj"@ + ".weight"@)
    &&& m.contains_key(path + ".self_attn"@ + ".k_proj"@ + ".weight"@)
    &&& m.contains_key(path + ".self_attn"@ + ".v_proj"@ + ".weight"@)
    &&& m.contains_key(path + ".self_attn"@ + ".out_proj"@ + ".weight"@)
    &&& m.contains_key(path + ".layer_norm2"@ + ".weight"@)
    &&& m.contains_key(path + ".layer_norm2"@ + ".bias"@)
    &&& m.contains_key(path + ".mlp"@ + ".fc1"@ + ".weight"@)
    &&& m.contains_key(path + ".mlp"@ + ".fc2"@ + ".weight"@)
}

proof fn lemma_agree_wider<W>(
    a: Map<Seq<char>, W>,
    b: Map<Seq<char>, W>,
    inner: Seq<char>,
    outer: Seq<char>,
)
    requires
        layers::agree_outside(a, b, inner),
        layers::starts(inner, outer),
    ensures
        layers::agree_outside(a, b, outer),
{
    reveal(layers::agree_outside);
    assert forall|key: Seq<char>|
        #![trigger a.contains_key(key)]
        #![trigger b.contains_key(key)]
        !layers::starts(key, outer) implies layers::agree_on(a, b, key) by {
        if layers::starts(key, inner) {
            assert forall|i: int| 0 <= i < outer.len() implies #[trigger] key[i] == outer[i] by {
                assert(key[i] == inner[i]);
                assert(inner[i] == outer[i]);
            }
        }
        assert(a.contains_key(key) || !a.contains_key(key));
    }
}

proof fn lemma_agree_slots<W>(
    a: Map<Seq<char>, W>,
    b: Map<Seq<char>, W>,
    start: Seq<char>,
    path: Seq<char>,
    n: int,
)
    requires
        layers::agree_outside(a, b, start),
        0 <= n < start.len(),
        n < path.len(),
        start[n] != path[n],
    ensures
        layers::agree_under(a, b, path),
        layers::agree_under(a, b, path + ".q_proj"@),
        layers::agree_under(a, b, path + ".k_proj"@),
        layers::agree_under(a, b, path + ".v_proj"@),
        layers::agree_under(a, b, path + ".out_proj"@),
        layers::agree_under(a, b, path + ".fc1"@),
        layers::agree_under(a, b, path + ".fc2"@),
{
    layers::lemma_agree_apart(a, b, start, path, n);
    layers::lemma_agree_apart(a, b, start, path + ".q_proj"@, n);
    layers::lemma_agree_apart(a, b, start, path + ".k_proj"@, n);
    layers::lemma_agree_apart(a, b, start, path + ".v_proj"@, n);
    layers::lemma_agree_apart(a, b, start, path + ".out_proj"@, n);
    layers::lemma_agree_apart(a, b, start, path + ".fc1"@, n);
    layers::lemma_agree_apart(a, b, start, path + ".fc2"@, n);
}

#[verifier::spinoff_prover]
#[verifier::rlimit(40)]
proof fn lemma_encoder_layer<W>(
    m: Map<Seq<char>, W>,
    i: nat,
    dims: LayerDims,
    schemes: Schemes,
    tower: Seq<char>,
)
    ensures
        encoder_layer(m, i, dims, schemes, tower) is Ok <==> layer_is_there(m, i),
        encoder_layer(m, i, dims, schemes, tower) matches Ok((layer, rest)) ==> {
            &&& holds_layer(layer, m, i, schemes, tower)
            &&& layer.self_attn.dims == dims
            &&& layers::agree_outside(m, rest, "encoder.layers."@ + text::decimal(i) + "."@)
        },
{
    reveal_strlit(".");
    reveal_strlit(".layer_norm1");
    reveal_strlit(".self_attn");
    reveal_strlit(".layer_norm2");
    reveal_strlit(".mlp");
    let path = "encoder.layers."@ + text::decimal(i);
    let start = path + "."@;
    let n1 = path + ".layer_norm1"@;
    let at = path + ".self_attn"@;
    let n2 = path + ".layer_norm2"@;
    let ff = path + ".mlp"@;
    let n = path.len() as int + 1;
    assert(n1[n] == 'l' && at[n] == 's' && n2[n] == 'l' && ff[n] == 'm');
    assert(n1[n + 10] == '1' && n2[n + 10] == '2');
    assert(layers::starts(n1, start));
    assert(layers::starts(at, start));
    assert(layers::starts(n2, start));
    assert(layers::starts(ff, start));
    lemma_tower_norm(m, n1, start);
    if let Ok((layer_norm1, m1)) = layers::norm(m, tower_context(), n1) {
        lemma_agree_slots(m, m1, n1, at, n);
        lemma_agree_slots(m, m1, n1, n2, n + 10);
        lemma_agree_slots(m, m1, n1, ff, n);
        lemma_attention(m1, at, dims, schemes, tower);
        if let Ok((self_attn, m2)) = attention(m1, at, dims, schemes, tower) {
            lemma_agree_slots(m1, m2, at, n2, n);
            lemma_agree_slots(m1, m2, at, ff, n);
            lemma_agree_wider(m1, m2, at, start);
            lemma_agree_join(m, m1, m2, start);
            lemma_tower_norm(m2, n2, start);
            if let Ok((layer_norm2, m3)) = layers::norm(m2, tower_context(), n2) {
                lemma_agree_slots(m2, m3, n2, ff, n);
                lemma_agree_join(m, m2, m3, start);
                lemma_mlp(m3, ff, schemes, tower);
                if let Ok((f, m4)) = mlp(m3, ff, schemes, tower) {
                    lemma_agree_wider(m3, m4, ff, start);
                    lemma_agree_join(m, m3, m4, start);
                }
            }
        }
    }
}

/// Names of two layers begin differently.
proof fn lemma_layers_are_apart(i: nat, j: nat, key: Seq<char>)
    requires
        i != j,
        layers::starts(key, "encoder.layers."@ + text::decimal(j) + "."@),
    ensures
        !layers::starts(key, "encoder.layers."@ + text::decimal(i) + "."@),
{
    reveal_strlit(".");
    text::law_decimals_read_back(i);
    text::law_decimals_read_back(j);
    let base = "encoder.layers."@;
    let a = text::decimal(i);
    let b = text::decimal(j);
    let sa = base + a + "."@;
    let sb = base + b + "."@;
    let n = base.len() as int;
    if layers::starts(key, sa) {
        if a.len() < b.len() {
            assert(sa[n + a.len()] == '.');
            assert(sb[n + a.len()] == b[a.len() as int]);
            assert(key[n + a.len()] == '.');
        } else if b.len() < a.len() {
            assert(sb[n + b.len()] == '.');
            assert(sa[n + b.len()] == a[b.len() as int]);
            assert(key[n + b.len()] == '.');
        } else {
            assert forall|k: int| 0 <= k < a.len() implies a[k] == b[k] by {
                assert(sa[n + k] == a[k]);
                assert(sb[n + k] == b[k]);
                assert(key[n + k] == sa[n + k]);
            }
            assert(a =~= b);
        }
    }
}

/// A layer that holds the weights of a checkpoint holds those of any other that agrees
/// on every name of the layer.
proof fn lemma_layer_moves<W>(
    layer: EncoderLayer<W>,
    a: Map<Seq<char>, W>,
    b: Map<Seq<char>, W>,
    i: nat,
    schemes: Schemes,
    tower: Seq<char>,
)
    requires
        forall|key: Seq<char>|
            #![trigger a.contains_key(key)]
            #![trigger b.contains_key(key)]
            layers::starts(key, "encoder.layers."@ + text::decimal(i) + "."@) ==> layers::agree_on(
                a,
                b,
                key,
            ),
    ensures
        holds_layer(layer, a, i, schemes, tower) <==> holds_layer(layer, b, i, schemes, tower),
{
    lemma_slots_agree(a, b, i);
}

/// A checkpoint has what a layer needs where another that agrees on every name of the
/// layer has it.
proof fn lemma_presence_moves<W>(a: Map<Seq<char>, W>, b: Map<Seq<char>, W>, i: nat)
    requires
        forall|key: Seq<char>|
            #![trigger a.contains_key(key)]
            #![trigger b.contains_key(key)]
            layers::starts(key, "encoder.layers."@ + text::decimal(i) + "."@) ==> layers::agree_on(
                a,
                b,
                key,
            ),
    ensures
        layer_is_there(a, i) <==> layer_is_there(b, i),
{
    lemma_slots_agree(a, b, i);
}

proof fn lemma_slots_agree<W>(a: Map<Seq<char>, W>, b: Map<Seq<char>, W>, i: nat)
    requires
        forall|key: Seq<char>|
            #![trigger a.contains_key(key)]
            #![trigger b.contains_key(key)]
            layers::starts(key, "encoder.layers."@ + text::decimal(i) + "."@) ==> layers::agree_on(
                a,
                b,
                key,
            ),
    ensures
        ({
            let path = "encoder.layers."@ + text::decimal(i);
            &&& layers::agree_under(a, b, path + ".layer_norm1"@)
            &&& layers::agree_under(a, b, path + ".layer_norm2"@)
            &&& layers::agree_under(a, b, path + ".self_attn"@ + ".q_proj"@)
            &&& layers::agree_under(a, b, path + ".self_attn"@ + ".k_proj"@)
            &&& layers::agree_under(a, b, path + ".self_attn"@ + ".v_proj"@)
            &&& layers::agree_under(a, b, path + ".self_attn"@ + ".out_proj"@)
            &&& layers::agree_under(a, b, path + ".mlp"@ + ".fc1"@)
            &&& layers::agree_under(a, b, path + ".mlp"@ + ".fc2"@)
        }),
{
    let path = "encoder.layers."@ + text::decimal(i);
    lemma_agree_inside(a, b, path, path + ".layer_norm1"@);
    lemma_agree_inside(a, b, path, path + ".layer_norm2"@);
    lemma_agree_inside(a, b, path, path + ".self_attn"@ + ".q_proj"@);
    lemma_agree_inside(a, b, path, path + ".self_attn"@ + ".k_proj"@);
    lemma_agree_inside(a, b, path, path + ".self_attn"@ + ".v_proj"@);
    lemma_agree_inside(a, b, path, path + ".self_attn"@ + ".out_proj"@);
    lemma_agree_inside(a, b, path, path + ".mlp"@ + ".fc1"@);
    lemma_agree_inside(a, b, path, path + ".mlp"@ + ".fc2"@);
}

proof fn lemma_agree_inside<W>(
    a: Map<Seq<char>, W>,
    b: Map<Seq<char>, W>,
    path: Seq<char>,
    slot: Seq<char>,
)
    requires
        forall|key: Seq<char>|
            #![trigger a.contains_key(key)]
            #![trigger b.contains_key(key)]
            layers::starts(key, path + "."@) ==> layers::agree_on(a, b, key),
        slot == path + ".layer_norm1"@ || slot == path + ".layer_norm2"@ || slot == path
            + ".self_attn"@ + ".q_proj"@ || slot == path + ".self_attn"@ + ".k_proj"@ || slot
            == path + ".self_attn"@ + ".v_proj"@ || slot == path + ".self_attn"@ + ".out_proj"@
            || slot == path + ".mlp"@ + ".fc1"@ || slot == path + ".mlp"@ + ".fc2"@,
    ensures
        layers::agree_under(a, b, slot),
{
    reveal_strlit(".");
    reveal_strlit(".layer_norm1");
    reveal_strlit(".self_attn");
    reveal_strlit(".layer_norm2");
    reveal_strlit(".mlp");
    let start = path + "."@;
    assert(layers::starts(slot, start));
    assert(layers::starts(slot + ".weight"@, start));
    assert(layers::starts(slot + ".bias"@, start));
    assert(layers::starts(slot + ".scales"@, start));
    assert(layers::starts(slot + ".biases"@, start));
    assert(a.contains_key(slot + ".weight"@) || !a.contains_key(slot + ".weight"@));
    assert(a.contains_key(slot + ".bias"@) || !a.contains_key(slot + ".bias"@));
    assert(a.contains_key(slot + ".scales"@) || !a.contains_key(slot + ".scales"@));
    assert(a.contains_key(slot + ".biases"@) || !a.contains_key(slot + ".biases"@));
}

/// Whether two checkpoints agree on every name of the layers from `count` on, and on
/// every name that is not of a layer.
spec fn agree_past<W>(a: Map<Seq<char>, W>, b: Map<Seq<char>, W>, count: nat) -> bool {
    &&& forall|j: nat, key: Seq<char>|
        #![trigger text::decimal(j), a.contains_key(key)]
        #![trigger text::decimal(j), b.contains_key(key)]
        j >= count && layers::starts(key, "encoder.layers."@ + text::decimal(j) + "."@)
            ==> layers::agree_on(a, b, key)
    &&& layers::agree_outside(a, b, "encoder.layers."@)
}

#[verifier::spinoff_prover]
#[verifier::rlimit(40)]
proof fn lemma_encoder_layers<W>(
    m: Map<Seq<char>, W>,
    count: nat,
    dims: LayerDims,
    schemes: Schemes,
    tower: Seq<char>,
)
    ensures
        encoder_layers(m, count, dims, schemes, tower) is Ok <==> forall|i: nat|
            i < count ==> #[trigger] layer_is_there(m, i),
        encoder_layers(m, count, dims, schemes, tower) matches Ok((all, rest)) ==> {
            &&& all.len() == count
            &&& forall|i: nat|
                i < count ==> #[trigger] holds_layer(all[i as int], m, i, schemes, tower)
                    && all[i as int].self_attn.dims == dims
            &&& agree_past(m, rest, count)
        },
    decreases count,
{
    if count > 0 {
        let last = (count - 1) as nat;
        lemma_encoder_layers(m, last, dims, schemes, tower);
        if let Ok((taken, rest)) = encoder_layers(m, last, dims, schemes, tower) {
            lemma_encoder_layer(rest, last, dims, schemes, tower);
            let start = "encoder.layers."@ + text::decimal(last) + "."@;
            assert forall|key: Seq<char>|
                #![trigger m.contains_key(key)]
                #![trigger rest.contains_key(key)]
                layers::starts(key, start) implies layers::agree_on(m, rest, key) by {
                assert(text::decimal(last) == text::decimal(last));
                assert(m.contains_key(key) || !m.contains_key(key));
            }
            if let Ok((layer, left)) = encoder_layer(rest, last, dims, schemes, tower) {
                lemma_layer_moves(layer, m, rest, last, schemes, tower);
                lemma_presence_moves(m, rest, last);
                let all = taken.push(layer);
                assert forall|i: nat| i < count implies #[trigger] holds_layer(
                    all[i as int],
                    m,
                    i,
                    schemes,
                    tower,
                ) && all[i as int].self_attn.dims == dims by {
                    if i < last {
                        assert(holds_layer(taken[i as int], m, i, schemes, tower));
                    }
                }
                assert forall|j: nat, key: Seq<char>|
                    #![trigger text::decimal(j), m.contains_key(key)]
                    #![trigger text::decimal(j), left.contains_key(key)]
                    j >= count && layers::starts(
                        key,
                        "encoder.layers."@ + text::decimal(j) + "."@,
                    ) implies layers::agree_on(m, left, key) by {
                    lemma_layers_are_apart(last, j, key);
                    reveal(layers::agree_outside);
                    assert(m.contains_key(key) || !m.contains_key(key));
                    assert(rest.contains_key(key) || !rest.contains_key(key));
                    assert(layers::agree_on(m, rest, key));
                    assert(layers::agree_on(rest, left, key));
                }
                assert(layers::starts(start, "encoder.layers."@));
                lemma_agree_wider(rest, left, start, "encoder.layers."@);
                lemma_agree_join(m, rest, left, "encoder.layers."@);
                assert forall|i: nat| i < count implies #[trigger] layer_is_there(m, i) by {
                    if i == last {
                        assert(layer_is_there(rest, last));
                    }
                }
            } else {
                lemma_presence_moves(m, rest, last);
                assert(!layer_is_there(m, last));
            }
        }
    } else {
        reveal(layers::agree_outside);
    }
}

/// A tower is built where every weight that it needs is there, and each of its slots
/// holds the weights of its own name: the embedding of the patches, the learned
/// positions, the normalisation of the output, and in each layer, by its number, the
/// four projections, the two layers of the feed-forward part and the two
/// normalisations. Its width, its heads and the side of its positions are those of the
/// configuration.
#[verifier::spinoff_prover]
#[verifier::rlimit(40)]
pub proof fn law_each_slot_holds_the_weights_of_its_name<W>(
    m: Map<Seq<char>, W>,
    config: VisionConfig,
    layers_kept: i32,
    schemes: Schemes,
    prefix: Seq<char>,
)
    requires
        tower_refused(config, layers_kept) is None,
    ensures
        tower(m, config, layers_kept, schemes, prefix) is Ok <==> {
            &&& m.contains_key("embeddings.patch_embedding"@ + ".weight"@)
            &&& m.contains_key("embeddings.position_embedding.weight"@)
            &&& forall|i: nat| i < layers_kept ==> #[trigger] layer_is_there(m, i)
            &&& m.contains_key("post_layernorm"@ + ".weight"@)
            &&& m.contains_key("post_layernorm"@ + ".bias"@)
        },
        tower(m, config, layers_kept, schemes, prefix) matches Ok((t, rest)) ==> {
            &&& layers::holds_linear(
                t.patch_embedding,
                m,
                "embeddings.patch_embedding"@,
                schemes.covers(prefix + "embeddings.patch_embedding"@),
            )
            &&& t.position_embedding == m["embeddings.position_embedding.weight"@]
            &&& t.layers.len() == layers_kept
            &&& forall|i: nat|
                i < layers_kept ==> #[trigger] holds_layer(
                    t.layers[i as int],
                    m,
                    i,
                    schemes,
                    prefix,
                ) && t.layers[i as int].self_attn.dims.num_heads == config.num_attention_heads
                    && t.layers[i as int].self_attn.dims.head_dim * config.num_attention_heads
                    == config.hidden_size
            &&& layers::holds_norm(t.post_layernorm, m, "post_layernorm"@)
            &&& t.hidden == config.hidden_size
            &&& t.pos_grid_side * t.pos_grid_side == config.num_patches
            &&& t.pos_grid_side > 0
        },
{
    reveal_strlit("embeddings.patch_embedding");
    reveal_strlit("embeddings.position_embedding.weight");
    reveal_strlit("encoder.layers.");
    reveal_strlit("post_layernorm");
    let dims = LayerDims {
        num_heads: config.num_attention_heads,
        head_dim: (config.hidden_size as int / config.num_attention_heads as int) as i32,
    };
    let pe = "embeddings.patch_embedding"@;
    let pos = "embeddings.position_embedding.weight"@;
    let enc = "encoder.layers."@;
    let post = "post_layernorm"@;
    lemma_divisible_heads(config.hidden_size as int, config.num_attention_heads as int);
    lemma_tower_linear(m, pe, schemes, prefix, pe);
    if let Ok((patch_embedding, m1)) = tower_linear(m, pe, schemes, prefix) {
        assert(layers::agree_on(m, m1, pos)) by {
            reveal(layers::agree_outside);
            assert(pe[12] == 'a' && pos[12] == 'o');
            assert(!layers::starts(pos, pe));
            assert(m.contains_key(pos) || !m.contains_key(pos));
        }
        layers::lemma_agree_apart(m, m1, pe, post, 0);
        if let Ok((position_embedding, m2)) = weights::taken(m1, tower_context(), pos) {
            lemma_taken_is_inside(m1, pos);
            layers::lemma_agree_apart(m1, m2, pos, post, 0);
            lemma_encoder_layers(m2, layers_kept as nat, dims, schemes, prefix);
            assert forall|i: nat| i < layers_kept implies (#[trigger] layer_is_there(m, i)
                <==> layer_is_there(m2, i)) by {
                lemma_layer_names_survive(m, m1, pe, i);
                lemma_layer_names_survive(m1, m2, pos, i);
                lemma_presence_moves(m, m1, i);
                lemma_presence_moves(m1, m2, i);
            }
            if let Ok((all, m3)) = encoder_layers(
                m2,
                layers_kept as nat,
                dims,
                schemes,
                prefix,
            ) {
                assert forall|i: nat| i < layers_kept implies #[trigger] holds_layer(
                    all[i as int],
                    m,
                    i,
                    schemes,
                    prefix,
                ) && all[i as int].self_attn.dims == dims by {
                    assert(holds_layer(all[i as int], m2, i, schemes, prefix));
                    lemma_layer_names_survive(m, m1, pe, i);
                    lemma_layer_names_survive(m1, m2, pos, i);
                    lemma_layer_moves(all[i as int], m, m1, i, schemes, prefix);
                    lemma_layer_moves(all[i as int], m1, m2, i, schemes, prefix);
                }
                layers::lemma_agree_apart(m2, m3, enc, post, 0);
                lemma_tower_norm(m3, post, post);
            } else {
                let i = choose|i: nat| i < layers_kept && !(#[trigger] layer_is_there(m2, i));
                assert(!layer_is_there(m, i));
            }
        }
    }
    lemma_square_side_is_a_side(config);
}

/// The names of a layer are not among those that begin with an embedding.
proof fn lemma_layer_names_survive<W>(
    a: Map<Seq<char>, W>,
    b: Map<Seq<char>, W>,
    gone: Seq<char>,
    i: nat,
)
    requires
        layers::agree_outside(a, b, gone),
        gone.len() > 1,
        gone[1] == 'm',
    ensures
        forall|key: Seq<char>|
            #![trigger a.contains_key(key)]
            #![trigger b.contains_key(key)]
            layers::starts(key, "encoder.layers."@ + text::decimal(i) + "."@) ==> layers::agree_on(
                a,
                b,
                key,
            ),
{
    reveal(layers::agree_outside);
    reveal_strlit("encoder.layers.");
    let start = "encoder.layers."@ + text::decimal(i) + "."@;
    assert(start[1] == 'n');
    assert forall|key: Seq<char>|
        #![trigger a.contains_key(key)]
        #![trigger b.contains_key(key)]
        layers::starts(key, start) implies layers::agree_on(a, b, key) by {
        assert(key[1] == start[1]);
        assert(!layers::starts(key, gone));
        assert(a.contains_key(key) || !a.contains_key(key));
    }
}

proof fn lemma_taken_is_inside<W>(m: Map<Seq<char>, W>, key: Seq<char>)
    requires
        m.contains_key(key),
    ensures
        layers::agree_outside(m, m.remove(key), key),
{
    reveal(layers::agree_outside);
    assert(layers::starts(key, key));
}

proof fn lemma_divisible_heads(hidden: int, heads: int)
    requires
        0 < heads,
        hidden % heads == 0,
    ensures
        (hidden / heads) * heads == hidden,
{
    vstd::arithmetic::div_mod::lemma_fundamental_div_mod(hidden, heads);
    assert(heads * (hidden / heads) == (hidden / heads) * heads) by (nonlinear_arith);
}

proof fn lemma_square_side_is_a_side(config: VisionConfig)
    requires
        config.refused() is None,
    ensures
        ({
            let side = square_side(config.num_patches as int);
            0 < side <= i32::MAX && side * side == config.num_patches
        }),
{
    crate::vlm::models::lfm2_vl::config::law_admitted_towers_are_bounded(config);
    let side = square_side(config.num_patches as int);
    assert(side <= side * side) by (nonlinear_arith)
        requires
            0 < side,
    ;
}


/// A width is split evenly among a positive number of heads.
pub proof fn law_widths_are_split_evenly(hidden: i32, num_heads: i32)
    requires
        0 <= hidden,
    ensures
        head_split(hidden, num_heads) is Ok <==> 0 < num_heads && hidden as int % num_heads as int
            == 0,
        head_split(hidden, num_heads) matches Ok(d) ==> d.num_heads == num_heads && d.head_dim
            * num_heads == hidden,
{
    if 0 < num_heads && hidden as int % num_heads as int == 0 {
        lemma_divisible_heads(hidden as int, num_heads as int);
    }
}

/// Head `h` of position `l` holds the `head_dim` channels of the position from
/// `h * head_dim` on.
pub proof fn law_heads_hold_their_channels<T>(
    x: ArrayModel<T>,
    dims: LayerDims,
    b: int,
    h: int,
    l: int,
    i: int,
)
    requires
        x.shape.len() == 3,
        0 <= b < x.shape[0],
        0 <= h < dims.num_heads,
        0 <= l < x.shape[1],
        0 <= i < dims.head_dim,
    ensures
        ({
            let n = dims.num_heads as int;
            let d = dims.head_dim as int;
            let len = x.shape[1] as int;
            let index = ((b * n + h) * len + l) * d + i;
            let r = heads(x, dims);
            &&& r.shape =~= seq![x.shape[0], n as usize, x.shape[1], d as usize]
            &&& r.data.len() == x.shape[0] * n * len * d
            &&& 0 <= index < r.data.len()
            &&& r.data[index] == x.data[(b * len + l) * (n * d) + h * d + i]
        }),
{
    let n = dims.num_heads as int;
    let d = dims.head_dim as int;
    let len = x.shape[1] as int;
    array::law_exchanging_moves_each_item(x.data, x.shape[0] as int, n, len, d, b, h, l, i);
    assert(((b * len + l) * n + h) * d + i == (b * len + l) * (n * d) + h * d + i)
        by (nonlinear_arith);
}

/// Joined heads: the channels of position `l` from `h * head_dim` on are those of head `h`
/// at that position.
pub proof fn law_joined_channels_are_those_of_their_head<T>(
    x: ArrayModel<T>,
    dims: LayerDims,
    b: int,
    h: int,
    l: int,
    i: int,
)
    requires
        x.shape.len() == 4,
        0 <= b < x.shape[0],
        0 <= h < dims.num_heads,
        0 <= l < x.shape[2],
        0 <= i < dims.head_dim,
    ensures
        ({
            let n = dims.num_heads as int;
            let d = dims.head_dim as int;
            let len = x.shape[2] as int;
            let index = (b * len + l) * (n * d) + h * d + i;
            let r = joined_heads(x, dims);
            &&& r.shape =~= seq![x.shape[0], x.shape[2], (n * d) as usize]
            &&& r.data.len() == x.shape[0] * len * n * d
            &&& 0 <= index < r.data.len()
            &&& r.data[index] == x.data[((b * n + h) * len + l) * d + i]
        }),
{
    let n = dims.num_heads as int;
    let d = dims.head_dim as int;
    let len = x.shape[2] as int;
    array::law_exchanging_moves_each_item(x.data, x.shape[0] as int, len, n, d, b, l, h, i);
    assert(((b * len + l) * n + h) * d + i == (b * len + l) * (n * d) + h * d + i)
        by (nonlinear_arith);
}

/// Hidden states are split, and heads are joined, where their shape has the axes and the
/// widths for it.
pub proof fn law_shapes_decide_on_splitting(shape: Seq<usize>, dims: LayerDims)
    ensures
        split_outcome(shape, dims) is Ok <==> shape.len() == 3 && shape[2] == dims.num_heads
            * dims.head_dim,
        join_outcome(shape, dims) is Ok <==> shape.len() == 4 && shape[1] == dims.num_heads
            && shape[3] == dims.head_dim,
{
}

/// A patch grid is admitted where both sides are positive and its patches are within the
/// budget; it is as many patches as its sides multiply to.
pub proof fn law_grids_within_the_budget_are_admitted(rows: i32, cols: i32, num_patches: i32)
    ensures
        active_patches(rows, cols, num_patches) is Ok <==> 0 < rows && 0 < cols && rows * cols
            <= num_patches,
        active_patches(rows, cols, num_patches) matches Ok(n) ==> n == rows * cols,
{
    if 0 < rows && 0 < cols {
        assert(0 <= rows * cols) by (nonlinear_arith)
            requires
                0 < rows,
                0 < cols,
        ;
    }
}

/// A batch reaches the encoder where its pixels have three axes, each image has a patch
/// grid within the budget, and a mask that comes with it has the shape of the pixels, as
/// long as the mask of a padded batch fits.
pub proof fn law_batches_of_admitted_grids_are_encoded(
    pixels: Seq<usize>,
    shapes: ArrayModel<i32>,
    companion: Option<Seq<usize>>,
)
    ensures
        forward_refused(pixels, shapes, companion) is Ok <==> {
            &&& pixels.len() == 3
            &&& pixels[1] <= 2147483647
            &&& shapes.shape =~= seq![pixels[0], 2usize]
            &&& forall|i: int|
                #![trigger shapes.data[2 * i]]
                0 <= i < pixels[0] ==> 0 < shapes.data[2 * i] && 0 < shapes.data[2 * i + 1]
                    && shapes.data[2 * i] * shapes.data[2 * i + 1] <= pixels[1]
            &&& companion matches Some(shape) ==> {
                &&& shape =~= seq![pixels[0], pixels[1]]
                &&& (exists|i: int|
                    #![trigger shapes.data[2 * i]]
                    0 <= i < pixels[0] && shapes.data[2 * i] * shapes.data[2 * i + 1] < pixels[1])
                    ==> pixels[0] * pixels[1] <= 2147483647
            }
        },
{
    if pixels.len() == 3 && pixels[1] <= i32::MAX && shapes.shape =~= seq![pixels[0], 2usize] {
        let grids = grids_of(shapes);
        let np = pixels[1] as i32;
        assert forall|i: int| 0 <= i < pixels[0] implies (active_patches(
            (#[trigger] grids[i]).0,
            grids[i].1,
            np,
        ) is Ok <==> 0 < shapes.data[2 * i] && 0 < shapes.data[2 * i + 1] && shapes.data[2 * i]
            * shapes.data[2 * i + 1] <= pixels[1]) by {
            law_grids_within_the_budget_are_admitted(grids[i].0, grids[i].1, np);
        }
        lemma_no_bad_grid_at_all(grids, np, 0);
        lemma_padding_is_a_pair(shapes, pixels[0] as int, np);
    }
}

proof fn lemma_padding_is_a_pair(shapes: ArrayModel<i32>, images: int, num_patches: i32)
    requires
        shapes.shape.len() == 2,
        images == shapes.shape[0],
    ensures
        some_padding(grids_of(shapes), num_patches) <==> exists|i: int|
            #![trigger shapes.data[2 * i]]
            0 <= i < images && shapes.data[2 * i] * shapes.data[2 * i + 1] < num_patches,
        forall|i: int|
            #![trigger shapes.data[2 * i]]
            0 <= i < images ==> grids_of(shapes)[i] == (shapes.data[2 * i], shapes.data[2 * i + 1]),
{
    let grids = grids_of(shapes);
    if some_padding(grids, num_patches) {
        let i = choose|i: int|
            0 <= i < grids.len() && (#[trigger] grids[i]).0 * grids[i].1 < num_patches;
        assert(shapes.data[2 * i] * shapes.data[2 * i + 1] < num_patches);
    }
    if exists|i: int|
        #![trigger shapes.data[2 * i]]
        0 <= i < images && shapes.data[2 * i] * shapes.data[2 * i + 1] < num_patches {
        let i = choose|i: int|
            #![trigger shapes.data[2 * i]]
            0 <= i < images && shapes.data[2 * i] * shapes.data[2 * i + 1] < num_patches;
        assert(grids[i].0 * grids[i].1 < num_patches);
    }
}

proof fn lemma_no_bad_grid_at_all(grids: Seq<(i32, i32)>, num_patches: i32, i: int)
    requires
        0 <= i <= grids.len(),
    ensures
        first_bad_grid(grids, num_patches, i) is Ok <==> forall|j: int|
            i <= j < grids.len() ==> active_patches(
                (#[trigger] grids[j]).0,
                grids[j].1,
                num_patches,
            ) is Ok,
    decreases grids.len() - i,
{
    if i < grids.len() {
        lemma_no_bad_grid_at_all(grids, num_patches, i + 1);
    }
}

/// A batch gets a mask where one comes with it and an image has fewer patches than the
/// budget. The mask lets each image attend to as many keys as it has patches, the first
/// ones, and to no other.
pub proof fn law_masks_cover_the_padding<T>(
    pixels: Seq<usize>,
    shapes: ArrayModel<i32>,
    companion: Option<Seq<usize>>,
    active: T,
    padded: T,
    image: int,
    key: int,
)
    requires
        pixels.len() == 3,
        pixels[1] <= 2147483647,
        shapes.shape =~= seq![pixels[0], 2usize],
        0 <= image < pixels[0],
        0 <= key < pixels[1],
    ensures
        forward_mask(pixels, shapes, companion, active, padded) is Some <==> companion is Some
            && exists|i: int|
            #![trigger shapes.data[2 * i]]
            0 <= i < pixels[0] && shapes.data[2 * i] * shapes.data[2 * i + 1] < pixels[1],
        forward_mask(pixels, shapes, companion, active, padded) matches Some(mask) ==> {
            &&& mask.shape =~= seq![pixels[0], 1, 1, pixels[1]]
            &&& mask.data.len() == pixels[0] * pixels[1]
            &&& mask.data[image * pixels[1] + key] == if key < shapes.data[2 * image]
                * shapes.data[2 * image + 1] {
                active
            } else {
                padded
            }
        },
{
    lemma_padding_is_a_pair(shapes, pixels[0] as int, pixels[1] as i32);
    array::lemma_pair_bound(image, pixels[0] as int, key, pixels[1] as int);
    array::lemma_block_position(image, pixels[1] as int, key);
    assert(shapes.data[2 * image] == grids_of(shapes)[image].0);
}

/// The learned positions as planes: channel `c` of the position in row `y` and column `x`
/// stands in plane `c`, in that row and column.
pub proof fn law_planes_hold_their_channel<T>(
    table: ArrayModel<T>,
    side: int,
    hidden: int,
    c: int,
    y: int,
    x: int,
)
    requires
        0 <= c < hidden,
        0 <= y < side,
        0 <= x < side,
    ensures
        ({
            let r = position_planes(table, side, hidden);
            let index = (c * side + y) * side + x;
            &&& r.shape =~= seq![1, hidden as usize, side as usize, side as usize]
            &&& r.data.len() == hidden * (side * side)
            &&& 0 <= index < r.data.len()
            &&& r.data[index] == table.data[(y * side + x) * hidden + c]
        }),
{
    let k = y * side + x;
    array::lemma_pair_bound(y, side, x, side);
    array::law_exchanging_moves_each_item(table.data, 1, hidden, side * side, 1, 0, c, k, 0);
    assert((c * side + y) * side + x == c * (side * side) + k) by (nonlinear_arith)
        requires
            k == y * side + x,
    ;
    assert(((0 * hidden + c) * (side * side) + k) * 1 + 0 == c * (side * side) + k);
    assert(((0 * (side * side) + k) * hidden + c) * 1 + 0 == k * hidden + c);
    assert(1 * hidden * (side * side) * 1 == hidden * (side * side)) by (nonlinear_arith);
}

/// The positions of a batch: patch `row` of an image has, in channel `c`, the item of its
/// plane `c` for that patch, and the rows past its patches have those of the first.
pub proof fn law_positions_of_a_batch_stand_image_by_image<T>(
    planes: Seq<Seq<T>>,
    grids: Seq<(i32, i32)>,
    hidden: int,
    num_patches: int,
    images: int,
    image: int,
    row: int,
    c: int,
)
    requires
        0 <= image < images,
        0 <= row < num_patches,
        0 <= c < hidden,
    ensures
        ({
            let r = batch_positions(planes, grids, hidden, num_patches, images);
            let patches = grids[image].0 * grids[image].1;
            let index = (image * num_patches + row) * hidden + c;
            &&& r.len() == images * (num_patches * hidden)
            &&& 0 <= index < r.len()
            &&& r[index] == planes[image][c * patches + if row < patches {
                row
            } else {
                0
            }]
        }),
    decreases images,
{
    let each = num_patches * hidden;
    let inner = row * hidden + c;
    array::lemma_pair_bound(row, num_patches, c, hidden);
    array::lemma_block_position(row, hidden, c);
    lemma_batch_len(planes, grids, hidden, num_patches, images);
    lemma_batch_len(planes, grids, hidden, num_patches, images - 1);
    array::lemma_pair_bound(image, images, inner, each);
    let index = (image * num_patches + row) * hidden + c;
    assert(index == image * each + inner) by (nonlinear_arith)
        requires
            index == (image * num_patches + row) * hidden + c,
            each == num_patches * hidden,
            inner == row * hidden + c,
    ;
    if image < images - 1 {
        law_positions_of_a_batch_stand_image_by_image(
            planes,
            grids,
            hidden,
            num_patches,
            images - 1,
            image,
            row,
            c,
        );
    }
}

/// Resized positions fit a batch where there is one array for each image, with a plane for
/// each channel and an item for each patch, and where the positions of the batch fit.
pub proof fn law_positions_fit_their_grids<T>(
    planes: Seq<Seq<T>>,
    grids: Seq<(i32, i32)>,
    hidden: i32,
    num_patches: i32,
)
    ensures
        positions_refused(planes, grids, hidden, num_patches) is Ok <==> {
            &&& planes.len() == grids.len()
            &&& forall|i: int|
                0 <= i < planes.len() ==> (#[trigger] planes[i]).len() == hidden * (grids[i].0
                    * grids[i].1)
            &&& grids.len() * (num_patches * hidden) <= usize::MAX
        },
{
    lemma_no_bad_planes_at_all(planes, grids, hidden, 0);
}

proof fn lemma_no_bad_planes_at_all<T>(
    planes: Seq<Seq<T>>,
    grids: Seq<(i32, i32)>,
    hidden: i32,
    i: int,
)
    requires
        0 <= i <= planes.len(),
    ensures
        first_bad_planes(planes, grids, hidden, i) is Ok <==> forall|j: int|
            i <= j < planes.len() ==> (#[trigger] planes[j]).len() == hidden * (grids[j].0
                * grids[j].1),
    decreases planes.len() - i,
{
    if i < planes.len() {
        lemma_no_bad_planes_at_all(planes, grids, hidden, i + 1);
    }
}

/// A tower is built of an admitted configuration with at least one of its layers, and no
/// more than it has.
pub proof fn law_towers_keep_some_of_their_layers(config: VisionConfig, layers_kept: i32)
    ensures
        tower_refused(config, layers_kept) is None <==> config.refused() is None && 1 <= layers_kept
            && layers_kept <= config.num_hidden_layers,
{
}


/// In a built tower, the projections of a layer's attention, the layers of its feed-forward
/// part and its normalisations have the weights and biases that the checkpoint holds under
/// the number of the layer and the name of the slot.
pub proof fn law_layers_hold_the_weights_of_their_number<W>(
    m: Map<Seq<char>, W>,
    config: VisionConfig,
    layers_kept: i32,
    schemes: Schemes,
    prefix: Seq<char>,
    i: int,
)
    requires
        tower_refused(config, layers_kept) is None,
        tower(m, config, layers_kept, schemes, prefix) is Ok,
        0 <= i < layers_kept,
    ensures
        ({
            let layer = tower(m, config, layers_kept, schemes, prefix)->Ok_0.0.layers[i];
            let path = "encoder.layers."@ + text::decimal(i as nat);
            let attn = path + ".self_attn"@;
            &&& layer.self_attn.q_proj.weight == m[attn + ".q_proj"@ + ".weight"@]
            &&& layer.self_attn.k_proj.weight == m[attn + ".k_proj"@ + ".weight"@]
            &&& layer.self_attn.v_proj.weight == m[attn + ".v_proj"@ + ".weight"@]
            &&& layer.self_attn.out_proj.weight == m[attn + ".out_proj"@ + ".weight"@]
            &&& layer.mlp.fc1.weight == m[path + ".mlp"@ + ".fc1"@ + ".weight"@]
            &&& layer.mlp.fc2.weight == m[path + ".mlp"@ + ".fc2"@ + ".weight"@]
            &&& layer.layer_norm1.weight == m[path + ".layer_norm1"@ + ".weight"@]
            &&& layer.layer_norm1.bias == m[path + ".layer_norm1"@ + ".bias"@]
            &&& layer.layer_norm2.weight == m[path + ".layer_norm2"@ + ".weight"@]
            &&& layer.layer_norm2.bias == m[path + ".layer_norm2"@ + ".bias"@]
            &&& layer.self_attn.q_proj.bias == if m.contains_key(attn + ".q_proj"@ + ".bias"@) {
                Some(m[attn + ".q_proj"@ + ".bias"@])
            } else {
                None
            }
            &&& layer.self_attn.k_proj.bias == if m.contains_key(attn + ".k_proj"@ + ".bias"@) {
                Some(m[attn + ".k_proj"@ + ".bias"@])
            } else {
                None
            }
            &&& layer.self_attn.v_proj.bias == if m.contains_key(attn + ".v_proj"@ + ".bias"@) {
                Some(m[attn + ".v_proj"@ + ".bias"@])
            } else {
                None
            }
            &&& layer.self_attn.out_proj.bias == if m.contains_key(attn + ".out_proj"@ + ".bias"@) {
                Some(m[attn + ".out_proj"@ + ".bias"@])
            } else {
                None
            }
            &&& layer.mlp.fc1.bias == if m.contains_key(path + ".mlp"@ + ".fc1"@ + ".bias"@) {
                Some(m[path + ".mlp"@ + ".fc1"@ + ".bias"@])
            } else {
                None
            }
            &&& layer.mlp.fc2.bias == if m.contains_key(path + ".mlp"@ + ".fc2"@ + ".bias"@) {
                Some(m[path + ".mlp"@ + ".fc2"@ + ".bias"@])
            } else {
                None
            }
        }),
{
    law_each_slot_holds_the_weights_of_its_name(m, config, layers_kept, schemes, prefix);
    let t = tower(m, config, layers_kept, schemes, prefix)->Ok_0.0;
    let n = i as nat;
    assert(holds_layer(t.layers[n as int], m, n, schemes, prefix));
}

/// What a built tower, a list of arrays or an optional array holds is what is in it.
pub proof fn law_contents_are_what_is_held<W, T>(
    t: VisionModel<W>,
    e: Error,
    layers: Vec<EncoderLayer<W>>,
    arrays: Seq<Array<T>>,
    array: Array<T>,
    i: int,
)
    ensures
        tower_contents(Ok(t)) == Ok::<TowerModel<W>, Error>(t@),
        tower_contents(Err::<VisionModel<W>, Error>(e)) == Err::<TowerModel<W>, Error>(e),
        contents(Ok(layers)) == Ok::<Seq<EncoderLayer<W>>, Error>(layers@),
        contents(Err::<Vec<EncoderLayer<W>>, Error>(e)) == Err::<Seq<EncoderLayer<W>>, Error>(e),
        items_of(arrays).len() == arrays.len(),
        0 <= i < arrays.len() ==> items_of(arrays)[i] == arrays[i]@.data,
        optional_model(Some(array)) == Some(array@),
        optional_model(None::<Array<T>>) is None,
        optional_shape(Some(&array)) == Some(array@.shape),
        optional_shape(None::<&Array<T>>) is None,
        t@.patch_embedding == t.patch_embedding,
        t@.position_embedding == t.position_embedding,
        t@.pos_grid_side == t.pos_grid_side,
        t@.layers == t.layers@,
        t@.post_layernorm == t.post_layernorm,
        t@.hidden == t.hidden,
{
}


/// Whether a name is one of those that an encoder layer may take.
pub open spec fn is_layer_slot(i: nat, key: Seq<char>) -> bool {
    let path = "encoder.layers."@ + text::decimal(i);
    let attn = path + ".self_attn"@;
    let mlp = path + ".mlp"@;
    ||| layers::is_slot(path + ".layer_norm1"@, key)
    ||| layers::is_slot(attn + ".q_proj"@, key)
    ||| layers::is_slot(attn + ".k_proj"@, key)
    ||| layers::is_slot(attn + ".v_proj"@, key)
    ||| layers::is_slot(attn + ".out_proj"@, key)
    ||| layers::is_slot(path + ".layer_norm2"@, key)
    ||| layers::is_slot(mlp + ".fc1"@, key)
    ||| layers::is_slot(mlp + ".fc2"@, key)
}

/// A tower takes the weights of the slots of its kept layers and of its own embeddings and
/// normalisation only: every other weight is left, those of further layers among them.
pub proof fn law_the_tower_leaves_other_names<W>(
    m: Map<Seq<char>, W>,
    config: VisionConfig,
    layers_kept: i32,
    schemes: Schemes,
    prefix: Seq<char>,
    key: Seq<char>,
)
    requires
        0 <= layers_kept,
        tower(m, config, layers_kept, schemes, prefix) is Ok,
        !layers::is_slot("embeddings.patch_embedding"@, key),
        key != "embeddings.position_embedding.weight"@,
        forall|i: nat| i < layers_kept ==> !#[trigger] is_layer_slot(i, key),
        !layers::is_slot("post_layernorm"@, key),
    ensures
        ({
            let rest = tower(m, config, layers_kept, schemes, prefix)->Ok_0.1;
            &&& rest.contains_key(key) <==> m.contains_key(key)
            &&& m.contains_key(key) ==> rest[key] == m[key]
        }),
{
    let dims = LayerDims {
        num_heads: config.num_attention_heads,
        head_dim: (config.hidden_size as int / config.num_attention_heads as int) as i32,
    };
    lemma_linear_leaves(m, "embeddings.patch_embedding"@, schemes, prefix, key);
    let m1 = tower_linear(m, "embeddings.patch_embedding"@, schemes, prefix)->Ok_0.1;
    let m2 = weights::taken(
        m1,
        tower_context(),
        "embeddings.position_embedding.weight"@,
    )->Ok_0.1;
    assert(layers::agree_on(m1, m2, key));
    lemma_layers_leave(m2, layers_kept as nat, dims, schemes, prefix, key);
    let m3 = encoder_layers(m2, layers_kept as nat, dims, schemes, prefix)->Ok_0.1;
    lemma_norm_leaves(m3, "post_layernorm"@, key);
}

proof fn lemma_linear_leaves<W>(
    m: Map<Seq<char>, W>,
    path: Seq<char>,
    schemes: Schemes,
    tower: Seq<char>,
    key: Seq<char>,
)
    requires
        !layers::is_slot(path, key),
    ensures
        tower_linear(m, path, schemes, tower) matches Ok((l, rest)) ==> layers::agree_on(
            m,
            rest,
            key,
        ),
{
    let scheme = schemes.covers(tower + path);
    layers::law_a_linear_layer_is_the_weights_of_its_path(m, tower_context(), path, scheme);
    if let Ok((l, rest)) = tower_linear(m, path, schemes, tower) {
        assert(rest.contains_key(key) || !rest.contains_key(key));
    }
}

proof fn lemma_norm_leaves<W>(m: Map<Seq<char>, W>, path: Seq<char>, key: Seq<char>)
    requires
        !layers::is_slot(path, key),
    ensures
        layers::norm(m, tower_context(), path) matches Ok((n, rest)) ==> layers::agree_on(
            m,
            rest,
            key,
        ),
{
    layers::law_a_norm_is_the_weights_of_its_path(m, tower_context(), path);
    if let Ok((n, rest)) = layers::norm(m, tower_context(), path) {
        assert(rest.contains_key(key) || !rest.contains_key(key));
    }
}

proof fn lemma_layer_leaves<W>(
    m: Map<Seq<char>, W>,
    i: nat,
    dims: LayerDims,
    schemes: Schemes,
    tower: Seq<char>,
    key: Seq<char>,
)
    requires
        !is_layer_slot(i, key),
    ensures
        encoder_layer(m, i, dims, schemes, tower) matches Ok((l, rest)) ==> layers::agree_on(
            m,
            rest,
            key,
        ),
{
    if encoder_layer(m, i, dims, schemes, tower) is Ok {
        let path = layer_path(i);
        let attn = path + ".self_attn"@;
        let feed = path + ".mlp"@;
        lemma_norm_leaves(m, path + ".layer_norm1"@, key);
        let m1 = layers::norm(m, tower_context(), path + ".layer_norm1"@)->Ok_0.1;
        lemma_linear_leaves(m1, attn + ".q_proj"@, schemes, tower, key);
        let a1 = tower_linear(m1, attn + ".q_proj"@, schemes, tower)->Ok_0.1;
        lemma_linear_leaves(a1, attn + ".k_proj"@, schemes, tower, key);
        let a2 = tower_linear(a1, attn + ".k_proj"@, schemes, tower)->Ok_0.1;
        lemma_linear_leaves(a2, attn + ".v_proj"@, schemes, tower, key);
        let a3 = tower_linear(a2, attn + ".v_proj"@, schemes, tower)->Ok_0.1;
        lemma_linear_leaves(a3, attn + ".out_proj"@, schemes, tower, key);
        let m2 = attention(m1, attn, dims, schemes, tower)->Ok_0.1;
        assert(layers::agree_on(m1, m2, key));
        lemma_norm_leaves(m2, path + ".layer_norm2"@, key);
        let m3 = layers::norm(m2, tower_context(), path + ".layer_norm2"@)->Ok_0.1;
        lemma_linear_leaves(m3, feed + ".fc1"@, schemes, tower, key);
        let f1 = tower_linear(m3, feed + ".fc1"@, schemes, tower)->Ok_0.1;
        lemma_linear_leaves(f1, feed + ".fc2"@, schemes, tower, key);
    }
}

proof fn lemma_layers_leave<W>(
    m: Map<Seq<char>, W>,
    count: nat,
    dims: LayerDims,
    schemes: Schemes,
    tower: Seq<char>,
    key: Seq<char>,
)
    requires
        forall|i: nat| i < count ==> !#[trigger] is_layer_slot(i, key),
    ensures
        encoder_layers(m, count, dims, schemes, tower) matches Ok((l, rest)) ==> layers::agree_on(
            m,
            rest,
            key,
        ),
    decreases count,
{
    if count > 0 {
        let before = (count - 1) as nat;
        lemma_layers_leave(m, before, dims, schemes, tower, key);
        if let Ok((taken, rest)) = encoder_layers(m, before, dims, schemes, tower) {
            assert(!is_layer_slot(before, key));
            lemma_layer_leaves(rest, before, dims, schemes, tower, key);
        }
    }
}


/// Hidden states and heads are refused for their number of axes, or else for a width that
/// disagrees.
pub proof fn law_refused_splits_say_what_is_wrong(shape: Seq<usize>, dims: LayerDims)
    ensures
        split_outcome(shape, dims) matches Err(e) ==> {
            &&& e is RankMismatch <==> shape.len() != 3
            &&& e is LengthMismatch <==> shape.len() == 3
        },
        join_outcome(shape, dims) matches Err(e) ==> {
            &&& e is RankMismatch <==> shape.len() != 4
            &&& e is LengthMismatch <==> shape.len() == 4
        },
{
}

} // verus!
