//! The whole model: the names of its weights, the parts that are built of them,
//! and the way of an image from its patches to the prompt.

use vstd::prelude::*;

use crate::array::{self, Array, ArrayModel};
use crate::buffer::{push_range, reserve_or_error};
use crate::error::{
    self, invariant_violation, length_mismatch, overflow, rank_mismatch, Error, ErrorModel,
};
use crate::model_validation::{self, checked_mul};
use crate::text::{self, contains_text, replace_text};
use crate::vlm::image;
use crate::vlm::load::{self, VlmTypeRegistry};
use crate::vlm::models::lfm2_vl::config::ModelConfig;
use crate::vlm::models::lfm2_vl::language::LanguageModel;
use crate::vlm::models::lfm2_vl::layers::Schemes;
use crate::vlm::models::lfm2_vl::patchify::{self, preprocess_image, NormTable};
use crate::vlm::models::lfm2_vl::processor::{
    self, num_image_tokens_from_patch_grid, Lfm2VlImageInputs, Lfm2VlProcessorConfig,
    ProcessorSettings, TilingConfig,
};
use crate::vlm::models::lfm2_vl::projector::{
    self, check_merge, dim_i32, merge_input_ids_with_image_features, plan_fold,
    Lfm2VlMultiModalProjector, PixelUnshuffleBlock,
};
use crate::vlm::models::lfm2_vl::tiling::{self, tile_image, TileNumbers};
use crate::vlm::models::lfm2_vl::vision::{
    self, validate_active_grid, EncoderLayer, VisionModel,
};
use crate::vlm::resize::Kernel;
use crate::weights::{self, WeightMap};

verus! {

// ---------------------------------------------------------------------------
// The names of the weights
// ---------------------------------------------------------------------------

/// The name of a weight of the vision tower without the prefixes of a checkpoint.
pub open spec fn vision_name(key: Seq<char>) -> Seq<char> {
    if text::occurs(key, "vision_tower"@) {
        text::replaced(
            text::replaced(
                text::replaced(
                    text::replaced(key, "model."@, ""@),
                    "vision_encoder"@,
                    "encoder"@,
                ),
                "vision_embeddings"@,
                "embeddings"@,
            ),
            "vision_post_layernorm"@,
            "post_layernorm"@,
        )
    } else {
        key
    }
}

/// The name of a weight of the language model as the model has it.
pub open spec fn language_name(key: Seq<char>) -> Seq<char> {
    if text::occurs(key, "language_model"@) {
        text::replaced(key, "model.language_model"@, "language_model.model"@)
    } else {
        key
    }
}

/// The name of a weight of the projector as the model has it.
pub open spec fn projector_name(key: Seq<char>) -> Seq<char> {
    if text::occurs(key, "multi_modal_projector"@) {
        text::replaced(key, "model.multi_modal_projector"@, "multi_modal_projector"@)
    } else {
        key
    }
}

/// The name that the model has for a weight of a checkpoint.
pub open spec fn model_name(key: Seq<char>) -> Seq<char> {
    projector_name(language_name(vision_name(key)))
}

/// The name that the model has for a weight of a checkpoint; see [`model_name`].
pub fn transform_key(key: &str) -> (r: String)
    ensures
        r@ == model_name(key@),
{
    proof {
        reveal_strlit("model.");
        reveal_strlit("vision_encoder");
        reveal_strlit("vision_embeddings");
        reveal_strlit("vision_post_layernorm");
        reveal_strlit("model.language_model");
        reveal_strlit("model.multi_modal_projector");
    }
    let mut name: String = key.to_owned();
    if contains_text(name.as_str(), "vision_tower") {
        name = replace_text(name.as_str(), "model.", "");
        name = replace_text(name.as_str(), "vision_encoder", "encoder");
        name = replace_text(name.as_str(), "vision_embeddings", "embeddings");
        name = replace_text(name.as_str(), "vision_post_layernorm", "post_layernorm");
    }
    if contains_text(name.as_str(), "language_model") {
        name = replace_text(name.as_str(), "model.language_model", "language_model.model");
    }
    if contains_text(name.as_str(), "multi_modal_projector") {
        name =
        replace_text(
            name.as_str(),
            "model.multi_modal_projector",
            "multi_modal_projector",
        );
    }
    name
}

/// Whether two weights of a checkpoint would get one name.
pub open spec fn names_clash<W>(weights: Map<Seq<char>, W>, name: Seq<char>) -> bool {
    exists|a: Seq<char>, b: Seq<char>|
        #![trigger weights.contains_key(a), weights.contains_key(b)]
        weights.contains_key(a) && weights.contains_key(b) && a != b && model_name(a) == name
            && model_name(b) == name
}

/// Whether some weights are those of a checkpoint under the names of the model.
pub open spec fn is_renamed<W>(weights: Map<Seq<char>, W>, renamed: Map<Seq<char>, W>) -> bool {
    &&& forall|key: Seq<char>| #[trigger]
        weights.contains_key(key) ==> renamed.contains_key(model_name(key))
            && renamed[model_name(key)] == weights[key]
    &&& forall|name: Seq<char>| #[trigger]
        renamed.contains_key(name) ==> exists|key: Seq<char>| #[trigger]
            weights.contains_key(key) && model_name(key) == name
}

// ---------------------------------------------------------------------------
// Building the model
// ---------------------------------------------------------------------------

/// The fold of patches into tokens, or nothing where one patch is one token.
#[derive(Debug, Clone, Copy)]
pub enum PixelUnshuffle {
    /// Several patches make one token.
    Block(PixelUnshuffleBlock),
    /// One patch makes one token.
    Identity,
}

impl PixelUnshuffle {
    /// The number of patches that are folded along each axis, where there is
    /// something to fold.
    pub open spec fn fold(&self) -> Option<i32> {
        match *self {
            PixelUnshuffle::Block(block) => Some(block.side()),
            PixelUnshuffle::Identity => None,
        }
    }

    /// The fold of a factor: none where the factor is one or less.
    pub fn new(factor: i32) -> (r: Self)
        ensures
            r.fold() == (if factor > 1 {
                Some(factor)
            } else {
                None
            }),
    {
        if factor > 1 {
            match PixelUnshuffleBlock::new(factor) {
                Ok(block) => PixelUnshuffle::Block(block),
                Err(_) => PixelUnshuffle::Identity,
            }
        } else {
            PixelUnshuffle::Identity
        }
    }

    /// Folds a grid of patches; a grid is left as it is where there is nothing to
    /// fold.
    pub fn forward<T: Copy>(&self, x: Array<T>, zero: T) -> (r: Result<Array<T>, Error>)
        ensures
            match *self {
                PixelUnshuffle::Identity => r == Ok::<Array<T>, Error>(x),
                PixelUnshuffle::Block(block) => match projector::fold_outcome(
                    x@.shape,
                    block.side(),
                ) {
                    Err(e) => r == Err::<Array<T>, Error>(e),
                    Ok(_) => match r {
                        Ok(out) => out@ == projector::folded(x@, block.side(), zero),
                        Err(e) => e == (Error::AllocFailure {
                            context: "lfm2_vl PixelUnshuffleBlock: folded grid",
                        }),
                    },
                },
            },
            *self matches PixelUnshuffle::Block(block) ==> projector::fold_outcome(
                x@.shape,
                block.side(),
            ) matches Ok(fold) ==> fold.items == 0 ==> r is Ok,
    {
        match self {
            PixelUnshuffle::Block(block) => block.forward(&x, zero),
            PixelUnshuffle::Identity => Ok(x),
        }
    }
}

/// A part of the model that claims weights.
#[derive(Debug, Clone, Copy, PartialEq, Eq, Structural)]
pub enum Part {
    /// The vision tower.
    VisionTower,
    /// The projector.
    MultiModalProjector,
    /// The whole model.
    TopLevel,
}

/// The refusal of weights that a part does not claim.
#[verifier::allow_in_spec]
pub fn unclaimed(part: Part) -> Error
    returns
        invariant_violation(
            "lfm2_vl: unconsumed checkpoint weight(s) after construction",
            match part {
                Part::VisionTower =>
                    "vision_tower has leftover weights (unexpected key / wrong feature layer)",
                Part::MultiModalProjector =>
                    "multi_modal_projector has leftover weights (unexpected projector key)",
                Part::TopLevel =>
                    "top-level has leftover weights (unexpected key / unmapped prefix)",
            },
        ),
{
    invariant_violation(
        "lfm2_vl: unconsumed checkpoint weight(s) after construction",
        match part {
            Part::VisionTower =>
                "vision_tower has leftover weights (unexpected key / wrong feature layer)",
            Part::MultiModalProjector =>
                "multi_modal_projector has leftover weights (unexpected projector key)",
            Part::TopLevel =>
                "top-level has leftover weights (unexpected key / unmapped prefix)",
        },
    )
}

/// Refuses weights that a part did not claim.
pub fn reject_leftover<W>(weights: &WeightMap<W>, part: Part) -> (r: Result<(), Error>)
    ensures
        r == (if weights@ == Map::<Seq<char>, W>::empty() {
            Ok::<(), Error>(())
        } else {
            Err(unclaimed(part))
        }),
{
    if weights.is_empty() {
        Ok(())
    } else {
        Err(unclaimed(part))
    }
}

/// The parts of a model before the language model is built.
#[derive(Debug)]
pub struct Lfm2VlParts<W> {
    /// The configuration.
    pub config: ModelConfig,
    /// The vision tower.
    pub vision_tower: VisionModel<W>,
    /// The fold of patches into tokens.
    pub pixel_unshuffle: PixelUnshuffle,
    /// The projector.
    pub multi_modal_projector: Lfm2VlMultiModalProjector<W>,
    /// The weights of the language model, under its own names.
    pub language_weights: WeightMap<W>,
    /// The weights that no part claims.
    pub unclaimed: WeightMap<W>,
}

/// The parts of a model by what they hold; the fold of patches is the side of its
/// blocks, or `None` where there is nothing to fold.
pub struct PartsModel<W> {
    pub config: ModelConfig,
    pub fold: Option<i32>,
    pub vision_tower: vision::TowerModel<W>,
    pub multi_modal_projector: Lfm2VlMultiModalProjector<W>,
    pub language_weights: Map<Seq<char>, W>,
    pub unclaimed: Map<Seq<char>, W>,
}

impl<W> View for Lfm2VlParts<W> {
    type V = PartsModel<W>;

    open spec fn view(&self) -> PartsModel<W> {
        PartsModel {
            config: self.config,
            fold: self.pixel_unshuffle.fold(),
            vision_tower: self.vision_tower@,
            multi_modal_projector: self.multi_modal_projector,
            language_weights: self.language_weights@,
            unclaimed: self.unclaimed@,
        }
    }
}

/// The vision tower of the weights under its prefix, all of which it has to claim.
pub open spec fn whole_tower<W>(
    m: Map<Seq<char>, W>,
    config: ModelConfig,
    schemes: Schemes,
) -> Result<vision::TowerModel<W>, ErrorModel> {
    let own = weights::without_part(
        weights::under_prefix(m, "vision_tower."@),
        "position_ids"@,
    );
    let kept = crate::vlm::models::lfm2_vl::config::layers_kept(
        config.vision_feature_layer,
        config.vision_config.num_hidden_layers,
    )->Ok_0;
    match vision::tower(own, config.vision_config, kept, schemes, "vision_tower."@) {
        Err(e) => Err(e),
        Ok((tower, rest)) => if rest == Map::<Seq<char>, W>::empty() {
            Ok(tower)
        } else {
            Err(unclaimed(Part::VisionTower)@)
        },
    }
}

/// The projector of the weights under its prefix, all of which it has to claim.
pub open spec fn whole_projector<W>(
    m: Map<Seq<char>, W>,
    config: ModelConfig,
    schemes: Schemes,
) -> Result<Lfm2VlMultiModalProjector<W>, ErrorModel> {
    match projector::projector(
        weights::under_prefix(m, "multi_modal_projector."@),
        config,
        schemes,
        "multi_modal_projector."@,
    ) {
        Err(e) => Err(e),
        Ok((p, rest)) => if rest == Map::<Seq<char>, W>::empty() {
            Ok(p)
        } else {
            Err(unclaimed(Part::MultiModalProjector)@)
        },
    }
}

/// The parts that a checkpoint makes, or the first thing that is wrong with it;
/// `text` is what makes the text tower of the configuration inadmissible.
pub open spec fn parts<W>(
    m: Map<Seq<char>, W>,
    config: ModelConfig,
    text: Option<ErrorModel>,
    schemes: Schemes,
) -> Result<PartsModel<W>, ErrorModel> {
    match config.refused(text) {
        Some(e) => Err(e),
        None => match whole_tower(m, config, schemes) {
            Err(e) => Err(e),
            Ok(vision_tower) => {
                let m1 = weights::outside_prefix(m, "vision_tower."@);
                match whole_projector(m1, config, schemes) {
                    Err(e) => Err(e),
                    Ok(multi_modal_projector) => {
                        let m2 = weights::outside_prefix(m1, "multi_modal_projector."@);
                        Ok(
                            PartsModel {
                                config,
                                fold: if config.downsample_factor > 1 {
                                    Some(config.downsample_factor)
                                } else {
                                    None
                                },
                                vision_tower,
                                multi_modal_projector,
                                language_weights: weights::under_prefix(m2, "language_model."@),
                                unclaimed: weights::outside_prefix(m2, "language_model."@),
                            },
                        )
                    },
                }
            },
        },
    }
}

/// The room that the parts of a checkpoint are set apart in: for each prefix, what
/// has it and what does not, and the encoder layers.
#[derive(Debug)]
pub struct PartBuffers<W> {
    /// The weights of the vision tower.
    pub vision: Vec<(String, W)>,
    /// The weights that are not of the vision tower.
    pub past_vision: Vec<(String, W)>,
    /// The encoder layers of the vision tower.
    pub layers: Vec<EncoderLayer<W>>,
    /// The weights of the projector.
    pub projector: Vec<(String, W)>,
    /// The weights that are not of the projector either.
    pub past_projector: Vec<(String, W)>,
    /// The weights of the language model.
    pub language: Vec<(String, W)>,
    /// The weights that no part claims.
    pub unclaimed: Vec<(String, W)>,
}

impl<W> PartBuffers<W> {
    /// Whether nothing is in the buffers yet.
    pub open spec fn is_empty(self) -> bool {
        &&& self.vision@.len() == 0
        &&& self.past_vision@.len() == 0
        &&& self.layers@.len() == 0
        &&& self.projector@.len() == 0
        &&& self.past_projector@.len() == 0
        &&& self.language@.len() == 0
        &&& self.unclaimed@.len() == 0
    }

    /// Room for a checkpoint of `count` weights and a tower of `layers` layers.
    pub fn reserve(count: usize, layers: usize) -> (r: Result<Self, Error>)
        ensures
            match r {
                Ok(buffers) => buffers.is_empty(),
                Err(e) => e == (Error::AllocFailure { context: "lfm2_vl take_prefixed" }) || e == (
                Error::AllocFailure { context: "lfm2_vl EncoderLayer" }),
            },
            count == 0 && layers == 0 ==> r is Ok,
    {
        Ok(
            PartBuffers {
                vision: reserve_or_error(count, "lfm2_vl take_prefixed")?,
                past_vision: reserve_or_error(count, "lfm2_vl take_prefixed")?,
                layers: reserve_or_error(layers, "lfm2_vl EncoderLayer")?,
                projector: reserve_or_error(count, "lfm2_vl take_prefixed")?,
                past_projector: reserve_or_error(count, "lfm2_vl take_prefixed")?,
                language: reserve_or_error(count, "lfm2_vl take_prefixed")?,
                unclaimed: reserve_or_error(count, "lfm2_vl take_prefixed")?,
            },
        )
    }
}

impl<W> Lfm2VlParts<W> {
    /// Builds the vision tower and the projector of a checkpoint for a configuration
    /// that is admitted, and sets the weights of the language model apart, in the
    /// given buffers; see [`parts`].
    pub fn take(
        config: ModelConfig,
        weights: WeightMap<W>,
        schemes: &Schemes,
        buffers: PartBuffers<W>,
    ) -> (r: Result<Self, Error>)
        requires
            config.refused(None) is None,
            buffers.is_empty(),
        ensures
            match parts(weights@, config, None, *schemes) {
                Ok(m) => r matches Ok(p) && p@ == m,
                Err(m) => r matches Err(e) && e@ == m,
            },
    {
        let mut weights: WeightMap<W> = weights;
        let layers_kept: i32 = config.vision_feature_layers_kept()?;
        let mut own: WeightMap<W> = weights.split_prefixed(
            "vision_tower.",
            buffers.vision,
            buffers.past_vision,
        );
        VisionModel::sanitize(&mut own);
        let vision_tower: VisionModel<W> = VisionModel::take(
            &config.vision_config,
            layers_kept,
            &mut own,
            schemes,
            "vision_tower.",
            buffers.layers,
        )?;
        reject_leftover(&own, Part::VisionTower)?;
        let pixel_unshuffle: PixelUnshuffle = PixelUnshuffle::new(config.downsample_factor);
        let mut own: WeightMap<W> = weights.split_prefixed(
            "multi_modal_projector.",
            buffers.projector,
            buffers.past_projector,
        );
        let multi_modal_projector: Lfm2VlMultiModalProjector<W> =
            Lfm2VlMultiModalProjector::from_weights(
            &config,
            Ok(()),
            &mut own,
            schemes,
            "multi_modal_projector.",
        )?;
        reject_leftover(&own, Part::MultiModalProjector)?;
        let language_weights: WeightMap<W> = weights.split_prefixed(
            "language_model.",
            buffers.language,
            buffers.unclaimed,
        );
        Ok(
            Lfm2VlParts {
                config,
                vision_tower,
                pixel_unshuffle,
                multi_modal_projector,
                language_weights,
                unclaimed: weights,
            },
        )
    }

    /// Builds the vision tower and the projector of a checkpoint, and sets the
    /// weights of the language model apart; see [`parts`].
    ///
    /// A configuration that is not admitted is refused before anything is allocated;
    /// for one that is, [`PartBuffers::reserve`] can fail for want of memory.
    pub fn from_weights(
        config: ModelConfig,
        text: Result<(), Error>,
        weights: WeightMap<W>,
        schemes: &Schemes,
    ) -> (r: Result<Self, Error>)
        ensures
            match (r, parts(weights@, config, error::verdict(text), *schemes)) {
                (Ok(p), Ok(m)) => p@ == m,
                (Ok(_), Err(_)) => false,
                (Err(e), Ok(_)) => e is AllocFailure,
                (Err(e), Err(m)) => e@ == m || e is AllocFailure,
            },
            config.refused(error::verdict(text)) matches Some(m) ==> r matches Err(e) && e@ == m,
    {
        config.validate(text)?;
        let layers_kept: i32 = config.vision_feature_layers_kept()?;
        let buffers: PartBuffers<W> = PartBuffers::reserve(weights.len(), layers_kept as usize)?;
        Self::take(config, weights, schemes, buffers)
    }
}

/// An LFM2-VL model around a language model `L`.
#[derive(Debug)]
pub struct Lfm2Vl<W, L> {
    /// The configuration.
    pub config: ModelConfig,
    /// The vision tower.
    pub vision_tower: VisionModel<W>,
    /// The fold of patches into tokens.
    pub pixel_unshuffle: PixelUnshuffle,
    /// The projector.
    pub multi_modal_projector: Lfm2VlMultiModalProjector<W>,
    /// The language model.
    pub language_model: LanguageModel<L>,
}

impl<W, L> Lfm2Vl<W, L> {
    /// Puts a model together of its parts and the language model that was built
    /// of the weights set apart for it. Weights that no part claims are refused.
    pub fn from_parts(parts: Lfm2VlParts<W>, model: L) -> (r: Result<Self, Error>)
        ensures
            match r {
                Ok(built) => parts@.unclaimed == Map::<Seq<char>, W>::empty() && built == (Lfm2Vl {
                    config: parts.config,
                    vision_tower: parts.vision_tower,
                    pixel_unshuffle: parts.pixel_unshuffle,
                    multi_modal_projector: parts.multi_modal_projector,
                    language_model: LanguageModel { model, config: parts.config.text_config },
                }),
                Err(e) => parts@.unclaimed != Map::<Seq<char>, W>::empty() && e == unclaimed(
                    Part::TopLevel,
                ),
            },
    {
        reject_leftover(&parts.unclaimed, Part::TopLevel)?;
        let language_model: LanguageModel<L> = LanguageModel::new(
            model,
            parts.config.text_config,
        );
        Ok(
            Lfm2Vl {
                config: parts.config,
                vision_tower: parts.vision_tower,
                pixel_unshuffle: parts.pixel_unshuffle,
                multi_modal_projector: parts.multi_modal_projector,
                language_model,
            },
        )
    }

    /// Gives the weights of a checkpoint the names that the model has for them; see
    /// [`is_renamed`]. Two weights that would get one name are refused.
    pub fn sanitize(weights: WeightMap<W>) -> (r: Result<WeightMap<W>, Error>)
        ensures
            match r {
                Ok(out) => is_renamed(weights@, out@) && forall|name: Seq<char>|
                    !#[trigger] names_clash(weights@, name),
                Err(e) => e@ matches ErrorModel::KeyCollision { context, key } && context
                    == "lfm2_vl sanitize" && names_clash(weights@, key),
            },
    {
        let ghost given = weights@;
        let mut entries: Vec<(String, W)> = weights.into_entries();
        let ghost all = entries@;
        let mut out: WeightMap<W> = WeightMap::new();
        assert(all =~= all.take(all.len() as int));
        loop
            invariant
                entries@.len() <= all.len(),
                entries@ == all.take(entries@.len() as int),
                given == weights@,
                forall|i: int|
                    0 <= i < all.len() ==> given.contains_key((#[trigger] all[i]).0@)
                        && given[all[i].0@] == all[i].1,
                forall|i: int, j: int|
                    0 <= i < j < all.len() ==> (#[trigger] all[i]).0@ != (#[trigger] all[j]).0@,
                forall|i: int|
                    entries@.len() <= i < all.len() ==> out@.contains_key(
                        model_name((#[trigger] all[i]).0@),
                    ) && out@[model_name(all[i].0@)] == all[i].1,
                forall|name: Seq<char>| #[trigger]
                    out@.contains_key(name) ==> exists|i: int|
                        entries@.len() <= i < all.len() && model_name((#[trigger] all[i]).0@) == name,
                forall|i: int, j: int|
                    entries@.len() <= i < j < all.len() ==> model_name((#[trigger] all[i]).0@)
                        != model_name((#[trigger] all[j]).0@),
            ensures
                entries@.len() == 0,
            decreases entries@.len(),
        {
            let ghost n = entries@.len() as int;
            match entries.pop() {
                None => {
                    break;
                },
                Some((key, weight)) => {
                    assert(all[n - 1] == (key, weight));
                    assert(entries@ =~= all.take(n - 1));
                    let name: String = transform_key(key.as_str());
                    let ghost before = out@;
                    proof {
                        if out@.contains_key(name@) {
                            let i = choose|i: int|
                                n <= i < all.len() && model_name((#[trigger] all[i]).0@) == name@;
                            assert(all[n - 1].0@ != all[i].0@);
                            assert(given.contains_key(all[i].0@));
                            assert(given.contains_key(all[n - 1].0@));
                            assert(names_clash(given, name@));
                        }
                    }
                    out.insert_unique(name, weight, "lfm2_vl sanitize")?;
                    proof {
                        assert forall|x: Seq<char>| #[trigger] out@.contains_key(x) implies exists|
                            i: int,
                        |
                            n - 1 <= i < all.len() && model_name((#[trigger] all[i]).0@) == x by {
                            if x == name@ {
                                assert(model_name(all[n - 1].0@) == x);
                            } else {
                                assert(before.contains_key(x));
                            }
                        }
                    }
                },
            }
        }
        proof {
            assert forall|key: Seq<char>| #[trigger] given.contains_key(key) implies out@.contains_key(
                model_name(key),
            ) && out@[model_name(key)] == given[key] by {
                let i = choose|i: int| 0 <= i < all.len() && (#[trigger] all[i]).0@ == key;
                assert(out@.contains_key(model_name(all[i].0@)));
            }
            assert forall|name: Seq<char>| #[trigger] out@.contains_key(name) implies exists|
                key: Seq<char>,
            | #[trigger] given.contains_key(key) && model_name(key) == name by {
                let i = choose|i: int|
                    0 <= i < all.len() && model_name((#[trigger] all[i]).0@) == name;
                assert(given.contains_key(all[i].0@));
            }
            assert forall|name: Seq<char>| !#[trigger] names_clash(given, name) by {
                if names_clash(given, name) {
                    let (a, b) = choose|a: Seq<char>, b: Seq<char>|
                        #![trigger given.contains_key(a), given.contains_key(b)]
                        given.contains_key(a) && given.contains_key(b) && a != b && model_name(a)
                            == name && model_name(b) == name;
                    let i = choose|i: int| 0 <= i < all.len() && (#[trigger] all[i]).0@ == a;
                    let j = choose|j: int| 0 <= j < all.len() && (#[trigger] all[j]).0@ == b;
                    if i < j {
                        assert(model_name(all[i].0@) != model_name(all[j].0@));
                    } else {
                        assert(model_name(all[j].0@) != model_name(all[i].0@));
                    }
                }
            }
        }
        Ok(out)
    }

    /// The configuration.
    pub fn config(&self) -> (r: &ModelConfig)
        ensures
            *r == self.config,
    {
        &self.config
    }
}

/// A model is built only of checkpoints all of whose weights belong to one of its
/// parts.
pub proof fn law_every_weight_belongs_to_a_part<W>(
    m: Map<Seq<char>, W>,
    config: ModelConfig,
    text: Option<ErrorModel>,
    schemes: Schemes,
    key: Seq<char>,
)
    requires
        parts(m, config, text, schemes) matches Ok(p) && p.unclaimed == Map::<
            Seq<char>,
            W,
        >::empty(),
        m.contains_key(key),
    ensures
        text::begins_with(key, "vision_tower."@) || text::begins_with(
            key,
            "multi_modal_projector."@,
        ) || text::begins_with(key, "language_model."@),
{
    let m1 = weights::outside_prefix(m, "vision_tower."@);
    let m2 = weights::outside_prefix(m1, "multi_modal_projector."@);
    let m3 = weights::outside_prefix(m2, "language_model."@);
    assert(!m3.contains_key(key));
}

/// The language model gets its weights as they are, each under its name without
/// the prefix.
pub proof fn law_the_language_model_gets_its_weights<W>(
    m: Map<Seq<char>, W>,
    config: ModelConfig,
    text: Option<ErrorModel>,
    schemes: Schemes,
    name: Seq<char>,
)
    requires
        parts(m, config, text, schemes) is Ok,
        m.contains_key("language_model."@ + name),
    ensures
        parts(m, config, text, schemes)->Ok_0.language_weights.contains_key(name),
        parts(m, config, text, schemes)->Ok_0.language_weights[name] == m["language_model."@ + name],
{
    reveal_strlit("vision_tower.");
    reveal_strlit("multi_modal_projector.");
    reveal_strlit("language_model.");
    let key = "language_model."@ + name;
    let v = "vision_tower."@;
    let p = "multi_modal_projector."@;
    assert(key[0] == 'l');
    assert(!text::begins_with(key, v)) by {
        if text::begins_with(key, v) {
            assert(key.subrange(0, v.len() as int)[0] == v[0]);
        }
    }
    assert(!text::begins_with(key, p)) by {
        if text::begins_with(key, p) {
            assert(key.subrange(0, p.len() as int)[0] == p[0]);
        }
    }
}

/// Registers the constructor of the architecture, and gives the one that it
/// displaces, if any.
pub fn register<C>(registry: &mut VlmTypeRegistry<C>, constructor: C) -> (r: Option<C>)
    ensures
        final(registry)@ == old(registry)@.insert("lfm2_vl"@, constructor),
        match r {
            Some(displaced) => old(registry)@.contains_key("lfm2_vl"@) && displaced
                == old(registry)@["lfm2_vl"@],
            None => !old(registry)@.contains_key("lfm2_vl"@),
        },
{
    registry.register("lfm2-vl", constructor)
}

/// A registered architecture is found under both of its spellings.
pub proof fn law_both_spellings_are_registered<C>(registry: Map<Seq<char>, C>, constructor: C)
    ensures
        registry.insert("lfm2_vl"@, constructor).contains_key(load::canonical("lfm2-vl"@)),
        registry.insert("lfm2_vl"@, constructor).contains_key(load::canonical("lfm2_vl"@)),
{
    reveal_strlit("lfm2-vl");
    reveal_strlit("lfm2_vl");
    assert("lfm2_vl"@[4] != "lfm2-vl"@[4]);
}

// ---------------------------------------------------------------------------
// The image processor
// ---------------------------------------------------------------------------

/// A setting that has to be at least one.
pub open spec fn at_least_one(value: i32) -> u32 {
    if value < 1 {
        1
    } else {
        value as u32
    }
}

fn clamp_to_one(value: i32) -> (r: u32)
    ensures
        r == at_least_one(value),
        r > 0,
{
    if value < 1 {
        1
    } else {
        value as u32
    }
}

/// The tiling that a configuration asks for.
pub open spec fn tiling_of(config: ModelConfig) -> TilingConfig {
    TilingConfig {
        do_image_splitting: config.do_image_splitting,
        min_tiles: at_least_one(config.min_tiles),
        max_tiles: at_least_one(config.max_tiles),
        use_thumbnail: config.use_thumbnail,
        min_image_tokens: at_least_one(config.min_image_tokens),
        max_image_tokens: at_least_one(config.max_image_tokens),
        encoder_patch_size: at_least_one(config.encoder_patch_size),
        tile_size: at_least_one(config.tile_size),
        max_pixels_tolerance: config.max_pixels_tolerance,
    }
}

/// The processor settings that a configuration asks for.
pub open spec fn settings_of(config: ModelConfig) -> ProcessorSettings {
    ProcessorSettings {
        patch_size: at_least_one(config.vision_config.patch_size),
        max_num_patches: at_least_one(config.max_num_patches),
        downsample_factor: at_least_one(config.downsample_factor),
        image_token: config.image_token_index,
        image_start_token: None,
        image_end_token: None,
        use_image_special_tokens: config.use_image_special_tokens,
        tiling: tiling_of(config),
    }
}

/// Why a configuration has no image processor, if it has none.
pub open spec fn processor_refused(config: ModelConfig) -> Option<ErrorModel> {
    error::first(
        processor::settings_refused(
            config.image_token_index,
            at_least_one(config.downsample_factor),
            at_least_one(config.vision_config.patch_size),
            at_least_one(config.max_num_patches),
        ),
        processor::tiling_refused(tiling_of(config)),
    )
}

/// An admitted configuration has an image processor, with its own settings,
/// exactly when its tiles are made of whole patches.
pub proof fn law_admitted_models_have_processors(config: ModelConfig, text: Option<ErrorModel>)
    requires
        config.refused(text) is None,
    ensures
        processor_refused(config) is None <==> config.tile_size as int
            % config.encoder_patch_size as int == 0,
        settings_of(config).patch_size == config.vision_config.patch_size,
        settings_of(config).max_num_patches == config.max_num_patches,
        settings_of(config).downsample_factor == config.downsample_factor,
        settings_of(config).tiling.max_tiles == config.max_tiles,
        settings_of(config).tiling.tile_size == config.tile_size,
{
}

impl<W, L> Lfm2Vl<W, L> {
    /// The image processor of the model, which splits large images where the
    /// configuration says so; see [`processor_refused`] and [`settings_of`].
    pub fn processor_config(&self) -> (r: Result<Lfm2VlProcessorConfig, Error>)
        ensures
            error::answers(r, processor_refused(self.config)),
            r matches Ok(c) ==> c@ == settings_of(self.config),
    {
        let config: &ModelConfig = &self.config;
        let base: Lfm2VlProcessorConfig = Lfm2VlProcessorConfig::new(
            config.image_token_index,
            clamp_to_one(config.downsample_factor),
            clamp_to_one(config.vision_config.patch_size),
            clamp_to_one(config.max_num_patches),
        )?;
        let tiled: Lfm2VlProcessorConfig = base.with_tiling(
            config.do_image_splitting,
            clamp_to_one(config.min_tiles),
            clamp_to_one(config.max_tiles),
            config.use_thumbnail,
            clamp_to_one(config.min_image_tokens),
            clamp_to_one(config.max_image_tokens),
            clamp_to_one(config.encoder_patch_size),
            clamp_to_one(config.tile_size),
            config.max_pixels_tolerance,
        )?;
        Ok(tiled.with_use_image_special_tokens(config.use_image_special_tokens))
    }

    /// Splits an interleaved RGB image as the configuration says; see [`tiling::tiled`].
    ///
    /// The numbers and the kernels are those of the two sizes that
    /// [`tiling::plan_tiles`] plans. An image that is not refused can still fail for
    /// want of memory, and one that is refused is refused for the reason stated,
    /// unless the candidate grids that its plan lists want memory.
    pub fn split_image<T: Copy>(
        &self,
        rgb: &[u8],
        width: u32,
        height: u32,
        numbers: &TileNumbers,
        target_kernel: &Kernel,
        thumb_kernel: &Kernel,
        table: &NormTable<T>,
    ) -> (r: Result<Vec<Lfm2VlImageInputs<T>>, Error>)
        ensures
            match processor_refused(self.config) {
                Some(m) => r matches Err(e) && e@ == m,
                None => match (
                    r,
                    tiling::tiled(
                        rgb@,
                        width,
                        height,
                        settings_of(self.config),
                        numbers.shrunk,
                        numbers.grown,
                        numbers.differences@,
                        *target_kernel,
                        *thumb_kernel,
                        table@,
                    ),
                ) {
                    (Ok(inputs), Ok(m)) => tiling::views(inputs@) == m,
                    (Ok(_), Err(_)) => false,
                    (Err(e), Ok(_)) => error::is_allocation_refusal(e),
                    (Err(e), Err(refused)) => e == refused || (e == (Error::AllocFailure {
                        context: "lfm2_vl tiling: target ratio",
                    }) && tiling::lists_candidates(
                        height,
                        width,
                        settings_of(self.config),
                        numbers.shrunk,
                        numbers.grown,
                    )),
                },
            },
    {
        let cfg: Lfm2VlProcessorConfig = self.processor_config()?;
        tile_image(rgb, width, height, &cfg, numbers, target_kernel, thumb_kernel, table)
    }
}

/// What the vision tower needs of an image beyond its pixels.
#[derive(Debug)]
pub struct NativeResolution {
    /// The patch grid of the image: rows, columns.
    pub spatial_shape: Array<i32>,
    /// `1` for the patches of the image, `0` past them.
    pub patch_mask: Array<i32>,
}

/// An image that is ready for a model.
#[derive(Debug)]
pub struct ProcessedImage<T> {
    /// The pixels, or the patches.
    pub pixels: Array<T>,
    /// What a model that takes images at their own resolution needs.
    pub native: Option<NativeResolution>,
    /// The number of tokens that the image stands for.
    pub num_tokens: usize,
}

/// The inputs of an image that is ready, which has to come with its own
/// resolution.
pub fn native_inputs<T>(image: ProcessedImage<T>) -> (r: Result<Lfm2VlImageInputs<T>, Error>)
    ensures
        match image.native {
            Some(native) => r == Ok::<Lfm2VlImageInputs<T>, Error>(
                Lfm2VlImageInputs {
                    pixel_values: image.pixels,
                    pixel_attention_mask: native.patch_mask,
                    spatial_shapes: native.spatial_shape,
                },
            ),
            None => r == Err::<Lfm2VlImageInputs<T>, Error>(
                invariant_violation(
                    "lfm2_vl encode_image: ProcessedImage::native (the NaFlex companions)",
                    "LFM2.5-VL requires the native-resolution spatial_shape + patch_mask companions",
                ),
            ),
        },
{
    match image.native {
        Some(native) => Ok(
            Lfm2VlImageInputs::from_parts(image.pixels, native.patch_mask, native.spatial_shape),
        ),
        None => Err(
            invariant_violation(
                "lfm2_vl encode_image: ProcessedImage::native (the NaFlex companions)",
                "LFM2.5-VL requires the native-resolution spatial_shape + patch_mask companions",
            ),
        ),
    }
}

/// The processor that prepares images at their own resolution, without splitting
/// them.
#[derive(Debug, Clone, Copy)]
pub struct Lfm2VlImageProcessor {
    /// The settings of the processor.
    pub cfg: Lfm2VlProcessorConfig,
    /// The number of patches that are folded into one token along each axis.
    pub downsample_factor: i32,
}

/// The settings of the processor of a configuration that names a valid token, and
/// the smallest settings otherwise.
pub open spec fn native_settings(config: ModelConfig) -> ProcessorSettings {
    let valid = config.image_token_index >= 0;
    ProcessorSettings {
        patch_size: if valid {
            at_least_one(config.vision_config.patch_size)
        } else {
            1
        },
        max_num_patches: if valid {
            at_least_one(config.max_num_patches)
        } else {
            1
        },
        downsample_factor: if valid {
            at_least_one(config.downsample_factor)
        } else {
            1
        },
        image_token: if valid {
            config.image_token_index
        } else {
            0
        },
        image_start_token: None,
        image_end_token: None,
        use_image_special_tokens: true,
        tiling: TilingConfig {
            do_image_splitting: false,
            ..processor::default_tiling()
        },
    }
}

/// What processing an image comes to when its patch grid is `grid`.
pub open spec fn processed_at<T>(
    r: Result<ProcessedImage<T>, Error>,
    rgb: Seq<u8>,
    width: u32,
    height: u32,
    s: ProcessorSettings,
    factor: i32,
    grid: (u32, u32),
    kernel: Kernel,
    table: patchify::NormModel<T>,
) -> bool {
    match patchify::preprocessed(rgb, width, height, s, grid, kernel, table) {
        Err(e) => r == Err::<ProcessedImage<T>, Error>(e),
        Ok(m) => match r {
            Ok(image) => {
                &&& image.pixels@ == m.pixel_values
                &&& image.native matches Some(native) && native.spatial_shape@ == m.spatial_shapes
                    && native.patch_mask@ == m.pixel_attention_mask
                &&& processor::token_count(grid.0 as i32, grid.1 as i32, factor) matches Ok(count)
                    && image.num_tokens == count
            },
            Err(e) => error::is_allocation_refusal(e) || processor::token_count(
                grid.0 as i32,
                grid.1 as i32,
                factor,
            ) == Err::<i32, Error>(e),
        },
    }
}

impl Lfm2VlImageProcessor {
    /// The processor of a configuration; see [`native_settings`].
    pub fn new(config: &ModelConfig) -> (r: Self)
        ensures
            r.cfg@ == native_settings(*config),
            r.downsample_factor == at_least_one(config.downsample_factor),
    {
        let factor: u32 = clamp_to_one(config.downsample_factor);
        let patch_size: u32 = clamp_to_one(config.vision_config.patch_size);
        let max_num_patches: u32 = clamp_to_one(config.max_num_patches);
        let cfg: Lfm2VlProcessorConfig = match Lfm2VlProcessorConfig::new(
            config.image_token_index,
            factor,
            patch_size,
            max_num_patches,
        ) {
            Ok(cfg) => cfg,
            Err(_) => Lfm2VlProcessorConfig::smallest(),
        };
        Lfm2VlImageProcessor {
            cfg: cfg.with_do_image_splitting(false),
            downsample_factor: factor as i32,
        }
    }

    /// Prepares an interleaved RGB image at its own resolution, and counts its
    /// tokens; see [`processed_at`].
    ///
    /// `kernel` resamples the image to the size of its largest patch grid.
    pub fn process<T: Copy>(
        &self,
        rgb: &[u8],
        width: u32,
        height: u32,
        kernel: &Kernel,
        table: &NormTable<T>,
    ) -> (r: Result<ProcessedImage<T>, Error>)
        ensures
            width == 0 || height == 0 ==> r == Err::<ProcessedImage<T>, Error>(
                patchify::source_outcome(
                    rgb@.len() as int,
                    width,
                    height,
                    patchify::preprocess_labels(),
                )->Err_0,
            ),
            width > 0 && height > 0 ==> exists|grid: (u32, u32)|
                #[trigger] image::is_largest_grid(
                    height,
                    width,
                    self.cfg@.patch_size,
                    self.cfg@.max_num_patches,
                    grid,
                ) && processed_at(
                    r,
                    rgb@,
                    width,
                    height,
                    self.cfg@,
                    self.downsample_factor,
                    grid,
                    *kernel,
                    table@,
                ),
    {
        let inputs: Lfm2VlImageInputs<T> = preprocess_image(
            rgb,
            width,
            height,
            &self.cfg,
            kernel,
            table,
        )?;
        let (rows, cols): (i32, i32) = inputs.grid()?;
        let tokens: i32 = num_image_tokens_from_patch_grid(rows, cols, self.downsample_factor)?;
        let r: Result<ProcessedImage<T>, Error> = Ok(
            ProcessedImage {
                pixels: inputs.pixel_values,
                native: Some(
                    NativeResolution {
                        spatial_shape: inputs.spatial_shapes,
                        patch_mask: inputs.pixel_attention_mask,
                    },
                ),
                num_tokens: tokens as usize,
            },
        );
        r
    }
}

/// The nominal side of the images of a configuration: at least one patch.
pub fn nominal_image_size(config: &ModelConfig) -> (r: u32)
    ensures
        r == (if config.vision_config.image_size as int > at_least_one(
            config.vision_config.patch_size,
        ) {
            config.vision_config.image_size as u32
        } else {
            at_least_one(config.vision_config.patch_size)
        }),
{
    let patch: u32 = clamp_to_one(config.vision_config.patch_size);
    let size: i32 = config.vision_config.image_size;
    if size > 0 && size as u32 > patch {
        size as u32
    } else {
        patch
    }
}

// ---------------------------------------------------------------------------
// From patches to the prompt
// ---------------------------------------------------------------------------

/// An array as a batch of one.
pub open spec fn as_batch<T>(x: ArrayModel<T>) -> ArrayModel<T> {
    ArrayModel { shape: seq![1usize] + x.shape, data: x.data }
}

proof fn lemma_batch_of_one(shape: Seq<usize>)
    ensures
        array::product(seq![1usize] + shape) == array::product(shape),
    decreases shape.len(),
{
    if shape.len() == 0 {
        assert(seq![1usize] + shape =~= seq![1usize]);
        array::lemma_product_1(1);
    } else {
        lemma_batch_of_one(shape.drop_last());
        assert((seq![1usize] + shape).drop_last() =~= seq![1usize] + shape.drop_last());
    }
}

/// Makes a batch of one of an array; see [`as_batch`].
pub fn with_batch_axis<T>(x: Array<T>) -> (r: Array<T>)
    ensures
        r@ == as_batch(x@),
{
    let mut shape: Vec<usize> = vec![1];
    let own: &Vec<usize> = x.shape();
    let mut i: usize = 0;
    assert(shape@ =~= seq![1usize] + own@.take(0));
    while i < own.len()
        invariant
            i <= own@.len(),
            shape@ == seq![1usize] + own@.take(i as int),
        decreases own@.len() - i,
    {
        shape.push(own[i]);
        i += 1;
        assert(shape@ =~= seq![1usize] + own@.take(i as int));
    }
    let len: usize = x.len();
    proof {
        assert(own@.take(i as int) =~= own@);
        lemma_batch_of_one(own@);
    }
    let r: Array<T> = Array::of(x.into_data(), shape);
    assert(r@ =~= as_batch(x@));
    r
}

/// The number of patches of an image in the output of the tower, or why the
/// output is refused.
pub open spec fn slice_outcome(shape: Seq<usize>, rows: i32, cols: i32) -> Result<i32, Error> {
    if shape.len() != 3 || shape[0] != 1 {
        Err(
            rank_mismatch(
                "lfm2_vl encode_image: hidden states must be (1, num_patches, hidden)",
                shape.len() as usize,
            ),
        )
    } else {
        match projector::extent_i32(shape[1], "lfm2_vl encode_image: num_patches") {
            Err(e) => Err(e),
            Ok(num_patches) => match projector::extent_i32(
                shape[2],
                "lfm2_vl encode_image: hidden",
            ) {
                Err(e) => Err(e),
                Ok(_) => vision::active_patches(rows, cols, num_patches),
            },
        }
    }
}

/// The patches of an image as a grid: the rows of its patches, without the
/// padding.
pub open spec fn patch_rows<T>(x: ArrayModel<T>, rows: i32, cols: i32) -> ArrayModel<T> {
    ArrayModel {
        shape: seq![1usize, rows as usize, cols as usize, x.shape[2]],
        data: x.data.take(rows * cols * x.shape[2]),
    }
}

/// Admits the patches of an image, and counts them; see [`slice_outcome`].
pub fn check_slice<T>(hidden_states: &Array<T>, rows: i32, cols: i32) -> (r: Result<i32, Error>)
    ensures
        r == slice_outcome(hidden_states@.shape, rows, cols),
{
    let shape: &Vec<usize> = hidden_states.shape();
    if shape.len() != 3 || shape[0] != 1 {
        return Err(
            rank_mismatch(
                "lfm2_vl encode_image: hidden states must be (1, num_patches, hidden)",
                shape.len(),
            ),
        );
    }
    let num_patches: i32 = dim_i32(shape[1], "lfm2_vl encode_image: num_patches")?;
    dim_i32(shape[2], "lfm2_vl encode_image: hidden")?;
    validate_active_grid(rows, cols, num_patches)
}

proof fn lemma_slice_fits<T>(x: ArrayModel<T>, rows: i32, cols: i32, active: i32)
    requires
        slice_outcome(x.shape, rows, cols) == Ok::<i32, Error>(active),
        x.data.len() == array::product(x.shape),
    ensures
        0 <= active * x.shape[2] <= x.data.len(),
        active == rows * cols,
        0 < rows,
        0 < cols,
{
    assert(x.shape =~= seq![1usize, x.shape[1], x.shape[2]]);
    array::lemma_product_3(1, x.shape[1], x.shape[2]);
    let n = x.shape[1] as int;
    let d = x.shape[2] as int;
    assert(0 <= active * d <= n * d) by (nonlinear_arith)
        requires
            0 <= active <= n,
            0 <= d,
    ;
}

/// Cuts the patches of an image that are admitted out into an empty buffer; see
/// [`patch_rows`].
pub fn fill_slice<T: Copy>(
    hidden_states: &Array<T>,
    rows: i32,
    cols: i32,
    buffer: Vec<T>,
) -> (r: Array<T>)
    requires
        slice_outcome(hidden_states@.shape, rows, cols) is Ok,
        buffer@.len() == 0,
    ensures
        r@ == patch_rows(hidden_states@, rows, cols),
{
    let hidden: usize = hidden_states.shape()[2];
    let len: usize = hidden_states.len();
    proof {
        let active = slice_outcome(hidden_states@.shape, rows, cols)->Ok_0;
        lemma_slice_fits(hidden_states@, rows, cols, active);
    }
    let items: usize = (rows * cols) as usize * hidden;
    let mut out: Vec<T> = buffer;
    push_range(&mut out, hidden_states.data().as_slice(), 0, items);
    let out_shape: Vec<usize> = vec![1, rows as usize, cols as usize, hidden];
    proof {
        assert(out_shape@ =~= seq![1usize, rows as usize, cols as usize, hidden]);
        array::lemma_product_4(1, rows as usize, cols as usize, hidden);
        assert(out@ =~= hidden_states@.data.take(items as int));
    }
    let r: Array<T> = Array::of(out, out_shape);
    assert(r@ =~= patch_rows(hidden_states@, rows, cols));
    r
}

/// Takes the rows of the patches of an image off the output of the tower, and
/// lays them out as its grid; see [`slice_outcome`] and [`patch_rows`].
///
/// An output that is not refused can still fail for want of memory, unless it has no
/// items.
pub fn slice_patches<T: Copy>(hidden_states: &Array<T>, rows: i32, cols: i32) -> (r: Result<
    Array<T>,
    Error,
>)
    ensures
        match slice_outcome(hidden_states@.shape, rows, cols) {
            Err(e) => r == Err::<Array<T>, Error>(e),
            Ok(_) => match r {
                Ok(out) => out@ == patch_rows(hidden_states@, rows, cols),
                Err(e) => e == (Error::AllocFailure {
                    context: "lfm2_vl encode_image: patch rows",
                }),
            },
        },
        hidden_states@.data.len() == 0 && slice_outcome(hidden_states@.shape, rows, cols) is Ok
            ==> r is Ok,
{
    let active: i32 = check_slice(hidden_states, rows, cols)?;
    let len: usize = hidden_states.len();
    proof {
        lemma_slice_fits(hidden_states@, rows, cols, active);
    }
    let items: usize = active as usize * hidden_states.shape()[2];
    let buffer: Vec<T> = reserve_or_error(items, "lfm2_vl encode_image: patch rows")?;
    Ok(fill_slice(hidden_states, rows, cols, buffer))
}

/// The product of the first `n` extents, or why there is none.
pub open spec fn leading_extents(shape: Seq<usize>, n: int, context: &'static str) -> Result<
    i32,
    Error,
>
    decreases n,
{
    if n <= 0 {
        Ok(1)
    } else {
        match leading_extents(shape, n - 1, context) {
            Err(e) => Err(e),
            Ok(rows) => match projector::extent_i32(shape[n - 1], context) {
                Err(e) => Err(e),
                Ok(extent) => model_validation::product_i32(context, rows, extent),
            },
        }
    }
}

proof fn lemma_leading_refused(shape: Seq<usize>, j: int, n: int, context: &'static str)
    requires
        0 <= j <= n,
        leading_extents(shape, j, context) is Err,
    ensures
        leading_extents(shape, n, context) == leading_extents(shape, j, context),
    decreases n,
{
    if j < n {
        lemma_leading_refused(shape, j, n - 1, context);
    }
}

proof fn lemma_leading_product(shape: Seq<usize>, n: int, context: &'static str)
    requires
        0 <= n <= shape.len(),
        leading_extents(shape, n, context) is Ok,
    ensures
        leading_extents(shape, n, context)->Ok_0 == array::product(shape.take(n)),
    decreases n,
{
    if n > 0 {
        lemma_leading_product(shape, n - 1, context);
        assert(shape.take(n).drop_last() =~= shape.take(n - 1));
    }
}

/// The product of every extent but the last; see [`leading_extents`]. A shape of
/// fewer than two axes is refused.
pub fn leading_product(shape: &Vec<usize>, context: &'static str) -> (r: Result<i32, Error>)
    ensures
        shape@.len() < 2 ==> r == Err::<i32, Error>(
            rank_mismatch(context, shape@.len() as usize),
        ),
        shape@.len() >= 2 ==> r == leading_extents(shape@, shape@.len() - 1, context),
        r matches Ok(n) ==> n >= 0 && n == array::product(shape@.drop_last()),
{
    if shape.len() < 2 {
        return Err(rank_mismatch(context, shape.len()));
    }
    let axes: usize = shape.len() - 1;
    let mut rows: i32 = 1;
    let mut axis: usize = 0;
    while axis < axes
        invariant
            axis <= axes,
            axes == shape@.len() - 1,
            leading_extents(shape@, axis as int, context) == Ok::<i32, Error>(rows),
        decreases axes - axis,
    {
        proof {
            if leading_extents(shape@, axis + 1, context) is Err {
                lemma_leading_refused(shape@, axis + 1, axes as int, context);
            }
        }
        let extent: i32 = dim_i32(shape[axis], context)?;
        rows = checked_mul(context, rows, extent)?;
        axis += 1;
    }
    proof {
        lemma_leading_product(shape@, axes as int, context);
        assert(shape@.take(axes as int) =~= shape@.drop_last());
    }
    Ok(rows)
}

/// The shape of the features of an image, or why they are refused.
pub open spec fn feature_outcome(shape: Seq<usize>) -> Result<(i32, i32), Error> {
    if shape.len() != 4 {
        Err(
            rank_mismatch(
                "lfm2_vl encode_image: projector output must be (1, H, W, D)",
                shape.len() as usize,
            ),
        )
    } else {
        match projector::extent_i32(shape[3], "lfm2_vl encode_image: projector out width") {
            Err(e) => Err(e),
            Ok(width) => match leading_extents(
                shape,
                3,
                "lfm2_vl encode_image: projected rows",
            ) {
                Err(e) => Err(e),
                Ok(rows) => Ok((rows, width)),
            },
        }
    }
}

/// The output of the projector as rows of features.
pub open spec fn feature_rows<T>(x: ArrayModel<T>) -> ArrayModel<T> {
    ArrayModel {
        shape: seq![array::product(x.shape.drop_last()) as usize, x.shape[3]],
        data: x.data,
    }
}

/// Flattens the output of the projector into rows of features; see
/// [`feature_outcome`] and [`feature_rows`].
pub fn flatten_features<T>(projected: Array<T>) -> (r: Result<Array<T>, Error>)
    ensures
        match feature_outcome(projected@.shape) {
            Err(e) => r == Err::<Array<T>, Error>(e),
            Ok(_) => r matches Ok(out) && out@ == feature_rows(projected@),
        },
{
    let shape: &Vec<usize> = projected.shape();
    if shape.len() != 4 {
        return Err(
            rank_mismatch(
                "lfm2_vl encode_image: projector output must be (1, H, W, D)",
                shape.len(),
            ),
        );
    }
    let width: i32 = dim_i32(shape[3], "lfm2_vl encode_image: projector out width")?;
    let rows: i32 = leading_product(shape, "lfm2_vl encode_image: projected rows")?;
    let len: usize = projected.len();
    let out_shape: Vec<usize> = vec![rows as usize, width as usize];
    proof {
        assert(out_shape@ =~= seq![rows as usize, width as usize]);
        array::lemma_product_2(rows as usize, width as usize);
        assert(array::product(projected@.shape) == array::product(projected@.shape.drop_last())
            * projected@.shape.last() as nat);
    }
    let out: Array<T> = Array::of(projected.into_data(), out_shape);
    assert(out@ =~= feature_rows(projected@));
    Ok(out)
}

/// What each array holds.
pub open spec fn models_of<T>(arrays: Seq<Array<T>>) -> Seq<ArrayModel<T>> {
    Seq::new(arrays.len(), |i: int| arrays[i]@)
}

/// The number of rows of the first `n` arrays.
pub open spec fn total_rows<T>(features: Seq<ArrayModel<T>>, n: int) -> int
    decreases n,
{
    if n <= 0 {
        0
    } else {
        total_rows(features, n - 1) + features[n - 1].shape[0]
    }
}

/// The items of the first `n` arrays, one after another.
pub open spec fn joined_items<T>(features: Seq<ArrayModel<T>>, n: int) -> Seq<T>
    decreases n,
{
    if n <= 0 {
        Seq::empty()
    } else {
        joined_items(features, n - 1) + features[n - 1].data
    }
}

/// The number of rows of the arrays from `i` on, on top of `rows`, or why they
/// cannot be joined to rows of the given width.
pub open spec fn join_outcome<T>(
    features: Seq<ArrayModel<T>>,
    width: usize,
    rows: int,
    i: int,
) -> Result<usize, Error>
    decreases features.len() - i,
{
    if i < 0 || i >= features.len() {
        Ok(rows as usize)
    } else if features[i].shape.len() != 2 {
        Err(
            rank_mismatch(
                "lfm2_vl get_input_embeddings: image features must be rank-2 (N, D)",
                features[i].shape.len() as usize,
            ),
        )
    } else if features[i].shape[1] != width {
        Err(
            length_mismatch(
                "lfm2_vl get_input_embeddings: feature width D",
                width,
                features[i].shape[1],
            ),
        )
    } else if rows + features[i].shape[0] > usize::MAX {
        Err(
            overflow(
                "lfm2_vl get_input_embeddings: feature rows",
                "usize",
                rows as i128,
                features[i].shape[0] as i128,
            ),
        )
    } else {
        join_outcome(features, width, rows + features[i].shape[0], i + 1)
    }
}

/// Why the features of several images cannot be joined, or the number of rows.
pub open spec fn features_outcome<T>(features: Seq<ArrayModel<T>>) -> Result<usize, Error> {
    join_outcome(features, features[0].shape[1], 0, 0)
}

/// The features of several images, one after another.
pub open spec fn joined_features<T>(features: Seq<ArrayModel<T>>) -> ArrayModel<T> {
    ArrayModel {
        shape: seq![
            total_rows(features, features.len() as int) as usize,
            features[0].shape[1],
        ],
        data: joined_items(features, features.len() as int),
    }
}

/// Counts the rows of the features of several images; see [`features_outcome`].
pub fn plan_features<T>(features: &Vec<Array<T>>) -> (r: Result<usize, Error>)
    requires
        features@.len() > 0,
    ensures
        r == features_outcome(models_of(features@)),
        r matches Ok(rows) ==> rows == total_rows(
            models_of(features@),
            features@.len() as int,
        ) && forall|i: int|
            0 <= i < features@.len() ==> (#[trigger] features@[i])@.shape.len() == 2
                && features@[i]@.shape[1] == features@[0]@.shape[1],
{
    let ghost all = models_of(features@);
    if features[0].ndim() != 2 {
        return Err(
            rank_mismatch(
                "lfm2_vl get_input_embeddings: image features must be rank-2 (N, D)",
                features[0].ndim(),
            ),
        );
    }
    let width: usize = features[0].shape()[1];
    let mut rows: usize = 0;
    let mut i: usize = 0;
    while i < features.len()
        invariant
            i <= features@.len(),
            features@.len() > 0,
            all == models_of(features@),
            width == features@[0]@.shape[1],
            rows == total_rows(all, i as int),
            features_outcome(all) == join_outcome(all, width, rows as int, i as int),
            forall|j: int|
                0 <= j < i ==> (#[trigger] features@[j])@.shape.len() == 2
                    && features@[j]@.shape[1] == width,
        decreases features@.len() - i,
    {
        let shape: &Vec<usize> = features[i].shape();
        assert(all[i as int] == features@[i as int]@);
        if shape.len() != 2 {
            return Err(
                rank_mismatch(
                    "lfm2_vl get_input_embeddings: image features must be rank-2 (N, D)",
                    shape.len(),
                ),
            );
        }
        if shape[1] != width {
            return Err(
                length_mismatch(
                    "lfm2_vl get_input_embeddings: feature width D",
                    width,
                    shape[1],
                ),
            );
        }
        match rows.checked_add(shape[0]) {
            Some(n) => {
                rows = n;
            },
            None => {
                return Err(
                    overflow(
                        "lfm2_vl get_input_embeddings: feature rows",
                        "usize",
                        rows as i128,
                        shape[0] as i128,
                    ),
                );
            },
        }
        i += 1;
    }
    Ok(rows)
}

/// Joins the features of several images; see [`features_outcome`] and
/// [`joined_features`].
///
/// Features that are not refused can still fail for want of memory, unless they
/// have no rows or no columns.
pub fn join_features<T: Copy>(features: &Vec<Array<T>>) -> (r: Result<Array<T>, Error>)
    requires
        features@.len() > 0,
    ensures
        match features_outcome(models_of(features@)) {
            Err(e) => r == Err::<Array<T>, Error>(e),
            Ok(_) => match r {
                Ok(out) => out@ == joined_features(models_of(features@)),
                Err(e) => e == (Error::AllocFailure {
                    context: "lfm2_vl get_input_embeddings: image features",
                }),
            },
        },
        features_outcome(models_of(features@)) matches Ok(rows) ==> rows == 0
            || features@[0]@.shape[1] == 0 ==> r is Ok,
{
    let rows: usize = plan_features(features)?;
    let width: usize = features[0].shape()[1];
    proof {
        assert(0 * width == 0) by (nonlinear_arith);
        assert(rows * 0 == 0) by (nonlinear_arith);
    }
    let items: usize = match rows.checked_mul(width) {
        Some(n) => n,
        None => {
            return Err(
                Error::AllocFailure { context: "lfm2_vl get_input_embeddings: image features" },
            );
        },
    };
    let buffer: Vec<T> = reserve_or_error(items, "lfm2_vl get_input_embeddings: image features")?;
    Ok(fill_features(features, buffer))
}

/// Joins the features of several images that are admitted in an empty buffer; see
/// [`joined_features`].
pub fn fill_features<T: Copy>(features: &Vec<Array<T>>, buffer: Vec<T>) -> (r: Array<T>)
    requires
        features@.len() > 0,
        features_outcome(models_of(features@)) is Ok,
        features_outcome(models_of(features@))->Ok_0 * features@[0]@.shape[1] <= usize::MAX,
        buffer@.len() == 0,
    ensures
        r@ == joined_features(models_of(features@)),
{
    let ghost all = models_of(features@);
    let rows: usize = match plan_features(features) {
        Ok(rows) => rows,
        Err(_) => 0,
    };
    let width: usize = features[0].shape()[1];
    let mut out: Vec<T> = buffer;
    let mut i: usize = 0;
    while i < features.len()
        invariant
            i <= features@.len(),
            features@.len() > 0,
            all == models_of(features@),
            width == features@[0]@.shape[1],
            forall|j: int|
                0 <= j < features@.len() ==> (#[trigger] features@[j])@.shape.len() == 2
                    && features@[j]@.shape[1] == width,
            out@ == joined_items(all, i as int),
            out@.len() == total_rows(all, i as int) * width,
        decreases features@.len() - i,
    {
        let count: usize = features[i].len();
        let ghost own = features@[i as int]@;
        proof {
            assert(all[i as int] == own);
            assert(own.shape =~= seq![own.shape[0], width]);
            array::lemma_product_2(own.shape[0], width);
            let before = total_rows(all, i as int);
            assert((before + own.shape[0]) * width == before * width + own.shape[0] * width)
                by (nonlinear_arith);
        }
        push_range(&mut out, features[i].data().as_slice(), 0, count);
        i += 1;
        proof {
            assert(own.data.subrange(0, count as int) =~= own.data);
        }
    }
    let shape: Vec<usize> = vec![rows, width];
    proof {
        assert(shape@ =~= seq![rows, width]);
        array::lemma_product_2(rows, width);
    }
    let r: Array<T> = Array::of(out, shape);
    assert(r@ =~= joined_features(all));
    r
}

/// What becomes of the output of the tower for one image before it reaches the
/// projector: its patches as a grid, folded.
pub open spec fn folded_patches<T>(
    hidden: ArrayModel<T>,
    rows: i32,
    cols: i32,
    unshuffle: PixelUnshuffle,
    zero: T,
) -> Result<ArrayModel<T>, Error> {
    match slice_outcome(hidden.shape, rows, cols) {
        Err(e) => Err(e),
        Ok(_) => {
            let grid = patch_rows(hidden, rows, cols);
            match unshuffle {
                PixelUnshuffle::Identity => Ok(grid),
                PixelUnshuffle::Block(block) => match projector::fold_outcome(
                    grid.shape,
                    block.side(),
                ) {
                    Err(e) => Err(e),
                    Ok(_) => Ok(projector::folded(grid, block.side(), zero)),
                },
            }
        },
    }
}

impl<W, L> Lfm2Vl<W, L> {
    /// Takes the patches of an image off the output of the tower, and folds them
    /// for the projector; see [`folded_patches`]. The grid of the image is that of
    /// its `spatial_shapes`.
    ///
    /// An output that is not refused can still fail for want of memory, unless it has
    /// no items.
    pub fn fold_patches<P, T: Copy>(
        &self,
        hidden_states: &Array<T>,
        inputs: &Lfm2VlImageInputs<P>,
        zero: T,
    ) -> (r: Result<Array<T>, Error>)
        ensures
            inputs.spatial_shapes@.shape != seq![2usize] ==> r == Err::<Array<T>, Error>(
                rank_mismatch(
                    "lfm2_vl Lfm2VlImageInputs::grid: spatial_shapes must be a (2,) [H_p, W_p] array",
                    inputs.spatial_shapes@.shape.len() as usize,
                ),
            ),
            inputs.spatial_shapes@.shape == seq![2usize] ==> match folded_patches(
                hidden_states@,
                inputs.spatial_shapes@.data[0],
                inputs.spatial_shapes@.data[1],
                self.pixel_unshuffle,
                zero,
            ) {
                Ok(m) => match r {
                    Ok(out) => out@ == m,
                    Err(e) => hidden_states@.data.len() > 0 && e is AllocFailure,
                },
                Err(e) => r == Err::<Array<T>, Error>(e),
            },
    {
        let (rows, cols): (i32, i32) = inputs.grid()?;
        check_slice(hidden_states, rows, cols)?;
        let hidden: usize = hidden_states.shape()[2];
        if let PixelUnshuffle::Block(block) = &self.pixel_unshuffle {
            let shape: Vec<usize> = vec![1, rows as usize, cols as usize, hidden];
            assert(shape@ =~= seq![1usize, rows as usize, cols as usize, hidden]);
            plan_fold(&shape, block.factor())?;
            proof {
                if hidden == 0 {
                    projector::lemma_no_channels(1, rows, cols, block.side());
                }
            }
        }
        let len: usize = hidden_states.len();
        proof {
            let active = slice_outcome(hidden_states@.shape, rows, cols)->Ok_0;
            lemma_slice_fits(hidden_states@, rows, cols, active);
            if hidden > 0 {
                assert(active * hidden > 0) by (nonlinear_arith)
                    requires
                        active == rows * cols,
                        0 < rows,
                        0 < cols,
                        0 < hidden,
                ;
            }
        }
        let grid: Array<T> = slice_patches(hidden_states, rows, cols)?;
        self.pixel_unshuffle.forward(grid, zero)
    }

    /// The input of the language model: the embeddings of a prompt, with the features
    /// of its images at the placeholders. A prompt without images keeps its
    /// embeddings; see [`joined_features`], [`projector::merge_outcome`] and
    /// [`projector::merged`].
    ///
    /// Features that fit the prompt can still fail for want of memory, unless there
    /// are no embeddings.
    pub fn get_input_embeddings<T: Copy>(
        &self,
        inputs_embeds: Array<T>,
        input_ids: &Array<i32>,
        features: &Vec<Array<T>>,
    ) -> (r: Result<Array<T>, Error>)
        ensures
            features@.len() == 0 ==> r == Ok::<Array<T>, Error>(inputs_embeds),
            features@.len() > 0 ==> match features_outcome(models_of(features@)) {
                Err(e) => r == Err::<Array<T>, Error>(e),
                Ok(_) => {
                    let joined = joined_features(models_of(features@));
                    match projector::merge_outcome(
                        joined.shape,
                        inputs_embeds@.shape,
                        input_ids@,
                        self.config.image_token_index,
                    ) {
                        Err(e) => r == Err::<Array<T>, Error>(e),
                        Ok(_) => match r {
                            Ok(out) => out@ == projector::merged(
                                joined,
                                inputs_embeds@,
                                input_ids@,
                                self.config.image_token_index,
                            ),
                            Err(e) => inputs_embeds@.data.len() > 0 && e is AllocFailure,
                        },
                    }
                },
            },
    {
        if features.len() == 0 {
            return Ok(inputs_embeds);
        }
        let rows: usize = plan_features(features)?;
        let width: usize = features[0].shape()[1];
        let shape: Vec<usize> = vec![rows, width];
        assert(shape@ =~= joined_features(models_of(features@)).shape);
        check_merge(&shape, inputs_embeds.shape(), input_ids, self.config.image_token_index)?;
        let len: usize = inputs_embeds.len();
        let cells: usize = input_ids.len();
        proof {
            let embeds = inputs_embeds@.shape;
            assert(embeds =~= seq![embeds[0], embeds[1], width]);
            array::lemma_product_3(embeds[0], embeds[1], width);
            assert(input_ids@.shape =~= seq![embeds[0], embeds[1]]);
            array::lemma_product_2(embeds[0], embeds[1]);
            processor::lemma_placeholders_bound(input_ids@.data, self.config.image_token_index);
            if 0 < cells && 0 < width {
                assert(len > 0) by (nonlinear_arith)
                    requires
                        len == cells * width,
                        0 < cells,
                        0 < width,
                ;
            }
        }
        let joined: Array<T> = join_features(features)?;
        merge_input_ids_with_image_features(
            &joined,
            &inputs_embeds,
            input_ids,
            self.config.image_token_index,
        )
    }
}

proof fn lemma_rows_are_tokens<T>(
    features: Seq<ArrayModel<T>>,
    grids: Seq<(i32, i32)>,
    s: ProcessorSettings,
    n: int,
)
    requires
        0 <= n <= features.len(),
        forall|i: int|
            0 <= i < features.len() ==> (#[trigger] features[i]).shape[0] == processor::grid_tokens(
                s,
                grids[i],
            ),
    ensures
        total_rows(features, n) == processor::tokens_of_images(grids, s, n),
    decreases n,
{
    if n > 0 {
        lemma_rows_are_tokens(features, grids, s, n - 1);
        assert(features[n - 1].shape[0] == processor::grid_tokens(s, grids[n - 1]));
    }
}

/// A prompt that was expanded for its images takes their features: where each
/// image has one feature row per token of its grid, the expanded prompt has one
/// placeholder per feature row.
pub proof fn law_expanded_prompts_take_their_features<T>(
    ids: Seq<i32>,
    grids: Seq<(i32, i32)>,
    s: ProcessorSettings,
    features: Seq<ArrayModel<T>>,
)
    requires
        processor::expansion_outcome(ids, grids, s) is Ok,
        s.image_start_token != Some(s.image_token),
        s.image_end_token != Some(s.image_token),
        features.len() == grids.len(),
        forall|i: int|
            0 <= i < features.len() ==> (#[trigger] features[i]).shape[0] == processor::grid_tokens(
                s,
                grids[i],
            ),
    ensures
        processor::placeholders(processor::expanded(ids, grids, s), s.image_token) == total_rows(
            features,
            features.len() as int,
        ),
{
    processor::law_expansion_holds_the_image_tokens(ids, grids, s);
    lemma_rows_are_tokens(features, grids, s, features.len() as int);
}

/// The patches that are taken off the tower's output are those whose keys its mask
/// admits.
pub proof fn law_the_slice_matches_the_mask<T, U>(
    hidden: ArrayModel<U>,
    rows: i32,
    cols: i32,
    active: T,
    padded: T,
    key: int,
)
    requires
        slice_outcome(hidden.shape, rows, cols) is Ok,
        active != padded,
        0 <= key < hidden.shape[1],
        hidden.data.len() == hidden.shape[1] * hidden.shape[2],
    ensures
        patch_rows(hidden, rows, cols).data.len() == rows * cols * hidden.shape[2],
        vision::key_mask(seq![(rows, cols)], hidden.shape[1] as i32, active, padded).data[key]
            == active <==> key < rows * cols,
{
    let np = hidden.shape[1] as int;
    let width = hidden.shape[2] as int;
    let patches = rows * cols;
    array::lemma_pair_bound(0, 1, key, np);
    array::lemma_block_position(0, np, key);
    assert(0 <= patches) by (nonlinear_arith)
        requires
            patches == rows * cols,
            0 < rows,
            0 < cols,
    ;
    assert(0 <= patches * width && patches * width <= np * width) by (nonlinear_arith)
        requires
            0 <= patches <= np,
            0 <= width,
    ;
}


// ---------------------------------------------------------------------------
// Names
// ---------------------------------------------------------------------------

/// A name that speaks of no part of the model is kept.
pub proof fn law_other_names_are_kept(key: Seq<char>)
    requires
        !text::occurs(key, "vision_tower"@),
        !text::occurs(key, "language_model"@),
        !text::occurs(key, "multi_modal_projector"@),
    ensures
        model_name(key) == key,
{
}

/// The outer `model.` of the names of the vision tower is dropped.
pub proof fn law_vision_names_lose_their_model(name: Seq<char>)
    requires
        text::occurs("model."@ + name, "vision_tower"@),
        !text::occurs(name, "model."@),
        !text::occurs(name, "vision_encoder"@),
        !text::occurs(name, "vision_embeddings"@),
        !text::occurs(name, "vision_post_layernorm"@),
        !text::occurs(name, "language_model"@),
        !text::occurs(name, "multi_modal_projector"@),
    ensures
        model_name("model."@ + name) == name,
{
    reveal_strlit("model.");
    reveal_strlit("");
    let empty = Seq::<char>::empty();
    text::law_replacing_goes_from_left_to_right(empty, name, "model."@, ""@);
    assert(empty + "model."@ + name =~= "model."@ + name);
    text::law_replacing_what_is_not_there_changes_nothing(name, "model."@, ""@);
    assert(empty + ""@ + name =~= name);
    text::law_replacing_what_is_not_there_changes_nothing(name, "vision_encoder"@, "encoder"@);
    text::law_replacing_what_is_not_there_changes_nothing(
        name,
        "vision_embeddings"@,
        "embeddings"@,
    );
    text::law_replacing_what_is_not_there_changes_nothing(
        name,
        "vision_post_layernorm"@,
        "post_layernorm"@,
    );
}

/// The three parts of the vision tower lose the `vision_` of their names: the encoder,
/// the embeddings and the last normalisation.
pub proof fn law_vision_parts_lose_their_vision(
    before: Seq<char>,
    after: Seq<char>,
    long: Seq<char>,
    short: Seq<char>,
)
    requires
        (long == "vision_encoder"@ && short == "encoder"@) || (long == "vision_embeddings"@ && short
            == "embeddings"@) || (long == "vision_post_layernorm"@ && short == "post_layernorm"@),
        ({
            let key = before + long + after;
            let name = before + short + after;
            &&& text::occurs(key, "vision_tower"@)
            &&& !text::occurs(key, "model."@)
            &&& forall|i: int| 0 <= i < before.len() ==> !text::stands_at(key, long, i)
            &&& !text::occurs(after, long)
            &&& long != "vision_encoder"@ ==> !text::occurs(key, "vision_encoder"@)
            &&& long != "vision_embeddings"@ ==> !text::occurs(key, "vision_embeddings"@)
                && !text::occurs(name, "vision_embeddings"@)
            &&& !text::occurs(name, "vision_post_layernorm"@)
            &&& !text::occurs(name, "language_model"@)
            &&& !text::occurs(name, "multi_modal_projector"@)
        }),
    ensures
        model_name(before + long + after) == before + short + after,
{
    reveal_strlit("vision_encoder");
    reveal_strlit("vision_embeddings");
    reveal_strlit("vision_post_layernorm");
    let key = before + long + after;
    let name = before + short + after;
    text::law_replacing_what_is_not_there_changes_nothing(key, "model."@, ""@);
    text::law_replacing_goes_from_left_to_right(before, after, long, short);
    text::law_replacing_what_is_not_there_changes_nothing(after, long, short);
    assert(text::replaced(key, long, short) == name);
    assert("vision_encoder"@.len() == 14);
    assert("vision_embeddings"@.len() == 17);
    assert("vision_post_layernorm"@.len() == 21);
    if long != "vision_encoder"@ {
        text::law_replacing_what_is_not_there_changes_nothing(
            key,
            "vision_encoder"@,
            "encoder"@,
        );
    }
    if long == "vision_post_layernorm"@ {
        text::law_replacing_what_is_not_there_changes_nothing(
            key,
            "vision_embeddings"@,
            "embeddings"@,
        );
    } else {
        if long == "vision_encoder"@ {
            text::law_replacing_what_is_not_there_changes_nothing(
                name,
                "vision_embeddings"@,
                "embeddings"@,
            );
        }
        text::law_replacing_what_is_not_there_changes_nothing(
            name,
            "vision_post_layernorm"@,
            "post_layernorm"@,
        );
    }
}

/// The names of the language model change the order of their first two parts, and those
/// of the projector lose the first.
pub proof fn law_language_and_projector_names_are_moved(rest: Seq<char>)
    ensures
        ({
            let key = "model.language_model"@ + rest;
            let name = "language_model.model"@ + rest;
            !text::occurs(key, "vision_tower"@) && !text::occurs(rest, "model.language_model"@)
                && !text::occurs(name, "multi_modal_projector"@) ==> model_name(key) == name
        }),
        ({
            let key = "model.multi_modal_projector"@ + rest;
            let name = "multi_modal_projector"@ + rest;
            !text::occurs(key, "vision_tower"@) && !text::occurs(key, "language_model"@)
                && !text::occurs(rest, "model.multi_modal_projector"@) ==> model_name(key) == name
        }),
{
    reveal_strlit("model.language_model");
    reveal_strlit("language_model");
    reveal_strlit("model.multi_modal_projector");
    reveal_strlit("multi_modal_projector");
    let empty = Seq::<char>::empty();
    let l = "model.language_model"@;
    let key = l + rest;
    assert(key.subrange(6, 20) =~= "language_model"@);
    assert(text::stands_at(key, "language_model"@, 6));
    text::law_replacing_goes_from_left_to_right(empty, rest, l, "language_model.model"@);
    assert(empty + l + rest =~= key);
    if !text::occurs(rest, l) {
        text::law_replacing_what_is_not_there_changes_nothing(rest, l, "language_model.model"@);
    }
    assert(empty + "language_model.model"@ + rest =~= "language_model.model"@ + rest);
    let p = "model.multi_modal_projector"@;
    let other = p + rest;
    assert(other.subrange(6, 27) =~= "multi_modal_projector"@);
    assert(text::stands_at(other, "multi_modal_projector"@, 6));
    text::law_replacing_goes_from_left_to_right(empty, rest, p, "multi_modal_projector"@);
    assert(empty + p + rest =~= other);
    if !text::occurs(rest, p) {
        text::law_replacing_what_is_not_there_changes_nothing(rest, p, "multi_modal_projector"@);
    }
    assert(empty + "multi_modal_projector"@ + rest =~= "multi_modal_projector"@ + rest);
}


/// A model is put together of the weights under its prefixes: the vision tower of those
/// under `vision_tower.`, without the stored position ids; the projector of those under
/// `multi_modal_projector.`; and the language model gets those under `language_model.`.
/// Neither of the first two leaves a weight of its prefix over.
#[verifier::spinoff_prover]
#[verifier::rlimit(40)]
pub proof fn law_parts_are_built_of_their_prefixes<W>(
    m: Map<Seq<char>, W>,
    config: ModelConfig,
    schemes: Schemes,
    text: Option<ErrorModel>,
    vision: Map<Seq<char>, W>,
    own: Map<Seq<char>, W>,
)
    requires
        config.refused(text) is None,
        forall|key: Seq<char>| #[trigger]
            vision.contains_key(key) <==> m.contains_key("vision_tower."@ + key) && !text::occurs(
                key,
                "position_ids"@,
            ),
        forall|key: Seq<char>| #[trigger]
            vision.contains_key(key) ==> vision[key] == m["vision_tower."@ + key],
        forall|key: Seq<char>| #[trigger]
            own.contains_key(key) <==> m.contains_key("multi_modal_projector."@ + key),
        forall|key: Seq<char>| #[trigger]
            own.contains_key(key) ==> own[key] == m["multi_modal_projector."@ + key],
    ensures
        ({
            let kept = if config.vision_feature_layer == -1 {
                config.vision_config.num_hidden_layers as int
            } else {
                config.vision_feature_layer + 1
            };
            let tower = vision::tower(
                vision,
                config.vision_config,
                kept as i32,
                schemes,
                "vision_tower."@,
            );
            let projector = projector::projector_outcome(
                own,
                config,
                text,
                schemes,
                "multi_modal_projector."@,
            );
            &&& 1 <= kept <= config.vision_config.num_hidden_layers
            &&& parts(m, config, text, schemes) is Ok <==> {
                &&& tower is Ok
                &&& tower->Ok_0.1 == Map::<Seq<char>, W>::empty()
                &&& projector is Ok
                &&& projector->Ok_0.1 == Map::<Seq<char>, W>::empty()
            }
            &&& parts(m, config, text, schemes) matches Ok(p) ==> {
                &&& p.config == config
                &&& p.fold == if config.downsample_factor > 1 {
                    Some(config.downsample_factor)
                } else {
                    None
                }
                &&& p.vision_tower == tower->Ok_0.0
                &&& p.multi_modal_projector == projector->Ok_0.0
                &&& forall|key: Seq<char>| #[trigger]
                    p.language_weights.contains_key(key) <==> m.contains_key(
                        "language_model."@ + key,
                    )
                &&& forall|key: Seq<char>| #[trigger]
                    p.language_weights.contains_key(key) ==> p.language_weights[key]
                        == m["language_model."@ + key]
            }
        }),
{
    reveal_strlit("vision_tower.");
    reveal_strlit("multi_modal_projector.");
    reveal_strlit("language_model.");
    let m1 = weights::outside_prefix(m, "vision_tower."@);
    let m2 = weights::outside_prefix(m1, "multi_modal_projector."@);
    assert(vision =~= weights::without_part(
        weights::under_prefix(m, "vision_tower."@),
        "position_ids"@,
    ));
    assert forall|key: Seq<char>| #[trigger]
        m1.contains_key("multi_modal_projector."@ + key) <==> m.contains_key(
            "multi_modal_projector."@ + key,
        ) by {
        lemma_first_letters_tell("multi_modal_projector."@, "vision_tower."@, key);
    }
    assert(own =~= weights::under_prefix(m1, "multi_modal_projector."@));
    assert forall|key: Seq<char>| #[trigger]
        m2.contains_key("language_model."@ + key) <==> m.contains_key("language_model."@ + key) by {
        lemma_first_letters_tell("language_model."@, "vision_tower."@, key);
        lemma_first_letters_tell("language_model."@, "multi_modal_projector."@, key);
    }
}

proof fn lemma_first_letters_tell(a: Seq<char>, b: Seq<char>, key: Seq<char>)
    requires
        0 < a.len(),
        0 < b.len(),
        a[0] != b[0],
    ensures
        !text::begins_with(a + key, b),
{
    if text::begins_with(a + key, b) {
        assert((a + key).subrange(0, b.len() as int)[0] == b[0]);
    }
}


/// Renaming the weights of a checkpoint keeps each of them, under the name that the model
/// has for it, and adds none.
pub proof fn law_renaming_keeps_every_weight<W>(
    weights: Map<Seq<char>, W>,
    renamed: Map<Seq<char>, W>,
    key: Seq<char>,
    name: Seq<char>,
)
    requires
        is_renamed(weights, renamed),
    ensures
        weights.contains_key(key) ==> renamed.contains_key(model_name(key)) && renamed[model_name(
            key,
        )] == weights[key],
        renamed.contains_key(name) ==> exists|k: Seq<char>| #[trigger]
            weights.contains_key(k) && model_name(k) == name && renamed[name] == weights[k],
{
    if renamed.contains_key(name) {
        let k = choose|k: Seq<char>| #[trigger] weights.contains_key(k) && model_name(k) == name;
        assert(weights.contains_key(k) && renamed[name] == weights[k]);
    }
}

/// A name clashes where two weights of a checkpoint would both get it, and only there.
pub proof fn law_clashing_names_belong_to_two_weights<W>(
    weights: Map<Seq<char>, W>,
    a: Seq<char>,
    b: Seq<char>,
    name: Seq<char>,
)
    ensures
        weights.contains_key(a) && weights.contains_key(b) && a != b && model_name(a) == name
            && model_name(b) == name ==> names_clash(weights, name),
        names_clash(weights, name) && weights.contains_key(a) && model_name(a) == name
            ==> exists|c: Seq<char>| #[trigger]
            weights.contains_key(c) && c != a && model_name(c) == name,
{
}

/// What no part claims are the weights under none of the three prefixes.
pub proof fn law_unclaimed_weights_have_no_prefix<W>(
    m: Map<Seq<char>, W>,
    config: ModelConfig,
    text: Option<ErrorModel>,
    schemes: Schemes,
    key: Seq<char>,
)
    requires
        parts(m, config, text, schemes) is Ok,
    ensures
        ({
            let unclaimed = parts(m, config, text, schemes)->Ok_0.unclaimed;
            &&& unclaimed.contains_key(key) <==> {
                &&& m.contains_key(key)
                &&& !"vision_tower."@.is_prefix_of(key)
                &&& !"multi_modal_projector."@.is_prefix_of(key)
                &&& !"language_model."@.is_prefix_of(key)
            }
            &&& unclaimed.contains_key(key) ==> unclaimed[key] == m[key]
        }),
{
    lemma_beginnings_are_prefixes(key, "vision_tower."@);
    lemma_beginnings_are_prefixes(key, "multi_modal_projector."@);
    lemma_beginnings_are_prefixes(key, "language_model."@);
}

proof fn lemma_beginnings_are_prefixes(text: Seq<char>, prefix: Seq<char>)
    ensures
        text::begins_with(text, prefix) <==> prefix.is_prefix_of(text),
{
}

/// The processor of a configuration has its settings, each at least one where it is a
/// size or a count, and no brackets yet.
pub proof fn law_the_processor_has_the_settings_of_its_configuration(config: ModelConfig)
    ensures
        ({
            let s = settings_of(config);
            &&& s.patch_size == if config.vision_config.patch_size >= 1 {
                config.vision_config.patch_size as int
            } else {
                1
            }
            &&& s.max_num_patches == if config.max_num_patches >= 1 {
                config.max_num_patches as int
            } else {
                1
            }
            &&& s.downsample_factor == if config.downsample_factor >= 1 {
                config.downsample_factor as int
            } else {
                1
            }
            &&& s.image_token == config.image_token_index
            &&& s.image_start_token is None
            &&& s.image_end_token is None
            &&& s.use_image_special_tokens == config.use_image_special_tokens
            &&& s.tiling.do_image_splitting == config.do_image_splitting
            &&& s.tiling.use_thumbnail == config.use_thumbnail
            &&& s.tiling.max_pixels_tolerance == config.max_pixels_tolerance
        }),
        ({
            let t = settings_of(config).tiling;
            &&& config.min_tiles >= 1 ==> t.min_tiles == config.min_tiles
            &&& config.max_tiles >= 1 ==> t.max_tiles == config.max_tiles
            &&& config.min_image_tokens >= 1 ==> t.min_image_tokens == config.min_image_tokens
            &&& config.max_image_tokens >= 1 ==> t.max_image_tokens == config.max_image_tokens
            &&& config.encoder_patch_size >= 1 ==> t.encoder_patch_size == config.encoder_patch_size
            &&& config.tile_size >= 1 ==> t.tile_size == config.tile_size
            &&& config.min_tiles < 1 ==> t.min_tiles == 1
            &&& config.max_tiles < 1 ==> t.max_tiles == 1
            &&& config.min_image_tokens < 1 ==> t.min_image_tokens == 1
            &&& config.max_image_tokens < 1 ==> t.max_image_tokens == 1
            &&& config.encoder_patch_size < 1 ==> t.encoder_patch_size == 1
            &&& config.tile_size < 1 ==> t.tile_size == 1
        }),
        processor_refused(config) is None <==> {
            let t = settings_of(config).tiling;
            &&& 0 <= config.image_token_index
            &&& t.min_tiles <= t.max_tiles <= 1024
            &&& t.min_image_tokens <= t.max_image_tokens
            &&& t.tile_size as int % t.encoder_patch_size as int == 0
            &&& config.max_pixels_tolerance is Positive
        },
{
    processor::law_tilings_are_in_order(tiling_of(config));
}

/// The processor that a model carries by itself does not split images; it has the sizes of
/// a configuration whose token is one, and the smallest sizes otherwise.
pub proof fn law_native_processors_do_not_split(config: ModelConfig)
    ensures
        ({
            let s = native_settings(config);
            &&& !s.tiling.do_image_splitting
            &&& s.tiling == TilingConfig {
                do_image_splitting: false,
                ..processor::default_tiling()
            }
            &&& s.use_image_special_tokens
            &&& s.image_start_token is None
            &&& s.image_end_token is None
            &&& config.image_token_index >= 0 ==> s.image_token == config.image_token_index
            &&& config.image_token_index < 0 ==> s.image_token == 0 && s.patch_size == 1
                && s.max_num_patches == 1 && s.downsample_factor == 1
            &&& config.image_token_index >= 0 ==> {
                &&& config.vision_config.patch_size >= 1 ==> s.patch_size
                    == config.vision_config.patch_size
                &&& config.vision_config.patch_size < 1 ==> s.patch_size == 1
                &&& config.max_num_patches >= 1 ==> s.max_num_patches == config.max_num_patches
                &&& config.max_num_patches < 1 ==> s.max_num_patches == 1
                &&& config.downsample_factor >= 1 ==> s.downsample_factor
                    == config.downsample_factor
                &&& config.downsample_factor < 1 ==> s.downsample_factor == 1
            }
        }),
{
}

/// A processed image is what its patches come to at the grid, with a token for each square
/// of `factor` by `factor` patches.
pub proof fn law_processed_images_hold_their_patches<T>(
    r: Result<ProcessedImage<T>, Error>,
    rgb: Seq<u8>,
    width: u32,
    height: u32,
    s: ProcessorSettings,
    factor: i32,
    grid: (u32, u32),
    kernel: Kernel,
    table: patchify::NormModel<T>,
)
    requires
        processed_at(r, rgb, width, height, s, factor, grid, kernel, table),
        grid.0 <= i32::MAX,
        grid.1 <= i32::MAX,
    ensures
        r matches Ok(image) ==> {
            &&& patchify::preprocessed(rgb, width, height, s, grid, kernel, table) matches Ok(m)
                && image.pixels@ == m.pixel_values && (image.native matches Some(native)
                && native.spatial_shape@ == m.spatial_shapes && native.patch_mask@
                == m.pixel_attention_mask)
            &&& 0 < factor
            &&& image.num_tokens == ((grid.0 + factor - 1) / (factor as int)) * ((grid.1 + factor
                - 1) / (factor as int))
        },
        r matches Err(e) ==> {
            ||| patchify::preprocessed(rgb, width, height, s, grid, kernel, table) == Err::<
                processor::InputsModel<T>,
                Error,
            >(e)
            ||| e is OutOfMemory || e is AllocFailure
            ||| processor::token_count(grid.0 as i32, grid.1 as i32, factor) == Err::<i32, Error>(e)
        },
{
    processor::law_images_have_a_token_per_square(grid.0 as i32, grid.1 as i32, factor);
}

/// An array is a batch of one with the same items.
pub proof fn law_batches_of_one_keep_the_items<T>(x: ArrayModel<T>)
    ensures
        as_batch(x).data == x.data,
        as_batch(x).shape.len() == x.shape.len() + 1,
        as_batch(x).shape[0] == 1,
        forall|i: int|
            0 <= i < x.shape.len() ==> as_batch(x).shape[i + 1] == #[trigger] x.shape[i],
{
}

/// The output of the tower is taken for an image where it is one image of `i32` extents and
/// the image has no more patches than it has rows. What is taken are the rows of the
/// patches, in order, as a grid of the image's rows and columns.
pub proof fn law_the_patches_of_an_image_are_its_first_rows<T>(
    x: ArrayModel<T>,
    rows: i32,
    cols: i32,
    row: int,
    col: int,
    j: int,
)
    ensures
        slice_outcome(x.shape, rows, cols) is Ok <==> {
            &&& x.shape.len() == 3
            &&& x.shape[0] == 1
            &&& x.shape[1] <= i32::MAX
            &&& x.shape[2] <= i32::MAX
            &&& 0 < rows
            &&& 0 < cols
            &&& rows * cols <= x.shape[1]
        },
        slice_outcome(x.shape, rows, cols) is Ok && x.data.len() == x.shape[1] * x.shape[2] ==> {
            let g = patch_rows(x, rows, cols);
            let d = x.shape[2] as int;
            &&& g.shape =~= seq![1usize, rows as usize, cols as usize, x.shape[2]]
            &&& g.data.len() == rows * cols * d
            &&& 0 <= row < rows && 0 <= col < cols && 0 <= j < d ==> g.data[(row * cols + col) * d
                + j] == x.data[(row * cols + col) * d + j]
        },
{
    if x.shape.len() == 3 && x.shape[1] <= i32::MAX {
        vision::law_grids_within_the_budget_are_admitted(rows, cols, x.shape[1] as i32);
        if slice_outcome(x.shape, rows, cols) is Ok && x.data.len() == x.shape[1] * x.shape[2] {
            let d = x.shape[2] as int;
            let n = x.shape[1] as int;
            let taken = rows * cols;
            assert(0 <= taken * d && taken * d <= n * d) by (nonlinear_arith)
                requires
                    0 <= taken <= n,
                    0 <= d,
            ;
            if 0 <= row < rows && 0 <= col < cols && 0 <= j < d {
                array::lemma_pair_bound(row, rows as int, col, cols as int);
                array::lemma_pair_bound(row * cols + col, taken, j, d);
            }
        }
    }
}

/// The output of the projector is taken as features where it has four axes and its extents
/// and the number of its rows fit; its items stay in order, a row for each position.
pub proof fn law_features_are_the_rows_of_the_projector<T>(x: ArrayModel<T>)
    ensures
        feature_outcome(x.shape) is Ok <==> {
            &&& x.shape.len() == 4
            &&& x.shape[0] <= i32::MAX
            &&& x.shape[1] <= i32::MAX
            &&& x.shape[2] <= i32::MAX
            &&& x.shape[3] <= i32::MAX
            &&& x.shape[0] * x.shape[1] <= i32::MAX
            &&& x.shape[0] * x.shape[1] * x.shape[2] <= i32::MAX
        },
        feature_outcome(x.shape) matches Ok((rows, width)) ==> {
            &&& rows == x.shape[0] * x.shape[1] * x.shape[2]
            &&& width == x.shape[3]
            &&& feature_rows(x).shape =~= seq![rows as usize, x.shape[3]]
            &&& feature_rows(x).data == x.data
        },
{
    if x.shape.len() == 4 {
        let context = "lfm2_vl encode_image: projected rows";
        reveal_with_fuel(leading_extents, 4);
        let a = x.shape[0] as int;
        let b = x.shape[1] as int;
        let c = x.shape[2] as int;
        assert(0 <= a * b && 0 <= a * b * c) by (nonlinear_arith)
            requires
                0 <= a,
                0 <= b,
                0 <= c,
        ;
        array::lemma_product_3(x.shape[0], x.shape[1], x.shape[2]);
        assert(x.shape.drop_last() =~= seq![x.shape[0], x.shape[1], x.shape[2]]);
        assert(leading_extents(x.shape, 1, context) == projector::extent_i32(x.shape[0], context));
    }
}

/// The features of one image are joined to themselves; those of one more image are put
/// behind the others.
pub proof fn law_features_are_joined_in_order<T>(
    features: Seq<ArrayModel<T>>,
    last: ArrayModel<T>,
    rows: usize,
)
    requires
        features_outcome(features.push(last)) == Ok::<usize, Error>(rows),
    ensures
        ({
            let r = joined_features(features.push(last));
            &&& r.shape =~= seq![rows, last.shape[1]]
            &&& features.len() == 0 ==> rows == last.shape[0] && r.data == last.data
            &&& features.len() > 0 ==> {
                &&& features_outcome(features) matches Ok(n) && rows == n + last.shape[0]
                &&& r.data == joined_features(features).data + last.data
            }
        }),
{
    let all = features.push(last);
    lemma_joined_rows(all, all[0].shape[1], 0, 0);
    lemma_totals_of_a_prefix(features, last, features.len() as int);
    assert(all[features.len() as int] == last);
    if features.len() > 0 {
        lemma_joined_rows(features, features[0].shape[1], 0, 0);
        assert(all[0] == features[0]);
        assert forall|j: int| 0 <= j < features.len() implies (#[trigger] features[j]).shape.len()
            == 2 && features[j].shape[1] == features[0].shape[1] by {
            assert(all[j] == features[j]);
        }
    } else {
        assert(joined_items(all, 0) =~= Seq::<T>::empty());
        assert(joined_items(all, 1) =~= last.data);
        assert(total_rows(all, 0) == 0);
    }
}

/// Features are joined where each is a list of rows of one width, and all of the rows fit.
pub proof fn law_features_of_one_width_are_joined<T>(features: Seq<ArrayModel<T>>)
    requires
        0 < features.len(),
    ensures
        features_outcome(features) is Ok <==> {
            &&& forall|j: int|
                0 <= j < features.len() ==> (#[trigger] features[j]).shape.len() == 2
                    && features[j].shape[1] == features[0].shape[1]
            &&& total_rows(features, features.len() as int) <= usize::MAX
        },
{
    lemma_joined_rows(features, features[0].shape[1], 0, 0);
}

proof fn lemma_totals_of_a_prefix<T>(features: Seq<ArrayModel<T>>, last: ArrayModel<T>, n: int)
    requires
        0 <= n <= features.len(),
    ensures
        total_rows(features.push(last), n) == total_rows(features, n),
        joined_items(features.push(last), n) == joined_items(features, n),
        0 <= total_rows(features, n),
    decreases n,
{
    if n > 0 {
        lemma_totals_of_a_prefix(features, last, n - 1);
    }
}

proof fn lemma_joined_rows<T>(features: Seq<ArrayModel<T>>, width: usize, rows: int, i: int)
    requires
        0 <= i <= features.len(),
        rows == total_rows(features, i),
        0 <= rows <= usize::MAX,
    ensures
        join_outcome(features, width, rows, i) is Ok <==> {
            &&& forall|j: int|
                i <= j < features.len() ==> (#[trigger] features[j]).shape.len() == 2
                    && features[j].shape[1] == width
            &&& total_rows(features, features.len() as int) <= usize::MAX
        },
        join_outcome(features, width, rows, i) matches Ok(n) ==> n == total_rows(
            features,
            features.len() as int,
        ),
    decreases features.len() - i,
{
    if i < features.len() {
        assert(total_rows(features, i + 1) == rows + features[i].shape[0]);
        lemma_rows_grow(features, i + 1);
        if features[i].shape.len() == 2 && features[i].shape[1] == width && rows
            + features[i].shape[0] <= usize::MAX {
            lemma_joined_rows(features, width, rows + features[i].shape[0], i + 1);
        }
    }
}

proof fn lemma_rows_grow<T>(features: Seq<ArrayModel<T>>, i: int)
    requires
        0 <= i <= features.len(),
    ensures
        total_rows(features, i) <= total_rows(features, features.len() as int),
    decreases features.len() - i,
{
    if i < features.len() {
        lemma_rows_grow(features, i + 1);
    }
}

/// Before the projector, the patches of an image are folded where the model folds, and are
/// left as they are otherwise.
pub proof fn law_patches_are_folded_before_the_projector<T>(
    hidden: ArrayModel<T>,
    rows: i32,
    cols: i32,
    unshuffle: PixelUnshuffle,
    zero: T,
    grid: ArrayModel<T>,
)
    requires
        slice_outcome(hidden.shape, rows, cols) is Ok,
        grid.shape =~= seq![1usize, rows as usize, cols as usize, hidden.shape[2]],
        grid.data =~= hidden.data.take(rows * cols * hidden.shape[2]),
    ensures
        unshuffle is Identity ==> folded_patches(hidden, rows, cols, unshuffle, zero) == Ok::<
            ArrayModel<T>,
            Error,
        >(grid),
        unshuffle matches PixelUnshuffle::Block(block) ==> {
            &&& folded_patches(hidden, rows, cols, unshuffle, zero) is Ok
                <==> projector::fold_outcome(grid.shape, block.side()) is Ok
            &&& folded_patches(hidden, rows, cols, unshuffle, zero) matches Ok(r) ==> r
                == projector::folded(grid, block.side(), zero)
        },
{
    assert(grid == patch_rows(hidden, rows, cols));
}


/// What some arrays hold is what each holds, in order.
pub proof fn law_models_are_those_of_the_arrays<T>(arrays: Seq<Array<T>>, i: int)
    ensures
        models_of(arrays).len() == arrays.len(),
        0 <= i < arrays.len() ==> models_of(arrays)[i] == arrays[i]@,
{
}

/// The parts of a model are those that it holds.
pub proof fn law_parts_are_those_of_the_model<W>(p: Lfm2VlParts<W>)
    ensures
        p@.config == p.config,
        p@.vision_tower == p.vision_tower@,
        p@.multi_modal_projector == p.multi_modal_projector,
        p@.language_weights == p.language_weights@,
        p@.unclaimed == p.unclaimed@,
        p.pixel_unshuffle is Identity ==> p@.fold is None,
        p.pixel_unshuffle matches PixelUnshuffle::Block(block) ==> p@.fold == Some(block.side()),
{
}


/// The names that a checkpoint has for the three parts of the vision tower come to those of
/// the model: the model in front and the one inside the tower are both dropped.
pub proof fn law_checkpoint_names_of_the_tower_are_shortened(
    rest: Seq<char>,
    long: Seq<char>,
    short: Seq<char>,
)
    requires
        (long == "vision_encoder"@ && short == "encoder"@) || (long == "vision_embeddings"@ && short
            == "embeddings"@) || (long == "vision_post_layernorm"@ && short == "post_layernorm"@),
        ({
            let key = "vision_tower."@ + long + rest;
            let name = "vision_tower."@ + short + rest;
            &&& !text::occurs(key, "model."@)
            &&& !text::occurs(short + rest, "model."@)
            &&& !text::occurs(rest, long)
            &&& long != "vision_encoder"@ ==> !text::occurs(key, "vision_encoder"@)
            &&& long != "vision_embeddings"@ ==> !text::occurs(key, "vision_embeddings"@)
                && !text::occurs(name, "vision_embeddings"@)
            &&& !text::occurs(name, "vision_post_layernorm"@)
            &&& !text::occurs(name, "language_model"@)
            &&& !text::occurs(name, "multi_modal_projector"@)
        }),
    ensures
        model_name("model.vision_tower.vision_model."@ + short + rest) == "vision_tower."@ + short
            + rest,
{
    let tail = short + rest;
    let full = "model.vision_tower.vision_model."@ + short + rest;
    let key = "vision_tower."@ + long + rest;
    assert(full =~= "model.vision_tower.vision_model."@ + tail);
    lemma_models_of_a_name_are_dropped(tail);
    lemma_long_names_are_visions(long, short);
    assert(key =~= "vision_tower.vision_"@ + tail) by {
        assert(key =~= ("vision_tower."@ + long) + rest);
        assert("vision_tower.vision_"@ + tail =~= ("vision_tower.vision_"@ + short) + rest);
    }
    text::law_replacing_what_is_not_there_changes_nothing(key, "model."@, ""@);
    lemma_towers_are_named(tail, long, rest);
    lemma_parts_do_not_stand_before(long, short, rest);
    law_vision_parts_lose_their_vision("vision_tower."@, rest, long, short);
}

proof fn lemma_models_of_a_name_are_dropped(tail: Seq<char>)
    requires
        !text::occurs(tail, "model."@),
    ensures
        text::replaced("model.vision_tower.vision_model."@ + tail, "model."@, ""@)
            == "vision_tower.vision_"@ + tail,
{
    reveal_strlit("model.");
    reveal_strlit("");
    reveal_strlit("vision_tower.vision_");
    reveal_strlit("model.vision_tower.vision_model.");
    let model = "model."@;
    let middle = "vision_tower.vision_"@;
    let inner = middle + model + tail;
    let empty = Seq::<char>::empty();
    assert("model.vision_tower.vision_model."@ =~= model + middle + model);
    assert("model.vision_tower.vision_model."@ + tail =~= empty + model + inner);
    text::law_replacing_goes_from_left_to_right(empty, inner, model, ""@);
    assert forall|i: int| 0 <= i < middle.len() implies !text::stands_at(inner, model, i) by {
        if text::stands_at(inner, model, i) {
            assert(inner.subrange(i, i + model.len())[0] == inner[i]);
            assert(inner[i] == middle[i]);
            assert(middle[i] != 'm');
        }
    }
    text::law_replacing_goes_from_left_to_right(middle, tail, model, ""@);
    text::law_replacing_what_is_not_there_changes_nothing(tail, model, ""@);
    assert(empty + ""@ + (middle + ""@ + tail) =~= middle + tail);
}

proof fn lemma_long_names_are_visions(long: Seq<char>, short: Seq<char>)
    requires
        (long == "vision_encoder"@ && short == "encoder"@) || (long == "vision_embeddings"@ && short
            == "embeddings"@) || (long == "vision_post_layernorm"@ && short == "post_layernorm"@),
    ensures
        "vision_tower."@ + long =~= "vision_tower.vision_"@ + short,
{
    reveal_strlit("vision_tower.");
    reveal_strlit("vision_tower.vision_");
    reveal_strlit("vision_encoder");
    reveal_strlit("encoder");
    reveal_strlit("vision_embeddings");
    reveal_strlit("embeddings");
    reveal_strlit("vision_post_layernorm");
    reveal_strlit("post_layernorm");
}

proof fn lemma_towers_are_named(tail: Seq<char>, long: Seq<char>, rest: Seq<char>)
    ensures
        text::occurs("model.vision_tower.vision_model."@ + tail, "vision_tower"@),
        text::occurs("vision_tower."@ + long + rest, "vision_tower"@),
{
    reveal_strlit("vision_tower.");
    reveal_strlit("vision_tower");
    reveal_strlit("model.vision_tower.vision_model.");
    let full = "model.vision_tower.vision_model."@ + tail;
    let key = "vision_tower."@ + long + rest;
    assert(full.subrange(6, 18) =~= "vision_tower"@);
    assert(text::stands_at(full, "vision_tower"@, 6));
    assert(key.subrange(0, 12) =~= "vision_tower"@);
    assert(text::stands_at(key, "vision_tower"@, 0));
}

proof fn lemma_parts_do_not_stand_before(long: Seq<char>, short: Seq<char>, rest: Seq<char>)
    requires
        (long == "vision_encoder"@ && short == "encoder"@) || (long == "vision_embeddings"@ && short
            == "embeddings"@) || (long == "vision_post_layernorm"@ && short == "post_layernorm"@),
    ensures
        forall|i: int|
            0 <= i < "vision_tower."@.len() ==> !text::stands_at(
                "vision_tower."@ + long + rest,
                long,
                i,
            ),
{
    reveal_strlit("vision_tower.");
    reveal_strlit("vision_encoder");
    reveal_strlit("vision_embeddings");
    reveal_strlit("vision_post_layernorm");
    let before = "vision_tower."@;
    let key = before + long + rest;
    assert(long.len() > 8 && long[0] == 'v' && long[7] != 't');
    assert forall|i: int| 0 <= i < before.len() implies !text::stands_at(key, long, i) by {
        if text::stands_at(key, long, i) {
            let here = key.subrange(i, i + long.len());
            assert(here[0] == key[i]);
            assert(key[i] == before[i]);
            assert(here[7] == key[i + 7]);
            if i == 0 {
                assert(key[7] == before[7]);
            } else {
                assert(before[i] != 'v');
            }
        }
    }
}

/// A name is rewritten in turn: those of the vision tower first, then those of the language
/// model, then those of the projector, each where it names its part.
pub proof fn law_names_are_rewritten_part_by_part(key: Seq<char>)
    ensures
        ({
            let a = if text::occurs(key, "vision_tower"@) {
                text::replaced(
                    text::replaced(
                        text::replaced(
                            text::replaced(key, "model."@, ""@),
                            "vision_encoder"@,
                            "encoder"@,
                        ),
                        "vision_embeddings"@,
                        "embeddings"@,
                    ),
                    "vision_post_layernorm"@,
                    "post_layernorm"@,
                )
            } else {
                key
            };
            let b = if text::occurs(a, "language_model"@) {
                text::replaced(a, "model.language_model"@, "language_model.model"@)
            } else {
                a
            };
            let c = if text::occurs(b, "multi_modal_projector"@) {
                text::replaced(b, "model.multi_modal_projector"@, "multi_modal_projector"@)
            } else {
                b
            };
            model_name(key) == c
        }),
{
}

} // verus!
