//! The model as a whole: loading a checkpoint, encoding images, and placing their
//! features in a prompt.

use mlxrs::array::Array;
use mlxrs::error::Error;
use mlxrs::model_validation::Single;
use mlxrs::vlm::image::patch_grid;
use mlxrs::vlm::load::VlmTypeRegistry;
use mlxrs::vlm::models::lfm2_vl::config::{
    ModelConfig, RawModelConfig, RawVisionConfig, TextConfig, VisionConfig,
};
use mlxrs::vlm::models::lfm2_vl::layers::{Linear, Norm, Schemes};
use mlxrs::vlm::models::lfm2_vl::model::{
    flatten_features, join_features, native_inputs, nominal_image_size, register, slice_patches,
    transform_key, with_batch_axis, Lfm2Vl, Lfm2VlImageProcessor, Lfm2VlParts, NativeResolution,
    PartBuffers, PixelUnshuffle, ProcessedImage,
};
use mlxrs::vlm::models::lfm2_vl::patchify::NormTable;
use mlxrs::vlm::models::lfm2_vl::processor::{
    expand_image_tokens, num_image_tokens_from_patch_grid, Lfm2VlImageInputs,
};
use mlxrs::vlm::models::lfm2_vl::vision::{
    join_heads, join_positions, plan_forward, position_grid, split_heads, VisionModel,
};
use mlxrs::vlm::models::lfm2_vl::tiling::{plan_tiles, target_ratios, TileNumbers};
use mlxrs::vlm::resize::{
    filter_support, plan_table, AxisTaps, Filter, Kernel, TapRow, PRECISION_BITS,
};
use mlxrs::vlm::video::Quotients;
use mlxrs::weights::WeightMap;
use serde_json::Value;

fn array<T>(data: Vec<T>, shape: &[usize]) -> Array<T> {
    match Array::from_vec(data, shape.to_vec()) {
        Ok(array) => array,
        Err(e) => panic!("{e:?}"),
    }
}

/// A number of some precision.
trait Real: Copy {
    fn of(value: f32) -> Self;
    fn get(self) -> f32;
}

impl Real for f32 {
    fn of(value: f32) -> Self {
        value
    }
    fn get(self) -> f32 {
        self
    }
}

fn normalised<T: Real>(x: &Array<T>, norm: &Norm<Array<T>>, eps: f32) -> Array<T> {
    let width = *x.shape().last().unwrap();
    let mut data = Vec::new();
    for row in x.data().chunks(width) {
        let mean = row.iter().map(|v| v.get()).sum::<f32>() / width as f32;
        let variance =
            row.iter().map(|v| (v.get() - mean) * (v.get() - mean)).sum::<f32>() / width as f32;
        for (i, v) in row.iter().enumerate() {
            let unit = (v.get() - mean) / (variance + eps).sqrt();
            data.push(T::of(unit * norm.weight.data()[i].get() + norm.bias.data()[i].get()));
        }
    }
    array(data, x.shape())
}

fn entry<T: Real>(layer: &Linear<Array<T>>, o: usize, i: usize, inputs: usize) -> f32 {
    let code = layer.weight.data()[o * inputs + i].get();
    match (&layer.scales, &layer.biases) {
        (Some(scales), Some(biases)) => {
            let group = o * (inputs / 32) + i / 32;
            code * scales.data()[group].get() + biases.data()[group].get()
        }
        _ => code,
    }
}

fn applied<T: Real>(x: &Array<T>, layer: &Linear<Array<T>>) -> Array<T> {
    let width = *x.shape().last().unwrap();
    let outputs = layer.weight.shape()[0];
    let mut data = Vec::new();
    for row in x.data().chunks(width) {
        for o in 0..outputs {
            let mut sum = layer.bias.as_ref().map_or(0.0, |b| b.data()[o].get());
            for (i, v) in row.iter().enumerate() {
                sum += v.get() * entry(layer, o, i, width);
            }
            data.push(T::of(sum));
        }
    }
    let mut shape = x.shape().clone();
    *shape.last_mut().unwrap() = outputs;
    array(data, &shape)
}

fn gelu(v: f32) -> f32 {
    0.5 * v * (1.0 + (0.797_884_6 * (v + 0.044715 * v * v * v)).tanh())
}

fn sum<T: Real>(a: &Array<T>, b: &Array<T>) -> Array<T> {
    let data = a.data().iter().zip(b.data()).map(|(x, y)| T::of(x.get() + y.get())).collect();
    array(data, a.shape())
}

fn attended<T: Real>(
    q: &Array<T>,
    k: &Array<T>,
    v: &Array<T>,
    mask: Option<&Array<T>>,
) -> Array<T> {
    let (n, heads, len, dim) = (q.shape()[0], q.shape()[1], q.shape()[2], q.shape()[3]);
    let scale = 1.0 / (dim as f32).sqrt();
    let mut data = Vec::new();
    for b in 0..n {
        for h in 0..heads {
            let base = (b * heads + h) * len;
            for i in 0..len {
                let scores: Vec<f32> = (0..len)
                    .map(|j| {
                        let dot: f32 = (0..dim)
                            .map(|d| {
                                q.data()[(base + i) * dim + d].get()
                                    * k.data()[(base + j) * dim + d].get()
                            })
                            .sum();
                        dot * scale + mask.map_or(0.0, |m| m.data()[b * len + j].get())
                    })
                    .collect();
                let top = scores.iter().copied().fold(f32::NEG_INFINITY, f32::max);
                let weights: Vec<f32> = scores.iter().map(|s| (s - top).exp()).collect();
                let total: f32 = weights.iter().sum();
                for d in 0..dim {
                    let value: f32 = (0..len)
                        .map(|j| weights[j] / total * v.data()[(base + j) * dim + d].get())
                        .sum();
                    data.push(T::of(value));
                }
            }
        }
    }
    array(data, q.shape())
}

fn cubic(x: f32) -> f32 {
    let x = x.abs();
    if x < 1.0 {
        (1.25 * x - 2.25) * x * x + 1.0
    } else if x < 2.0 {
        ((-0.75 * x + 3.75) * x - 6.0) * x + 3.0
    } else {
        0.0
    }
}

/// Resamples each plane of a `(1, channels, side, side)` array.
fn resampled<T: Real>(planes: &Array<T>, rows: usize, cols: usize) -> Array<T> {
    let (channels, height, width) = (planes.shape()[1], planes.shape()[2], planes.shape()[3]);
    let at = |c: usize, y: i64, x: i64| -> f32 {
        let y = y.clamp(0, height as i64 - 1) as usize;
        let x = x.clamp(0, width as i64 - 1) as usize;
        planes.data()[(c * height + y) * width + x].get()
    };
    let mut data = Vec::new();
    for c in 0..channels {
        for r in 0..rows {
            let y = (r as f32 + 0.5) * height as f32 / rows as f32 - 0.5;
            for q in 0..cols {
                let x = (q as f32 + 0.5) * width as f32 / cols as f32 - 0.5;
                let mut value = 0.0;
                for dy in -1..=2i64 {
                    for dx in -1..=2i64 {
                        let (iy, ix) = (y.floor() as i64 + dy, x.floor() as i64 + dx);
                        value += at(c, iy, ix) * cubic(y - iy as f32) * cubic(x - ix as f32);
                    }
                }
                data.push(T::of(value));
            }
        }
    }
    array(data, &[1, channels, rows, cols])
}

/// The output of the tower for a batch of images.
fn run<T: Real, M>(
    tower: &VisionModel<Array<T>>,
    eps: f32,
    pixel_values: &Array<f32>,
    spatial_shapes: &Array<i32>,
    pixel_attention_mask: Option<&Array<M>>,
) -> Result<Array<T>, Error> {
    let plan = plan_forward(
        pixel_values,
        spatial_shapes,
        pixel_attention_mask,
        T::of(0.0),
        T::of(f32::NEG_INFINITY),
    )?;
    let cast: Vec<T> = pixel_values.data().iter().map(|v| T::of(*v)).collect();
    let patches = applied(&array(cast, pixel_values.shape()), &tower.patch_embedding);
    let planes = position_grid(&tower.position_embedding, tower.pos_grid_side, tower.hidden)?;
    let resized = plan
        .grids
        .iter()
        .map(|(rows, cols)| resampled(&planes, *rows as usize, *cols as usize))
        .collect();
    let positions = join_positions(&resized, &plan.grids, tower.hidden, plan.num_patches)?;
    let mut x = sum(&patches, &positions);
    for layer in &tower.layers {
        let attention = &layer.self_attn;
        let normed = normalised(&x, &layer.layer_norm1, eps);
        let q = split_heads(&applied(&normed, &attention.q_proj), attention.dims)?;
        let k = split_heads(&applied(&normed, &attention.k_proj), attention.dims)?;
        let v = split_heads(&applied(&normed, &attention.v_proj), attention.dims)?;
        let out = join_heads(&attended(&q, &k, &v, plan.mask.as_ref()), attention.dims)?;
        x = sum(&x, &applied(&out, &attention.out_proj));
        let normed = normalised(&x, &layer.layer_norm2, eps);
        let inner = applied(&normed, &layer.mlp.fc1);
        let active = inner.data().iter().map(|v| T::of(gelu(v.get()))).collect();
        x = sum(&x, &applied(&array(active, inner.shape()), &layer.mlp.fc2));
    }
    Ok(normalised(&x, &tower.post_layernorm, 1e-5))
}

fn integer(document: &Value, key: &str) -> Option<i32> {
    let value = document.get(key)?;
    Some(i32::try_from(value.as_i64().expect("an integer")).expect("an i32"))
}

fn flag(document: &Value, key: &str) -> Option<bool> {
    Some(document.get(key)?.as_bool().expect("a boolean"))
}

fn text(document: &Value, key: &str) -> Option<String> {
    Some(document.get(key)?.as_str().expect("a string").to_string())
}

fn vision_of(document: &Value) -> VisionConfig {
    VisionConfig::from_raw(RawVisionConfig {
        model_type: text(document, "model_type"),
        hidden_size: integer(document, "hidden_size"),
        intermediate_size: integer(document, "intermediate_size"),
        num_hidden_layers: integer(document, "num_hidden_layers"),
        num_attention_heads: integer(document, "num_attention_heads"),
        num_channels: integer(document, "num_channels"),
        image_size: integer(document, "image_size"),
        patch_size: integer(document, "patch_size"),
        num_patches: integer(document, "num_patches"),
        layer_norm_eps: document
            .get("layer_norm_eps")
            .map(|value| value.as_f64().expect("a number").to_bits()),
        hidden_act: text(document, "hidden_act"),
    })
}

fn model_of(json: &str) -> ModelConfig {
    let document: Value = serde_json::from_str(json).expect("a document");
    let text_document = document.get("text_config").expect("a text tower").clone();
    let raw = RawModelConfig {
        text_config: TextConfig {
            hidden_size: integer(&text_document, "hidden_size").expect("a width"),
            vocab_size: integer(&text_document, "vocab_size").expect("a vocabulary"),
        },
        vision_config: vision_of(document.get("vision_config").expect("a vision tower")),
        model_type: text(&document, "model_type"),
        downsample_factor: integer(&document, "downsample_factor"),
        image_token_index: integer(&document, "image_token_index"),
        projector_hidden_size: integer(&document, "projector_hidden_size"),
        projector_use_layernorm: flag(&document, "projector_use_layernorm"),
        projector_bias: flag(&document, "projector_bias"),
        vision_feature_layer: integer(&document, "vision_feature_layer"),
        max_num_patches: integer(&document, "max_num_patches"),
        do_image_splitting: flag(&document, "do_image_splitting"),
        encoder_patch_size: integer(&document, "encoder_patch_size"),
        max_image_tokens: integer(&document, "max_image_tokens"),
        min_image_tokens: integer(&document, "min_image_tokens"),
        max_tiles: integer(&document, "max_tiles"),
        min_tiles: integer(&document, "min_tiles"),
        max_pixels_tolerance: document.get("max_pixels_tolerance").map(|value| {
            Single::from_bits((value.as_f64().expect("a number") as f32).to_bits())
        }),
        tile_size: integer(&document, "tile_size"),
        use_thumbnail: flag(&document, "use_thumbnail"),
        use_image_special_tokens: flag(&document, "use_image_special_tokens"),
        projector_hidden_act: text(&document, "projector_hidden_act"),
        eos_token_id: match document.get("eos_token_id") {
            Some(Value::Null) | None => None,
            Some(_) => integer(&document, "eos_token_id"),
        },
        quantization: document.get("quantization").cloned(),
    };
    ModelConfig::from_raw(raw, &text_document)
}

/// The taps of the triangle filter along one axis. An axis that is refused for its
/// size gets no rows.
fn axis_taps(in_size: usize, out_size: usize) -> AxisTaps {
    if in_size == 0 || out_size == 0 {
        return AxisTaps { support: 0, rows: Vec::new() };
    }
    let scale = in_size as f64 / out_size as f64;
    let filterscale = if scale < 1.0 { 1.0 } else { scale };
    let support = f64::from(filter_support(Filter::Bilinear)) * filterscale;
    let reach = support.ceil() as usize;
    let mut rows = Vec::new();
    if plan_table(in_size, out_size, reach).is_ok() {
        for xx in 0..out_size {
            let center = (xx as f64 + 0.5) * scale;
            let lo = (center - support + 0.5).floor();
            let hi = (center + support + 0.5).floor();
            let start = if lo < 0.0 { 0 } else { lo as usize };
            let end = if hi < 0.0 { 0 } else { hi as usize };
            let n = end.min(in_size).saturating_sub(start);
            let raw: Vec<f64> = (0..n)
                .map(|i| {
                    let x = (start as f64 + i as f64 - center + 0.5) * (1.0 / filterscale);
                    if x.abs() < 1.0 {
                        1.0 - x.abs()
                    } else {
                        0.0
                    }
                })
                .collect();
            let sum: f64 = raw.iter().sum();
            let taps = raw
                .iter()
                .map(|w| ((w / sum) * f64::from(1i32 << PRECISION_BITS)).round() as i32)
                .collect();
            rows.push(TapRow { start, end, taps });
        }
    }
    AxisTaps { support: reach, rows }
}

fn bilinear(sw: u32, sh: u32, dw: u32, dh: u32) -> Kernel {
    Kernel::Convolution {
        horizontal: axis_taps(sw as usize, dw as usize),
        vertical: axis_taps(sh as usize, dh as usize),
    }
}

/// What each byte of each channel becomes.
fn norm_table(mean: [f32; 3], std: [f32; 3]) -> NormTable<f32> {
    let channel = |c: usize| -> Vec<f32> {
        let (scale, bias) = ((1.0 / 255.0) / std[c], -mean[c] / std[c]);
        (0..=255u8).map(|b| f32::from(b) * scale + bias).collect()
    };
    NormTable::new(channel(0), channel(1), channel(2), 0.0).unwrap()
}

fn siglip_table() -> NormTable<f32> {
    norm_table([0.5; 3], [0.5; 3])
}

// A small checkpoint.

const VLAYERS: usize = 2;
const VPATCH: usize = 2;
const VNUM_PATCHES: usize = 4;
const FACTOR: usize = 2;
const IMG: i32 = 7;
const VOCAB: usize = 32;
const TLAYERS: usize = 2;

/// The widths of a checkpoint.
#[derive(Clone, Copy)]
struct Widths {
    vision: usize,
    inter: usize,
    patch: usize,
    projector: usize,
    text: usize,
    ff: usize,
}

const TINY: Widths = Widths { vision: 8, inter: 16, patch: VPATCH, projector: 16, text: 4, ff: 8 };

const WIDE: Widths = Widths { vision: 32, inter: 32, patch: 4, projector: 32, text: 32, ff: 32 };

fn mat(rows: usize, cols: usize) -> Array<f32> {
    let data = (0..rows * cols).map(|n| ((n % 7) as f32) * 0.01 + 0.001).collect();
    array(data, &[rows, cols])
}

fn vec1(n: usize) -> Array<f32> {
    let data = (0..n).map(|i| 0.01 + (i % 5) as f32 * 0.005).collect();
    array(data, &[n])
}

fn config_json(w: Widths) -> String {
    let Widths { vision, inter, patch, projector, text, .. } = w;
    let image = 2 * patch;
    format!(
        r#"{{
          "model_type": "lfm2-vl",
          "downsample_factor": {FACTOR},
          "image_token_index": {IMG},
          "projector_hidden_size": {projector},
          "projector_use_layernorm": true,
          "projector_bias": true,
          "vision_feature_layer": -1,
          "text_config": {{
            "model_type": "lfm2", "hidden_size": {text}, "vocab_size": {VOCAB}
          }},
          "vision_config": {{
            "model_type": "lfm2_vl",
            "hidden_size": {vision},
            "intermediate_size": {inter},
            "num_hidden_layers": {VLAYERS},
            "num_attention_heads": 2,
            "num_channels": 3,
            "image_size": {image},
            "patch_size": {patch},
            "num_patches": {VNUM_PATCHES},
            "layer_norm_eps": 1e-6
          }}
        }}"#
    )
}

fn config(w: Widths) -> ModelConfig {
    let cfg = model_of(&config_json(w));
    cfg.validate(Ok(())).unwrap();
    cfg
}

fn put(weights: &mut WeightMap<Array<f32>>, key: &str, weight: Array<f32>) {
    weights.insert_unique(key.to_string(), weight, "test").unwrap();
}

fn insert_vision(w: &mut WeightMap<Array<f32>>, s: Widths) {
    let pfx = "vision_tower";
    let feat = s.patch * s.patch * 3;
    put(w, &format!("{pfx}.embeddings.patch_embedding.weight"), mat(s.vision, feat));
    put(w, &format!("{pfx}.embeddings.patch_embedding.bias"), vec1(s.vision));
    put(w, &format!("{pfx}.embeddings.position_embedding.weight"), mat(VNUM_PATCHES, s.vision));
    for i in 0..VLAYERS {
        let lp = format!("{pfx}.encoder.layers.{i}");
        for p in ["q_proj", "k_proj", "v_proj", "out_proj"] {
            put(w, &format!("{lp}.self_attn.{p}.weight"), mat(s.vision, s.vision));
            put(w, &format!("{lp}.self_attn.{p}.bias"), vec1(s.vision));
        }
        put(w, &format!("{lp}.mlp.fc1.weight"), mat(s.inter, s.vision));
        put(w, &format!("{lp}.mlp.fc1.bias"), vec1(s.inter));
        put(w, &format!("{lp}.mlp.fc2.weight"), mat(s.vision, s.inter));
        put(w, &format!("{lp}.mlp.fc2.bias"), vec1(s.vision));
        for ln in ["layer_norm1", "layer_norm2"] {
            put(w, &format!("{lp}.{ln}.weight"), vec1(s.vision));
            put(w, &format!("{lp}.{ln}.bias"), vec1(s.vision));
        }
    }
    put(w, &format!("{pfx}.post_layernorm.weight"), vec1(s.vision));
    put(w, &format!("{pfx}.post_layernorm.bias"), vec1(s.vision));
}

fn insert_projector(w: &mut WeightMap<Array<f32>>, s: Widths) {
    let pfx = "multi_modal_projector";
    let inputs = s.vision * FACTOR * FACTOR;
    put(w, &format!("{pfx}.layer_norm.weight"), vec1(inputs));
    put(w, &format!("{pfx}.layer_norm.bias"), vec1(inputs));
    put(w, &format!("{pfx}.linear_1.weight"), mat(s.projector, inputs));
    put(w, &format!("{pfx}.linear_1.bias"), vec1(s.projector));
    put(w, &format!("{pfx}.linear_2.weight"), mat(s.text, s.projector));
    put(w, &format!("{pfx}.linear_2.bias"), vec1(s.text));
}

fn insert_language_model(w: &mut WeightMap<Array<f32>>, s: Widths) {
    let pfx = "language_model.model";
    put(w, &format!("{pfx}.embed_tokens.weight"), mat(VOCAB, s.text));
    put(w, &format!("{pfx}.embedding_norm.weight"), vec1(s.text));
    for i in 0..TLAYERS {
        let lp = format!("{pfx}.layers.{i}");
        put(w, &format!("{lp}.operator_norm.weight"), vec1(s.text));
        put(w, &format!("{lp}.ffn_norm.weight"), vec1(s.text));
        put(w, &format!("{lp}.feed_forward.w1.weight"), mat(s.ff, s.text));
        put(w, &format!("{lp}.feed_forward.w3.weight"), mat(s.ff, s.text));
        put(w, &format!("{lp}.feed_forward.w2.weight"), mat(s.text, s.ff));
        let taps = array(mat(s.text, 3).into_data(), &[s.text, 3, 1]);
        put(w, &format!("{lp}.conv.conv.weight"), taps);
        put(w, &format!("{lp}.conv.in_proj.weight"), mat(3 * s.text, s.text));
        put(w, &format!("{lp}.conv.out_proj.weight"), mat(s.text, s.text));
    }
}

fn dense_weights(s: Widths) -> WeightMap<Array<f32>> {
    let mut w = WeightMap::new();
    insert_vision(&mut w, s);
    insert_projector(&mut w, s);
    insert_language_model(&mut w, s);
    w
}

/// A decoder that scores a token by its embedding.
#[derive(Debug)]
struct Decoder {
    table: Array<f32>,
}

impl Decoder {
    fn of(weights: &mut WeightMap<Array<f32>>) -> Result<Self, Error> {
        let table = weights.take_weight("decoder", "model.embed_tokens.weight")?;
        Ok(Decoder { table })
    }

    fn logits(&self, embeddings: &Array<f32>) -> Array<f32> {
        let width = *embeddings.shape().last().unwrap();
        let mut data = Vec::new();
        for row in embeddings.data().chunks(width) {
            for token in self.table.data().chunks(width) {
                data.push(row.iter().zip(token).map(|(a, b)| a * b).sum());
            }
        }
        let mut shape = embeddings.shape().clone();
        *shape.last_mut().unwrap() = self.table.shape()[0];
        array(data, &shape)
    }
}

type Model = Lfm2Vl<Array<f32>, Decoder>;

fn build(
    config: ModelConfig,
    weights: WeightMap<Array<f32>>,
    schemes: &Schemes,
) -> Result<Model, Error> {
    let mut parts = Lfm2VlParts::from_weights(config, Ok(()), weights, schemes)?;
    let decoder = Decoder::of(&mut parts.language_weights)?;
    Lfm2Vl::from_parts(parts, decoder)
}

fn dense() -> Schemes {
    Schemes { default: false, layers: WeightMap::new() }
}

fn dense_model() -> Model {
    build(config(TINY), dense_weights(TINY), &dense()).unwrap()
}

fn projected(model: &Model, x: &Array<f32>) -> Array<f32> {
    let projector = &model.multi_modal_projector;
    let normed = match &projector.layer_norm {
        Some(norm) => normalised(x, norm, 1e-5),
        None => array(x.data().clone(), x.shape()),
    };
    let inner = applied(&normed, &projector.linear_1);
    let active = inner.data().iter().map(|v| gelu(*v)).collect();
    applied(&array(active, inner.shape()), &projector.linear_2)
}

/// The features of an image.
fn encode(model: &Model, image: &Lfm2VlImageInputs<f32>) -> Result<Array<f32>, Error> {
    let (rows, cols) = image.grid()?;
    let pixels = with_batch_axis(array(image.pixel_values.data().clone(), image.pixel_values.shape()));
    let mask = with_batch_axis(array(
        image.pixel_attention_mask.data().clone(),
        image.pixel_attention_mask.shape(),
    ));
    let shapes = array(vec![rows, cols], &[1, 2]);
    let hidden = run(&model.vision_tower, 1e-6, &pixels, &shapes, Some(&mask))?;
    let folded = model.fold_patches(&hidden, image, 0.0)?;
    flatten_features(projected(model, &folded))
}

fn embed_tokens(model: &Model, ids: &Array<i32>) -> Result<Array<f32>, Error> {
    model.language_model.embed_tokens(ids, &model.language_model.inner().table)
}

fn embeddings(
    model: &Model,
    ids: &Array<i32>,
    images: &[Lfm2VlImageInputs<f32>],
) -> Result<Array<f32>, Error> {
    let text = embed_tokens(model, ids)?;
    let features = images.iter().map(|image| encode(model, image)).collect::<Result<_, _>>()?;
    model.get_input_embeddings(text, ids, &features)
}

fn forward_multimodal(
    model: &Model,
    ids: &Array<i32>,
    images: &[Lfm2VlImageInputs<f32>],
) -> Result<Array<f32>, Error> {
    let merged = embeddings(model, ids, images)?;
    model.language_model.check_embeddings(&merged)?;
    Ok(model.language_model.inner().logits(&merged))
}

fn image(rows: i32, cols: i32, num_patches: usize, active: usize) -> Lfm2VlImageInputs<f32> {
    let mask = (0..num_patches).map(|i| i32::from(i < active)).collect();
    Lfm2VlImageInputs::from_parts(
        mat(num_patches, TINY.patch * TINY.patch * 3),
        array(mask, &[num_patches]),
        array(vec![rows, cols], &[2]),
    )
}

fn synth_image(side: i32) -> Lfm2VlImageInputs<f32> {
    let n = (side * side) as usize;
    image(side, side, n, n)
}

fn ids(data: &[i32], b: usize, t: usize) -> Array<i32> {
    array(data.to_vec(), &[b, t])
}

// Construction.

#[test]
fn from_weights_consumes_all_and_builds() {
    let model = dense_model();
    assert_eq!(model.vision_tower.layers.len(), VLAYERS);
    assert_eq!(*model.language_model.inner().table.shape(), vec![VOCAB, TINY.text]);
    assert_eq!(model.config().image_token_index, IMG);
}

#[test]
fn from_weights_leftover_weight_is_typed_error() {
    let mut w = dense_weights(TINY);
    put(&mut w, "vision_tower.bogus.weight", vec1(TINY.vision));
    let err = build(config(TINY), w, &dense()).unwrap_err();
    assert!(matches!(err, Error::InvariantViolation(_)), "got {err:?}");
}

#[test]
fn configurations_are_refused_before_the_weights_are_read() {
    let mut cfg = config(TINY);
    cfg.downsample_factor = 0;
    let err = Lfm2VlParts::from_weights(cfg, Ok(()), dense_weights(TINY), &dense()).unwrap_err();
    assert!(matches!(err, Error::OutOfRange(_)), "got {err:?}");
    let text = Err(Error::OutOfMemory);
    let r = Lfm2VlParts::from_weights(config(TINY), text, dense_weights(TINY), &dense());
    assert!(matches!(r, Err(Error::OutOfMemory)));
}

#[test]
fn parts_are_taken_in_given_buffers() {
    let w = dense_weights(TINY);
    let buffers = PartBuffers::reserve(w.len(), VLAYERS).unwrap();
    let parts = Lfm2VlParts::take(config(TINY), w, &dense(), buffers).unwrap();
    assert_eq!(parts.vision_tower.layers.len(), VLAYERS);
    assert!(parts.unclaimed.is_empty());
    let none = PartBuffers::reserve(0, VLAYERS).unwrap();
    let w: WeightMap<Array<f32>> = WeightMap::new();
    let err = Lfm2VlParts::take(config(TINY), w, &dense(), none).unwrap_err();
    assert!(matches!(err, Error::MissingKey(_)), "got {err:?}");
}

#[test]
fn a_factor_of_one_folds_nothing() {
    let mut cfg = config(TINY);
    cfg.downsample_factor = 1;
    let parts = Lfm2VlParts::from_weights(cfg, Ok(()), dense_weights(TINY), &dense()).unwrap();
    assert!(matches!(parts.pixel_unshuffle, PixelUnshuffle::Identity));
    // What is not folded may have any shape.
    let flat = array(vec![1.0f32, 2.0], &[2]);
    assert_eq!(*parts.pixel_unshuffle.forward(flat, 0.0).unwrap().shape(), vec![2]);
    let parts =
        Lfm2VlParts::from_weights(config(TINY), Ok(()), dense_weights(TINY), &dense()).unwrap();
    assert!(matches!(parts.pixel_unshuffle, PixelUnshuffle::Block(_)));
}

#[test]
fn patches_are_refused_before_they_are_folded() {
    let model = dense_model();
    let hidden = mat(4, TINY.vision);
    let err = model.fold_patches(&hidden, &image(2, 2, 4, 4), 0.0).unwrap_err();
    assert!(matches!(err, Error::RankMismatch(_)), "got {err:?}");
    let hidden = with_batch_axis(hidden);
    let err = model.fold_patches(&hidden, &image(3, 2, 4, 4), 0.0).unwrap_err();
    assert!(matches!(err, Error::OutOfRange(_)), "got {err:?}");
    let empty = array(Vec::<f32>::new(), &[1, 4, 0]);
    let folded = model.fold_patches(&empty, &image(2, 2, 4, 4), 0.0).unwrap();
    assert!(folded.data().is_empty());
}

#[test]
fn unclaimed_weights_of_the_model_are_refused_last() {
    let mut w = dense_weights(TINY);
    put(&mut w, "somewhere.else", vec1(1));
    let mut parts = Lfm2VlParts::from_weights(config(TINY), Ok(()), w, &dense()).unwrap();
    assert!(parts.unclaimed.contains_key("somewhere.else"));
    let decoder = Decoder::of(&mut parts.language_weights).unwrap();
    let err = Lfm2Vl::from_parts(parts, decoder).unwrap_err();
    assert!(matches!(err, Error::InvariantViolation(_)), "got {err:?}");
}

#[test]
fn from_weights_missing_weight_is_typed_error() {
    let mut w = dense_weights(TINY);
    w.remove("multi_modal_projector.linear_1.weight");
    let err = build(config(TINY), w, &dense()).unwrap_err();
    assert!(matches!(err, Error::MissingKey(_)), "got {err:?}");
}

// Encoding an image.

#[test]
fn encode_image_inputs_shape() {
    let model = dense_model();
    let feats = encode(&model, &synth_image(4)).unwrap();
    assert_eq!(*feats.shape(), vec![4, TINY.text]);
    assert!(feats.data().iter().all(|v| v.is_finite()));
}

#[test]
fn grid_is_read_from_spatial_shapes_single_source() {
    assert_eq!(image(2, 1, 2, 2).grid().unwrap(), (2, 1));
    assert_eq!(image(4, 1, 4, 4).grid().unwrap(), (4, 1));
}

#[test]
fn grid_rejects_non_2_spatial_shapes() {
    let inputs = Lfm2VlImageInputs::from_parts(
        mat(3, 12),
        array(vec![1; 3], &[3]),
        array(vec![2, 1, 3], &[3]),
    );
    let err = inputs.grid().unwrap_err();
    assert!(matches!(err, Error::RankMismatch(_)), "got {err:?}");
}

#[test]
fn encode_image_inputs_slice_and_unshuffle_follow_spatial_shapes() {
    let model = dense_model();
    let n = VNUM_PATCHES;
    let feats_4x1 = encode(&model, &image(4, 1, n, n)).unwrap();
    assert_eq!(*feats_4x1.shape(), vec![2, TINY.text]);
    let feats_2x2 = encode(&model, &image(2, 2, n, n)).unwrap();
    assert_eq!(*feats_2x2.shape(), vec![1, TINY.text]);
    for f in [feats_4x1, feats_2x2] {
        assert!(f.data().iter().all(|v| v.is_finite()));
    }
}

#[test]
fn encode_image_inputs_below_budget_grid_slices_active_rows() {
    let model = dense_model();
    let feats = encode(&model, &image(2, 1, VNUM_PATCHES, 2)).unwrap();
    assert_eq!(*feats.shape(), vec![1, TINY.text]);
    assert!(feats.data().iter().all(|v| v.is_finite()));
}

// The prompt.

#[test]
fn forward_multimodal_produces_expected_logits_shape() {
    let model = dense_model();
    let input_ids = ids(&[1, IMG, IMG, IMG, IMG, 2], 1, 6);
    let logits = forward_multimodal(&model, &input_ids, &[synth_image(4)]).unwrap();
    assert_eq!(*logits.shape(), vec![1, 6, VOCAB]);
    assert!(logits.data().iter().all(|v| v.is_finite()));
}

#[test]
fn get_input_embeddings_merges_image_features() {
    let model = dense_model();
    let input_ids = ids(&[1, IMG, IMG, IMG, IMG, 2], 1, 6);
    let merged = embeddings(&model, &input_ids, &[synth_image(4)]).unwrap();
    assert_eq!(*merged.shape(), vec![1, 6, TINY.text]);
    let feats = encode(&model, &synth_image(4)).unwrap();
    let text = embed_tokens(&model, &input_ids).unwrap();
    let d = TINY.text;
    for k in 0..d {
        assert!((merged.data()[k] - text.data()[k]).abs() < 1e-5, "text pos 0 chan {k}");
    }
    for (row, pos) in (1..5).enumerate() {
        for k in 0..d {
            let (m, f) = (merged.data()[pos * d + k], feats.data()[row * d + k]);
            assert!((m - f).abs() < 1e-5, "image pos {pos} (feat row {row}) chan {k}");
        }
    }
}

#[test]
fn forward_multimodal_count_mismatch_is_typed_error() {
    let model = dense_model();
    let input_ids = ids(&[1, IMG, IMG, IMG, IMG, 2], 1, 6);
    let err = forward_multimodal(&model, &input_ids, &[synth_image(6)]).unwrap_err();
    assert!(matches!(err, Error::LengthMismatch(_)), "got {err:?}");
}

#[test]
fn text_only_forward_works() {
    let model = dense_model();
    let input_ids = ids(&[1, 5, 9, 2], 1, 4);
    let logits = forward_multimodal(&model, &input_ids, &[]).unwrap();
    assert_eq!(*logits.shape(), vec![1, 4, VOCAB]);
}

#[test]
fn get_input_embeddings_no_images_is_text_embeds() {
    let model = dense_model();
    let input_ids = ids(&[1, 5, 9], 1, 3);
    let merged = embeddings(&model, &input_ids, &[]).unwrap();
    let text = embed_tokens(&model, &input_ids).unwrap();
    assert_eq!(merged.data(), text.data());
}

#[test]
fn expanded_prompts_take_the_features_of_their_images() {
    // Two images of their own resolutions: the expansion of the prompt leaves as
    // many places as the images have features.
    let model = dense_model();
    let cfg = model.processor_config().unwrap();
    let images = [synth_image(4), image(2, 1, VNUM_PATCHES, 2)];
    let grids: Vec<(i32, i32)> = images.iter().map(|i| i.grid().unwrap()).collect();
    let expanded = expand_image_tokens(&[1, IMG, 3, IMG, 2], &grids, &cfg).unwrap();
    assert_eq!(expanded.len(), 3 + 4 + 1);
    let input_ids = ids(&expanded, 1, expanded.len());
    let merged = embeddings(&model, &input_ids, &images).unwrap();
    assert_eq!(*merged.shape(), vec![1, 8, TINY.text]);
}

// Images that a processor has prepared.

#[test]
fn vlm_trait_encode_image_consumes_processed_image() {
    let model = dense_model();
    let processed = ProcessedImage {
        pixels: mat(16, 12),
        native: Some(NativeResolution {
            spatial_shape: array(vec![4, 4], &[2]),
            patch_mask: array(vec![1; 16], &[16]),
        }),
        num_tokens: 4,
    };
    let inputs = native_inputs(processed).unwrap();
    let feats = encode(&model, &inputs).unwrap();
    assert_eq!(*feats.shape(), vec![4, TINY.text]);
}

#[test]
fn vlm_trait_encode_image_missing_native_errors() {
    let processed = ProcessedImage { pixels: mat(16, 12), native: None, num_tokens: 4 };
    let err = native_inputs(processed).unwrap_err();
    assert!(matches!(err, Error::InvariantViolation(_)), "got {err:?}");
}

#[test]
fn lfm2vl_image_processor_native_count_matches_pixel_unshuffle() {
    let model = dense_model();
    let processor = Lfm2VlImageProcessor::new(model.config());
    let (w, h) = (32u32, 24u32);
    let mut rgb = Vec::new();
    for y in 0..h {
        for x in 0..w {
            rgb.extend([(x % 256) as u8, (y % 256) as u8, 128]);
        }
    }
    let budget = model.config().max_num_patches as usize;
    let p = VPATCH as u32;
    let (rows, cols) = patch_grid(h, w, p, budget as u32);
    let kernel = bilinear(w, h, cols * p, rows * p);
    let processed = processor.process(&rgb, w, h, &kernel, &siglip_table()).unwrap();

    let native = processed.native.as_ref().expect("native-resolution companions present");
    let grid = native.spatial_shape.data();
    assert_eq!(grid.len(), 2, "spatial_shape is [H_p, W_p]");
    let (h_p, w_p) = (grid[0], grid[1]);
    assert_eq!((h_p, w_p), (rows as i32, cols as i32));
    assert_eq!(*native.patch_mask.shape(), vec![budget]);
    assert_eq!(*processed.pixels.shape(), vec![budget, 12]);
    let f = FACTOR as i32;
    let want = ((h_p + f - 1) / f) * ((w_p + f - 1) / f);
    assert_eq!(processed.num_tokens, want as usize);
    assert_eq!(num_image_tokens_from_patch_grid(h_p, w_p, f).unwrap(), want);
    assert!(want > 0, "a real image expands to >= 1 image token");
}

// Quantization.

fn quantize_weight_in_place(w: &mut WeightMap<Array<f32>>, prefix: &str) {
    let dense = w.remove(&format!("{prefix}.weight")).expect("a dense weight");
    let shape = dense.shape().clone();
    let (mut codes, mut scales, mut biases) = (Vec::new(), Vec::new(), Vec::new());
    for group in dense.data().chunks(32) {
        let low = group.iter().copied().fold(f32::INFINITY, f32::min);
        let high = group.iter().copied().fold(f32::NEG_INFINITY, f32::max);
        let scale = ((high - low) / 255.0).max(1e-7);
        codes.extend(group.iter().map(|v| ((v - low) / scale).round()));
        scales.push(scale);
        biases.push(low);
    }
    let groups = [shape[0], shape[1] / 32];
    put(w, &format!("{prefix}.weight"), array(codes, &shape));
    put(w, &format!("{prefix}.scales"), array(scales, &groups));
    put(w, &format!("{prefix}.biases"), array(biases, &groups));
}

#[test]
fn quantized_path_loads_and_forwards() {
    let mut w = dense_weights(WIDE);
    // The patch embedding is 48 wide, no whole number of groups: it stays dense.
    for i in 0..VLAYERS {
        let lp = format!("vision_tower.encoder.layers.{i}");
        for p in ["q_proj", "k_proj", "v_proj", "out_proj"] {
            quantize_weight_in_place(&mut w, &format!("{lp}.self_attn.{p}"));
        }
        quantize_weight_in_place(&mut w, &format!("{lp}.mlp.fc1"));
        quantize_weight_in_place(&mut w, &format!("{lp}.mlp.fc2"));
    }
    quantize_weight_in_place(&mut w, "multi_modal_projector.linear_1");
    quantize_weight_in_place(&mut w, "multi_modal_projector.linear_2");
    let schemes = Schemes { default: true, layers: WeightMap::new() };
    let model = build(config(WIDE), w, &schemes).unwrap();
    assert!(!model.vision_tower.patch_embedding.is_quantized());
    assert!(model.vision_tower.layers[1].mlp.fc2.is_quantized());
    assert!(model.multi_modal_projector.is_quantized());

    let inputs = Lfm2VlImageInputs::from_parts(
        mat(4, 48),
        array(vec![1; 4], &[4]),
        array(vec![2, 2], &[2]),
    );
    let logits = forward_multimodal(&model, &ids(&[1, IMG, 2], 1, 3), &[inputs]).unwrap();
    assert_eq!(*logits.shape(), vec![1, 3, 32]);
    assert!(logits.data().iter().all(|v| v.is_finite()));
}

// The registry and the names of a checkpoint.

#[test]
fn registry_registers_lfm2_vl() {
    let mut reg = VlmTypeRegistry::new();
    assert!(register(&mut reg, "constructor").is_none());
    assert!(reg.contains("lfm2-vl"));
    assert!(reg.contains("lfm2_vl"));
    assert!(!reg.contains("lfm2vl"));
    assert_eq!(register(&mut reg, "another"), Some("constructor"));
    assert_eq!(reg.register("lfm2_vl", "third"), Some("another"));
}

fn pre_sanitize_weights() -> WeightMap<Array<f32>> {
    let mut out = WeightMap::new();
    for (k, v) in dense_weights(TINY).into_entries() {
        let pre = if let Some(rest) = k.strip_prefix("vision_tower.") {
            format!("model.vision_tower.{rest}")
        } else if let Some(rest) = k.strip_prefix("language_model.model.") {
            format!("model.language_model.{rest}")
        } else if let Some(rest) = k.strip_prefix("multi_modal_projector.") {
            format!("model.multi_modal_projector.{rest}")
        } else {
            k
        };
        put(&mut out, &pre, v);
    }
    out
}

#[test]
fn constructor_builds_from_loaded_model() {
    let weights = Lfm2Vl::<Array<f32>, ()>::sanitize(pre_sanitize_weights()).unwrap();
    let model = build(config(TINY), weights, &dense()).unwrap();
    let logits = forward_multimodal(&model, &ids(&[1, 5, 2], 1, 3), &[]).unwrap();
    assert_eq!(*logits.shape(), vec![1, 3, VOCAB]);
}

#[test]
fn keys_lose_what_a_checkpoint_puts_before_them() {
    assert_eq!(
        transform_key("model.language_model.layers.0.conv.conv.weight"),
        "language_model.model.layers.0.conv.conv.weight"
    );
    assert_eq!(
        transform_key("model.vision_tower.vision_model.post_layernorm.bias"),
        "vision_tower.post_layernorm.bias"
    );
    assert_eq!(
        transform_key("model.multi_modal_projector.linear_1.bias"),
        "multi_modal_projector.linear_1.bias"
    );
    assert_eq!(transform_key("elsewhere"), "elsewhere");
}

#[test]
fn two_weights_of_one_name_collide() {
    let mut w = WeightMap::new();
    put(&mut w, "model.vision_tower.a", vec1(1));
    put(&mut w, "vision_tower.a", vec1(1));
    let err = Lfm2Vl::<Array<f32>, ()>::sanitize(w).unwrap_err();
    assert!(matches!(err, Error::KeyCollision(_)), "got {err:?}");
}

// The parts of an encoding.

#[test]
fn a_fold_of_one_changes_nothing() {
    let x = array(vec![1, 2, 3, 4], &[1, 2, 2, 1]);
    let same = PixelUnshuffle::new(1).forward(x, 0).unwrap();
    assert_eq!(*same.data(), vec![1, 2, 3, 4]);
    let folded = PixelUnshuffle::new(2).forward(same, 0).unwrap();
    assert_eq!(*folded.shape(), vec![1, 1, 1, 4]);
}

#[test]
fn the_first_rows_are_the_patches_of_the_image() {
    let hidden = array((0..8).collect::<Vec<i32>>(), &[1, 4, 2]);
    let kept = slice_patches(&hidden, 1, 3).unwrap();
    assert_eq!(*kept.shape(), vec![1, 1, 3, 2]);
    assert_eq!(*kept.data(), vec![0, 1, 2, 3, 4, 5]);
    assert!(slice_patches(&hidden, 2, 3).is_err());
}

#[test]
fn features_of_several_images_follow_one_another() {
    let first = array(vec![1, 2, 3, 4], &[2, 2]);
    let second = array(vec![5, 6], &[1, 2]);
    let joined = join_features(&vec![first, second]).unwrap();
    assert_eq!(*joined.shape(), vec![3, 2]);
    assert_eq!(*joined.data(), vec![1, 2, 3, 4, 5, 6]);
    let narrow = array(vec![1], &[1, 1]);
    let wide = array(vec![1, 2], &[1, 2]);
    assert!(join_features(&vec![narrow, wide]).is_err());
}

#[test]
fn leading_axes_are_flattened() {
    let x = array((0..12).collect::<Vec<i32>>(), &[1, 2, 3, 2]);
    let flat = flatten_features(x).unwrap();
    assert_eq!(*flat.shape(), vec![6, 2]);
}

#[test]
fn the_processor_follows_the_configuration() {
    let model = dense_model();
    let cfg = model.processor_config().unwrap();
    assert_eq!(cfg.image_token(), IMG);
    assert_eq!(cfg.patch_size(), VPATCH as u32);
    assert_eq!(cfg.downsample_factor(), FACTOR as u32);
    assert!(cfg.do_image_splitting());
    assert!(cfg.use_image_special_tokens());
    let processor = Lfm2VlImageProcessor::new(model.config());
    assert!(!processor.cfg.do_image_splitting());
    assert_eq!(nominal_image_size(model.config()), 4);
}

#[test]
fn a_model_splits_images_with_its_own_settings() {
    let model = dense_model();
    let cfg = model.processor_config().unwrap();
    let (w, h) = (256u32, 256u32);
    let rgb: Vec<u8> = (0..w * h * 3).map(|i| (i % 256) as u8).collect();
    let side = |n: i64| Quotients { height: Some(n), width: Some(n) };
    let differences = target_ratios(2, 10)
        .unwrap()
        .into_iter()
        .map(|(gw, gh)| (1.0 - f64::from(gw) / f64::from(gh)).abs().to_bits())
        .collect();
    let numbers = TileNumbers { shrunk: side(16), grown: side(8), differences };
    let plan = plan_tiles(h, w, &cfg, &numbers).unwrap();
    assert!(!plan.is_split());
    let thumb = bilinear(w, h, plan.thumb_width, plan.thumb_height);
    let target = bilinear(w, h, plan.target_width, plan.target_height);
    let tiles =
        model.split_image(&rgb, w, h, &numbers, &target, &thumb, &siglip_table()).unwrap();
    assert_eq!(tiles.len(), 1);
    assert_eq!(tiles[0].grid().unwrap(), (16, 16));
}
