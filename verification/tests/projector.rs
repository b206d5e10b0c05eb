//! Folding patches into tokens, loading and running the projector, and placing
//! image features in a prompt.

use mlxrs::array::Array;
use mlxrs::error::Error;
use mlxrs::model_validation::Single;
use mlxrs::vlm::models::lfm2_vl::config::{
    ModelConfig, RawModelConfig, RawVisionConfig, TextConfig, VisionConfig,
};
use mlxrs::vlm::models::lfm2_vl::layers::{Linear, Norm, Schemes};
use mlxrs::vlm::models::lfm2_vl::projector::{
    dim_i32, merge_input_ids_with_image_features, Lfm2VlMultiModalProjector, PixelUnshuffleBlock,
};
use mlxrs::weights::WeightMap;
use serde_json::Value;

fn integer(document: &Value, key: &str) -> Option<i32> {
    let value = document.get(key)?;
    Some(i32::try_from(value.as_i64().expect("an integer")).expect("an i32"))
}

fn flag(document: &Value, key: &str) -> Option<bool> {
    Some(document.get(key)?.as_bool().expect("a boolean"))
}

fn text(document: &Value, key: &str) -> Option<String> {
    Some(document.get(key)?.as_str().expect("a string").to_string())
}

fn vision_of(document: &Value) -> VisionConfig {
    VisionConfig::from_raw(RawVisionConfig {
        model_type: text(document, "model_type"),
        hidden_size: integer(document, "hidden_size"),
        intermediate_size: integer(document, "intermediate_size"),
        num_hidden_layers: integer(document, "num_hidden_layers"),
        num_attention_heads: integer(document, "num_attention_heads"),
        num_channels: integer(document, "num_channels"),
        image_size: integer(document, "image_size"),
        patch_size: integer(document, "patch_size"),
        num_patches: integer(document, "num_patches"),
        layer_norm_eps: document
            .get("layer_norm_eps")
            .map(|value| value.as_f64().expect("a number").to_bits()),
        hidden_act: text(document, "hidden_act"),
    })
}

fn model_of(json: &str) -> ModelConfig {
    let document: Value = serde_json::from_str(json).expect("a document");
    let text_document = document.get("text_config").expect("a text tower").clone();
    let raw = RawModelConfig {
        text_config: TextConfig {
            hidden_size: integer(&text_document, "hidden_size").expect("a width"),
            vocab_size: integer(&text_document, "vocab_size").expect("a vocabulary"),
        },
        vision_config: vision_of(document.get("vision_config").expect("a vision tower")),
        model_type: text(&document, "model_type"),
        downsample_factor: integer(&document, "downsample_factor"),
        image_token_index: integer(&document, "image_token_index"),
        projector_hidden_size: integer(&document, "projector_hidden_size"),
        projector_use_layernorm: flag(&document, "projector_use_layernorm"),
        projector_bias: flag(&document, "projector_bias"),
        vision_feature_layer: integer(&document, "vision_feature_layer"),
        max_num_patches: integer(&document, "max_num_patches"),
        do_image_splitting: flag(&document, "do_image_splitting"),
        encoder_patch_size: integer(&document, "encoder_patch_size"),
        max_image_tokens: integer(&document, "max_image_tokens"),
        min_image_tokens: integer(&document, "min_image_tokens"),
        max_tiles: integer(&document, "max_tiles"),
        min_tiles: integer(&document, "min_tiles"),
        max_pixels_tolerance: document.get("max_pixels_tolerance").map(|value| {
            Single::from_bits((value.as_f64().expect("a number") as f32).to_bits())
        }),
        tile_size: integer(&document, "tile_size"),
        use_thumbnail: flag(&document, "use_thumbnail"),
        use_image_special_tokens: flag(&document, "use_image_special_tokens"),
        projector_hidden_act: text(&document, "projector_hidden_act"),
        eos_token_id: match document.get("eos_token_id") {
            Some(Value::Null) | None => None,
            Some(_) => integer(&document, "eos_token_id"),
        },
        quantization: document.get("quantization").cloned(),
    };
    ModelConfig::from_raw(raw, &text_document)
}

fn array(data: Vec<f32>, shape: &[usize]) -> Array<f32> {
    Array::from_vec(data, shape.to_vec()).unwrap()
}

fn zeros(shape: &[usize]) -> Array<f32> {
    array(vec![0.0; shape.iter().product()], shape)
}

/// A matrix of small values that differ from one another.
fn mat(rows: usize, cols: usize) -> Array<f32> {
    let data = (0..rows * cols).map(|n| ((n % 7) as f32) * 0.01 + 0.001).collect();
    array(data, &[rows, cols])
}

/// A vector of small values that differ from one another.
fn vec_n(n: usize) -> Array<f32> {
    let data = (0..n).map(|i| 0.01 + (i % 7) as f32 * 0.005).collect();
    array(data, &[n])
}

fn dense() -> Schemes {
    Schemes { default: false, layers: WeightMap::new() }
}

fn put(weights: &mut WeightMap<Array<f32>>, key: &str, weight: Array<f32>) {
    weights.insert_unique(key.to_string(), weight, "test").unwrap();
}

// The arithmetic of the projector on plain numbers.

fn normalised(row: &[f32], norm: &Norm<Array<f32>>) -> Vec<f32> {
    let n = row.len() as f32;
    let mean = row.iter().sum::<f32>() / n;
    let variance = row.iter().map(|v| (v - mean) * (v - mean)).sum::<f32>() / n;
    row.iter()
        .enumerate()
        .map(|(i, v)| {
            (v - mean) / (variance + 1e-5).sqrt() * norm.weight.data()[i] + norm.bias.data()[i]
        })
        .collect()
}

fn entry(layer: &Linear<Array<f32>>, o: usize, i: usize, inputs: usize) -> f32 {
    let packed = layer.weight.data()[o * inputs + i];
    match (&layer.scales, &layer.biases) {
        (Some(scales), Some(biases)) => {
            let group = o * (inputs / 32) + i / 32;
            packed * scales.data()[group] + biases.data()[group]
        }
        _ => packed,
    }
}

fn applied(row: &[f32], layer: &Linear<Array<f32>>) -> Vec<f32> {
    (0..layer.weight.shape()[0])
        .map(|o| {
            let bias = layer.bias.as_ref().map_or(0.0, |b| b.data()[o]);
            let sum: f32 =
                row.iter().enumerate().map(|(i, v)| v * entry(layer, o, i, row.len())).sum();
            sum + bias
        })
        .collect()
}

fn gelu(v: f32) -> f32 {
    0.5 * v * (1.0 + (0.797_884_6 * (v + 0.044715 * v * v * v)).tanh())
}

fn forward(projector: &Lfm2VlMultiModalProjector<Array<f32>>, x: &Array<f32>) -> Array<f32> {
    let width = *x.shape().last().unwrap();
    let mut data = Vec::new();
    for row in x.data().chunks(width) {
        let row = match &projector.layer_norm {
            Some(norm) => normalised(row, norm),
            None => row.to_vec(),
        };
        let hidden: Vec<f32> =
            applied(&row, &projector.linear_1).into_iter().map(gelu).collect();
        data.extend(applied(&hidden, &projector.linear_2));
    }
    let mut shape = x.shape().clone();
    *shape.last_mut().unwrap() = projector.linear_2.weight.shape()[0];
    array(data, &shape)
}

// Folding.

#[test]
fn pixel_unshuffle_even_grid_shape() {
    let block = PixelUnshuffleBlock::new(2).unwrap();
    let x = zeros(&[1, 4, 4, 768]);
    let out = block.forward(&x, 0.0).unwrap();
    assert_eq!(*out.shape(), vec![1, 2, 2, 3072]);
}

#[test]
fn pixel_unshuffle_odd_grid_pads_then_folds() {
    let block = PixelUnshuffleBlock::new(2).unwrap();
    let x = zeros(&[1, 5, 5, 768]);
    let out = block.forward(&x, 0.0).unwrap();
    assert_eq!(*out.shape(), vec![1, 3, 3, 3072]);
}

#[test]
fn pixel_unshuffle_odd_w_only() {
    let block = PixelUnshuffleBlock::new(2).unwrap();
    let x = zeros(&[1, 3, 4, 8]);
    let out = block.forward(&x, 0.0).unwrap();
    assert_eq!(*out.shape(), vec![1, 2, 2, 32]);
}

#[test]
fn pixel_unshuffle_odd_h_only() {
    let block = PixelUnshuffleBlock::new(2).unwrap();
    let x = zeros(&[1, 4, 3, 8]);
    let out = block.forward(&x, 0.0).unwrap();
    assert_eq!(*out.shape(), vec![1, 2, 2, 32]);
}

#[test]
fn pixel_unshuffle_numeric_oracle() {
    let block = PixelUnshuffleBlock::new(2).unwrap();
    let x = array(vec![10.0, 11.0, 12.0, 13.0], &[1, 2, 2, 1]);
    let out = block.forward(&x, 0.0).unwrap();
    assert_eq!(*out.shape(), vec![1, 1, 1, 4]);
    assert_eq!(*out.data(), vec![10.0, 11.0, 12.0, 13.0]);
}

#[test]
fn pixel_unshuffle_pad_zeros_oracle() {
    // Both axes are padded: the one cell is followed by three cells of zeros.
    let block = PixelUnshuffleBlock::new(2).unwrap();
    let x = array(vec![7.0, 9.0], &[1, 1, 1, 2]);
    let out = block.forward(&x, 0.0).unwrap();
    assert_eq!(*out.shape(), vec![1, 1, 1, 8]);
    assert_eq!(*out.data(), vec![7.0, 9.0, 0.0, 0.0, 0.0, 0.0, 0.0, 0.0]);
}

#[test]
fn pixel_unshuffle_rejects_non_rank4() {
    let block = PixelUnshuffleBlock::new(2).unwrap();
    let x = zeros(&[1, 4, 4]);
    let err = block.forward(&x, 0.0).unwrap_err();
    assert!(matches!(err, Error::RankMismatch(_)), "got {err:?}");
}

#[test]
fn pixel_unshuffle_rejects_zero_factor() {
    let err = PixelUnshuffleBlock::new(0).unwrap_err();
    assert!(matches!(err, Error::OutOfRange(_)), "got {err:?}");
}

#[test]
fn pixel_unshuffle_factor_one_is_identity_shape() {
    let block = PixelUnshuffleBlock::new(1).unwrap();
    assert_eq!(block.factor(), 1);
    let x = array(mat(1, 12).into_data(), &[1, 3, 2, 2]);
    let out = block.forward(&x, 0.0).unwrap();
    assert_eq!(*out.shape(), vec![1, 3, 2, 2]);
    assert_eq!(out.data(), x.data());
}

#[test]
fn folding_gathers_each_square_of_cells() {
    // A grid of two by four cells becomes one by two: each output cell holds its
    // four cells, row after row.
    let block = PixelUnshuffleBlock::new(2).unwrap();
    let x = array((0..8).map(|v| v as f32).collect(), &[1, 2, 4, 1]);
    let out = block.forward(&x, 0.0).unwrap();
    assert_eq!(*out.shape(), vec![1, 1, 2, 4]);
    assert_eq!(*out.data(), vec![0.0, 1.0, 4.0, 5.0, 2.0, 3.0, 6.0, 7.0]);
}

#[test]
fn folding_keeps_every_item_of_a_padded_grid() {
    let block = PixelUnshuffleBlock::new(3).unwrap();
    let x = array((1..=10).map(|v| v as f32).collect(), &[1, 2, 5, 1]);
    let out = block.forward(&x, 0.0).unwrap();
    assert_eq!(*out.shape(), vec![1, 1, 2, 9]);
    let mut kept: Vec<f32> = out.data().iter().copied().filter(|v| *v != 0.0).collect();
    kept.sort_by(|a, b| a.partial_cmp(b).unwrap());
    assert_eq!(kept, *x.data());
}

#[test]
fn extents_past_the_integer_range_are_refused() {
    assert!(matches!(dim_i32(i32::MAX as usize + 1, "extent"), Err(Error::OutOfRange(_))));
    assert_eq!(dim_i32(7, "extent").unwrap(), 7);
}

// The projector: its input is 32 wide, a width of 8 folded twice along two axes.

const PROJ_IN: usize = 32;
const PROJ_HIDDEN: usize = 16;
const TEXT_HIDDEN: usize = 4;

fn projector_config(hidden: usize, text: usize, layernorm: bool, bias: bool) -> ModelConfig {
    let json = format!(
        r#"{{
          "model_type": "lfm2-vl",
          "downsample_factor": 2,
          "image_token_index": 396,
          "projector_hidden_size": {hidden},
          "projector_use_layernorm": {layernorm},
          "projector_bias": {bias},
          "vision_feature_layer": -1,
          "text_config": {{ "model_type": "lfm2", "hidden_size": {text}, "vocab_size": 32 }},
          "vision_config": {{
            "model_type": "lfm2_vl",
            "hidden_size": 8,
            "intermediate_size": 16,
            "num_hidden_layers": 2,
            "num_attention_heads": 2,
            "num_channels": 3,
            "image_size": 4,
            "patch_size": 2,
            "num_patches": 4
          }}
        }}"#
    );
    let config = model_of(&json);
    config.validate(Ok(())).unwrap();
    config
}

fn tiny_model_config(layernorm: bool) -> ModelConfig {
    projector_config(PROJ_HIDDEN, TEXT_HIDDEN, layernorm, true)
}

fn projector_dense_weights(layernorm: bool) -> WeightMap<Array<f32>> {
    let mut w = WeightMap::new();
    if layernorm {
        put(&mut w, "layer_norm.weight", vec_n(PROJ_IN));
        put(&mut w, "layer_norm.bias", vec_n(PROJ_IN));
    }
    put(&mut w, "linear_1.weight", mat(PROJ_HIDDEN, PROJ_IN));
    put(&mut w, "linear_1.bias", vec_n(PROJ_HIDDEN));
    put(&mut w, "linear_2.weight", mat(TEXT_HIDDEN, PROJ_HIDDEN));
    put(&mut w, "linear_2.bias", vec_n(TEXT_HIDDEN));
    w
}

fn load(
    config: &ModelConfig,
    weights: &mut WeightMap<Array<f32>>,
    schemes: &Schemes,
) -> Result<Lfm2VlMultiModalProjector<Array<f32>>, Error> {
    Lfm2VlMultiModalProjector::from_weights(config, Ok(()), weights, schemes, "")
}

#[test]
fn projector_shape_with_layernorm() {
    let cfg = tiny_model_config(true);
    let mut w = projector_dense_weights(true);
    let proj = load(&cfg, &mut w, &dense()).unwrap();
    let out = forward(&proj, &mat(5, PROJ_IN));
    assert_eq!(*out.shape(), vec![5, TEXT_HIDDEN]);
    assert!(out.data().iter().all(|v| v.is_finite()));
}

#[test]
fn projector_shape_without_layernorm() {
    let cfg = tiny_model_config(false);
    let mut w = projector_dense_weights(false);
    let proj = load(&cfg, &mut w, &dense()).unwrap();
    let out = forward(&proj, &mat(3, PROJ_IN));
    assert_eq!(*out.shape(), vec![3, TEXT_HIDDEN]);
    assert!(!proj.is_quantized());
}

#[test]
fn projector_missing_layernorm_weight_is_typed_error() {
    let cfg = tiny_model_config(true);
    let mut w = projector_dense_weights(true);
    w.remove("layer_norm.bias");
    let err = load(&cfg, &mut w, &dense()).unwrap_err();
    assert!(matches!(err, Error::MissingKey(_)), "got {err:?}");
}

fn tiny_model_config_bias(bias: bool) -> ModelConfig {
    projector_config(PROJ_HIDDEN, TEXT_HIDDEN, true, bias)
}

fn projector_weights_no_bias() -> WeightMap<Array<f32>> {
    let mut w = WeightMap::new();
    put(&mut w, "layer_norm.weight", vec_n(PROJ_IN));
    put(&mut w, "layer_norm.bias", vec_n(PROJ_IN));
    put(&mut w, "linear_1.weight", mat(PROJ_HIDDEN, PROJ_IN));
    put(&mut w, "linear_2.weight", mat(TEXT_HIDDEN, PROJ_HIDDEN));
    w
}

#[test]
fn projector_bias_true_requires_bias_tensors() {
    let cfg = tiny_model_config_bias(true);
    let mut w = projector_dense_weights(true);
    let proj = load(&cfg, &mut w, &dense()).unwrap();
    let out = forward(&proj, &mat(2, PROJ_IN));
    assert_eq!(*out.shape(), vec![2, TEXT_HIDDEN]);
    assert!(proj.linear_1.bias.is_some() && proj.linear_2.bias.is_some());
}

#[test]
fn projector_bias_true_missing_bias_is_missing_key() {
    let cfg = tiny_model_config_bias(true);
    let mut w = projector_dense_weights(true);
    w.remove("linear_2.bias");
    let err = load(&cfg, &mut w, &dense()).unwrap_err();
    assert!(matches!(err, Error::MissingKey(_)), "got {err:?}");
}

#[test]
fn projector_bias_false_loads_without_biases() {
    let cfg = tiny_model_config_bias(false);
    let mut w = projector_weights_no_bias();
    let proj = load(&cfg, &mut w, &dense()).unwrap();
    let out = forward(&proj, &mat(2, PROJ_IN));
    assert_eq!(*out.shape(), vec![2, TEXT_HIDDEN]);
    assert!(w.is_empty(), "no leftover weights, got {w:?}");
}

#[test]
fn projector_bias_false_stray_bias_is_key_collision() {
    let cfg = tiny_model_config_bias(false);
    let mut w = projector_weights_no_bias();
    put(&mut w, "linear_1.bias", vec_n(PROJ_HIDDEN));
    let err = load(&cfg, &mut w, &dense()).unwrap_err();
    assert!(matches!(err, Error::KeyCollision(_)), "got {err:?}");
}

#[test]
fn projector_3d_input_preserves_leading_dims() {
    let cfg = tiny_model_config(true);
    let mut w = projector_dense_weights(true);
    let proj = load(&cfg, &mut w, &dense()).unwrap();
    let x = array(mat(6, PROJ_IN).into_data(), &[1, 6, PROJ_IN]);
    let out = forward(&proj, &x);
    assert_eq!(*out.shape(), vec![1, 6, TEXT_HIDDEN]);
}

#[test]
fn projector_refuses_what_the_configuration_refuses() {
    let cfg = tiny_model_config(true);
    let mut w = projector_dense_weights(true);
    let text = Err(Error::OutOfMemory);
    let err = Lfm2VlMultiModalProjector::from_weights(&cfg, text, &mut w, &dense(), "")
        .unwrap_err();
    assert!(matches!(err, Error::OutOfMemory), "got {err:?}");
    assert!(w.contains_key("linear_1.weight"), "nothing is taken");
}

#[test]
fn projector_names_its_layers_below_its_tower() {
    let cfg = tiny_model_config(false);
    let mut w = projector_dense_weights(false);
    put(&mut w, "linear_1.scales", vec_n(1));
    put(&mut w, "linear_1.biases", vec_n(1));
    let mut layers = WeightMap::new();
    layers.insert_unique("tower.linear_1".to_string(), true, "test").unwrap();
    let schemes = Schemes { default: false, layers };
    let proj =
        Lfm2VlMultiModalProjector::from_weights(&cfg, Ok(()), &mut w, &schemes, "tower.")
            .unwrap();
    assert!(proj.linear_1.is_quantized());
    assert!(!proj.linear_2.is_quantized());
}

/// Replaces a weight by its codes of eight bits, with a scale and a bias for each
/// group of 32.
fn quantize_weight_in_place(w: &mut WeightMap<Array<f32>>, prefix: &str) {
    let dense = w.remove(&format!("{prefix}.weight")).expect("a dense weight");
    let shape = dense.shape().clone();
    let (mut codes, mut scales, mut biases) = (Vec::new(), Vec::new(), Vec::new());
    for group in dense.data().chunks(32) {
        let low = group.iter().copied().fold(f32::INFINITY, f32::min);
        let high = group.iter().copied().fold(f32::NEG_INFINITY, f32::max);
        let scale = ((high - low) / 255.0).max(1e-7);
        codes.extend(group.iter().map(|v| ((v - low) / scale).round()));
        scales.push(scale);
        biases.push(low);
    }
    let groups = [shape[0], shape[1] / 32];
    put(w, &format!("{prefix}.weight"), array(codes, &shape));
    put(w, &format!("{prefix}.scales"), array(scales, &groups));
    put(w, &format!("{prefix}.biases"), array(biases, &groups));
}

#[test]
fn projector_quantized_loads_and_forwards() {
    let cfg = projector_config(32, 32, true, true);
    let (qin, qhidden, qtext) = (32, 32, 32);
    let mut w = WeightMap::new();
    put(&mut w, "layer_norm.weight", vec_n(qin));
    put(&mut w, "layer_norm.bias", vec_n(qin));
    put(&mut w, "linear_1.weight", mat(qhidden, qin));
    put(&mut w, "linear_1.bias", vec_n(qhidden));
    put(&mut w, "linear_2.weight", mat(qtext, qhidden));
    put(&mut w, "linear_2.bias", vec_n(qtext));
    quantize_weight_in_place(&mut w, "linear_1");
    quantize_weight_in_place(&mut w, "linear_2");

    let schemes = Schemes { default: true, layers: WeightMap::new() };
    let proj = load(&cfg, &mut w, &schemes).unwrap();
    assert!(proj.is_quantized(), "linear_1 must be the quantized variant");
    assert!(w.is_empty());

    let out = forward(&proj, &mat(4, qin));
    assert_eq!(*out.shape(), vec![4, qtext]);
    assert!(out.data().iter().all(|v| v.is_finite()), "the result must be finite");
}

// Placing image features in a prompt.

fn ids(data: &[i32], b: usize, t: usize) -> Array<i32> {
    Array::from_vec(data.to_vec(), vec![b, t]).unwrap()
}

/// Embeddings that name their row and their position.
fn embeds(b: usize, t: usize, d: usize) -> Array<f32> {
    let mut data: Vec<f32> = Vec::with_capacity(b * t * d);
    for bi in 0..b {
        for ti in 0..t {
            for _ in 0..d {
                data.push((bi * 100 + ti) as f32);
            }
        }
    }
    array(data, &[b, t, d])
}

/// Features that name their row, and that no embedding equals.
fn feats(n: usize, d: usize) -> Array<f32> {
    let mut data: Vec<f32> = Vec::with_capacity(n * d);
    for k in 0..n {
        for _ in 0..d {
            data.push((1000 + k) as f32);
        }
    }
    array(data, &[n, d])
}

const IMG: i32 = 396;

#[test]
fn merge_places_features_at_masked_positions() {
    let d = 2usize;
    let input_ids = ids(&[5, IMG, IMG, IMG, 9], 1, 5);
    let out =
        merge_input_ids_with_image_features(&feats(3, d), &embeds(1, 5, d), &input_ids, IMG)
            .unwrap();
    assert_eq!(*out.shape(), vec![1, 5, d]);
    let expected =
        vec![0.0, 0.0, 1000.0, 1000.0, 1001.0, 1001.0, 1002.0, 1002.0, 4.0, 4.0];
    assert_eq!(*out.data(), expected);
}

#[test]
fn merge_handles_non_contiguous_mask() {
    let input_ids = ids(&[IMG, 5, 6, IMG, 9], 1, 5);
    let out = merge_input_ids_with_image_features(&feats(2, 1), &embeds(1, 5, 1), &input_ids, IMG)
        .unwrap();
    assert_eq!(*out.data(), vec![1000.0, 1.0, 2.0, 1001.0, 4.0]);
}

#[test]
fn merge_multi_batch_row_major_order() {
    let input_ids = ids(&[5, IMG, IMG, 9], 2, 2);
    let out = merge_input_ids_with_image_features(&feats(2, 1), &embeds(2, 2, 1), &input_ids, IMG)
        .unwrap();
    assert_eq!(*out.data(), vec![0.0, 1000.0, 1001.0, 101.0]);
}

#[test]
fn merge_count_mismatch_is_typed_error() {
    let input_ids = ids(&[IMG, IMG, 9], 1, 3);
    let err = merge_input_ids_with_image_features(&feats(3, 2), &embeds(1, 3, 2), &input_ids, IMG)
        .unwrap_err();
    assert!(matches!(err, Error::LengthMismatch(_)), "got {err:?}");
}

#[test]
fn merge_count_mismatch_too_few_features() {
    let input_ids = ids(&[IMG, IMG, IMG], 1, 3);
    let err = merge_input_ids_with_image_features(&feats(2, 2), &embeds(1, 3, 2), &input_ids, IMG)
        .unwrap_err();
    assert!(matches!(err, Error::LengthMismatch(_)), "got {err:?}");
}

#[test]
fn merge_no_image_tokens_returns_embeds_unchanged() {
    let input_ids = ids(&[5, 6, 7], 1, 3);
    let inputs_embeds = embeds(1, 3, 2);
    let out =
        merge_input_ids_with_image_features(&feats(0, 2), &inputs_embeds, &input_ids, IMG)
            .unwrap();
    assert_eq!(out.data(), inputs_embeds.data());
}

#[test]
fn merge_rejects_rank2_embeds() {
    let input_ids = ids(&[IMG], 1, 1);
    let err = merge_input_ids_with_image_features(&feats(1, 2), &mat(1, 2), &input_ids, IMG)
        .unwrap_err();
    assert!(matches!(err, Error::RankMismatch(_)), "got {err:?}");
}

#[test]
fn merge_rejects_rank1_input_ids() {
    let bad_ids = Array::from_vec(vec![IMG], vec![1]).unwrap();
    let err = merge_input_ids_with_image_features(&feats(1, 2), &embeds(1, 1, 2), &bad_ids, IMG)
        .unwrap_err();
    assert!(matches!(err, Error::RankMismatch(_)), "got {err:?}");
}

#[test]
fn merge_rejects_hidden_width_mismatch() {
    let input_ids = ids(&[IMG, 9], 1, 2);
    let err = merge_input_ids_with_image_features(&feats(1, 3), &embeds(1, 2, 2), &input_ids, IMG)
        .unwrap_err();
    assert!(matches!(err, Error::LengthMismatch(_)), "got {err:?}");
}

#[test]
fn merge_rejects_bt_mismatch() {
    let input_ids = ids(&[IMG, 9], 1, 2);
    let err = merge_input_ids_with_image_features(&feats(1, 2), &embeds(1, 3, 2), &input_ids, IMG)
        .unwrap_err();
    assert!(matches!(err, Error::LengthMismatch(_)), "got {err:?}");
}

#[test]
fn nothing_folds_and_merges_to_nothing() {
    let block = PixelUnshuffleBlock::new(2).unwrap();
    assert_eq!(*block.forward(&zeros(&[0, 4, 4, 8]), 0.0).unwrap().shape(), vec![0, 2, 2, 32]);
    assert_eq!(*block.forward(&zeros(&[1, 4, 4, 0]), 0.0).unwrap().shape(), vec![1, 2, 2, 0]);
    let out =
        merge_input_ids_with_image_features(&feats(0, 2), &zeros(&[1, 0, 2]), &ids(&[], 1, 0), IMG)
            .unwrap();
    assert_eq!(*out.shape(), vec![1, 0, 2]);
}
