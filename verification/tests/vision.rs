//! The vision tower: loading it, and running it on plain numbers over the plans
//! that the library makes.

use mlxrs::array::Array;
use mlxrs::error::Error;
use mlxrs::vlm::models::lfm2_vl::config::{RawVisionConfig, VisionConfig};
use mlxrs::vlm::models::lfm2_vl::layers::{Linear, Norm, Schemes};
use mlxrs::vlm::models::lfm2_vl::vision::{
    build_attention_mask, join_heads, join_positions, plan_forward, position_grid, split_heads,
    validate_active_grid, LayerDims, VisionModel,
};
use mlxrs::weights::WeightMap;

fn array<T>(data: Vec<T>, shape: &[usize]) -> Array<T> {
    match Array::from_vec(data, shape.to_vec()) {
        Ok(array) => array,
        Err(e) => panic!("{e:?}"),
    }
}

/// A number of some precision.
trait Real: Copy {
    fn of(value: f32) -> Self;
    fn get(self) -> f32;
}

impl Real for f32 {
    fn of(value: f32) -> Self {
        value
    }
    fn get(self) -> f32 {
        self
    }
}

/// The upper half of a single-precision number.
#[derive(Debug, Clone, Copy, PartialEq)]
struct Bf16(u16);

impl Real for Bf16 {
    fn of(value: f32) -> Self {
        Bf16((value.to_bits() >> 16) as u16)
    }
    fn get(self) -> f32 {
        f32::from_bits(u32::from(self.0) << 16)
    }
}

/// A number of half precision: a sign, five bits of exponent, ten of fraction.
#[derive(Debug, Clone, Copy, PartialEq)]
struct F16(u16);

impl Real for F16 {
    fn of(value: f32) -> Self {
        let bits = value.to_bits();
        let sign = ((bits >> 16) & 0x8000) as u16;
        let exponent = ((bits >> 23) & 0xff) as i32 - 127 + 15;
        if exponent >= 31 {
            F16(sign | 0x7c00)
        } else if exponent <= 0 {
            F16(sign)
        } else {
            F16(sign | ((exponent as u16) << 10) | ((bits >> 13) & 0x3ff) as u16)
        }
    }
    fn get(self) -> f32 {
        let sign = if self.0 & 0x8000 != 0 { -1.0 } else { 1.0 };
        let exponent = i32::from((self.0 >> 10) & 0x1f);
        let fraction = f32::from(self.0 & 0x3ff) / 1024.0;
        match exponent {
            0 => sign * fraction * 2f32.powi(-14),
            31 => sign * f32::INFINITY,
            _ => sign * (1.0 + fraction) * 2f32.powi(exponent - 15),
        }
    }
}

fn normalised<T: Real>(x: &Array<T>, norm: &Norm<Array<T>>, eps: f32) -> Array<T> {
    let width = *x.shape().last().unwrap();
    let mut data = Vec::new();
    for row in x.data().chunks(width) {
        let mean = row.iter().map(|v| v.get()).sum::<f32>() / width as f32;
        let variance =
            row.iter().map(|v| (v.get() - mean) * (v.get() - mean)).sum::<f32>() / width as f32;
        for (i, v) in row.iter().enumerate() {
            let unit = (v.get() - mean) / (variance + eps).sqrt();
            data.push(T::of(unit * norm.weight.data()[i].get() + norm.bias.data()[i].get()));
        }
    }
    array(data, x.shape())
}

fn entry<T: Real>(layer: &Linear<Array<T>>, o: usize, i: usize, inputs: usize) -> f32 {
    let code = layer.weight.data()[o * inputs + i].get();
    match (&layer.scales, &layer.biases) {
        (Some(scales), Some(biases)) => {
            let group = o * (inputs / 32) + i / 32;
            code * scales.data()[group].get() + biases.data()[group].get()
        }
        _ => code,
    }
}

fn applied<T: Real>(x: &Array<T>, layer: &Linear<Array<T>>) -> Array<T> {
    let width = *x.shape().last().unwrap();
    let outputs = layer.weight.shape()[0];
    let mut data = Vec::new();
    for row in x.data().chunks(width) {
        for o in 0..outputs {
            let mut sum = layer.bias.as_ref().map_or(0.0, |b| b.data()[o].get());
            for (i, v) in row.iter().enumerate() {
                sum += v.get() * entry(layer, o, i, width);
            }
            data.push(T::of(sum));
        }
    }
    let mut shape = x.shape().clone();
    *shape.last_mut().unwrap() = outputs;
    array(data, &shape)
}

fn gelu(v: f32) -> f32 {
    0.5 * v * (1.0 + (0.797_884_6 * (v + 0.044715 * v * v * v)).tanh())
}

fn sum<T: Real>(a: &Array<T>, b: &Array<T>) -> Array<T> {
    let data = a.data().iter().zip(b.data()).map(|(x, y)| T::of(x.get() + y.get())).collect();
    array(data, a.shape())
}

fn attended<T: Real>(
    q: &Array<T>,
    k: &Array<T>,
    v: &Array<T>,
    mask: Option<&Array<T>>,
) -> Array<T> {
    let (n, heads, len, dim) = (q.shape()[0], q.shape()[1], q.shape()[2], q.shape()[3]);
    let scale = 1.0 / (dim as f32).sqrt();
    let mut data = Vec::new();
    for b in 0..n {
        for h in 0..heads {
            let base = (b * heads + h) * len;
            for i in 0..len {
                let scores: Vec<f32> = (0..len)
                    .map(|j| {
                        let dot: f32 = (0..dim)
                            .map(|d| {
                                q.data()[(base + i) * dim + d].get()
                                    * k.data()[(base + j) * dim + d].get()
                            })
                            .sum();
                        dot * scale + mask.map_or(0.0, |m| m.data()[b * len + j].get())
                    })
                    .collect();
                let top = scores.iter().copied().fold(f32::NEG_INFINITY, f32::max);
                let weights: Vec<f32> = scores.iter().map(|s| (s - top).exp()).collect();
                let total: f32 = weights.iter().sum();
                for d in 0..dim {
                    let value: f32 = (0..len)
                        .map(|j| weights[j] / total * v.data()[(base + j) * dim + d].get())
                        .sum();
                    data.push(T::of(value));
                }
            }
        }
    }
    array(data, q.shape())
}

fn cubic(x: f32) -> f32 {
    let x = x.abs();
    if x < 1.0 {
        (1.25 * x - 2.25) * x * x + 1.0
    } else if x < 2.0 {
        ((-0.75 * x + 3.75) * x - 6.0) * x + 3.0
    } else {
        0.0
    }
}

/// Resamples each plane of a `(1, channels, side, side)` array.
fn resampled<T: Real>(planes: &Array<T>, rows: usize, cols: usize) -> Array<T> {
    let (channels, height, width) = (planes.shape()[1], planes.shape()[2], planes.shape()[3]);
    let at = |c: usize, y: i64, x: i64| -> f32 {
        let y = y.clamp(0, height as i64 - 1) as usize;
        let x = x.clamp(0, width as i64 - 1) as usize;
        planes.data()[(c * height + y) * width + x].get()
    };
    let mut data = Vec::new();
    for c in 0..channels {
        for r in 0..rows {
            let y = (r as f32 + 0.5) * height as f32 / rows as f32 - 0.5;
            for q in 0..cols {
                let x = (q as f32 + 0.5) * width as f32 / cols as f32 - 0.5;
                let mut value = 0.0;
                for dy in -1..=2i64 {
                    for dx in -1..=2i64 {
                        let (iy, ix) = (y.floor() as i64 + dy, x.floor() as i64 + dx);
                        value += at(c, iy, ix) * cubic(y - iy as f32) * cubic(x - ix as f32);
                    }
                }
                data.push(T::of(value));
            }
        }
    }
    array(data, &[1, channels, rows, cols])
}

/// The output of the tower for a batch of images.
fn run<T: Real, M>(
    tower: &VisionModel<Array<T>>,
    eps: f32,
    pixel_values: &Array<f32>,
    spatial_shapes: &Array<i32>,
    pixel_attention_mask: Option<&Array<M>>,
) -> Result<Array<T>, Error> {
    let plan = plan_forward(
        pixel_values,
        spatial_shapes,
        pixel_attention_mask,
        T::of(0.0),
        T::of(f32::NEG_INFINITY),
    )?;
    let cast: Vec<T> = pixel_values.data().iter().map(|v| T::of(*v)).collect();
    let patches = applied(&array(cast, pixel_values.shape()), &tower.patch_embedding);
    let planes = position_grid(&tower.position_embedding, tower.pos_grid_side, tower.hidden)?;
    let resized = plan
        .grids
        .iter()
        .map(|(rows, cols)| resampled(&planes, *rows as usize, *cols as usize))
        .collect();
    let positions = join_positions(&resized, &plan.grids, tower.hidden, plan.num_patches)?;
    let mut x = sum(&patches, &positions);
    for layer in &tower.layers {
        let attention = &layer.self_attn;
        let normed = normalised(&x, &layer.layer_norm1, eps);
        let q = split_heads(&applied(&normed, &attention.q_proj), attention.dims)?;
        let k = split_heads(&applied(&normed, &attention.k_proj), attention.dims)?;
        let v = split_heads(&applied(&normed, &attention.v_proj), attention.dims)?;
        let out = join_heads(&attended(&q, &k, &v, plan.mask.as_ref()), attention.dims)?;
        x = sum(&x, &applied(&out, &attention.out_proj));
        let normed = normalised(&x, &layer.layer_norm2, eps);
        let inner = applied(&normed, &layer.mlp.fc1);
        let active = inner.data().iter().map(|v| T::of(gelu(v.get()))).collect();
        x = sum(&x, &applied(&array(active, inner.shape()), &layer.mlp.fc2));
    }
    Ok(normalised(&x, &tower.post_layernorm, 1e-5))
}

const HIDDEN: usize = 8;
const HEADS: usize = 2;
const LAYERS: i32 = 2;
const PATCH: usize = 2;
const CHANNELS: usize = 3;
const INTER: usize = 16;
const NUM_PATCHES: usize = 4;
const PATCH_FEAT: usize = PATCH * PATCH * CHANNELS;
const EPS: f32 = 1e-6;

fn vision_config(
    hidden: usize,
    inter: usize,
    layers: i32,
    channels: usize,
) -> VisionConfig {
    let cfg = VisionConfig::from_raw(RawVisionConfig {
        model_type: Some("lfm2_vl".to_string()),
        hidden_size: Some(hidden as i32),
        intermediate_size: Some(inter as i32),
        num_hidden_layers: Some(layers),
        num_attention_heads: Some(HEADS as i32),
        num_channels: Some(channels as i32),
        image_size: Some(4),
        patch_size: Some(PATCH as i32),
        num_patches: Some(NUM_PATCHES as i32),
        layer_norm_eps: Some(1e-6f64.to_bits()),
        hidden_act: None,
    });
    cfg.validate().unwrap();
    cfg
}

fn tiny_vision_config() -> VisionConfig {
    vision_config(HIDDEN, INTER, LAYERS, CHANNELS)
}

fn mat<T: Real>(rows: usize, cols: usize) -> Array<T> {
    let data = (0..rows * cols).map(|n| T::of(((n % 7) as f32) * 0.01 + 0.001)).collect();
    array(data, &[rows, cols])
}

fn vec1<T: Real>(n: usize) -> Array<T> {
    let data = (0..n).map(|i| T::of(((i % 5) as f32) * 0.01)).collect();
    array(data, &[n])
}

fn put<T>(weights: &mut WeightMap<Array<T>>, key: &str, weight: Array<T>) {
    weights.insert_unique(key.to_string(), weight, "test").unwrap();
}

/// The weights of a tower of some widths.
fn tower_weights<T: Real>(
    hidden: usize,
    inter: usize,
    patch_feat: usize,
    layers: i32,
) -> WeightMap<Array<T>> {
    let mut w = WeightMap::new();
    put(&mut w, "embeddings.patch_embedding.weight", mat(hidden, patch_feat));
    put(&mut w, "embeddings.patch_embedding.bias", vec1(hidden));
    put(&mut w, "embeddings.position_embedding.weight", mat(NUM_PATCHES, hidden));
    for i in 0..layers {
        for norm in ["layer_norm1", "layer_norm2"] {
            put(&mut w, &format!("encoder.layers.{i}.{norm}.weight"), vec1(hidden));
            put(&mut w, &format!("encoder.layers.{i}.{norm}.bias"), vec1(hidden));
        }
        for p in ["q_proj", "k_proj", "v_proj", "out_proj"] {
            put(&mut w, &format!("encoder.layers.{i}.self_attn.{p}.weight"), mat(hidden, hidden));
            put(&mut w, &format!("encoder.layers.{i}.self_attn.{p}.bias"), vec1(hidden));
        }
        put(&mut w, &format!("encoder.layers.{i}.mlp.fc1.weight"), mat(inter, hidden));
        put(&mut w, &format!("encoder.layers.{i}.mlp.fc1.bias"), vec1(inter));
        put(&mut w, &format!("encoder.layers.{i}.mlp.fc2.weight"), mat(hidden, inter));
        put(&mut w, &format!("encoder.layers.{i}.mlp.fc2.bias"), vec1(hidden));
    }
    put(&mut w, "post_layernorm.weight", vec1(hidden));
    put(&mut w, "post_layernorm.bias", vec1(hidden));
    w
}

fn tiny_vision_weights<T: Real>(layers: i32) -> WeightMap<Array<T>> {
    tower_weights(HIDDEN, INTER, PATCH_FEAT, layers)
}

fn dense() -> Schemes {
    Schemes { default: false, layers: WeightMap::new() }
}

fn load<T: Real>(
    cfg: &VisionConfig,
    kept: i32,
    weights: &mut WeightMap<Array<T>>,
) -> Result<VisionModel<Array<T>>, Error> {
    VisionModel::from_weights(cfg, kept, weights, &dense(), "")
}

fn tiny_tower<T: Real>() -> VisionModel<Array<T>> {
    load(&tiny_vision_config(), LAYERS, &mut tiny_vision_weights(LAYERS)).unwrap()
}

fn pixel_values(n: usize) -> Array<f32> {
    let total = n * NUM_PATCHES * PATCH_FEAT;
    let data = (0..total).map(|i| ((i % 11) as f32) * 0.01 - 0.05).collect();
    array(data, &[n, NUM_PATCHES, PATCH_FEAT])
}

fn spatial_shapes(pairs: &[(i32, i32)]) -> Array<i32> {
    let mut data: Vec<i32> = Vec::new();
    for &(h, wd) in pairs {
        data.push(h);
        data.push(wd);
    }
    array(data, &[pairs.len(), 2])
}

fn patch_mask(active: usize, num_patches: usize) -> Array<i32> {
    let data = (0..num_patches).map(|i| i32::from(i < active)).collect();
    array(data, &[1, num_patches])
}

fn patch_mask_from(vals: &[i32]) -> Array<i32> {
    array(vals.to_vec(), &[1, vals.len()])
}

/// No mask.
fn none() -> Option<&'static Array<i32>> {
    None
}

#[test]
fn patch_embed_output_shape() {
    let tower: VisionModel<Array<f32>> = tiny_tower();
    let embeds = applied(&pixel_values(1), &tower.patch_embedding);
    assert_eq!(*embeds.shape(), vec![1, NUM_PATCHES, HIDDEN]);
}

#[test]
fn vision_forward_full_grid_output_shape_and_finite() {
    let tower: VisionModel<Array<f32>> = tiny_tower();
    let out = run(&tower, EPS, &pixel_values(1), &spatial_shapes(&[(2, 2)]), none()).unwrap();
    assert_eq!(*out.shape(), vec![1, NUM_PATCHES, HIDDEN]);
    assert!(out.data().iter().all(|x| x.is_finite()), "forward output must be finite");
}

#[test]
fn vision_forward_below_budget_grid_resizes_and_pads() {
    let tower: VisionModel<Array<f32>> = tiny_tower();
    let out = run(&tower, EPS, &pixel_values(1), &spatial_shapes(&[(1, 3)]), none()).unwrap();
    assert_eq!(*out.shape(), vec![1, NUM_PATCHES, HIDDEN]);
    assert!(out.data().iter().all(|x| x.is_finite()));
}

#[test]
fn vision_padded_mask_matches_unpadded_active_rows() {
    let tower: VisionModel<Array<f32>> = tiny_tower();
    let active = 2;
    let ss = spatial_shapes(&[(2, 1)]);
    let mask = patch_mask(active, NUM_PATCHES);
    let active_data: Vec<f32> =
        (0..active * PATCH_FEAT).map(|i| ((i % 11) as f32) * 0.01 - 0.05).collect();
    let padded_pv = |pad: f32| -> Array<f32> {
        let mut data = active_data.clone();
        data.extend(vec![pad; (NUM_PATCHES - active) * PATCH_FEAT]);
        array(data, &[1, NUM_PATCHES, PATCH_FEAT])
    };

    let out_a = run(&tower, EPS, &padded_pv(7.0), &ss, Some(&mask)).unwrap();
    let out_b = run(&tower, EPS, &padded_pv(-3.0), &ss, Some(&mask)).unwrap();
    for i in 0..active * HIDDEN {
        let (a, b) = (out_a.data()[i], out_b.data()[i]);
        assert!((a - b).abs() < 1e-5, "item {i} must not depend on padding: {a} vs {b}");
    }

    let pv_unpadded = array(active_data.clone(), &[1, active, PATCH_FEAT]);
    let unpadded = run(&tower, EPS, &pv_unpadded, &ss, none()).unwrap();
    assert_eq!(*unpadded.shape(), vec![1, active, HIDDEN]);
    for i in 0..active * HIDDEN {
        let (p, u) = (out_a.data()[i], unpadded.data()[i]);
        assert!((p - u).abs() < 1e-4, "item {i}: padded {p} vs unpadded {u}");
    }
}

#[test]
fn vision_mask_shape_mismatch_is_typed_error() {
    let tower: VisionModel<Array<f32>> = tiny_tower();
    let bad = patch_mask(2, NUM_PATCHES + 1);
    let err = run(&tower, EPS, &pixel_values(1), &spatial_shapes(&[(2, 2)]), Some(&bad))
        .unwrap_err();
    assert!(matches!(err, Error::RankMismatch(_)), "got {err:?}");
}

#[test]
fn vision_mask_content_ignored_derived_from_spatial_shapes() {
    let tower: VisionModel<Array<f32>> = tiny_tower();
    let ss = spatial_shapes(&[(2, 1)]);
    let pv = pixel_values(1);
    let well_formed = patch_mask(2, NUM_PATCHES);
    let expected = run(&tower, EPS, &pv, &ss, Some(&well_formed)).unwrap();
    for malformed in [
        patch_mask_from(&[0, 0, 1, 1]),
        patch_mask_from(&[0, 0, 0, 0]),
        patch_mask_from(&[1, 1, 1, 1]),
    ] {
        let got = run(&tower, EPS, &pv, &ss, Some(&malformed)).unwrap();
        assert_eq!(got.data().len(), expected.data().len());
        for (i, (g, r)) in got.data().iter().zip(expected.data()).enumerate() {
            assert!((g - r).abs() < 1e-6, "item {i}: got {g} vs {r}");
            assert!(r.is_finite(), "item {i} must be finite");
        }
    }
}

#[test]
fn vision_rejects_out_of_range_spatial_shapes() {
    let tower: VisionModel<Array<f32>> = tiny_tower();
    let pv = pixel_values(1);
    let mask = patch_mask(4, NUM_PATCHES);
    let err = run(&tower, EPS, &pv, &spatial_shapes(&[(3, 2)]), Some(&mask)).unwrap_err();
    assert!(matches!(err, Error::OutOfRange(_)), "got {err:?}");
    let err0 = run(&tower, EPS, &pv, &spatial_shapes(&[(2, 0)]), none()).unwrap_err();
    assert!(matches!(err0, Error::OutOfRange(_)), "got {err0:?}");
}

#[test]
fn vision_forward_multi_image_batch() {
    let tower: VisionModel<Array<f32>> = tiny_tower();
    let ss = spatial_shapes(&[(2, 2), (1, 3)]);
    let out = run(&tower, EPS, &pixel_values(2), &ss, none()).unwrap();
    assert_eq!(*out.shape(), vec![2, NUM_PATCHES, HIDDEN]);
    assert!(out.data().iter().all(|x| x.is_finite()));
}

#[test]
fn vision_encoder_truncates_to_feature_layer() {
    let cfg = tiny_vision_config();
    let mut w = tiny_vision_weights::<f32>(1);
    let tower = load(&cfg, 1, &mut w).unwrap();
    assert_eq!(tower.layers.len(), 1);
    let out = run(&tower, EPS, &pixel_values(1), &spatial_shapes(&[(2, 2)]), none()).unwrap();
    assert_eq!(*out.shape(), vec![1, NUM_PATCHES, HIDDEN]);
}

#[test]
fn vision_rejects_out_of_range_layers_kept() {
    let cfg = tiny_vision_config();
    let mut w = tiny_vision_weights::<f32>(LAYERS);
    let err = load(&cfg, 3, &mut w).unwrap_err();
    assert!(matches!(err, Error::OutOfRange(_)), "got {err:?}");
}

#[test]
fn vision_missing_weight_is_typed_error() {
    let cfg = tiny_vision_config();
    let mut w = tiny_vision_weights::<f32>(LAYERS);
    w.remove("post_layernorm.weight");
    let err = load(&cfg, LAYERS, &mut w).unwrap_err();
    assert!(matches!(err, Error::MissingKey(_)), "got {err:?}");
}

#[test]
fn vision_sanitize_drops_position_ids() {
    let mut w = tiny_vision_weights::<f32>(LAYERS);
    put(&mut w, "encoder.embeddings.position_ids", array(vec![0.0, 1.0, 2.0, 3.0], &[4]));
    VisionModel::sanitize(&mut w);
    assert!(!w.contains_key("encoder.embeddings.position_ids"), "position_ids must be dropped");
    assert!(w.contains_key("post_layernorm.weight"));
    assert!(w.into_entries().iter().all(|(key, _)| !key.contains("position_ids")));
}

#[test]
fn f32_pixel_values_on_bf16_tower_encode_in_bf16() {
    f32_pixel_values_encode_stay_model_dtype::<Bf16>();
}

#[test]
fn f32_pixel_values_on_f16_tower_encode_in_f16() {
    f32_pixel_values_encode_stay_model_dtype::<F16>();
}

/// The pixels are of single precision; the mask and everything past the patch
/// embedding are of the precision of the weights.
fn f32_pixel_values_encode_stay_model_dtype<T: Real>() {
    let tower: VisionModel<Array<T>> = tiny_tower();
    let pv = pixel_values(1);
    let out: Array<T> = run(&tower, EPS, &pv, &spatial_shapes(&[(2, 2)]), none()).unwrap();
    assert_eq!(*out.shape(), vec![1, NUM_PATCHES, HIDDEN]);

    let mask = patch_mask(3, NUM_PATCHES);
    let out_masked: Array<T> =
        run(&tower, EPS, &pv, &spatial_shapes(&[(1, 3)]), Some(&mask)).unwrap();
    assert!(out_masked.data().iter().all(|x| x.get().is_finite()));
}

fn quantize_weight_in_place(w: &mut WeightMap<Array<f32>>, prefix: &str) {
    let dense = w.remove(&format!("{prefix}.weight")).expect("a dense weight");
    let shape = dense.shape().clone();
    let (mut codes, mut scales, mut biases) = (Vec::new(), Vec::new(), Vec::new());
    for group in dense.data().chunks(32) {
        let low = group.iter().copied().fold(f32::INFINITY, f32::min);
        let high = group.iter().copied().fold(f32::NEG_INFINITY, f32::max);
        let scale = ((high - low) / 255.0).max(1e-7);
        codes.extend(group.iter().map(|v| ((v - low) / scale).round()));
        scales.push(scale);
        biases.push(low);
    }
    let groups = [shape[0], shape[1] / 32];
    put(w, &format!("{prefix}.weight"), array(codes, &shape));
    put(w, &format!("{prefix}.scales"), array(scales, &groups));
    put(w, &format!("{prefix}.biases"), array(biases, &groups));
}

#[test]
fn vision_quantized_layer_loads_and_forwards() {
    let cfg = vision_config(32, 32, 1, 8);
    let mut w = tower_weights::<f32>(32, 32, 32, 1);
    quantize_weight_in_place(&mut w, "embeddings.patch_embedding");
    for proj in ["q_proj", "k_proj", "v_proj", "out_proj"] {
        quantize_weight_in_place(&mut w, &format!("encoder.layers.0.self_attn.{proj}"));
    }
    quantize_weight_in_place(&mut w, "encoder.layers.0.mlp.fc1");
    quantize_weight_in_place(&mut w, "encoder.layers.0.mlp.fc2");

    let schemes = Schemes { default: true, layers: WeightMap::new() };
    let tower = VisionModel::from_weights(&cfg, 1, &mut w, &schemes, "").unwrap();
    assert!(tower.patch_embedding.is_quantized(), "patch_embedding quantized");
    assert!(tower.layers[0].self_attn.q_proj.is_quantized(), "q_proj quantized");
    assert!(tower.layers[0].mlp.fc1.is_quantized(), "fc1 quantized");
    assert!(w.is_empty());

    let data = (0..4 * 32).map(|i| ((i % 13) as f32) * 0.01 - 0.06).collect();
    let pv = array(data, &[1, 4, 32]);
    let out = run(&tower, EPS, &pv, &spatial_shapes(&[(2, 2)]), none()).unwrap();
    assert_eq!(*out.shape(), vec![1, 4, 32]);
    assert!(out.data().iter().all(|x| x.is_finite()));
}

#[test]
fn joining_heads_undoes_splitting_them() {
    let dims = LayerDims::new(6, 3).unwrap();
    let x = array((0..24).collect::<Vec<i32>>(), &[2, 2, 6]);
    let split = split_heads(&x, dims).unwrap();
    assert_eq!(*split.shape(), vec![2, 3, 2, 2]);
    assert_eq!(split.data()[..4], [0, 1, 6, 7]);
    let joined = join_heads(&split, dims).unwrap();
    assert_eq!(joined.shape(), x.shape());
    assert_eq!(joined.data(), x.data());
    assert!(matches!(LayerDims::new(7, 3), Err(Error::DivisibilityConstraint(_))));
    assert!(matches!(LayerDims::new(7, 0), Err(Error::OutOfRange(_))));
}

#[test]
fn the_mask_keeps_the_first_keys() {
    let mask = build_attention_mask(&[(2, 1), (2, 2)], 4, 0, 1).unwrap();
    assert_eq!(*mask.shape(), vec![2, 1, 1, 4]);
    assert_eq!(*mask.data(), vec![0, 0, 1, 1, 0, 0, 0, 0]);
}

#[test]
fn full_images_get_no_mask() {
    let pv = pixel_values(1);
    let mask = patch_mask(4, NUM_PATCHES);
    let full = plan_forward(&pv, &spatial_shapes(&[(2, 2)]), Some(&mask), 0, 1).unwrap();
    assert!(full.mask.is_none());
    assert_eq!(full.num_patches, 4);
    assert_eq!(full.grids, vec![(2, 2)]);
    let padded = plan_forward(&pv, &spatial_shapes(&[(1, 3)]), Some(&mask), 0, 1).unwrap();
    assert_eq!(*padded.mask.unwrap().data(), vec![0, 0, 0, 1]);
    let trusted = plan_forward(&pv, &spatial_shapes(&[(1, 3)]), none(), 0, 1).unwrap();
    assert!(trusted.mask.is_none());
}

#[test]
fn shapes_of_the_inputs_are_checked() {
    let pv = pixel_values(2);
    let one = spatial_shapes(&[(2, 2)]);
    let err = plan_forward(&pv, &one, none(), 0, 1).unwrap_err();
    assert!(matches!(err, Error::RankMismatch(_)), "got {err:?}");
    let flat = array(vec![0.0f32; 8], &[2, 4]);
    let err = plan_forward(&flat, &spatial_shapes(&[(2, 2), (2, 2)]), none(), 0, 1).unwrap_err();
    assert!(matches!(err, Error::RankMismatch(_)), "got {err:?}");
    assert!(matches!(validate_active_grid(-1, 2, 4), Err(Error::OutOfRange(_))));
    assert_eq!(validate_active_grid(1, 3, 4).unwrap(), 3);
}

#[test]
fn positions_follow_their_patches_and_padding_repeats_the_first() {
    // Two channels, one row of three patches, a budget of four.
    let planes = array(vec![1, 2, 3, 10, 20, 30], &[1, 2, 1, 3]);
    let joined = join_positions(&vec![planes], &[(1, 3)], 2, 4).unwrap();
    assert_eq!(*joined.shape(), vec![1, 4, 2]);
    assert_eq!(*joined.data(), vec![1, 10, 2, 20, 3, 30, 1, 10]);
    let short = array(vec![1, 2], &[1, 2, 1, 1]);
    let err = join_positions(&vec![short], &[(1, 3)], 2, 4).unwrap_err();
    assert!(matches!(err, Error::LengthMismatch(_)), "got {err:?}");
}

#[test]
fn learned_positions_become_planes() {
    let table = array((0..8).collect::<Vec<i32>>(), &[4, 2]);
    let planes = position_grid(&table, 2, 2).unwrap();
    assert_eq!(*planes.shape(), vec![1, 2, 2, 2]);
    assert_eq!(*planes.data(), vec![0, 2, 4, 6, 1, 3, 5, 7]);
}

#[test]
fn batches_without_images_need_no_memory() {
    let pv = array(Vec::<f32>::new(), &[0, 4, 12]);
    let mask = array(Vec::<i32>::new(), &[0, 4]);
    let plan = plan_forward(&pv, &spatial_shapes(&[]), Some(&mask), 0, 1).unwrap();
    assert!(plan.grids.is_empty() && plan.mask.is_none());
    let mask = build_attention_mask(&[], 4, 0, 1).unwrap();
    assert_eq!(*mask.shape(), vec![0, 1, 1, 4]);
}

#[test]
fn a_bad_grid_refuses_its_batch() {
    let pv = pixel_values(3);
    for bad in [(0, 2), (2, 0), (-1, 2), (1, 5), (3, 2)] {
        for at in 0..3 {
            let mut grids = [(2, 2), (1, 3), (1, 1)];
            grids[at] = bad;
            let err = plan_forward(&pv, &spatial_shapes(&grids), none(), 0, 1).unwrap_err();
            assert!(matches!(err, Error::OutOfRange(_)), "got {err:?}");
        }
    }
}
