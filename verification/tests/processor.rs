//! Native-resolution preprocessing, tiling, and the expansion of image tokens.

use mlxrs::array::Array;
use mlxrs::error::Error;
use mlxrs::model_validation::Single;
use mlxrs::vlm::image::patch_grid;
use mlxrs::vlm::models::lfm2_vl::patchify::{preprocess_image, NormTable};
use mlxrs::vlm::models::lfm2_vl::processor::{
    count_placeholders, expand_image_tokens, num_image_tokens_from_patch_grid,
    Lfm2VlImageInputs, Lfm2VlProcessorConfig,
};
use mlxrs::vlm::models::lfm2_vl::tiling::{
    find_closest_aspect_ratio, get_grid_layout, is_image_too_large, plan_tiles, round_by_factor,
    smart_resize, target_ratios, tile_image, TileNumbers, TilePlan,
};
use mlxrs::vlm::resize::{
    filter_support, plan_table, AxisTaps, Filter, Kernel, TapRow, PRECISION_BITS,
};
use mlxrs::vlm::video::Quotients;

/// The taps of the triangle filter along one axis. An axis that is refused for its
/// size gets no rows.
fn axis_taps(in_size: usize, out_size: usize) -> AxisTaps {
    if in_size == 0 || out_size == 0 {
        return AxisTaps { support: 0, rows: Vec::new() };
    }
    let scale = in_size as f64 / out_size as f64;
    let filterscale = if scale < 1.0 { 1.0 } else { scale };
    let support = f64::from(filter_support(Filter::Bilinear)) * filterscale;
    let reach = support.ceil() as usize;
    let mut rows = Vec::new();
    if plan_table(in_size, out_size, reach).is_ok() {
        for xx in 0..out_size {
            let center = (xx as f64 + 0.5) * scale;
            let lo = (center - support + 0.5).floor();
            let hi = (center + support + 0.5).floor();
            let start = if lo < 0.0 { 0 } else { lo as usize };
            let end = if hi < 0.0 { 0 } else { hi as usize };
            let n = end.min(in_size).saturating_sub(start);
            let raw: Vec<f64> = (0..n)
                .map(|i| {
                    let x = (start as f64 + i as f64 - center + 0.5) * (1.0 / filterscale);
                    if x.abs() < 1.0 {
                        1.0 - x.abs()
                    } else {
                        0.0
                    }
                })
                .collect();
            let sum: f64 = raw.iter().sum();
            let taps = raw
                .iter()
                .map(|w| ((w / sum) * f64::from(1i32 << PRECISION_BITS)).round() as i32)
                .collect();
            rows.push(TapRow { start, end, taps });
        }
    }
    AxisTaps { support: reach, rows }
}

fn bilinear(sw: u32, sh: u32, dw: u32, dh: u32) -> Kernel {
    Kernel::Convolution {
        horizontal: axis_taps(sw as usize, dw as usize),
        vertical: axis_taps(sh as usize, dh as usize),
    }
}

/// What each byte of each channel becomes.
fn norm_table(mean: [f32; 3], std: [f32; 3]) -> NormTable<f32> {
    let channel = |c: usize| -> Vec<f32> {
        let (scale, bias) = ((1.0 / 255.0) / std[c], -mean[c] / std[c]);
        (0..=255u8).map(|b| f32::from(b) * scale + bias).collect()
    };
    NormTable::new(channel(0), channel(1), channel(2), 0.0).unwrap()
}

fn siglip_table() -> NormTable<f32> {
    norm_table([0.5; 3], [0.5; 3])
}

// The native patch grid.

#[test]
fn smart_resize_picks_faithful_native_grid() {
    const P: u32 = 16;
    const M: u32 = 1024;
    let cases = [
        // Small squares are scaled up to fill the budget.
        ((16, 16), (32, 32)),
        ((224, 224), (32, 32)),
        // Large images are scaled down to fit it, with their proportions kept.
        ((1080, 1920), (24, 42)),
        ((1920, 1080), (42, 24)),
        ((3, 39), (9, 113)),
        ((1024, 16), (256, 4)),
    ];
    for ((h, w), expected) in cases {
        let got = patch_grid(h, w, P, M);
        assert_eq!(got, expected, "patch_grid(h={h}, w={w})");
        assert!(u64::from(got.0) * u64::from(got.1) <= u64::from(M));
    }
}

#[test]
fn smart_resize_preserves_aspect_orientation() {
    const P: u32 = 16;
    const M: u32 = 1024;
    let (h1, w1) = patch_grid(600, 900, P, M);
    let (h2, w2) = patch_grid(900, 600, P, M);
    assert_eq!((h1, w1), (w2, h2), "transpose must swap the grid axes");
}

// Preprocessing.

fn tiny_cfg(max_num_patches: u32) -> Lfm2VlProcessorConfig {
    Lfm2VlProcessorConfig::new(396, 2, 2, max_num_patches).unwrap()
}

fn preprocess(
    rgb: &[u8],
    w: u32,
    h: u32,
    cfg: &Lfm2VlProcessorConfig,
    table: &NormTable<f32>,
) -> Result<Lfm2VlImageInputs<f32>, Error> {
    let p = cfg.patch_size();
    let (rows, cols) =
        if w == 0 || h == 0 { (1, 1) } else { patch_grid(h, w, p, cfg.max_num_patches()) };
    preprocess_image(rgb, w, h, cfg, &bilinear(w, h, cols * p, rows * p), table)
}

fn ramp(w: u32, h: u32, modulus: usize) -> Vec<u8> {
    (0..(w * h * 3) as usize).map(|i| (i % modulus) as u8).collect()
}

#[test]
fn preprocess_shapes_and_full_mask() {
    let cfg = tiny_cfg(16);
    let (w, h) = (8u32, 8u32);
    let out = preprocess(&ramp(w, h, 256), w, h, &cfg, &siglip_table()).unwrap();

    assert_eq!(*out.pixel_values.shape(), vec![16, 12]);
    assert_eq!(*out.pixel_attention_mask.shape(), vec![16]);
    assert_eq!(*out.spatial_shapes.shape(), vec![2]);
    assert_eq!(out.grid().unwrap(), (4, 4));
    assert_eq!(*out.spatial_shapes.data(), vec![4, 4]);
    let mask = out.pixel_attention_mask.data();
    assert!(mask.iter().all(|&m| m == 1), "all rows active when grid fills");
}

#[test]
fn preprocess_partial_grid_pads_mask() {
    let cfg = tiny_cfg(4);
    let (w, h) = (2u32, 4u32);
    let out = preprocess(&ramp(w, h, 256), w, h, &cfg, &siglip_table()).unwrap();
    assert_eq!(out.grid().unwrap(), (2, 1));
    assert_eq!(*out.spatial_shapes.data(), vec![2, 1]);
    assert_eq!(*out.pixel_attention_mask.data(), vec![1, 1, 0, 0]);
}

#[test]
fn preprocess_normalization_is_applied_and_padding_is_zero() {
    let cfg = tiny_cfg(4);
    let (w, h) = (2u32, 4u32);
    let rgb = vec![128u8; (w * h * 3) as usize];
    let out = preprocess(&rgb, w, h, &cfg, &siglip_table()).unwrap();
    assert_eq!(out.grid().unwrap(), (2, 1));
    let pv = out.pixel_values.data();
    let expected = 128.0f32 / 127.5 - 1.0;
    for (i, &v) in pv.iter().take(24).enumerate() {
        assert!((v - expected).abs() < 1e-5, "active float {i}: got {v}, want {expected}");
    }
    assert!(pv[24..].iter().all(|&v| v == 0.0), "padding floats must be exactly 0");
}

#[test]
fn preprocess_numeric_oracle_tiny_image() {
    let cfg = tiny_cfg(1);
    let (w, h) = (2u32, 2u32);
    let rgb: Vec<u8> = vec![0, 10, 20, 30, 40, 50, 60, 70, 80, 90, 100, 110];
    let out = preprocess(&rgb, w, h, &cfg, &siglip_table()).unwrap();
    assert_eq!(out.grid().unwrap(), (1, 1));
    let want: Vec<f32> = rgb.iter().map(|&b| f32::from(b) / 127.5 - 1.0).collect();
    for (i, (g, e)) in out.pixel_values.data().iter().take(12).zip(want.iter()).enumerate() {
        assert!((g - e).abs() < 1e-5, "patch float {i}: got {g}, want {e}");
    }
}

#[test]
fn preprocess_custom_mean_std_path() {
    let cfg = tiny_cfg(1);
    let table = norm_table([0.1, 0.2, 0.3], [0.5, 0.4, 0.25]);
    let (w, h) = (2u32, 2u32);
    let rgb: Vec<u8> = vec![255, 255, 255, 0, 0, 0, 128, 128, 128, 64, 64, 64];
    let out = preprocess(&rgb, w, h, &cfg, &table).unwrap();
    let want0 = [(1.0 - 0.1) / 0.5, (1.0 - 0.2) / 0.4, (1.0 - 0.3) / 0.25];
    for (i, (g, e)) in out.pixel_values.data().iter().take(3).zip(want0.iter()).enumerate() {
        assert!((g - e).abs() < 1e-4, "white px chan {i}: got {g}, want {e}");
    }
}

#[test]
fn preprocess_rejects_wrong_rgb_length() {
    let cfg = tiny_cfg(16);
    let rgb = vec![0u8; 47];
    let err = preprocess(&rgb, 4, 4, &cfg, &siglip_table()).unwrap_err();
    assert!(matches!(err, Error::LengthMismatch(_)), "got {err:?}");
}

#[test]
fn preprocess_rejects_zero_dim() {
    let cfg = tiny_cfg(16);
    let err = preprocess(&[], 0, 4, &cfg, &siglip_table()).unwrap_err();
    assert!(matches!(err, Error::OutOfRange(_)), "got {err:?}");
}

#[test]
fn patches_are_read_row_after_row() {
    // Two patches side by side: each is scanned by itself.
    let cfg = tiny_cfg(2);
    let (w, h) = (4u32, 2u32);
    let mut rgb = Vec::new();
    for y in 0..h as u8 {
        for x in 0..w as u8 {
            rgb.extend([y * 40 + x * 10, y * 40 + x * 10 + 1, y * 40 + x * 10 + 2]);
        }
    }
    let identity: Vec<u8> = (0..=255).collect();
    let table = NormTable::new(identity.clone(), identity.clone(), identity, 0u8).unwrap();
    let out = preprocess_image(&rgb, w, h, &cfg, &bilinear(w, h, w, h), &table).unwrap();
    assert_eq!(out.grid().unwrap(), (1, 2));
    assert_eq!(
        *out.pixel_values.data(),
        vec![
            0, 1, 2, 10, 11, 12, 40, 41, 42, 50, 51, 52, 20, 21, 22, 30, 31, 32, 60, 61, 62, 70,
            71, 72,
        ]
    );
}

#[test]
fn a_table_names_every_byte() {
    let full: Vec<u8> = (0..=255).collect();
    let short: Vec<u8> = (0..255).collect();
    let err = NormTable::new(full.clone(), short, full, 0u8).unwrap_err();
    assert!(matches!(err, Error::LengthMismatch(_)), "got {err:?}");
}

// Tokens.

#[test]
fn token_count_even_and_odd_grids() {
    assert_eq!(num_image_tokens_from_patch_grid(4, 4, 2).unwrap(), 4);
    assert_eq!(num_image_tokens_from_patch_grid(5, 4, 2).unwrap(), 6);
    assert_eq!(num_image_tokens_from_patch_grid(4, 7, 2).unwrap(), 8);
    assert_eq!(num_image_tokens_from_patch_grid(5, 7, 2).unwrap(), 12);
    assert_eq!(num_image_tokens_from_patch_grid(3, 5, 1).unwrap(), 15);
    assert_eq!(num_image_tokens_from_patch_grid(7, 7, 3).unwrap(), 9);
}

#[test]
fn token_count_rejects_degenerate() {
    assert!(matches!(
        num_image_tokens_from_patch_grid(0, 4, 2).unwrap_err(),
        Error::OutOfRange(_)
    ));
    assert!(matches!(
        num_image_tokens_from_patch_grid(4, 4, 0).unwrap_err(),
        Error::OutOfRange(_)
    ));
}

#[test]
fn expand_single_image_no_brackets() {
    let cfg = tiny_cfg(16);
    assert!(cfg.use_image_special_tokens(), "the flag is on unless it is turned off");
    let out = expand_image_tokens(&[1, 396, 2], &[(4, 4)], &cfg).unwrap();
    assert_eq!(out, vec![1, 396, 396, 396, 396, 2]);
}

#[test]
fn expand_single_image_with_brackets() {
    let cfg = tiny_cfg(16).with_special_tokens(Some(100), Some(101));
    assert!(cfg.use_image_special_tokens());
    let out = expand_image_tokens(&[1, 396, 2], &[(4, 4)], &cfg).unwrap();
    assert_eq!(out, vec![1, 100, 396, 396, 396, 396, 101, 2]);
}

fn count_images(v: &[i32]) -> usize {
    v.iter().filter(|&&t| t == 396).count()
}

#[test]
fn with_special_tokens_does_not_re_enable_disabled_flag() {
    let ids = [1, 396, 2];
    let grids = [(4, 4)];
    let off_then_ids = tiny_cfg(16)
        .with_use_image_special_tokens(false)
        .with_special_tokens(Some(100), Some(101));
    assert!(!off_then_ids.use_image_special_tokens());
    let out = expand_image_tokens(&ids, &grids, &off_then_ids).unwrap();
    assert_eq!(out, vec![1, 396, 396, 396, 396, 2]);

    let baseline = expand_image_tokens(&ids, &grids, &tiny_cfg(16)).unwrap();
    assert_eq!(count_images(&out), count_images(&baseline));
    assert_eq!(out, baseline);
}

#[test]
fn expand_honors_use_image_special_tokens_flag() {
    let ids = [1, 396, 2];
    let grids = [(4, 4)];
    let on = tiny_cfg(16).with_special_tokens(Some(100), Some(101));
    assert!(on.use_image_special_tokens());
    let out_on = expand_image_tokens(&ids, &grids, &on).unwrap();
    assert_eq!(out_on, vec![1, 100, 396, 396, 396, 396, 101, 2]);

    let off = tiny_cfg(16)
        .with_special_tokens(Some(100), Some(101))
        .with_use_image_special_tokens(false);
    assert!(!off.use_image_special_tokens());
    let out_off = expand_image_tokens(&ids, &grids, &off).unwrap();
    assert_eq!(out_off, vec![1, 396, 396, 396, 396, 2]);

    assert_eq!(count_images(&out_on), count_images(&out_off));
    assert_eq!(out_on.len(), out_off.len() + 2);
}

#[test]
fn expand_multi_image_packs_in_order() {
    let cfg = tiny_cfg(16);
    let out = expand_image_tokens(&[396, 9, 396], &[(4, 4), (5, 7)], &cfg).unwrap();
    let mut want = vec![396; 4];
    want.push(9);
    want.extend(vec![396; 12]);
    assert_eq!(out, want);
}

#[test]
fn expand_count_mismatch_is_typed_error() {
    let cfg = tiny_cfg(16);
    let err = expand_image_tokens(&[396, 396], &[(4, 4)], &cfg).unwrap_err();
    assert!(matches!(err, Error::LengthMismatch(_)), "got {err:?}");
}

#[test]
fn expand_no_images_passes_through() {
    let cfg = tiny_cfg(16);
    let out = expand_image_tokens(&[1, 2, 3], &[], &cfg).unwrap();
    assert_eq!(out, vec![1, 2, 3]);
}

#[test]
fn expanded_prompts_hold_one_token_for_each_cell() {
    let cfg = tiny_cfg(16).with_special_tokens(Some(100), Some(101));
    let out = expand_image_tokens(&[7, 396, 8, 396], &[(3, 3), (2, 6)], &cfg).unwrap();
    assert_eq!(count_placeholders(&out, 396), 4 + 3);
    assert_eq!(count_placeholders(&[7, 396, 8, 396], 396), 2);
}

// Tiles.

/// The numbers that the plan of an image rests on.
fn numbers(h: u32, w: u32, cfg: &Lfm2VlProcessorConfig) -> TileNumbers {
    let tiling = cfg.settings().tiling;
    let side = f64::from(tiling.encoder_patch_size) * f64::from(cfg.downsample_factor());
    let area = f64::from(h) * f64::from(w);
    let down = (area / (f64::from(tiling.max_image_tokens) * side * side)).sqrt();
    let up = (f64::from(tiling.min_image_tokens) * side * side / area).sqrt();
    let shrunk = Quotients {
        height: Some((f64::from(h) / down / side).floor() as i64),
        width: Some((f64::from(w) / down / side).floor() as i64),
    };
    let grown = Quotients {
        height: Some((f64::from(h) * up / side).ceil() as i64),
        width: Some((f64::from(w) * up / side).ceil() as i64),
    };
    let aspect = f64::from(w) / f64::from(h);
    let differences = target_ratios(tiling.min_tiles, tiling.max_tiles)
        .unwrap()
        .into_iter()
        .map(|(gw, gh)| (aspect - f64::from(gw) / f64::from(gh)).abs().to_bits())
        .collect();
    TileNumbers { shrunk, grown, differences }
}

fn tolerance(value: f32) -> Single {
    Single::from_bits(value.to_bits())
}

fn tiling_cfg(use_thumbnail: bool) -> Lfm2VlProcessorConfig {
    Lfm2VlProcessorConfig::new(396, 2, 16, 1024)
        .unwrap()
        .with_tiling(true, 2, 10, use_thumbnail, 64, 256, 16, 512, tolerance(2.0))
        .unwrap()
}

fn plan(h: u32, w: u32, cfg: &Lfm2VlProcessorConfig) -> TilePlan {
    plan_tiles(h, w, cfg, &numbers(h, w, cfg)).unwrap()
}

fn tile(
    rgb: &[u8],
    w: u32,
    h: u32,
    cfg: &Lfm2VlProcessorConfig,
) -> Result<Vec<Lfm2VlImageInputs<f32>>, Error> {
    let numbers = numbers(h, w, cfg);
    let plan = plan_tiles(h, w, cfg, &numbers)?;
    let target = bilinear(w, h, plan.target_width, plan.target_height);
    let thumb = bilinear(w, h, plan.thumb_width, plan.thumb_height);
    tile_image(rgb, w, h, cfg, &numbers, &target, &thumb, &siglip_table())
}

#[test]
fn with_tiling_rejects_invalid_params() {
    let base = Lfm2VlProcessorConfig::new(396, 2, 16, 1024).unwrap();
    let two = tolerance(2.0);
    assert!(matches!(
        base.with_tiling(true, 2, 10, false, 64, 256, 16, 500, two).unwrap_err(),
        Error::DivisibilityConstraint(_)
    ));
    assert!(matches!(
        base.with_tiling(true, 6, 4, false, 64, 256, 16, 512, two).unwrap_err(),
        Error::OutOfRange(_)
    ));
    assert!(matches!(
        base.with_tiling(true, 2, 10, false, 300, 256, 16, 512, two).unwrap_err(),
        Error::OutOfRange(_)
    ));
    assert!(matches!(
        base.with_tiling(true, 2, 10, false, 64, 256, 16, 0, two).unwrap_err(),
        Error::OutOfRange(_)
    ));
    let not_a_number = Single::from_bits(f32::NAN.to_bits());
    assert!(matches!(
        base.with_tiling(true, 2, 10, false, 64, 256, 16, 512, not_a_number).unwrap_err(),
        Error::NonFiniteScalar { .. }
    ));
    assert!(matches!(
        base.with_tiling(true, 2, 10, false, 64, 256, 16, 512, tolerance(-1.0)).unwrap_err(),
        Error::OutOfRange(_)
    ));
}

#[test]
fn round_by_factor_ties_to_even_like_python() {
    assert_eq!(round_by_factor(208, 32).unwrap(), 192, "6.5 ties down to 6 (even)");
    assert_eq!(round_by_factor(240, 32).unwrap(), 256, "7.5 ties up to 8 (even)");
    assert_eq!(round_by_factor(48, 32).unwrap(), 64, "1.5 ties up to 2 (even)");
    assert_eq!(round_by_factor(16, 32).unwrap(), 0, "0.5 ties down to 0 (even)");
    assert_ne!(round_by_factor(208, 32).unwrap(), 224);
}

#[test]
fn round_by_factor_non_tie_rounds_to_nearest() {
    assert_eq!(round_by_factor(200, 32).unwrap(), 192);
    assert_eq!(round_by_factor(220, 32).unwrap(), 224);
    assert_eq!(round_by_factor(100, 16).unwrap(), 96);
    assert_eq!(round_by_factor(110, 16).unwrap(), 112);
    assert_eq!(round_by_factor(192, 32).unwrap(), 192);
    assert_eq!(round_by_factor(207, 1).unwrap(), 207);
}

#[test]
fn round_by_factor_rejects_zero_factor() {
    assert!(matches!(round_by_factor(208, 0).unwrap_err(), Error::OutOfRange(_)));
}

#[test]
fn plan_tiles_small_image_is_single_no_split() {
    let plan = plan(256, 256, &tiling_cfg(true));
    assert!(!plan.is_split(), "256x256 must not split");
    assert_eq!(plan.grid(), (1, 1));
    assert!(!plan.has_thumbnail());
    assert_eq!(plan.sub_image_count().unwrap(), 1);
    assert_eq!((plan.thumb_width, plan.thumb_height), (256, 256));
}

#[test]
fn plan_tiles_tiny_image_upscales_single() {
    let plan = plan(100, 100, &tiling_cfg(true));
    assert!(!plan.is_split());
    assert_eq!(plan.sub_image_count().unwrap(), 1);
    assert_eq!((plan.thumb_width, plan.thumb_height), (256, 256));
}

#[test]
fn plan_tiles_large_square_splits_3x3_with_thumbnail() {
    let plan = plan(2048, 2048, &tiling_cfg(true));
    assert!(plan.is_split());
    assert_eq!(plan.grid(), (3, 3), "2048x2048 -> 3x3 grid");
    assert!(plan.has_thumbnail());
    assert_eq!(plan.sub_image_count().unwrap(), 10);
    assert_eq!((plan.target_width, plan.target_height), (1536, 1536));
    assert_eq!((plan.thumb_width, plan.thumb_height), (512, 512));
}

#[test]
fn plan_tiles_large_portrait_splits_with_oracle_grid() {
    let plan = plan(2000, 1500, &tiling_cfg(true));
    assert!(plan.is_split());
    assert_eq!(plan.grid(), (2, 3), "portrait grid (gw=2, gh=3)");
    assert_eq!(plan.sub_image_count().unwrap(), 7);
    assert_eq!((plan.target_width, plan.target_height), (1024, 1536));
    assert_eq!((plan.thumb_width, plan.thumb_height), (416, 576));
}

#[test]
fn plan_tiles_thumbnail_off_omits_thumbnail() {
    let plan = plan(2048, 2048, &tiling_cfg(false));
    assert!(plan.is_split());
    assert_eq!(plan.grid(), (3, 3));
    assert!(!plan.has_thumbnail());
    assert_eq!(plan.sub_image_count().unwrap(), 9);
}

#[test]
fn plan_tiles_splitting_disabled_never_splits() {
    let cfg = Lfm2VlProcessorConfig::new(396, 2, 16, 1024)
        .unwrap()
        .with_tiling(false, 2, 10, true, 64, 256, 16, 512, tolerance(2.0))
        .unwrap();
    let plan = plan(2048, 2048, &cfg);
    assert!(!plan.is_split(), "splitting disabled -> single sub-image");
    assert_eq!(plan.sub_image_count().unwrap(), 1);
}

#[test]
fn tile_image_small_produces_single_native_subimage() {
    let cfg = tiling_cfg(true);
    let (w, h) = (256u32, 256u32);
    let tiles = tile(&ramp(w, h, 256), w, h, &cfg).unwrap();
    assert_eq!(tiles.len(), 1, "small image -> single sub-image");
    assert_eq!(tiles[0].grid().unwrap(), (16, 16), "256/16 = 16 patches/side");
    assert_eq!(*tiles[0].pixel_values.shape(), vec![1024, 768]);
    let mask = tiles[0].pixel_attention_mask.data();
    assert_eq!(mask.iter().filter(|&&m| m == 1).count(), 256);
}

#[test]
fn tile_image_large_produces_tiles_plus_thumbnail() {
    let cfg = tiling_cfg(true);
    let (w, h) = (1024u32, 1024u32);
    let tiles = tile(&ramp(w, h, 251), w, h, &cfg).unwrap();
    assert_eq!(tiles.len(), 5, "4 tiles + 1 thumbnail");
    for t in tiles.iter().take(4) {
        assert_eq!(t.grid().unwrap(), (32, 32), "each 512x512 tile -> 32x32 patches");
        assert_eq!(*t.pixel_values.shape(), vec![1024, 768]);
        let mask = t.pixel_attention_mask.data();
        assert!(mask.iter().all(|&m| m == 1), "tile fills the budget");
    }
    assert_eq!(tiles.last().unwrap().grid().unwrap(), (32, 32));
}

#[test]
fn tile_image_token_count_sums_over_tiles() {
    let cfg = tiling_cfg(true);
    let (w, h) = (1024u32, 1024u32);
    let tiles = tile(&ramp(w, h, 251), w, h, &cfg).unwrap();
    let mut total = 0i32;
    let mut grids: Vec<(i32, i32)> = Vec::new();
    for t in &tiles {
        let (r, c) = t.grid().unwrap();
        total += num_image_tokens_from_patch_grid(r, c, 2).unwrap();
        grids.push((r, c));
    }
    assert_eq!(total, 1280, "5 sub-images * 256 tokens each");
    let mut ids = vec![1];
    ids.extend(vec![396; grids.len()]);
    ids.push(2);
    let expanded = expand_image_tokens(&ids, &grids, &cfg).unwrap();
    assert_eq!(expanded.len(), 2 + 1280);
    assert_eq!(expanded[0], 1);
    assert_eq!(*expanded.last().unwrap(), 2);
}

#[test]
fn tile_image_rejects_wrong_rgb_length() {
    let cfg = tiling_cfg(true);
    let rgb = vec![0u8; (256 * 256 * 3) - 1];
    let err = tile(&rgb, 256, 256, &cfg).unwrap_err();
    assert!(matches!(err, Error::LengthMismatch(_)), "got {err:?}");
}

#[test]
fn tiles_are_the_squares_of_the_image() {
    // An image of two tiles by two, each in a colour of its own.
    let cfg = Lfm2VlProcessorConfig::new(396, 1, 2, 4)
        .unwrap()
        .with_tiling(true, 2, 4, false, 1, 2, 2, 4, tolerance(1.0))
        .unwrap();
    let (w, h) = (8u32, 8u32);
    let mut rgb = Vec::new();
    for y in 0..h {
        for x in 0..w {
            let colour = (10 * (1 + x / 4 + 2 * (y / 4))) as u8;
            rgb.extend([colour, colour, colour]);
        }
    }
    let tiles = tile(&rgb, w, h, &cfg).unwrap();
    assert_eq!(tiles.len(), 4);
    for (k, t) in tiles.iter().enumerate() {
        let want = (10 * (k + 1)) as f32 / 127.5 - 1.0;
        assert!(t.pixel_values.data().iter().all(|v| (v - want).abs() < 1e-5), "tile {k}");
    }
}

#[test]
fn candidate_grids_are_ordered_by_their_tiles() {
    assert_eq!(
        target_ratios(2, 4).unwrap(),
        vec![(1, 2), (2, 1), (1, 3), (3, 1), (1, 4), (2, 2), (4, 1)]
    );
    assert_eq!(target_ratios(3, 2).unwrap(), vec![]);
    assert_eq!(target_ratios(0, 0).unwrap(), vec![]);
    assert_eq!(target_ratios(0, 3).unwrap(), target_ratios(1, 3).unwrap());
    assert_eq!(target_ratios(0, 2).unwrap(), vec![(1, 1), (1, 2), (2, 1)]);
}

#[test]
fn grid_layouts_take_any_band() {
    // One distance per candidate; the last is the closest.
    let distances = [3.0f64, 2.0, 1.0].map(f64::to_bits);
    assert_eq!(get_grid_layout(64, 128, 0, 2, 32, &distances).unwrap(), (2, 1, 64, 32));
    assert_eq!(get_grid_layout(64, 128, 1, 2, 32, &distances).unwrap(), (2, 1, 64, 32));
    // Where no distance is finite, a large image still gets a candidate, and a small
    // one is not split.
    let infinite = [f64::INFINITY.to_bits(); 7];
    assert_eq!(get_grid_layout(64, 128, 2, 4, 32, &infinite).unwrap(), (4, 1, 128, 32));
    assert_eq!(get_grid_layout(16, 16, 2, 4, 32, &infinite).unwrap(), (1, 1, 32, 32));
    let err = get_grid_layout(64, 128, 0, 2, 32, &distances[..2]).unwrap_err();
    assert!(matches!(err, Error::LengthMismatch(_)), "got {err:?}");
}

#[test]
fn empty_prompts_expand_to_nothing() {
    assert!(expand_image_tokens(&[], &[], &tiny_cfg(16)).unwrap().is_empty());
    assert!(expand_image_tokens(&[], &[(4, 4)], &tiny_cfg(16)).is_err());
}

#[test]
fn the_closest_grid_wins_and_ties_ask_for_area() {
    let ratios = [(1, 1), (2, 1), (2, 2)];
    let far = 1.0f64.to_bits();
    let near = 0.25f64.to_bits();
    assert_eq!(find_closest_aspect_ratio(&[far, near, far], &ratios, 20, 10, 10), (2, 1));
    // Two grids are equally near: the larger one is taken for a large image only.
    assert_eq!(find_closest_aspect_ratio(&[near, far, near], &ratios, 100, 100, 10), (2, 2));
    assert_eq!(find_closest_aspect_ratio(&[near, far, near], &ratios, 10, 10, 10), (1, 1));
}

#[test]
fn an_image_is_too_large_past_its_budget() {
    // The budget is 256 tokens of 32 by 32 pixels, twice over: 524288 pixels. The
    // tolerance of 2.0 is 2^23 * 2^-22.
    let large = |h, w| is_image_too_large(h, w, 256, 16, 2, 1 << 23, -22).unwrap();
    assert!(!large(512, 1024));
    assert!(large(512, 1056));
}

#[test]
fn resized_images_stay_within_their_tokens() {
    let some = |v: i64| Quotients { height: Some(v), width: Some(v) };
    // Within the budget: rounded to the nearest multiple of the side.
    let kept = smart_resize(300, 400, 2, 64, 256, 16, some(16), some(8)).unwrap();
    assert_eq!(kept, (384, 288));
    // Above it: the largest multiple that fits.
    let shrunk = smart_resize(2048, 2048, 2, 64, 256, 16, some(16), some(1)).unwrap();
    assert_eq!(shrunk, (512, 512));
    assert!(shrunk.0 * shrunk.1 <= 256 * 32 * 32);
    // Below it: the smallest multiple that reaches it.
    let grown = smart_resize(100, 100, 2, 64, 256, 16, some(1), some(8)).unwrap();
    assert_eq!(grown, (256, 256));
    assert!(grown.0 * grown.1 >= 64 * 32 * 32);
    for (w, h) in [kept, shrunk, grown] {
        assert_eq!((w % 32, h % 32), (0, 0));
    }
    // A quotient that is no number is refused.
    let none = Quotients { height: None, width: None };
    let err = smart_resize(2048, 2048, 2, 64, 256, 16, none, none).unwrap_err();
    assert!(matches!(err, Error::OutOfRange(_)), "got {err:?}");
}

#[test]
fn config_rejects_zero_patch_and_negative_token() {
    assert!(matches!(
        Lfm2VlProcessorConfig::new(396, 2, 0, 16).unwrap_err(),
        Error::OutOfRange(_)
    ));
    assert!(matches!(
        Lfm2VlProcessorConfig::new(-1, 2, 2, 16).unwrap_err(),
        Error::OutOfRange(_)
    ));
}

#[test]
fn builders_change_what_they_name() {
    let cfg = tiny_cfg(16);
    assert_eq!(
        (cfg.patch_size(), cfg.max_num_patches(), cfg.downsample_factor(), cfg.image_token()),
        (2, 16, 2, 396)
    );
    assert!(!cfg.with_do_image_splitting(false).do_image_splitting());
    assert!(cfg.with_do_image_splitting(true).do_image_splitting());
    let least = Lfm2VlProcessorConfig::smallest();
    assert_eq!(least.patch_size(), 1);
}

#[test]
fn grids_are_read_off_two_numbers() {
    let inputs = |shape: Vec<usize>, data: Vec<i32>| {
        Lfm2VlImageInputs::from_parts(
            Array::from_vec(vec![0u8], vec![1]).unwrap(),
            Array::from_vec(vec![1], vec![1]).unwrap(),
            Array::from_vec(data, shape).unwrap(),
        )
    };
    assert_eq!(inputs(vec![2], vec![3, 5]).grid().unwrap(), (3, 5));
    assert!(inputs(vec![3], vec![3, 5, 1]).grid().is_err());
}
