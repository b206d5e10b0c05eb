//! The configuration of the towers and of the model: defaults, and what a
//! configuration is refused for.

use mlxrs::error::Error;
use mlxrs::model_validation::Single;
use mlxrs::vlm::models::lfm2_vl::config::{
    choose_eos_token_id, resolve_eos_token_id, ModelConfig, RawModelConfig, RawVisionConfig,
    TextConfig, VisionConfig, DEFAULT_EOS_TOKEN_ID, MAX_CARDINALITY, MAX_CONFIG_DIM,
    MAX_PATCH_BUDGET, MAX_TILES,
};
use serde_json::Value;

fn integer(document: &Value, key: &str) -> Option<i32> {
    let value = document.get(key)?;
    Some(i32::try_from(value.as_i64().expect("an integer")).expect("an i32"))
}

fn flag(document: &Value, key: &str) -> Option<bool> {
    Some(document.get(key)?.as_bool().expect("a boolean"))
}

fn text(document: &Value, key: &str) -> Option<String> {
    Some(document.get(key)?.as_str().expect("a string").to_string())
}

fn vision_of(document: &Value) -> VisionConfig {
    VisionConfig::from_raw(RawVisionConfig {
        model_type: text(document, "model_type"),
        hidden_size: integer(document, "hidden_size"),
        intermediate_size: integer(document, "intermediate_size"),
        num_hidden_layers: integer(document, "num_hidden_layers"),
        num_attention_heads: integer(document, "num_attention_heads"),
        num_channels: integer(document, "num_channels"),
        image_size: integer(document, "image_size"),
        patch_size: integer(document, "patch_size"),
        num_patches: integer(document, "num_patches"),
        layer_norm_eps: document
            .get("layer_norm_eps")
            .map(|value| value.as_f64().expect("a number").to_bits()),
        hidden_act: text(document, "hidden_act"),
    })
}

fn model_of(json: &str) -> ModelConfig {
    let document: Value = serde_json::from_str(json).expect("a document");
    let text_document = document.get("text_config").expect("a text tower").clone();
    let raw = RawModelConfig {
        text_config: TextConfig {
            hidden_size: integer(&text_document, "hidden_size").unwrap_or(1024),
            vocab_size: integer(&text_document, "vocab_size").unwrap_or(65536),
        },
        vision_config: vision_of(document.get("vision_config").expect("a vision tower")),
        model_type: text(&document, "model_type"),
        downsample_factor: integer(&document, "downsample_factor"),
        image_token_index: integer(&document, "image_token_index"),
        projector_hidden_size: integer(&document, "projector_hidden_size"),
        projector_use_layernorm: flag(&document, "projector_use_layernorm"),
        projector_bias: flag(&document, "projector_bias"),
        vision_feature_layer: integer(&document, "vision_feature_layer"),
        max_num_patches: integer(&document, "max_num_patches"),
        do_image_splitting: flag(&document, "do_image_splitting"),
        encoder_patch_size: integer(&document, "encoder_patch_size"),
        max_image_tokens: integer(&document, "max_image_tokens"),
        min_image_tokens: integer(&document, "min_image_tokens"),
        max_tiles: integer(&document, "max_tiles"),
        min_tiles: integer(&document, "min_tiles"),
        max_pixels_tolerance: document.get("max_pixels_tolerance").map(|value| {
            Single::from_bits((value.as_f64().expect("a number") as f32).to_bits())
        }),
        tile_size: integer(&document, "tile_size"),
        use_thumbnail: flag(&document, "use_thumbnail"),
        use_image_special_tokens: flag(&document, "use_image_special_tokens"),
        projector_hidden_act: text(&document, "projector_hidden_act"),
        eos_token_id: match document.get("eos_token_id") {
            Some(Value::Null) | None => None,
            Some(_) => integer(&document, "eos_token_id"),
        },
        quantization: document.get("quantization").cloned(),
    };
    ModelConfig::from_raw(raw, &text_document)
}

fn number(value: Single) -> f64 {
    match value {
        Single::Positive { mantissa, exponent } => f64::from(mantissa) * 2f64.powi(exponent),
        _ => f64::NAN,
    }
}

fn vision_json(json: &str) -> VisionConfig {
    vision_of(&serde_json::from_str(json).expect("a document"))
}

fn full_config_json() -> String {
    r#"{
        "model_type": "lfm2-vl",
        "downsample_factor": 2,
        "image_token_index": 396,
        "projector_hidden_size": 2560,
        "projector_use_layernorm": true,
        "projector_bias": true,
        "vision_feature_layer": -1,
        "max_num_patches": 1024,
        "tile_size": 512,
        "eos_token_id": 7,
        "quantization": {"group_size": 64, "bits": 8},
        "text_config": {
            "model_type": "lfm2",
            "hidden_size": 1024,
            "num_hidden_layers": 16,
            "num_attention_heads": 16,
            "num_key_value_heads": 8,
            "vocab_size": 65536,
            "conv_L_cache": 3,
            "full_attn_idxs": [2, 5, 8, 10, 12, 14],
            "layer_types": ["conv","conv","full_attention"]
        },
        "vision_config": {
            "model_type": "lfm2_vl",
            "hidden_size": 768,
            "intermediate_size": 3072,
            "num_hidden_layers": 12,
            "num_attention_heads": 12,
            "num_channels": 3,
            "image_size": 224,
            "patch_size": 16,
            "num_patches": 256,
            "layer_norm_eps": 1e-6
        }
    }"#
        .to_string()
}

#[test]
fn vision_config_defaults_match_reference() {
    let cfg = vision_json("{}");
    assert_eq!(cfg.model_type(), "lfm2_vl");
    assert_eq!(cfg.hidden_size, 768);
    assert_eq!(cfg.intermediate_size, 3072);
    assert_eq!(cfg.num_hidden_layers, 12);
    assert_eq!(cfg.num_attention_heads, 12);
    assert_eq!(cfg.num_channels, 3);
    assert_eq!(cfg.image_size, 224);
    assert_eq!(cfg.patch_size, 16);
    assert_eq!(cfg.num_patches, 256);
    assert!((f64::from_bits(cfg.layer_norm_eps) - 1e-6).abs() < 1e-12);
    assert_eq!(cfg.hidden_act, "gelu_pytorch_tanh");
    assert_eq!(cfg.patch_feature_dim().unwrap(), 768);
    cfg.validate().unwrap();
}

#[test]
fn vision_config_default_hidden_act_validates() {
    let cfg = vision_json(r#"{"hidden_act": "gelu_pytorch_tanh"}"#);
    cfg.validate().unwrap();
    assert_eq!(cfg.hidden_act, "gelu_pytorch_tanh");
}

#[test]
fn vision_config_rejects_non_tanh_hidden_act() {
    for bad in [
        r#"{"hidden_act": "gelu"}"#,
        r#"{"hidden_act": "gelu_new"}"#,
        r#"{"hidden_act": "relu"}"#,
        r#"{"hidden_act": "silu"}"#,
    ] {
        let cfg = vision_json(bad);
        let err = cfg.validate().unwrap_err();
        assert!(
            matches!(err, Error::UnknownEnumValue(_)),
            "expected UnknownEnumValue for {bad}, got {err:?}"
        );
    }
}

#[test]
fn vision_config_accepts_siglip2_model_type() {
    let cfg = vision_json(r#"{"model_type": "siglip2_vision_model"}"#);
    cfg.validate().unwrap();
    assert_eq!(cfg.model_type(), "siglip2_vision_model");
}

#[test]
fn vision_config_rejects_wrong_model_type() {
    let cfg = vision_json(r#"{"model_type": "clip_vision_model"}"#);
    let err = cfg.validate().unwrap_err();
    assert!(matches!(err, Error::UnknownEnumValue(_)), "got {err:?}");
}

#[test]
fn vision_config_rejects_non_divisible_head_split() {
    let cfg = vision_json(r#"{"hidden_size": 768, "num_attention_heads": 7}"#);
    let err = cfg.validate().unwrap_err();
    assert!(matches!(err, Error::DivisibilityConstraint(_)), "got {err:?}");
}

#[test]
fn vision_config_rejects_non_square_num_patches() {
    let cfg = vision_json(r#"{"num_patches": 255}"#);
    let err = cfg.validate().unwrap_err();
    assert!(matches!(err, Error::OutOfRange(_)), "got {err:?}");
}

#[test]
fn vision_config_rejects_nonpositive_dim() {
    let cfg = vision_json(r#"{"hidden_size": 0}"#);
    let err = cfg.validate().unwrap_err();
    assert!(matches!(err, Error::OutOfRange(_)), "got {err:?}");
}

#[test]
fn model_config_full_parses_and_validates() {
    let cfg = model_of(&full_config_json());
    assert_eq!(cfg.model_type(), "lfm2-vl");
    assert_eq!(cfg.downsample_factor, 2);
    assert_eq!(cfg.image_token_index, 396);
    assert_eq!(cfg.projector_hidden_size, 2560);
    assert!(cfg.projector_use_layernorm);
    assert!(cfg.projector_bias);
    assert_eq!(cfg.vision_feature_layer, -1);
    assert_eq!(cfg.max_num_patches, 1024);
    assert_eq!(cfg.tile_size, 512);
    assert_eq!(cfg.eos_token_id(), 7);
    assert!(cfg.quantization().is_some(), "8-bit block present");
    assert_eq!(cfg.vision_config.hidden_size, 768);
    assert_eq!(cfg.text_config.hidden_size, 1024);
    cfg.validate(Ok(())).unwrap();
    assert_eq!(cfg.vision_feature_layers_kept().unwrap(), 12);
}

#[test]
fn model_config_defaults_fill_top_level_fields() {
    let json = r#"{"text_config": {}, "vision_config": {}}"#;
    let cfg = model_of(json);
    assert_eq!(cfg.model_type(), "lfm2-vl");
    assert_eq!(cfg.downsample_factor, 2);
    assert_eq!(cfg.image_token_index, 396);
    assert_eq!(cfg.projector_hidden_size, 2560);
    assert_eq!(cfg.vision_feature_layer, -1);
    assert_eq!(cfg.max_num_patches, 1024);
    assert_eq!(cfg.tile_size, 512);
    assert_eq!(cfg.eos_token_id(), DEFAULT_EOS_TOKEN_ID);
    assert!(cfg.do_image_splitting);
    assert_eq!(cfg.encoder_patch_size, 16);
    assert_eq!(cfg.max_image_tokens, 256);
    assert_eq!(cfg.min_image_tokens, 64);
    assert_eq!(cfg.max_tiles, 10);
    assert_eq!(cfg.min_tiles, 2);
    assert_eq!(number(cfg.max_pixels_tolerance), 2.0);
    assert!(!cfg.use_thumbnail);
    assert!(cfg.use_image_special_tokens);
    assert_eq!(cfg.projector_hidden_act, "gelu");
    assert_eq!(cfg.vision_config.hidden_act, "gelu_pytorch_tanh");
    assert!(cfg.quantization().is_none(), "dense by default");
    cfg.validate(Ok(())).unwrap();
}

#[test]
fn model_config_parses_explicit_tiling_fields() {
    let json = r#"{
        "text_config": {}, "vision_config": {},
        "do_image_splitting": false,
        "encoder_patch_size": 14,
        "max_image_tokens": 300,
        "min_image_tokens": 32,
        "max_tiles": 12,
        "min_tiles": 4,
        "max_pixels_tolerance": 1.5,
        "tile_size": 448,
        "use_thumbnail": true,
        "use_image_special_tokens": false,
        "projector_hidden_act": "gelu"
    }"#;
    let cfg = model_of(json);
    cfg.validate(Ok(())).unwrap();
    assert!(!cfg.do_image_splitting);
    assert_eq!(cfg.encoder_patch_size, 14);
    assert_eq!(cfg.max_image_tokens, 300);
    assert_eq!(cfg.min_image_tokens, 32);
    assert_eq!(cfg.max_tiles, 12);
    assert_eq!(cfg.min_tiles, 4);
    assert_eq!(number(cfg.max_pixels_tolerance), 1.5);
    assert_eq!(cfg.tile_size, 448);
    assert!(cfg.use_thumbnail);
    assert!(!cfg.use_image_special_tokens);
    assert_eq!(cfg.projector_hidden_act, "gelu");
}

#[test]
fn model_config_rejects_nonpositive_tiling_cardinality() {
    for bad in [
        r#"{"text_config":{},"vision_config":{},"encoder_patch_size":0}"#,
        r#"{"text_config":{},"vision_config":{},"max_image_tokens":0}"#,
        r#"{"text_config":{},"vision_config":{},"min_image_tokens":0}"#,
        r#"{"text_config":{},"vision_config":{},"max_tiles":0}"#,
        r#"{"text_config":{},"vision_config":{},"min_tiles":-1}"#,
    ] {
        let cfg = model_of(bad);
        let err = cfg.validate(Ok(())).unwrap_err();
        assert!(
            matches!(err, Error::OutOfRange(_)),
            "expected OutOfRange for {bad}, got {err:?}"
        );
    }
}

#[test]
fn model_config_rejects_inverted_tiling_ranges() {
    let bad_tiles = r#"{"text_config":{},"vision_config":{},"min_tiles":6,"max_tiles":4}"#;
    let cfg = model_of(bad_tiles);
    assert!(matches!(cfg.validate(Ok(())).unwrap_err(), Error::OutOfRange(_)));

    let bad_tokens =
        r#"{"text_config":{},"vision_config":{},"min_image_tokens":300,"max_image_tokens":256}"#;
    let cfg = model_of(bad_tokens);
    assert!(matches!(cfg.validate(Ok(())).unwrap_err(), Error::OutOfRange(_)));
}

#[test]
fn model_config_rejects_oversized_max_tiles() {
    let over = MAX_TILES + 1;
    let bad = format!(r#"{{"text_config":{{}},"vision_config":{{}},"max_tiles":{over}}}"#);
    let cfg = model_of(&bad);
    assert!(
        matches!(cfg.validate(Ok(())).unwrap_err(), Error::OutOfRange(_)),
        "max_tiles above the cap must be OutOfRange"
    );

    let at_cap =
        format!(r#"{{"text_config":{{}},"vision_config":{{}},"min_tiles":2,"max_tiles":{MAX_TILES}}}"#);
    model_of(&at_cap)
        .validate(Ok(()))
        .expect("max_tiles == cap validates");
}

#[test]
fn model_config_rejects_nonfinite_pixels_tolerance() {
    let zero = r#"{"text_config":{},"vision_config":{},"max_pixels_tolerance":0.0}"#;
    let cfg = model_of(zero);
    assert!(matches!(cfg.validate(Ok(())).unwrap_err(), Error::OutOfRange(_)));

    let mut cfg = model_of(r#"{"text_config":{},"vision_config":{}}"#);
    cfg.max_pixels_tolerance = Single::from_bits(f32::NAN.to_bits());
    assert!(matches!(cfg.validate(Ok(())).unwrap_err(), Error::NonFiniteScalar { .. }));
    cfg.max_pixels_tolerance = Single::from_bits(f32::INFINITY.to_bits());
    assert!(matches!(cfg.validate(Ok(())).unwrap_err(), Error::NonFiniteScalar { .. }));
}

#[test]
fn model_config_vision_feature_layer_explicit_in_range() {
    let json = r#"{"text_config": {}, "vision_config": {}, "vision_feature_layer": 5}"#;
    let cfg = model_of(json);
    cfg.validate(Ok(())).unwrap();
    assert_eq!(cfg.vision_feature_layers_kept().unwrap(), 6);
}

#[test]
fn model_config_rejects_out_of_range_vision_feature_layer() {
    let json = r#"{"text_config": {}, "vision_config": {}, "vision_feature_layer": 12}"#;
    let cfg = model_of(json);
    let err = cfg.validate(Ok(())).unwrap_err();
    assert!(matches!(err, Error::OutOfRange(_)), "got {err:?}");
}

#[test]
fn model_config_rejects_wrong_model_type() {
    let json = r#"{"text_config": {}, "vision_config": {}, "model_type": "qwen2_vl"}"#;
    let cfg = model_of(json);
    let err = cfg.validate(Ok(())).unwrap_err();
    assert!(matches!(err, Error::UnknownEnumValue(_)), "got {err:?}");
}

#[test]
fn model_config_accepts_both_model_type_spellings() {
    let underscore = r#"{"text_config": {}, "vision_config": {}, "model_type": "lfm2_vl"}"#;
    let cfg = model_of(underscore);
    cfg
        .validate(Ok(()))
        .expect("underscore model_type lfm2_vl must validate (mlx-community checkpoints)");
    assert_eq!(cfg.model_type(), "lfm2_vl");

    let hyphen = r#"{"text_config": {}, "vision_config": {}, "model_type": "lfm2-vl"}"#;
    let cfg = model_of(hyphen);
    cfg
        .validate(Ok(()))
        .expect("hyphen model_type lfm2-vl must still validate (config.py default)");
    assert_eq!(cfg.model_type(), "lfm2-vl");

    let bogus = r#"{"text_config": {}, "vision_config": {}, "model_type": "lfm2vl"}"#;
    let cfg = model_of(bogus);
    let err = cfg.validate(Ok(())).unwrap_err();
    assert!(matches!(err, Error::UnknownEnumValue(_)), "got {err:?}");
}

#[test]
fn model_config_rejects_non_gelu_projector_hidden_act() {
    let gelu = r#"{"text_config": {}, "vision_config": {}, "projector_hidden_act": "gelu"}"#;
    model_of(gelu)
        .validate(Ok(()))
        .expect("projector_hidden_act gelu must validate");

    let relu = r#"{"text_config": {}, "vision_config": {}, "projector_hidden_act": "relu"}"#;
    let cfg = model_of(relu);
    let err = cfg.validate(Ok(())).unwrap_err();
    assert!(matches!(err, Error::UnknownEnumValue(_)), "got {err:?}");
}

#[test]
fn model_config_pins_vision_num_channels_to_3() {
    for bad_channels in [1, 2, 4, 6] {
        let json =
            format!(r#"{{"text_config":{{}},"vision_config":{{"num_channels":{bad_channels}}}}}"#);
        let cfg = model_of(&json);
        let err = cfg.validate(Ok(())).unwrap_err();
        assert!(
            matches!(err, Error::OutOfRange(_)),
            "vision_config.num_channels={bad_channels} must be OutOfRange at ModelConfig::validate, got {err:?}"
        );
    }
    let rgb = r#"{"text_config":{},"vision_config":{"num_channels":3}}"#;
    model_of(rgb)
        .validate(Ok(()))
        .expect("num_channels == 3 (RGB) must validate");
    let defaulted = r#"{"text_config":{},"vision_config":{}}"#;
    let cfg = model_of(defaulted);
    assert_eq!(
        cfg.vision_config.num_channels, 3,
        "default num_channels is RGB"
    );
    cfg
        .validate(Ok(()))
        .expect("default (RGB) num_channels must validate");
}

#[test]
fn model_config_rejects_negative_image_token_index() {
    let json = r#"{"text_config": {}, "vision_config": {}, "image_token_index": -1}"#;
    let cfg = model_of(json);
    let err = cfg.validate(Ok(())).unwrap_err();
    assert!(matches!(err, Error::OutOfRange(_)), "got {err:?}");
}

#[test]
fn model_config_propagates_invalid_tower_config() {
    let json = r#"{"text_config": {}, "vision_config": {"num_attention_heads": 0}}"#;
    let cfg = model_of(json);
    let err = cfg.validate(Ok(())).unwrap_err();
    assert!(matches!(err, Error::OutOfRange(_)), "got {err:?}");
}

#[test]
fn model_config_resolves_eos_from_text_config_when_top_level_null() {
    let json = r#"{
        "model_type": "lfm2-vl",
        "eos_token_id": null,
        "bos_token_id": null,
        "pad_token_id": null,
        "text_config": {
            "model_type": "lfm2",
            "hidden_size": 1024,
            "num_hidden_layers": 16,
            "num_attention_heads": 16,
            "num_key_value_heads": 8,
            "vocab_size": 65536,
            "bos_token_id": 1,
            "pad_token_id": 0,
            "eos_token_id": 7
        },
        "vision_config": {"num_channels": 3}
    }"#;
    let cfg = model_of(json);
    assert_eq!(
        cfg.eos_token_id(),
        7,
        "a top-level null eos must resolve from text_config.eos_token_id"
    );
    cfg
        .validate(Ok(()))
        .expect("the canonical-shape config validates");
}

#[test]
fn model_config_top_level_eos_wins_over_text_config() {
    let json = r#"{
        "eos_token_id": 9,
        "text_config": {"eos_token_id": 7},
        "vision_config": {}
    }"#;
    let cfg = model_of(json);
    assert_eq!(
        cfg.eos_token_id(),
        9,
        "a present top-level eos_token_id must take precedence over the nested value"
    );
    cfg.validate(Ok(())).unwrap();
}

#[test]
fn model_config_eos_falls_back_to_default_when_absent_everywhere() {
    for json in [
        r#"{"text_config": {}, "vision_config": {}}"#,
        r#"{"eos_token_id": null, "text_config": {}, "vision_config": {}}"#,
    ] {
        let cfg = model_of(json);
        assert_eq!(
            cfg.eos_token_id(),
            DEFAULT_EOS_TOKEN_ID,
            "absent eos everywhere must fall back to DEFAULT_EOS_TOKEN_ID for {json}"
        );
        cfg.validate(Ok(())).unwrap();
    }
}

#[test]
fn model_config_rejects_oversized_max_num_patches() {
    let over = MAX_PATCH_BUDGET + 1;
    let bad = format!(r#"{{"text_config":{{}},"vision_config":{{}},"max_num_patches":{over}}}"#);
    let cfg = model_of(&bad);
    assert!(
        matches!(cfg.validate(Ok(())).unwrap_err(), Error::OutOfRange(_)),
        "max_num_patches above the patch-budget cap must be OutOfRange"
    );
    let huge = format!(
        r#"{{"text_config":{{}},"vision_config":{{}},"max_num_patches":{}}}"#,
        i32::MAX
    );
    assert!(matches!(
        model_of(&huge)
            .validate(Ok(()))
            .unwrap_err(),
        Error::OutOfRange(_)
    ));
    let at_cap =
        format!(r#"{{"text_config":{{}},"vision_config":{{}},"max_num_patches":{MAX_PATCH_BUDGET}}}"#);
    model_of(&at_cap)
        .validate(Ok(()))
        .expect("max_num_patches == cap validates");
}

#[test]
fn model_config_rejects_oversized_patch_budget_fields() {
    let over = MAX_PATCH_BUDGET + 1;
    for field in ["tile_size", "encoder_patch_size", "max_image_tokens"] {
        let bad = format!(r#"{{"text_config":{{}},"vision_config":{{}},"{field}":{over}}}"#);
        let cfg = model_of(&bad);
        assert!(
            matches!(cfg.validate(Ok(())).unwrap_err(), Error::OutOfRange(_)),
            "{field} above the patch-budget cap must be OutOfRange"
        );
    }
}

#[test]
fn model_config_rejects_oversized_width_fields() {
    let over = i64::from(MAX_CONFIG_DIM) + 1;
    for field in ["downsample_factor", "projector_hidden_size"] {
        let bad = format!(r#"{{"text_config":{{}},"vision_config":{{}},"{field}":{over}}}"#);
        let cfg = model_of(&bad);
        assert!(
            matches!(cfg.validate(Ok(())).unwrap_err(), Error::OutOfRange(_)),
            "{field} above the width cap must be OutOfRange"
        );
    }
}

#[test]
fn vision_config_rejects_oversized_width_fields() {
    let over_w = i64::from(MAX_CONFIG_DIM) + 12;
    for field in [
        "hidden_size",
        "intermediate_size",
        "image_size",
        "patch_size",
    ] {
        let bad = format!(r#"{{"model_type":"lfm2_vl","{field}":{over_w}}}"#);
        let cfg = vision_json(&bad);
        assert!(
            matches!(cfg.validate().unwrap_err(), Error::OutOfRange(_)),
            "vision {field} above the width cap must be OutOfRange"
        );
    }
    let over_sq = 1025i64 * 1025;
    let bad = format!(r#"{{"model_type":"lfm2_vl","num_patches":{over_sq}}}"#);
    assert!(matches!(
        vision_json(&bad)
            .validate()
            .unwrap_err(),
        Error::OutOfRange(_)
    ));
}

#[test]
fn vision_config_rejects_oversized_cardinality_fields() {
    let over = i64::from(MAX_CARDINALITY) + 1;
    for field in ["num_hidden_layers", "num_channels"] {
        let bad = format!(r#"{{"model_type":"lfm2_vl","{field}":{over}}}"#);
        let cfg = vision_json(&bad);
        assert!(
            matches!(cfg.validate().unwrap_err(), Error::CapExceeded(_)),
            "vision {field} above the cardinality cap must be CapExceeded"
        );
    }
    let heads = MAX_CARDINALITY + 1;
    let hidden = i64::from(heads); // hidden_size == heads ⇒ divisible, head_dim == 1
    let bad =
        format!(r#"{{"model_type":"lfm2_vl","num_attention_heads":{heads},"hidden_size":{hidden}}}"#);
    assert!(matches!(
        vision_json(&bad)
            .validate()
            .unwrap_err(),
        Error::CapExceeded(_)
    ));
}

#[test]
fn vision_config_at_caps_validates() {
    let hidden = MAX_CONFIG_DIM; // divisible by MAX_CARDINALITY (1<<20 / 4096 == 256)
    let json = format!(
        r#"{{"model_type":"lfm2_vl","hidden_size":{hidden},"intermediate_size":{MAX_CONFIG_DIM},
                "num_hidden_layers":{MAX_CARDINALITY},"num_attention_heads":{MAX_CARDINALITY},
                "num_channels":3,"image_size":{MAX_CONFIG_DIM},"patch_size":16,
                "num_patches":{MAX_CONFIG_DIM}}}"#
    );
    vision_json(&json)
        .validate()
        .expect("config at the caps validates");
}

#[test]
fn model_config_takes_the_verdict_on_its_text_tower() {
    let cfg = model_of(&full_config_json());
    let verdict = Err(Error::EmptyInput { context: "text tower" });
    let err = cfg.validate(verdict).unwrap_err();
    assert!(matches!(err, Error::EmptyInput { .. }), "got {err:?}");
    // A fault that is found before the text tower is looked at comes first.
    let cfg = model_of(r#"{"text_config":{},"vision_config":{},"max_tiles":0}"#);
    let err = cfg.validate(Err(Error::EmptyInput { context: "text tower" })).unwrap_err();
    assert!(matches!(err, Error::OutOfRange(_)), "got {err:?}");
}

#[test]
fn the_end_of_sequence_token_is_looked_for_in_two_places() {
    assert_eq!(choose_eos_token_id(Some(9), Some(7)), Some(9));
    assert_eq!(choose_eos_token_id(None, Some(7)), Some(7));
    assert_eq!(choose_eos_token_id(None, Some(i64::from(i32::MAX) + 1)), None);
    assert_eq!(choose_eos_token_id(None, None), None);
    let nested: Value = serde_json::from_str(r#"{"eos_token_id": 31}"#).unwrap();
    assert_eq!(resolve_eos_token_id(None, &nested), Some(31));
    let list: Value = serde_json::from_str(r#"{"eos_token_id": [31]}"#).unwrap();
    assert_eq!(resolve_eos_token_id(None, &list), None);
}

#[test]
fn patch_widths_that_overflow_are_refused() {
    let mut cfg = vision_json("{}");
    cfg.patch_size = 65536;
    let err = cfg.patch_feature_dim().unwrap_err();
    assert!(matches!(err, Error::ArithmeticOverflow(_)), "got {err:?}");
}
