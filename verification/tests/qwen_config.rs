use zymatica_engine::model::QuantMode;
use zymatica_engine::qwen35::{
    quant_ext, Qwen35Config, Qwen35ConfigError, Qwen35LayerType, RawQwen35RootConfig, RawQwen35TextConfig,
};

fn layer_names(layers: usize) -> Vec<String> {
    (0..layers)
        .map(|i| if i % 4 == 3 { "full_attention" } else { "linear_attention" }.to_string())
        .collect()
}

fn text_config(hidden: usize, intermediate: usize, layers: usize, heads: usize, kv: usize, lin_v: usize) -> RawQwen35TextConfig {
    RawQwen35TextConfig {
        model_type: Some("qwen3_5_text".to_string()),
        vocab_size: 248320,
        hidden_size: hidden,
        intermediate_size: intermediate,
        num_hidden_layers: layers,
        num_attention_heads: heads,
        num_key_value_heads: kv,
        head_dim: 256,
        linear_conv_kernel_dim: 4,
        linear_key_head_dim: 128,
        linear_value_head_dim: 128,
        linear_num_key_heads: 16,
        linear_num_value_heads: lin_v,
        layer_types: layer_names(layers),
        max_position_embeddings: 262144,
        hidden_act: Some("silu".to_string()),
        eos_token_id: Some(248044),
    }
}

fn root(text: RawQwen35TextConfig) -> RawQwen35RootConfig {
    RawQwen35RootConfig { model_type: Some("qwen3_5".to_string()), text_config: Some(text) }
}

fn small() -> RawQwen35TextConfig {
    text_config(1024, 3584, 24, 8, 2, 16)
}

#[test]
fn official_qwen35_small_config_shape() {
    let cfg: Qwen35Config = root(small()).into_config(64).unwrap();
    assert_eq!(cfg.hidden_size, 1024);
    assert_eq!(cfg.num_hidden_layers, 24);
    assert_eq!(cfg.linear_conv_dim(), 6144);
    assert_eq!(cfg.layer_types[3], Qwen35LayerType::FullAttention);
    assert_eq!(cfg.layer_types[0], Qwen35LayerType::LinearAttention);
    assert_eq!(cfg.eos_token_id, Some(248044));
}

#[test]
fn official_qwen35_4b_config_shape() {
    let cfg = root(text_config(2560, 9216, 32, 16, 4, 32)).into_config(64).unwrap();
    assert_eq!(cfg.hidden_size, 2560);
    assert_eq!(cfg.num_hidden_layers, 32);
    assert_eq!(cfg.linear_key_dim(), 2048);
    assert_eq!(cfg.linear_value_dim(), 4096);
    assert_eq!(cfg.linear_conv_dim(), 8192);
    assert_eq!(cfg.layer_types.iter().filter(|l| **l == Qwen35LayerType::FullAttention).count(), 8);
}

#[test]
fn qwen35_config_refuses_other_models() {
    let no_text = RawQwen35RootConfig { model_type: Some("qwen3_5".to_string()), text_config: None };
    assert_eq!(no_text.into_config(64).unwrap_err(), Qwen35ConfigError::MissingTextConfig);
    let other_root = RawQwen35RootConfig { model_type: Some("qwen3".to_string()), text_config: Some(small()) };
    assert_eq!(other_root.into_config(64).unwrap_err(), Qwen35ConfigError::NotQwen35);
    let untyped = RawQwen35RootConfig { model_type: None, text_config: Some(small()) };
    assert_eq!(untyped.into_config(64).unwrap_err(), Qwen35ConfigError::NotQwen35);
    let other_text = RawQwen35TextConfig { model_type: None, ..small() };
    assert_eq!(root(other_text).into_config(64).unwrap_err(), Qwen35ConfigError::NotQwen35);
}

#[test]
fn qwen35_config_reports_first_unknown_layer_kind() {
    let mut names = layer_names(24);
    names[5] = "sliding_attention".to_string();
    names[9] = "mamba".to_string();
    let text = RawQwen35TextConfig { layer_types: names, ..small() };
    assert_eq!(root(text).into_config(64).unwrap_err(), Qwen35ConfigError::UnsupportedLayerType { index: 5 });
}

#[test]
fn qwen35_config_checks_in_order() {
    let text = RawQwen35TextConfig { num_hidden_layers: 23, num_key_value_heads: 3, ..small() };
    assert_eq!(root(text).into_config(64).unwrap_err(), Qwen35ConfigError::LayerTypesLength { len: 24, layers: 23 });
    let text = RawQwen35TextConfig { num_key_value_heads: 3, ..small() };
    assert_eq!(root(text).into_config(64).unwrap_err(), Qwen35ConfigError::HeadsNotDivisible { heads: 8, kv_heads: 3 });
    let text = RawQwen35TextConfig { linear_num_value_heads: 24, ..small() };
    assert_eq!(
        root(text).into_config(64).unwrap_err(),
        Qwen35ConfigError::LinearHeadsNotDivisible { value_heads: 24, key_heads: 16 }
    );
    let text = RawQwen35TextConfig { hidden_act: Some("gelu".to_string()), ..small() };
    assert_eq!(root(text).into_config(64).unwrap_err(), Qwen35ConfigError::UnsupportedActivation);
    let text = RawQwen35TextConfig { hidden_act: None, ..small() };
    assert_eq!(root(text).into_config(64).unwrap().hidden_act, "silu");
    for bad in [0usize, 63, 258] {
        assert_eq!(
            root(small()).into_config(bad).unwrap_err(),
            Qwen35ConfigError::RotaryDim { rotary_dim: bad, head_dim: 256 }
        );
    }
    assert!(root(small()).into_config(256).is_ok());
}

#[test]
fn zero_heads_divide_only_zero() {
    let text = RawQwen35TextConfig { num_attention_heads: 0, num_key_value_heads: 0, ..small() };
    assert!(root(text).into_config(64).is_ok());
    let text = RawQwen35TextConfig { num_key_value_heads: 0, ..small() };
    assert_eq!(root(text).into_config(64).unwrap_err(), Qwen35ConfigError::HeadsNotDivisible { heads: 8, kv_heads: 0 });
}

#[test]
fn quant_cache_extensions_follow_mode() {
    assert_eq!(quant_ext(QuantMode::Q8), "zq8");
    assert_eq!(quant_ext(QuantMode::Q5), "zq5");
    assert_eq!(quant_ext(QuantMode::Q4), "zq4");
    assert_eq!(quant_ext(QuantMode::Q3), "zq3");
    assert_eq!(quant_ext(QuantMode::Q1_58), "zq3");
}
