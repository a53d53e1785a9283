use zymatica_engine::gemma_hf::{
    layer_candidates, resolve_gemma, resolve_tensor_names, GemmaConfigError, GemmaField, RawGemmaConfig, ResolvedTensor,
};
use zymatica_engine::gguf::plan_gguf_conversion;
use zymatica_engine::model::{find_lora_tensor_name, GemmaConfig};

fn empty_raw() -> RawGemmaConfig {
    RawGemmaConfig {
        model_type: None,
        vocab_size: None,
        hidden_size: None,
        intermediate_size: None,
        num_hidden_layers: None,
        num_attention_heads: None,
        num_key_value_heads: None,
        num_kv_shared_layers: None,
        head_dim: None,
        global_head_dim: None,
        max_position_embeddings: None,
        sliding_window: None,
        layer_types: None,
        hidden_size_per_layer_input: None,
        vocab_size_per_layer_input: None,
        hidden_activation: None,
    }
}

fn legacy_raw() -> RawGemmaConfig {
    RawGemmaConfig {
        model_type: Some("gemma".to_string()),
        vocab_size: Some(10),
        hidden_size: Some(16),
        intermediate_size: Some(32),
        num_hidden_layers: Some(2),
        num_attention_heads: Some(4),
        ..empty_raw()
    }
}

fn config_with_layers(kinds: &[&str], shared: usize) -> GemmaConfig {
    GemmaConfig {
        vocab_size: 32,
        hidden_size: 16,
        intermediate_size: 32,
        num_hidden_layers: kinds.len(),
        num_attention_heads: 4,
        num_key_value_heads: 2,
        num_kv_shared_layers: shared,
        head_dim: 4,
        global_head_dim: None,
        max_position_embeddings: 512,
        sliding_window: Some(512),
        layer_types: kinds.iter().map(|k| k.to_string()).collect(),
        hidden_size_per_layer_input: None,
        vocab_size_per_layer_input: None,
        hidden_activation: "silu".to_string(),
        fold_rms_norm: false,
    }
}

#[test]
fn parses_top_level_config() {
    let raw = RawGemmaConfig {
        model_type: Some("gemma".to_string()),
        vocab_size: Some(256000),
        hidden_size: Some(2048),
        intermediate_size: Some(8192),
        num_hidden_layers: Some(26),
        num_attention_heads: Some(8),
        num_key_value_heads: Some(4),
        num_kv_shared_layers: None,
        head_dim: Some(256),
        global_head_dim: None,
        max_position_embeddings: Some(131072),
        sliding_window: None,
        layer_types: None,
        hidden_size_per_layer_input: None,
        vocab_size_per_layer_input: None,
        hidden_activation: None,
    };
    let cfg = raw.into_config().unwrap();
    assert_eq!(cfg.hidden_size, 2048);
    assert_eq!(cfg.num_key_value_heads, 4);
    assert_eq!(cfg.head_dim, 256);
}

#[test]
fn rejects_inconsistent_head_dim() {
    let raw = RawGemmaConfig {
        model_type: Some("gemma".to_string()),
        vocab_size: Some(10),
        hidden_size: Some(16),
        intermediate_size: Some(32),
        num_hidden_layers: Some(2),
        num_attention_heads: Some(3),
        num_key_value_heads: None,
        num_kv_shared_layers: None,
        head_dim: Some(4),
        global_head_dim: None,
        max_position_embeddings: None,
        sliding_window: None,
        layer_types: None,
        hidden_size_per_layer_input: None,
        vocab_size_per_layer_input: None,
        hidden_activation: None,
    };
    assert!(raw.into_config().is_err());
}

#[test]
fn gemma4_family_config_keeps_its_shape() {
    let raw = RawGemmaConfig {
        model_type: Some("gemma4_text".to_string()),
        vocab_size: Some(262144),
        hidden_size: Some(1536),
        intermediate_size: Some(6144),
        num_hidden_layers: Some(2),
        num_attention_heads: Some(8),
        num_key_value_heads: Some(1),
        num_kv_shared_layers: Some(1),
        head_dim: Some(256),
        global_head_dim: Some(512),
        max_position_embeddings: Some(131072),
        sliding_window: Some(512),
        layer_types: Some(vec!["sliding_attention".to_string(), "full_attention".to_string()]),
        hidden_size_per_layer_input: Some(256),
        vocab_size_per_layer_input: Some(262144),
        hidden_activation: Some("gelu_pytorch_tanh".to_string()),
    };
    assert!(raw.is_gemma2_or_4());
    let cfg = raw.into_config().unwrap();
    assert_eq!(cfg.hidden_size, 1536);
    assert_eq!(cfg.head_dim, 256);
    assert_eq!(cfg.num_kv_shared_layers, 1);
    assert_eq!(cfg.hidden_activation, "gelu_pytorch_tanh");
    assert_eq!(cfg.global_head_dim, Some(512));
    assert!(cfg.validate());
    assert_eq!(cfg.layer_sliding_window(0), Some(512));
    assert_eq!(cfg.layer_sliding_window(1), None);
}

#[test]
fn config_defaults_fill_optional_settings() {
    let cfg = legacy_raw().into_config().unwrap();
    assert_eq!(cfg.num_key_value_heads, 4);
    assert_eq!(cfg.head_dim, 4);
    assert_eq!(cfg.num_kv_shared_layers, 0);
    assert_eq!(cfg.max_position_embeddings, 8192);
    assert_eq!(cfg.layer_types, vec!["sliding_attention".to_string(); 2]);
    assert_eq!(cfg.hidden_activation, "silu");
    assert!(!cfg.fold_rms_norm);
    assert!(cfg.validate());
}

#[test]
fn config_reports_first_missing_field() {
    assert_eq!(
        empty_raw().into_config().unwrap_err(),
        GemmaConfigError::MissingField(GemmaField::VocabSize)
    );
    let raw = RawGemmaConfig { num_attention_heads: None, ..legacy_raw() };
    assert_eq!(raw.into_config().unwrap_err(), GemmaConfigError::MissingField(GemmaField::NumAttentionHeads));
    let raw = RawGemmaConfig { intermediate_size: None, num_attention_heads: None, ..legacy_raw() };
    assert_eq!(raw.into_config().unwrap_err(), GemmaConfigError::MissingField(GemmaField::IntermediateSize));
}

#[test]
fn config_rejects_uneven_head_groups_and_layer_kinds() {
    let raw = RawGemmaConfig { num_key_value_heads: Some(3), ..legacy_raw() };
    assert_eq!(raw.into_config().unwrap_err(), GemmaConfigError::HeadsNotDivisible { heads: 4, kv_heads: 3 });
    let raw = RawGemmaConfig { layer_types: Some(vec!["full_attention".to_string()]), ..legacy_raw() };
    assert_eq!(raw.into_config().unwrap_err(), GemmaConfigError::LayerTypesLength { len: 1, layers: 2 });
    let raw = RawGemmaConfig { head_dim: Some(8), ..legacy_raw() };
    assert_eq!(
        raw.into_config().unwrap_err(),
        GemmaConfigError::LegacyHeadDim { hidden: 16, heads: 4, head_dim: 8 }
    );
}

#[test]
fn gemma_family_is_recognised_by_type_or_per_layer_inputs() {
    let of_type = |t: &str| RawGemmaConfig { model_type: Some(t.to_string()), ..empty_raw() }.is_gemma2_or_4();
    assert!(of_type("gemma2"));
    assert!(of_type("gemma4_text"));
    assert!(of_type("google/gemma-2-9b"));
    assert!(!of_type("gemma"));
    assert!(!of_type("gemma3_text"));
    assert!(!empty_raw().is_gemma2_or_4());
    assert!(RawGemmaConfig { hidden_size_per_layer_input: Some(256), ..empty_raw() }.is_gemma2_or_4());
    let raw = RawGemmaConfig { model_type: Some("gemma2".to_string()), head_dim: Some(8), ..legacy_raw() };
    assert_eq!(raw.into_config().unwrap().head_dim, 8);
}

#[test]
fn shared_kv_layers_reuse_last_own_layer_of_same_kind() {
    let cfg = config_with_layers(
        &["sliding_attention", "full_attention", "sliding_attention", "full_attention", "sliding_attention"],
        2,
    );
    assert_eq!(cfg.shared_kv_source_layer(0), None);
    assert_eq!(cfg.shared_kv_source_layer(2), None);
    assert_eq!(cfg.shared_kv_source_layer(3), Some(1));
    assert_eq!(cfg.shared_kv_source_layer(4), Some(2));
    let unshared = config_with_layers(&["sliding_attention", "full_attention"], 0);
    assert_eq!(unshared.shared_kv_source_layer(1), None);
    let all_shared = config_with_layers(&["sliding_attention", "full_attention"], 2);
    assert_eq!(all_shared.shared_kv_source_layer(1), None);
    let no_match = config_with_layers(&["sliding_attention", "full_attention"], 1);
    assert_eq!(no_match.shared_kv_source_layer(1), None);
}

#[test]
fn validate_checks_layer_count_and_head_groups() {
    let mut cfg = config_with_layers(&["sliding_attention", "full_attention"], 0);
    assert!(cfg.validate());
    cfg.num_hidden_layers = 3;
    assert!(!cfg.validate());
    cfg.num_hidden_layers = 2;
    cfg.num_key_value_heads = 3;
    assert!(!cfg.validate());
}

fn strings(names: &[&str]) -> Vec<String> {
    names.iter().map(|n| n.to_string()).collect()
}

#[test]
fn layer_candidates_cover_each_prefix_in_turn() {
    let c = layer_candidates(3, &["mlp.gate_proj.weight", "mlp.gate.weight"]);
    assert_eq!(
        c,
        strings(&[
            "model.layers.3.mlp.gate_proj.weight",
            "model.layers.3.mlp.gate.weight",
            "model.language_model.layers.3.mlp.gate_proj.weight",
            "model.language_model.layers.3.mlp.gate.weight",
            "language_model.layers.3.mlp.gate_proj.weight",
            "language_model.layers.3.mlp.gate.weight",
        ])
    );
    assert_eq!(layer_candidates(12, &["layer_scalar"])[2], "language_model.layers.12.layer_scalar");
}

#[test]
fn resolves_roles_by_first_present_candidate() {
    let cfg = config_with_layers(&["sliding_attention"], 0);
    let index = strings(&[
        "model.embed_tokens.weight",
        "model.language_model.norm.weight",
        "language_model.layers.0.mlp.gate.weight",
        "model.layers.0.mlp.gate_proj.weight",
        "model.layers.0.self_attn.q_proj.weight",
    ]);
    let tensors = resolve_tensor_names(&cfg, &index);
    assert_eq!(tensors.len(), 6 + 17);
    assert_eq!(
        tensors[0],
        ResolvedTensor { role: "token_embedding".to_string(), name: Some("model.embed_tokens.weight".to_string()) }
    );
    assert_eq!(tensors[1].name, None);
    assert_eq!(tensors[4].name.as_deref(), Some("model.language_model.norm.weight"));
    // No lm_head of its own: the tied embedding stands in.
    assert_eq!(tensors[5].role, "lm_head");
    assert_eq!(tensors[5].name.as_deref(), Some("model.embed_tokens.weight"));
    assert_eq!(tensors[6].role, "layers.0.input_norm");
    assert_eq!(tensors[6 + 6].role, "layers.0.q_proj");
    assert_eq!(tensors[6 + 6].name.as_deref(), Some("model.layers.0.self_attn.q_proj.weight"));
    assert_eq!(tensors[6 + 10].role, "layers.0.gate_proj");
    assert_eq!(tensors[6 + 10].name.as_deref(), Some("model.layers.0.mlp.gate_proj.weight"));
    assert_eq!(tensors[6 + 16].role, "layers.0.post_per_layer_input_norm");

    let resolution = resolve_gemma(cfg, &index);
    assert_eq!(resolution.tensor_count, 5);
    let missing: Vec<&str> = resolution.missing().iter().map(|t| t.role.as_str()).collect();
    assert_eq!(missing.len(), 23 - 5);
    assert!(missing.contains(&"token_embedding_per_layer"));
    assert!(!missing.contains(&"lm_head"));
    assert!(!missing.contains(&"layers.0.q_proj"));
}

#[test]
fn gguf_plan_prefers_gguf_names_and_reports_missing_required_roles() {
    let cfg = config_with_layers(&["sliding_attention", "full_attention"], 0);
    let names = strings(&[
        "token_embd.weight",
        "model.embed_tokens.weight",
        "model.norm.weight",
        "blk.0.attn_q.weight",
        "model.layers.1.self_attn.q_proj.weight",
        "blk.1.attn_k_norm.weight",
    ]);
    let (plan, unfound) = plan_gguf_conversion(&cfg, &names);
    assert_eq!(
        plan,
        vec![
            ("token_embedding".to_string(), "token_embd.weight".to_string(), 32, 16),
            ("final_norm".to_string(), "model.norm.weight".to_string(), 1, 16),
            ("layers.0.q_proj".to_string(), "blk.0.attn_q.weight".to_string(), 16, 16),
            ("layers.1.k_norm".to_string(), "blk.1.attn_k_norm.weight".to_string(), 1, 8),
            ("layers.1.q_proj".to_string(), "model.layers.1.self_attn.q_proj.weight".to_string(), 16, 16),
        ]
    );
    assert_eq!(unfound.len(), 1 + 2 * 10);
    assert_eq!(unfound[0], "lm_head");
    assert_eq!(unfound[1], "layers.0.input_norm");
    assert!(!unfound.iter().any(|r| r.ends_with("q_norm") || r.ends_with("k_norm")));
    assert!(!unfound.iter().any(|r| r == "layers.0.q_proj" || r == "layers.1.q_proj"));
}

#[test]
fn lora_tensor_names_match_layer_projection_and_half() {
    let names = strings(&[
        "base_model.model.model.layers.10.self_attn.v_proj.lora_A.default.weight",
        "base_model.model.model.layers.1.self_attn.v_proj.lora_B.default.weight",
        "base_model.model.model.layers.1.self_attn.v_proj.lora_A.default.weight",
        "base_model.model.model.layers.1.self_attn.q_proj.lora_A.default.weight",
        "base_model.model.model.layers.1.self_attn.v_proj.lora_A.bias",
    ]);
    assert_eq!(
        find_lora_tensor_name(&names, 1, "v_proj", "lora_A").as_deref(),
        Some("base_model.model.model.layers.1.self_attn.v_proj.lora_A.default.weight")
    );
    assert_eq!(
        find_lora_tensor_name(&names, 1, "v_proj", "lora_B").as_deref(),
        Some("base_model.model.model.layers.1.self_attn.v_proj.lora_B.default.weight")
    );
    assert_eq!(
        find_lora_tensor_name(&names, 10, "v_proj", "lora_A").as_deref(),
        Some("base_model.model.model.layers.10.self_attn.v_proj.lora_A.default.weight")
    );
    assert_eq!(find_lora_tensor_name(&names, 1, "o_proj", "lora_A"), None);
    assert_eq!(find_lora_tensor_name(&names, 2, "v_proj", "lora_A"), None);
}

#[test]
fn lora_tensor_name_takes_first_in_string_order() {
    let names = strings(&[
        "z.layers.0.self_attn.q_proj.lora_A.weight",
        "b.layers.0.self_attn.q_proj.lora_A.default.weight",
        "a.layers.0.self_attn.q_proj.lora_A.weight",
    ]);
    assert_eq!(
        find_lora_tensor_name(&names, 0, "q_proj", "lora_A").as_deref(),
        Some("a.layers.0.self_attn.q_proj.lora_A.weight")
    );
    assert_eq!(find_lora_tensor_name(&[], 0, "q_proj", "lora_A"), None);
}
