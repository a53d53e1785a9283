//! Gemma model configs as read from a Hugging Face `config.json`, and the
//! resolution of tensor roles to tensor names.

use crate::cascade::{decimal, push_decimal};
use crate::model::GemmaConfig;
use vstd::prelude::*;

verus! {

/// A tensor role and the name it resolved to, if any.
#[derive(Debug, Clone, PartialEq, Eq)]
pub struct ResolvedTensor {
    pub role: String,
    pub name: Option<String>,
}

/// The integer and text settings of a Gemma `config.json` (or of its
/// `text_config`), each as given or absent. The floating-point settings are
/// read beside it by the caller.
#[derive(Debug, Clone)]
pub struct RawGemmaConfig {
    pub model_type: Option<String>,
    pub vocab_size: Option<usize>,
    pub hidden_size: Option<usize>,
    pub intermediate_size: Option<usize>,
    pub num_hidden_layers: Option<usize>,
    pub num_attention_heads: Option<usize>,
    pub num_key_value_heads: Option<usize>,
    pub num_kv_shared_layers: Option<usize>,
    pub head_dim: Option<usize>,
    pub global_head_dim: Option<usize>,
    pub max_position_embeddings: Option<usize>,
    pub sliding_window: Option<usize>,
    pub layer_types: Option<Vec<String>>,
    pub hidden_size_per_layer_input: Option<usize>,
    pub vocab_size_per_layer_input: Option<usize>,
    pub hidden_activation: Option<String>,
}

/// A setting that a Gemma config must give.
#[derive(Debug, Clone, Copy, PartialEq, Eq)]
pub enum GemmaField {
    VocabSize,
    HiddenSize,
    IntermediateSize,
    NumHiddenLayers,
    NumAttentionHeads,
}

/// Why a Gemma config was refused.
#[derive(Debug, Clone, Copy, PartialEq, Eq)]
pub enum GemmaConfigError {
    /// A required setting is absent.
    MissingField(GemmaField),
    /// The attention heads are not a multiple of the key/value heads.
    HeadsNotDivisible { heads: usize, kv_heads: usize },
    /// `layer_types` does not give one kind per layer.
    LayerTypesLength { len: usize, layers: usize },
    /// A model of the older family whose hidden size is not heads times head size.
    LegacyHeadDim { hidden: usize, heads: usize, head_dim: usize },
}

/// Whether `t` begins with `p`.
pub open spec fn starts_with_bytes(t: Seq<u8>, p: Seq<u8>) -> bool {
    t.len() >= p.len() && t.subrange(0, p.len() as int) == p
}

/// Whether `p` occurs in `t`.
pub open spec fn contains_bytes(t: Seq<u8>, p: Seq<u8>) -> bool {
    exists|i: int| 0 <= i && i + p.len() <= t.len() && #[trigger] t.subrange(i, i + p.len()) == p
}

/// A model type of the Gemma 2 or Gemma 4 family: it starts with "gemma4" or
/// "gemma2", or contains "gemma-2".
pub open spec fn gemma2_or_4_type(t: Seq<u8>) -> bool {
    starts_with_bytes(t, seq![0x67u8, 0x65, 0x6d, 0x6d, 0x61, 0x34])
        || starts_with_bytes(t, seq![0x67u8, 0x65, 0x6d, 0x6d, 0x61, 0x32])
        || contains_bytes(t, seq![0x67u8, 0x65, 0x6d, 0x6d, 0x61, 0x2d, 0x32])
}

/// A config of the Gemma 2 or Gemma 4 family: by its model type, or by having
/// per-layer inputs.
pub open spec fn gemma2_or_4(raw: RawGemmaConfig) -> bool {
    (raw.model_type matches Some(t) && gemma2_or_4_type(vstd::utf8::encode_utf8(t@)))
        || raw.hidden_size_per_layer_input is Some
}

/// All the required settings are given.
pub open spec fn required_present(raw: RawGemmaConfig) -> bool {
    &&& raw.vocab_size is Some
    &&& raw.hidden_size is Some
    &&& raw.intermediate_size is Some
    &&& raw.num_hidden_layers is Some
    &&& raw.num_attention_heads is Some
}

/// The key/value head count: as given, else the attention head count.
pub open spec fn raw_kv_heads(raw: RawGemmaConfig) -> usize {
    match raw.num_key_value_heads {
        Some(k) => k,
        None => raw.num_attention_heads.unwrap(),
    }
}

/// The head size: as given, else the hidden size over the attention heads.
pub open spec fn raw_head_dim(raw: RawGemmaConfig) -> usize {
    match raw.head_dim {
        Some(d) => d,
        None => (raw.hidden_size.unwrap() / raw.num_attention_heads.unwrap()) as usize,
    }
}

/// The inputs on which reading the config divides by zero: no head size and
/// no attention heads, or no key/value heads.
pub open spec fn gemma_config_divides_by_zero(raw: RawGemmaConfig) -> bool {
    required_present(raw) && ((raw.head_dim is None && raw.num_attention_heads.unwrap() == 0)
        || raw_kv_heads(raw) == 0)
}

/// The first reason, in the order the settings are checked, for which the
/// config is refused; none when it is accepted.
pub open spec fn gemma_config_error(raw: RawGemmaConfig) -> Option<GemmaConfigError> {
    if raw.vocab_size is None {
        Some(GemmaConfigError::MissingField(GemmaField::VocabSize))
    } else if raw.hidden_size is None {
        Some(GemmaConfigError::MissingField(GemmaField::HiddenSize))
    } else if raw.intermediate_size is None {
        Some(GemmaConfigError::MissingField(GemmaField::IntermediateSize))
    } else if raw.num_hidden_layers is None {
        Some(GemmaConfigError::MissingField(GemmaField::NumHiddenLayers))
    } else if raw.num_attention_heads is None {
        Some(GemmaConfigError::MissingField(GemmaField::NumAttentionHeads))
    } else if raw.num_attention_heads.unwrap() % raw_kv_heads(raw) != 0 {
        Some(
            GemmaConfigError::HeadsNotDivisible {
                heads: raw.num_attention_heads.unwrap(),
                kv_heads: raw_kv_heads(raw),
            },
        )
    } else if raw.layer_types matches Some(v) && v@.len() != raw.num_hidden_layers.unwrap() {
        Some(
            GemmaConfigError::LayerTypesLength {
                len: raw.layer_types.unwrap()@.len() as usize,
                layers: raw.num_hidden_layers.unwrap(),
            },
        )
    } else if raw.hidden_size.unwrap() != raw.num_attention_heads.unwrap() * raw_head_dim(raw)
        && !gemma2_or_4(raw) {
        Some(
            GemmaConfigError::LegacyHeadDim {
                hidden: raw.hidden_size.unwrap(),
                heads: raw.num_attention_heads.unwrap(),
                head_dim: raw_head_dim(raw),
            },
        )
    } else {
        None
    }
}

/// The config that an accepted raw config gives: each setting as given, the
/// optional ones defaulted (the key/value heads to the attention heads, the
/// head size to hidden size over heads, no shared layers, 8192 positions, every
/// layer a sliding-attention layer, the `silu` activation).
pub open spec fn gemma_config_from_raw(raw: RawGemmaConfig, c: GemmaConfig) -> bool {
    &&& c.vocab_size == raw.vocab_size.unwrap()
    &&& c.hidden_size == raw.hidden_size.unwrap()
    &&& c.intermediate_size == raw.intermediate_size.unwrap()
    &&& c.num_hidden_layers == raw.num_hidden_layers.unwrap()
    &&& c.num_attention_heads == raw.num_attention_heads.unwrap()
    &&& c.num_key_value_heads == raw_kv_heads(raw)
    &&& c.num_kv_shared_layers == (match raw.num_kv_shared_layers {
        Some(k) => k,
        None => 0,
    })
    &&& c.head_dim == raw_head_dim(raw)
    &&& c.global_head_dim == raw.global_head_dim
    &&& c.max_position_embeddings == (match raw.max_position_embeddings {
        Some(m) => m,
        None => 8192,
    })
    &&& c.sliding_window == raw.sliding_window
    &&& c.layer_types@.len() == raw.num_hidden_layers.unwrap()
    &&& (match raw.layer_types {
        Some(v) => c.layer_types@ == v@,
        None => forall|i: int| 0 <= i < c.layer_types@.len() ==> (#[trigger] c.layer_types@[i])@ == "sliding_attention"@,
    })
    &&& c.hidden_size_per_layer_input == raw.hidden_size_per_layer_input
    &&& c.vocab_size_per_layer_input == raw.vocab_size_per_layer_input
    &&& (match raw.hidden_activation {
        Some(a) => c.hidden_activation == a,
        None => c.hidden_activation@ == "silu"@,
    })
    &&& !c.fold_rms_norm
}

/// Whether `t` begins with `p`.
fn bytes_start_with(t: &[u8], p: &[u8]) -> (r: bool)
    ensures
        r == starts_with_bytes(t@, p@),
{
    if t.len() < p.len() {
        return false;
    }
    let mut i: usize = 0;
    while i < p.len()
        invariant
            i <= p@.len() <= t@.len(),
            forall|k: int| 0 <= k < i ==> t@[k] == p@[k],
        decreases p@.len() - i,
    {
        if t[i] != p[i] {
            assert(t@.subrange(0, p@.len() as int)[i as int] != p@[i as int]);
            return false;
        }
        i += 1;
    }
    assert(t@.subrange(0, p@.len() as int) =~= p@);
    true
}

/// Whether `p` occurs in `t`.
pub(crate) fn bytes_contain(t: &[u8], p: &[u8]) -> (r: bool)
    ensures
        r == contains_bytes(t@, p@),
{
    if t.len() < p.len() {
        assert forall|i: int| 0 <= i && i + p@.len() <= t@.len() implies #[trigger] t@.subrange(i, i + p@.len()) != p@ by {}
        return false;
    }
    if p.len() == 0 {
        assert(t@.subrange(0, 0 + p@.len() as int) =~= p@);
        return true;
    }
    let mut i: usize = 0;
    while i <= t.len() - p.len()
        invariant
            0 < p@.len() <= t@.len(),
            i <= t@.len() - p@.len() + 1,
            forall|j: int| 0 <= j < i ==> #[trigger] t@.subrange(j, j + p@.len()) != p@,
        decreases t@.len() - p@.len() + 1 - i,
    {
        let window = vstd::slice::slice_subrange(t, i, i + p.len());
        if crate::cascade::bytes_equal(window, p) {
            return true;
        }
        i += 1;
    }
    false
}

impl RawGemmaConfig {
    /// Whether the config belongs to the Gemma 2 or Gemma 4 family.
    pub fn is_gemma2_or_4(&self) -> (r: bool)
        ensures
            r == gemma2_or_4(*self),
    {
        let by_type: bool = match &self.model_type {
            Some(t) => {
                let b = t.as_str().as_bytes();
                let g4: [u8; 6] = [0x67, 0x65, 0x6d, 0x6d, 0x61, 0x34];
                let g2: [u8; 6] = [0x67, 0x65, 0x6d, 0x6d, 0x61, 0x32];
                let gd2: [u8; 7] = [0x67, 0x65, 0x6d, 0x6d, 0x61, 0x2d, 0x32];
                assert(g4@ =~= seq![0x67u8, 0x65, 0x6d, 0x6d, 0x61, 0x34]);
                assert(g2@ =~= seq![0x67u8, 0x65, 0x6d, 0x6d, 0x61, 0x32]);
                assert(gd2@ =~= seq![0x67u8, 0x65, 0x6d, 0x6d, 0x61, 0x2d, 0x32]);
                bytes_start_with(b, &g4) || bytes_start_with(b, &g2) || bytes_contain(b, &gd2)
            },
            None => false,
        };
        by_type || self.hidden_size_per_layer_input.is_some()
    }

    /// Checks the settings and fills in the defaults. Refused, in this order:
    /// a missing required setting, attention heads that are not a multiple of
    /// the key/value heads, a `layer_types` list of the wrong length, and a
    /// model of the older family whose hidden size is not heads times head size.
    pub fn into_config(self) -> (r: Result<GemmaConfig, GemmaConfigError>)
        requires
            !gemma_config_divides_by_zero(self),
        ensures
            match r {
                Ok(c) => gemma_config_error(self) is None && gemma_config_from_raw(self, c)
                    && crate::model::gemma_config_consistent(c),
                Err(e) => gemma_config_error(self) == Some(e),
            },
    {
        let ghost raw = self;
        let gemma = self.is_gemma2_or_4();
        let vocab_size = match self.vocab_size {
            Some(v) => v,
            None => return Err(GemmaConfigError::MissingField(GemmaField::VocabSize)),
        };
        let hidden_size = match self.hidden_size {
            Some(v) => v,
            None => return Err(GemmaConfigError::MissingField(GemmaField::HiddenSize)),
        };
        let intermediate_size = match self.intermediate_size {
            Some(v) => v,
            None => return Err(GemmaConfigError::MissingField(GemmaField::IntermediateSize)),
        };
        let num_hidden_layers = match self.num_hidden_layers {
            Some(v) => v,
            None => return Err(GemmaConfigError::MissingField(GemmaField::NumHiddenLayers)),
        };
        let num_attention_heads = match self.num_attention_heads {
            Some(v) => v,
            None => return Err(GemmaConfigError::MissingField(GemmaField::NumAttentionHeads)),
        };
        let num_key_value_heads: usize = match self.num_key_value_heads {
            Some(k) => k,
            None => num_attention_heads,
        };
        let head_dim: usize = match self.head_dim {
            Some(d) => d,
            None => hidden_size / num_attention_heads,
        };
        if num_attention_heads % num_key_value_heads != 0 {
            return Err(
                GemmaConfigError::HeadsNotDivisible { heads: num_attention_heads, kv_heads: num_key_value_heads },
            );
        }
        let layer_types: Vec<String> = match self.layer_types {
            Some(v) => {
                if v.len() != num_hidden_layers {
                    return Err(GemmaConfigError::LayerTypesLength { len: v.len(), layers: num_hidden_layers });
                }
                v
            },
            None => {
                let mut v: Vec<String> = Vec::new();
                let mut i: usize = 0;
                while i < num_hidden_layers
                    invariant
                        i <= num_hidden_layers,
                        v@.len() == i,
                        forall|k: int| 0 <= k < i ==> (#[trigger] v@[k])@ == "sliding_attention"@,
                    decreases num_hidden_layers - i,
                {
                    v.push("sliding_attention".to_owned());
                    i += 1;
                }
                v
            },
        };
        let legacy_mismatch: bool = match num_attention_heads.checked_mul(head_dim) {
            Some(p) => hidden_size != p,
            None => true,
        };
        if legacy_mismatch && !gemma {
            return Err(GemmaConfigError::LegacyHeadDim { hidden: hidden_size, heads: num_attention_heads, head_dim });
        }
        let hidden_activation: String = match self.hidden_activation {
            Some(a) => a,
            None => "silu".to_owned(),
        };
        Ok(GemmaConfig {
            vocab_size,
            hidden_size,
            intermediate_size,
            num_hidden_layers,
            num_attention_heads,
            num_key_value_heads,
            num_kv_shared_layers: match self.num_kv_shared_layers {
                Some(k) => k,
                None => 0,
            },
            head_dim,
            global_head_dim: self.global_head_dim,
            max_position_embeddings: match self.max_position_embeddings {
                Some(m) => m,
                None => 8192,
            },
            sliding_window: self.sliding_window,
            layer_types,
            hidden_size_per_layer_input: self.hidden_size_per_layer_input,
            vocab_size_per_layer_input: self.vocab_size_per_layer_input,
            hidden_activation,
            fold_rms_norm: false,
        })
    }
}

/// The names of a list of strings.
pub open spec fn names_of(v: Seq<String>) -> Seq<Seq<char>> {
    v.map_values(|s: String| s@)
}

/// The first of `cands` that is among `names`.
pub open spec fn first_present(cands: Seq<Seq<char>>, names: Seq<Seq<char>>) -> Option<Seq<char>>
    decreases cands.len(),
{
    if cands.len() == 0 {
        None
    } else if names.contains(cands[0]) {
        Some(cands[0])
    } else {
        first_present(cands.drop_first(), names)
    }
}

/// The name an optional string holds.
pub open spec fn opt_name(o: Option<String>) -> Option<Seq<char>> {
    match o {
        Some(s) => Some(s@),
        None => None,
    }
}

proof fn lemma_names_push(v: Seq<String>, x: String)
    ensures
        names_of(v.push(x)) == names_of(v).push(x@),
{
    assert(names_of(v.push(x)) =~= names_of(v).push(x@));
}

proof fn lemma_strs_push(v: Seq<&str>, x: &str)
    ensures
        v.push(x).map_values(|s: &str| s@) == v.map_values(|s: &str| s@).push(x@),
{
    assert(v.push(x).map_values(|s: &str| s@) =~= v.map_values(|s: &str| s@).push(x@));
}

proof fn lemma_under_base_push(base: Seq<char>, v: Seq<Seq<char>>, x: Seq<char>)
    ensures
        under_base(base, v.push(x)) == under_base(base, v).push(base + "."@ + x),
{
    assert(under_base(base, v.push(x)) =~= under_base(base, v).push(base + "."@ + x));
}

/// Whether `names` holds `s`.
fn holds_name(names: &[String], s: &String) -> (r: bool)
    ensures
        r == names_of(names@).contains(s@),
{
    let mut i: usize = 0;
    while i < names.len()
        invariant
            i <= names@.len(),
            forall|k: int| 0 <= k < i ==> names@[k]@ != s@,
        decreases names@.len() - i,
    {
        if names[i] == *s {
            assert(names_of(names@)[i as int] == s@);
            return true;
        }
        i += 1;
    }
    assert forall|k: int| 0 <= k < names_of(names@).len() implies names_of(names@)[k] != s@ by {}
    false
}

/// The first of `cands` that the index `names` holds.
pub(crate) fn find_first(names: &[String], cands: &Vec<String>) -> (r: Option<String>)
    ensures
        opt_name(r) == first_present(names_of(cands@), names_of(names@)),
{
    let ghost ns = names_of(names@);
    assert(names_of(cands@).subrange(0, cands@.len() as int) =~= names_of(cands@));
    let mut i: usize = 0;
    while i < cands.len()
        invariant
            i <= cands@.len(),
            ns == names_of(names@),
            first_present(names_of(cands@), ns) == first_present(names_of(cands@).subrange(i as int, cands@.len() as int), ns),
        decreases cands@.len() - i,
    {
        let ghost rest = names_of(cands@).subrange(i as int, cands@.len() as int);
        assert(rest[0] == cands@[i as int]@);
        assert(rest.drop_first() =~= names_of(cands@).subrange(i + 1, cands@.len() as int));
        if holds_name(names, &cands[i]) {
            return Some(cands[i].clone());
        }
        i += 1;
    }
    assert(names_of(cands@).subrange(i as int, cands@.len() as int).len() == 0);
    None
}

/// A tensor role of the whole model: its name and the tensor names it may go
/// by, in order of preference.
pub open spec fn gemma_model_role(k: int) -> (Seq<char>, Seq<Seq<char>>) {
    if k == 0 {
        ("token_embedding"@, seq![
            "model.embed_tokens.weight"@,
            "model.language_model.embed_tokens.weight"@,
            "language_model.embed_tokens.weight"@,
        ])
    } else if k == 1 {
        ("token_embedding_per_layer"@, seq![
            "model.embed_tokens_per_layer.weight"@,
            "model.language_model.embed_tokens_per_layer.weight"@,
            "language_model.embed_tokens_per_layer.weight"@,
        ])
    } else if k == 2 {
        ("per_layer_model_projection"@, seq![
            "model.per_layer_model_projection.weight"@,
            "model.language_model.per_layer_model_projection.weight"@,
            "language_model.per_layer_model_projection.weight"@,
        ])
    } else if k == 3 {
        ("per_layer_projection_norm"@, seq![
            "model.per_layer_projection_norm.weight"@,
            "model.language_model.per_layer_projection_norm.weight"@,
            "language_model.per_layer_projection_norm.weight"@,
        ])
    } else if k == 4 {
        ("final_norm"@, seq!["model.norm.weight"@, "model.language_model.norm.weight"@, "language_model.norm.weight"@])
    } else {
        ("lm_head"@, seq![
            "lm_head.weight"@,
            "model.lm_head.weight"@,
            "model.language_model.lm_head.weight"@,
            "language_model.lm_head.weight"@,
            "model.embed_tokens.weight"@,
            "model.language_model.embed_tokens.weight"@,
        ])
    }
}

/// A tensor role of each layer: its name and the suffixes its tensor may go
/// by, in order of preference.
pub open spec fn gemma_layer_role(j: int) -> (Seq<char>, Seq<Seq<char>>) {
    if j == 0 {
        ("input_norm"@, seq!["input_layernorm.weight"@, "pre_attention_layernorm.weight"@])
    } else if j == 1 {
        ("post_attention_norm"@, seq!["post_attention_layernorm.weight"@])
    } else if j == 2 {
        ("pre_feedforward_norm"@, seq!["pre_feedforward_layernorm.weight"@])
    } else if j == 3 {
        ("post_feedforward_norm"@, seq!["post_feedforward_layernorm.weight"@])
    } else if j == 4 {
        ("q_norm"@, seq!["self_attn.q_norm.weight"@])
    } else if j == 5 {
        ("k_norm"@, seq!["self_attn.k_norm.weight"@])
    } else if j == 6 {
        ("q_proj"@, seq!["self_attn.q_proj.weight"@])
    } else if j == 7 {
        ("k_proj"@, seq!["self_attn.k_proj.weight"@])
    } else if j == 8 {
        ("v_proj"@, seq!["self_attn.v_proj.weight"@])
    } else if j == 9 {
        ("o_proj"@, seq!["self_attn.o_proj.weight"@])
    } else if j == 10 {
        ("gate_proj"@, seq!["mlp.gate_proj.weight"@, "mlp.gate.weight"@])
    } else if j == 11 {
        ("up_proj"@, seq!["mlp.up_proj.weight"@, "mlp.up.weight"@])
    } else if j == 12 {
        ("down_proj"@, seq!["mlp.down_proj.weight"@, "mlp.down.weight"@])
    } else if j == 13 {
        ("layer_scalar"@, seq!["layer_scalar"@])
    } else if j == 14 {
        ("per_layer_input_gate"@, seq!["per_layer_input_gate.weight"@])
    } else if j == 15 {
        ("per_layer_projection"@, seq!["per_layer_projection.weight"@])
    } else {
        ("post_per_layer_input_norm"@, seq!["post_per_layer_input_norm.weight"@])
    }
}

/// The number of tensor roles of the whole model.
pub open spec fn gemma_model_roles() -> int {
    6
}

/// The number of tensor roles of each layer.
pub open spec fn gemma_layer_roles() -> int {
    17
}

/// The prefixes under which a layer's tensors may stand.
pub open spec fn layer_bases(layer: nat) -> Seq<Seq<char>> {
    seq![
        "model.layers."@ + decimal(layer),
        "model.language_model.layers."@ + decimal(layer),
        "language_model.layers."@ + decimal(layer),
    ]
}

/// Each suffix under `base`.
pub open spec fn under_base(base: Seq<char>, suffixes: Seq<Seq<char>>) -> Seq<Seq<char>> {
    suffixes.map_values(|s: Seq<char>| base + "."@ + s)
}

/// The names a layer's tensor may go by: every suffix under the first
/// prefix, then under the second, then under the third.
pub open spec fn layer_candidates_spec(layer: nat, suffixes: Seq<Seq<char>>) -> Seq<Seq<char>> {
    let b = layer_bases(layer);
    under_base(b[0], suffixes) + under_base(b[1], suffixes) + under_base(b[2], suffixes)
}

/// The `k`-th role of the resolution: the model roles, then each layer's
/// roles in turn; its name and its candidate tensor names.
pub open spec fn gemma_role(k: int) -> (Seq<char>, Seq<Seq<char>>) {
    if k < gemma_model_roles() {
        gemma_model_role(k)
    } else {
        let layer = ((k - gemma_model_roles()) / gemma_layer_roles()) as nat;
        let j = (k - gemma_model_roles()) % gemma_layer_roles();
        let (role, suffixes) = gemma_layer_role(j);
        ("layers."@ + decimal(layer) + "."@ + role, layer_candidates_spec(layer, suffixes))
    }
}

/// `out` resolves the `k`-th role against the tensor names `names`.
pub open spec fn resolves_role(t: ResolvedTensor, k: int, names: Seq<Seq<char>>) -> bool {
    t.role@ == gemma_role(k).0 && opt_name(t.name) == first_present(gemma_role(k).1, names)
}

/// A model role of the whole model, as literals.
fn model_role(k: usize) -> (r: (&'static str, Vec<&'static str>))
    requires
        k < 6,
    ensures
        r.0@ == gemma_model_role(k as int).0,
        r.1@.map_values(|s: &str| s@) == gemma_model_role(k as int).1,
{
    let r: (&'static str, Vec<&'static str>) = if k == 0 {
        ("token_embedding", vec![
            "model.embed_tokens.weight",
            "model.language_model.embed_tokens.weight",
            "language_model.embed_tokens.weight",
        ])
    } else if k == 1 {
        ("token_embedding_per_layer", vec![
            "model.embed_tokens_per_layer.weight",
            "model.language_model.embed_tokens_per_layer.weight",
            "language_model.embed_tokens_per_layer.weight",
        ])
    } else if k == 2 {
        ("per_layer_model_projection", vec![
            "model.per_layer_model_projection.weight",
            "model.language_model.per_layer_model_projection.weight",
            "language_model.per_layer_model_projection.weight",
        ])
    } else if k == 3 {
        ("per_layer_projection_norm", vec![
            "model.per_layer_projection_norm.weight",
            "model.language_model.per_layer_projection_norm.weight",
            "language_model.per_layer_projection_norm.weight",
        ])
    } else if k == 4 {
        ("final_norm", vec!["model.norm.weight", "model.language_model.norm.weight", "language_model.norm.weight"])
    } else {
        ("lm_head", vec![
            "lm_head.weight",
            "model.lm_head.weight",
            "model.language_model.lm_head.weight",
            "language_model.lm_head.weight",
            "model.embed_tokens.weight",
            "model.language_model.embed_tokens.weight",
        ])
    };
    assert(r.1@.map_values(|s: &str| s@) =~= gemma_model_role(k as int).1);
    r
}

/// A tensor role of each layer, as literals.
fn layer_role(j: usize) -> (r: (&'static str, Vec<&'static str>))
    requires
        j < 17,
    ensures
        r.0@ == gemma_layer_role(j as int).0,
        r.1@.map_values(|s: &str| s@) == gemma_layer_role(j as int).1,
{
    let r: (&'static str, Vec<&'static str>) = if j == 0 {
        ("input_norm", vec!["input_layernorm.weight", "pre_attention_layernorm.weight"])
    } else if j == 1 {
        ("post_attention_norm", vec!["post_attention_layernorm.weight"])
    } else if j == 2 {
        ("pre_feedforward_norm", vec!["pre_feedforward_layernorm.weight"])
    } else if j == 3 {
        ("post_feedforward_norm", vec!["post_feedforward_layernorm.weight"])
    } else if j == 4 {
        ("q_norm", vec!["self_attn.q_norm.weight"])
    } else if j == 5 {
        ("k_norm", vec!["self_attn.k_norm.weight"])
    } else if j == 6 {
        ("q_proj", vec!["self_attn.q_proj.weight"])
    } else if j == 7 {
        ("k_proj", vec!["self_attn.k_proj.weight"])
    } else if j == 8 {
        ("v_proj", vec!["self_attn.v_proj.weight"])
    } else if j == 9 {
        ("o_proj", vec!["self_attn.o_proj.weight"])
    } else if j == 10 {
        ("gate_proj", vec!["mlp.gate_proj.weight", "mlp.gate.weight"])
    } else if j == 11 {
        ("up_proj", vec!["mlp.up_proj.weight", "mlp.up.weight"])
    } else if j == 12 {
        ("down_proj", vec!["mlp.down_proj.weight", "mlp.down.weight"])
    } else if j == 13 {
        ("layer_scalar", vec!["layer_scalar"])
    } else if j == 14 {
        ("per_layer_input_gate", vec!["per_layer_input_gate.weight"])
    } else if j == 15 {
        ("per_layer_projection", vec!["per_layer_projection.weight"])
    } else {
        ("post_per_layer_input_norm", vec!["post_per_layer_input_norm.weight"])
    };
    assert(r.1@.map_values(|s: &str| s@) =~= gemma_layer_role(j as int).1);
    r
}

/// The literals `lits` as owned strings.
pub(crate) fn owned_names(lits: &Vec<&'static str>) -> (r: Vec<String>)
    ensures
        names_of(r@) == lits@.map_values(|s: &str| s@),
{
    let mut out: Vec<String> = Vec::new();
    let mut i: usize = 0;
    while i < lits.len()
        invariant
            i <= lits@.len(),
            names_of(out@) == lits@.subrange(0, i as int).map_values(|s: &str| s@),
        decreases lits@.len() - i,
    {
        let ghost prev = out@;
        let o: String = lits[i].to_owned();
        assert(o@ == lits@[i as int]@);
        out.push(o);
        assert(out@ == prev.push(o));
        assert(lits@.subrange(0, i + 1) =~= lits@.subrange(0, i as int).push(lits@[i as int]));
        proof {
            lemma_names_push(prev, o);
            lemma_strs_push(lits@.subrange(0, i as int), lits@[i as int]);
        }
        i += 1;
    }
    assert(lits@.subrange(0, lits@.len() as int) =~= lits@);
    out
}

/// The `b`-th prefix of layer `layer`'s tensors.
fn layer_base(layer: usize, b: usize) -> (r: String)
    requires
        b < 3,
    ensures
        r@ == layer_bases(layer as nat)[b as int],
{
    let mut s: String = if b == 0 {
        "model.layers.".to_owned()
    } else if b == 1 {
        "model.language_model.layers.".to_owned()
    } else {
        "language_model.layers.".to_owned()
    };
    push_decimal(&mut s, layer);
    s
}

/// The names layer `layer`'s tensor with suffixes `suffixes` may go by.
pub fn layer_candidates(layer: usize, suffixes: &[&str]) -> (r: Vec<String>)
    ensures
        names_of(r@) == layer_candidates_spec(layer as nat, suffixes@.map_values(|s: &str| s@)),
{
    let ghost sfx = suffixes@.map_values(|s: &str| s@);
    let mut out: Vec<String> = Vec::new();
    let mut b: usize = 0;
    while b < 3
        invariant
            b <= 3,
            sfx == suffixes@.map_values(|s: &str| s@),
            names_of(out@) == (if b == 0 {
                Seq::<Seq<char>>::empty()
            } else if b == 1 {
                under_base(layer_bases(layer as nat)[0], sfx)
            } else if b == 2 {
                under_base(layer_bases(layer as nat)[0], sfx) + under_base(layer_bases(layer as nat)[1], sfx)
            } else {
                layer_candidates_spec(layer as nat, sfx)
            }),
        decreases 3 - b,
    {
        let base = layer_base(layer, b);
        let ghost before = names_of(out@);
        let mut t: usize = 0;
        while t < suffixes.len()
            invariant
                t <= suffixes@.len(),
                b < 3,
                base@ == layer_bases(layer as nat)[b as int],
                sfx == suffixes@.map_values(|s: &str| s@),
                names_of(out@) == before + under_base(base@, sfx.subrange(0, t as int)),
            decreases suffixes@.len() - t,
        {
            let mut name: String = base.clone();
            name.append(".");
            name.append(suffixes[t]);
            assert(name@ == base@ + "."@ + sfx[t as int]);
            let ghost prev = out@;
            out.push(name);
            assert(out@ == prev.push(name));
            assert(sfx.subrange(0, t + 1) =~= sfx.subrange(0, t as int).push(sfx[t as int]));
            proof {
                lemma_names_push(prev, name);
                lemma_under_base_push(base@, sfx.subrange(0, t as int), sfx[t as int]);
            }
            assert(names_of(out@) =~= before + under_base(base@, sfx.subrange(0, t + 1)));
            t += 1;
        }
        assert(sfx.subrange(0, suffixes@.len() as int) =~= sfx);
        b += 1;
        assert(names_of(out@) =~= (if b == 1 {
            under_base(layer_bases(layer as nat)[0], sfx)
        } else if b == 2 {
            under_base(layer_bases(layer as nat)[0], sfx) + under_base(layer_bases(layer as nat)[1], sfx)
        } else {
            layer_candidates_spec(layer as nat, sfx)
        }));
    }
    out
}

/// Resolves each tensor role of a model with `config`'s layer count against
/// the tensor names `index` holds: the model roles, then for each layer its
/// roles, each with the first of its candidate names that `index` holds.
pub fn resolve_tensor_names(config: &GemmaConfig, index: &[String]) -> (r: Vec<ResolvedTensor>)
    ensures
        r@.len() == gemma_model_roles() + gemma_layer_roles() * config.num_hidden_layers,
        forall|k: int| 0 <= k < r@.len() ==> resolves_role(#[trigger] r@[k], k, names_of(index@)),
{
    let ghost names = names_of(index@);
    let mut out: Vec<ResolvedTensor> = Vec::new();
    let mut k: usize = 0;
    while k < 6
        invariant
            k <= 6,
            names == names_of(index@),
            out@.len() == k,
            forall|q: int| 0 <= q < out@.len() ==> resolves_role(#[trigger] out@[q], q, names),
        decreases 6 - k,
    {
        let (role, lits) = model_role(k);
        let cands = owned_names(&lits);
        let t = ResolvedTensor { role: role.to_owned(), name: find_first(index, &cands) };
        assert(resolves_role(t, k as int, names));
        let ghost prev = out@;
        out.push(t);
        assert(forall|q: int| 0 <= q < prev.len() ==> out@[q] == prev[q]);
        k += 1;
    }
    let n: usize = config.num_hidden_layers;
    let mut layer: usize = 0;
    while layer < n
        invariant
            layer <= n,
            n == config.num_hidden_layers,
            names == names_of(index@),
            out@.len() == 6 + 17 * layer,
            forall|q: int| 0 <= q < out@.len() ==> resolves_role(#[trigger] out@[q], q, names),
        decreases n - layer,
    {
        let mut j: usize = 0;
        while j < 17
            invariant
                j <= 17,
                layer < n,
                names == names_of(index@),
                out@.len() == 6 + 17 * layer + j,
                forall|q: int| 0 <= q < out@.len() ==> resolves_role(#[trigger] out@[q], q, names),
            decreases 17 - j,
        {
            let (role, sfx) = layer_role(j);
            let cands = layer_candidates(layer, sfx.as_slice());
            let mut label: String = "layers.".to_owned();
            push_decimal(&mut label, layer);
            label.append(".");
            label.append(role);
            let t = ResolvedTensor { role: label, name: find_first(index, &cands) };
            proof {
                let q: int = 6 + 17 * layer + j;
                assert((q - 6) / 17 == layer as int) by (nonlinear_arith)
                    requires q == 6 + 17 * layer + j, 0 <= j < 17;
                assert((q - 6) % 17 == j as int) by (nonlinear_arith)
                    requires q == 6 + 17 * layer + j, 0 <= j < 17;
                assert(resolves_role(t, q, names));
            }
            let ghost prev = out@;
            out.push(t);
            assert(forall|q: int| 0 <= q < prev.len() ==> out@[q] == prev[q]);
            j += 1;
        }
        layer += 1;
    }
    out
}

/// The outcome of resolving a model's tensors: its config, how many tensors
/// its index holds, and each role with the name it resolved to.
#[derive(Debug, Clone)]
pub struct GemmaResolution {
    pub config: GemmaConfig,
    pub tensor_count: usize,
    pub tensors: Vec<ResolvedTensor>,
}

impl GemmaResolution {
    /// The roles that did not resolve, in order.
    pub fn missing(&self) -> (r: Vec<&ResolvedTensor>)
        ensures
            r@.map_values(|t: &ResolvedTensor| *t) == self.tensors@.filter(|t: ResolvedTensor| t.name is None),
    {
        let mut out: Vec<&ResolvedTensor> = Vec::new();
        let mut i: usize = 0;
        assert(self.tensors@.subrange(0, 0).filter(|t: ResolvedTensor| t.name is None) =~= Seq::<ResolvedTensor>::empty());
        while i < self.tensors.len()
            invariant
                i <= self.tensors@.len(),
                out@.map_values(|t: &ResolvedTensor| *t) == self.tensors@.subrange(0, i as int).filter(
                    |t: ResolvedTensor| t.name is None,
                ),
            decreases self.tensors@.len() - i,
        {
            let ghost before = out@;
            let t = &self.tensors[i];
            proof {
                let pre = self.tensors@.subrange(0, i as int);
                assert(self.tensors@.subrange(0, i + 1) =~= pre.push(self.tensors@[i as int]));
                reveal(Seq::filter);
                assert(pre.push(self.tensors@[i as int]).drop_last() =~= pre);
            }
            if t.name.is_none() {
                out.push(t);
                assert(out@.map_values(|t: &ResolvedTensor| *t) =~= before.map_values(|t: &ResolvedTensor| *t).push(*t));
            } else {
                assert(out@.map_values(|t: &ResolvedTensor| *t) =~= before.map_values(|t: &ResolvedTensor| *t));
            }
            i += 1;
        }
        assert(self.tensors@.subrange(0, self.tensors@.len() as int) =~= self.tensors@);
        out
    }
}

/// Resolves the tensors of a model with `config` against the tensor names
/// `index` holds.
pub fn resolve_gemma(config: GemmaConfig, index: &[String]) -> (r: GemmaResolution)
    ensures
        r.config == config,
        r.tensor_count == index@.len(),
        r.tensors@.len() == gemma_model_roles() + gemma_layer_roles() * config.num_hidden_layers,
        forall|k: int| 0 <= k < r.tensors@.len() ==> resolves_role(#[trigger] r.tensors@[k], k, names_of(index@)),
{
    let tensors = resolve_tensor_names(&config, index);
    GemmaResolution { config, tensor_count: index.len(), tensors }
}

} // verus!
