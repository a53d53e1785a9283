//! Qwen3.5 text model configs: the layer kinds, the derived sizes of the
//! linear-attention layers, and the checks a config must pass.

use crate::model::QuantMode;
use vstd::prelude::*;

verus! {

/// The kind of a Qwen3.5 layer's token mixer.
#[derive(Debug, Clone, Copy, PartialEq, Eq, Structural)]
pub enum Qwen35LayerType {
    LinearAttention,
    FullAttention,
}

/// Architecture of a Qwen3.5 text model: sizes, layer kinds and names. The
/// floating-point settings (norm epsilon, rope base, rotary fraction) are
/// carried beside it by the caller.
#[derive(Debug, Clone)]
pub struct Qwen35Config {
    pub vocab_size: usize,
    pub hidden_size: usize,
    pub intermediate_size: usize,
    pub num_hidden_layers: usize,
    pub num_attention_heads: usize,
    pub num_key_value_heads: usize,
    pub head_dim: usize,
    pub linear_conv_kernel_dim: usize,
    pub linear_key_head_dim: usize,
    pub linear_value_head_dim: usize,
    pub linear_num_key_heads: usize,
    pub linear_num_value_heads: usize,
    pub layer_types: Vec<Qwen35LayerType>,
    pub max_position_embeddings: usize,
    pub hidden_act: String,
    pub eos_token_id: Option<usize>,
}

/// The settings of the `text_config` of a Qwen3.5 `config.json` that are
/// integers or text.
#[derive(Debug, Clone)]
pub struct RawQwen35TextConfig {
    pub model_type: Option<String>,
    pub vocab_size: usize,
    pub hidden_size: usize,
    pub intermediate_size: usize,
    pub num_hidden_layers: usize,
    pub num_attention_heads: usize,
    pub num_key_value_heads: usize,
    pub head_dim: usize,
    pub linear_conv_kernel_dim: usize,
    pub linear_key_head_dim: usize,
    pub linear_value_head_dim: usize,
    pub linear_num_key_heads: usize,
    pub linear_num_value_heads: usize,
    pub layer_types: Vec<String>,
    pub max_position_embeddings: usize,
    pub hidden_act: Option<String>,
    pub eos_token_id: Option<usize>,
}

/// The root of a Qwen3.5 `config.json`.
#[derive(Debug, Clone)]
pub struct RawQwen35RootConfig {
    pub model_type: Option<String>,
    pub text_config: Option<RawQwen35TextConfig>,
}

/// Why a Qwen3.5 config was refused.
#[derive(Debug, Clone, Copy, PartialEq, Eq)]
pub enum Qwen35ConfigError {
    /// The root has no `text_config`.
    MissingTextConfig,
    /// The model types are not those of a Qwen3.5 text model.
    NotQwen35,
    /// The layer kind at this position is neither linear nor full attention.
    UnsupportedLayerType { index: usize },
    /// `layer_types` does not give one kind per layer.
    LayerTypesLength { len: usize, layers: usize },
    /// The attention heads are not a multiple of the key/value heads.
    HeadsNotDivisible { heads: usize, kv_heads: usize },
    /// The linear value heads are not a multiple of the linear key heads.
    LinearHeadsNotDivisible { value_heads: usize, key_heads: usize },
    /// The activation is not `silu`.
    UnsupportedActivation,
    /// The rotary dimension is zero, odd, or wider than a head.
    RotaryDim { rotary_dim: usize, head_dim: usize },
}

/// `a` is a multiple of `b` (zero being the only multiple of zero).
pub open spec fn multiple_of(a: int, b: int) -> bool {
    if b == 0 {
        a == 0
    } else {
        a % b == 0
    }
}

fn is_multiple_of(a: usize, b: usize) -> (r: bool)
    ensures
        r == multiple_of(a as int, b as int),
{
    if b == 0 {
        a == 0
    } else {
        a % b == 0
    }
}

/// Width of the keys of a linear-attention layer.
pub open spec fn linear_key_dim_spec(c: Qwen35Config) -> int {
    c.linear_num_key_heads * c.linear_key_head_dim
}

/// Width of the values of a linear-attention layer.
pub open spec fn linear_value_dim_spec(c: Qwen35Config) -> int {
    c.linear_num_value_heads * c.linear_value_head_dim
}

/// Width of the convolved channels of a linear-attention layer: queries and
/// keys, then values.
pub open spec fn linear_conv_dim_spec(c: Qwen35Config) -> int {
    linear_key_dim_spec(c) * 2 + linear_value_dim_spec(c)
}

/// The first check, in order, that the config fails with the given rotary
/// dimension; none when it passes them all.
pub open spec fn qwen35_config_error(c: Qwen35Config, rotary_dim: int) -> Option<Qwen35ConfigError> {
    if c.layer_types@.len() != c.num_hidden_layers {
        Some(
            Qwen35ConfigError::LayerTypesLength {
                len: c.layer_types@.len() as usize,
                layers: c.num_hidden_layers,
            },
        )
    } else if !multiple_of(c.num_attention_heads as int, c.num_key_value_heads as int) {
        Some(
            Qwen35ConfigError::HeadsNotDivisible {
                heads: c.num_attention_heads,
                kv_heads: c.num_key_value_heads,
            },
        )
    } else if !multiple_of(c.linear_num_value_heads as int, c.linear_num_key_heads as int) {
        Some(
            Qwen35ConfigError::LinearHeadsNotDivisible {
                value_heads: c.linear_num_value_heads,
                key_heads: c.linear_num_key_heads,
            },
        )
    } else if c.hidden_act@ != "silu"@ {
        Some(Qwen35ConfigError::UnsupportedActivation)
    } else if rotary_dim == 0 || rotary_dim % 2 != 0 || rotary_dim > c.head_dim {
        Some(Qwen35ConfigError::RotaryDim { rotary_dim: rotary_dim as usize, head_dim: c.head_dim })
    } else {
        None
    }
}

/// The layer kind named `t`, if it is one.
pub open spec fn layer_type_named(t: Seq<char>) -> Option<Qwen35LayerType> {
    if t == "linear_attention"@ {
        Some(Qwen35LayerType::LinearAttention)
    } else if t == "full_attention"@ {
        Some(Qwen35LayerType::FullAttention)
    } else {
        None
    }
}

/// Every name among the first `k` is a layer kind.
pub open spec fn layer_names_known(names: Seq<String>, k: int) -> bool {
    forall|i: int| 0 <= i < k ==> (#[trigger] layer_type_named(names[i]@)) is Some
}

/// The kinds named by `names`.
pub open spec fn layer_types_of(names: Seq<String>) -> Seq<Qwen35LayerType> {
    names.map_values(|n: String| layer_type_named(n@).unwrap())
}

/// A model type string, the empty one when absent.
pub open spec fn type_or_empty(t: Option<String>) -> Seq<char> {
    match t {
        Some(s) => s@,
        None => Seq::empty(),
    }
}

/// Whether the root and text model types are those of a Qwen3.5 text model.
pub open spec fn qwen35_types(raw: RawQwen35RootConfig) -> bool {
    type_or_empty(raw.model_type) == "qwen3_5"@ && type_or_empty(raw.text_config.unwrap().model_type)
        == "qwen3_5_text"@
}

/// The config an accepted raw config gives, before its checks: each setting
/// as given, the layer kinds by name, and the activation `silu` when absent.
pub open spec fn qwen35_config_from_raw(t: RawQwen35TextConfig, c: Qwen35Config) -> bool {
    &&& c.vocab_size == t.vocab_size
    &&& c.hidden_size == t.hidden_size
    &&& c.intermediate_size == t.intermediate_size
    &&& c.num_hidden_layers == t.num_hidden_layers
    &&& c.num_attention_heads == t.num_attention_heads
    &&& c.num_key_value_heads == t.num_key_value_heads
    &&& c.head_dim == t.head_dim
    &&& c.linear_conv_kernel_dim == t.linear_conv_kernel_dim
    &&& c.linear_key_head_dim == t.linear_key_head_dim
    &&& c.linear_value_head_dim == t.linear_value_head_dim
    &&& c.linear_num_key_heads == t.linear_num_key_heads
    &&& c.linear_num_value_heads == t.linear_num_value_heads
    &&& c.layer_types@ == layer_types_of(t.layer_types@)
    &&& c.max_position_embeddings == t.max_position_embeddings
    &&& (match t.hidden_act {
        Some(a) => c.hidden_act == a,
        None => c.hidden_act@ == "silu"@,
    })
    &&& c.eos_token_id == t.eos_token_id
}

/// What reading an accepted text config gives: the first unknown layer kind's
/// position if there is one; else the config read from it, or the first check
/// that config fails.
pub open spec fn qwen35_text_outcome(
    t: RawQwen35TextConfig,
    rotary_dim: int,
    r: Result<Qwen35Config, Qwen35ConfigError>,
) -> bool {
    let names = t.layer_types@;
    if layer_names_known(names, names.len() as int) {
        match r {
            Ok(c) => qwen35_config_from_raw(t, c) && qwen35_config_error(c, rotary_dim) is None,
            Err(e) => exists|c: Qwen35Config|
                qwen35_config_from_raw(t, c) && #[trigger] qwen35_config_error(c, rotary_dim) == Some(e),
        }
    } else {
        exists|i: int|
            0 <= i < names.len() && layer_names_known(names, i) && #[trigger] layer_type_named(names[i]@) is None
                && r == Err::<Qwen35Config, Qwen35ConfigError>(Qwen35ConfigError::UnsupportedLayerType { index: i as usize })
    }
}

impl Qwen35Config {
    /// Checks, in this order: one layer kind per layer, the attention heads a
    /// multiple of the key/value heads, the linear value heads a multiple of the
    /// linear key heads, the `silu` activation, and a rotary dimension that is
    /// even, not zero and no wider than a head.
    pub fn validate(&self, rotary_dim: usize) -> (r: Result<(), Qwen35ConfigError>)
        ensures
            match r {
                Ok(()) => qwen35_config_error(*self, rotary_dim as int) is None,
                Err(e) => qwen35_config_error(*self, rotary_dim as int) == Some(e),
            },
    {
        if self.layer_types.len() != self.num_hidden_layers {
            return Err(
                Qwen35ConfigError::LayerTypesLength { len: self.layer_types.len(), layers: self.num_hidden_layers },
            );
        }
        if !is_multiple_of(self.num_attention_heads, self.num_key_value_heads) {
            return Err(
                Qwen35ConfigError::HeadsNotDivisible {
                    heads: self.num_attention_heads,
                    kv_heads: self.num_key_value_heads,
                },
            );
        }
        if !is_multiple_of(self.linear_num_value_heads, self.linear_num_key_heads) {
            return Err(
                Qwen35ConfigError::LinearHeadsNotDivisible {
                    value_heads: self.linear_num_value_heads,
                    key_heads: self.linear_num_key_heads,
                },
            );
        }
        let silu: String = "silu".to_owned();
        proof {
            reveal_strlit("silu");
        }
        if self.hidden_act != silu {
            return Err(Qwen35ConfigError::UnsupportedActivation);
        }
        if rotary_dim == 0 || rotary_dim % 2 != 0 || rotary_dim > self.head_dim {
            return Err(Qwen35ConfigError::RotaryDim { rotary_dim, head_dim: self.head_dim });
        }
        Ok(())
    }

    /// Width of the keys of a linear-attention layer.
    pub fn linear_key_dim(&self) -> (r: usize)
        requires
            linear_key_dim_spec(*self) <= usize::MAX,
        ensures
            r == linear_key_dim_spec(*self),
    {
        self.linear_num_key_heads * self.linear_key_head_dim
    }

    /// Width of the values of a linear-attention layer.
    pub fn linear_value_dim(&self) -> (r: usize)
        requires
            linear_value_dim_spec(*self) <= usize::MAX,
        ensures
            r == linear_value_dim_spec(*self),
    {
        self.linear_num_value_heads * self.linear_value_head_dim
    }

    /// Width of the convolved channels of a linear-attention layer.
    pub fn linear_conv_dim(&self) -> (r: usize)
        requires
            linear_conv_dim_spec(*self) <= usize::MAX,
        ensures
            r == linear_conv_dim_spec(*self),
    {
        proof {
            assert(0 <= linear_key_dim_spec(*self)) by (nonlinear_arith);
            assert(0 <= linear_value_dim_spec(*self)) by (nonlinear_arith);
        }
        self.linear_key_dim() * 2 + self.linear_value_dim()
    }
}

/// The kind named `name`, if it is one.
fn parse_layer_type(name: &String) -> (r: Option<Qwen35LayerType>)
    ensures
        r == layer_type_named(name@),
{
    let linear: String = "linear_attention".to_owned();
    let full: String = "full_attention".to_owned();
    proof {
        reveal_strlit("linear_attention");
        reveal_strlit("full_attention");
    }
    if *name == linear {
        Some(Qwen35LayerType::LinearAttention)
    } else if *name == full {
        Some(Qwen35LayerType::FullAttention)
    } else {
        None
    }
}

impl RawQwen35RootConfig {
    /// Reads the text config: refused when the root has no `text_config`, when
    /// the model types are not `qwen3_5` and `qwen3_5_text`, at the first layer
    /// kind that is neither linear nor full attention, and by the config's own
    /// checks with the rotary dimension `rotary_dim` that the rotary fraction
    /// gives.
    pub fn into_config(self, rotary_dim: usize) -> (r: Result<Qwen35Config, Qwen35ConfigError>)
        ensures
            self.text_config is None ==> r == Err::<Qwen35Config, Qwen35ConfigError>(
                Qwen35ConfigError::MissingTextConfig,
            ),
            self.text_config is Some && !qwen35_types(self) ==> r == Err::<Qwen35Config, Qwen35ConfigError>(
                Qwen35ConfigError::NotQwen35,
            ),
            self.text_config is Some && qwen35_types(self) ==> qwen35_text_outcome(
                self.text_config.unwrap(),
                rotary_dim as int,
                r,
            ),
    {
        let root_type: String = match self.model_type {
            Some(t) => t,
            None => String::new(),
        };
        let raw = match self.text_config {
            Some(t) => t,
            None => return Err(Qwen35ConfigError::MissingTextConfig),
        };
        let text_type: String = match &raw.model_type {
            Some(t) => t.clone(),
            None => String::new(),
        };
        let want_root: String = "qwen3_5".to_owned();
        let want_text: String = "qwen3_5_text".to_owned();
        proof {
            reveal_strlit("qwen3_5");
            reveal_strlit("qwen3_5_text");
        }
        if root_type != want_root || text_type != want_text {
            return Err(Qwen35ConfigError::NotQwen35);
        }
        let ghost names = raw.layer_types@;
        let mut layer_types: Vec<Qwen35LayerType> = Vec::new();
        let mut i: usize = 0;
        while i < raw.layer_types.len()
            invariant
                self.text_config == Some(raw),
                qwen35_types(self),
                names == raw.layer_types@,
                i <= names.len(),
                layer_names_known(names, i as int),
                layer_types@ == layer_types_of(names.subrange(0, i as int)),
            decreases names.len() - i,
        {
            match parse_layer_type(&raw.layer_types[i]) {
                Some(k) => {
                    proof {
                        assert(names.subrange(0, i + 1) =~= names.subrange(0, i as int).push(names[i as int]));
                    }
                    layer_types.push(k);
                    assert(layer_types@ =~= layer_types_of(names.subrange(0, i + 1)));
                },
                None => return Err(Qwen35ConfigError::UnsupportedLayerType { index: i }),
            }
            i += 1;
        }
        assert(names.subrange(0, names.len() as int) =~= names);
        let hidden_act: String = match raw.hidden_act {
            Some(a) => a,
            None => "silu".to_owned(),
        };
        let cfg = Qwen35Config {
            vocab_size: raw.vocab_size,
            hidden_size: raw.hidden_size,
            intermediate_size: raw.intermediate_size,
            num_hidden_layers: raw.num_hidden_layers,
            num_attention_heads: raw.num_attention_heads,
            num_key_value_heads: raw.num_key_value_heads,
            head_dim: raw.head_dim,
            linear_conv_kernel_dim: raw.linear_conv_kernel_dim,
            linear_key_head_dim: raw.linear_key_head_dim,
            linear_value_head_dim: raw.linear_value_head_dim,
            linear_num_key_heads: raw.linear_num_key_heads,
            linear_num_value_heads: raw.linear_num_value_heads,
            layer_types,
            max_position_embeddings: raw.max_position_embeddings,
            hidden_act,
            eos_token_id: raw.eos_token_id,
        };
        match cfg.validate(rotary_dim) {
            Ok(()) => Ok(cfg),
            Err(e) => Err(e),
        }
    }
}

/// The file extension of a quantized tensor cache in mode `mode`.
pub open spec fn quant_ext_spec(mode: QuantMode) -> Seq<char> {
    match mode {
        QuantMode::Q8 => "zq8"@,
        QuantMode::Q5 => "zq5"@,
        QuantMode::Q4 => "zq4"@,
        QuantMode::Q3 | QuantMode::Q1_58 => "zq3"@,
    }
}

/// The file extension of a quantized tensor cache: the ternary mode shares
/// the three-bit format.
pub fn quant_ext(mode: QuantMode) -> (r: &'static str)
    ensures
        r@ == quant_ext_spec(mode),
{
    match mode {
        QuantMode::Q8 => "zq8",
        QuantMode::Q5 => "zq5",
        QuantMode::Q4 => "zq4",
        QuantMode::Q3 | QuantMode::Q1_58 => "zq3",
    }
}

} // verus!
