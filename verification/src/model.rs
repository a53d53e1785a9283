//! Model-level definitions shared by the runtime: precision modes and the
//! static per-layer instruction schedule.

use vstd::prelude::*;
use vstd::string::StringSliceAdditionalSpecFns;

verus! {

/// Weight quantization mode, from most to least precise.
#[derive(Debug, Clone, Copy, PartialEq, Eq, Hash, Structural)]
pub enum QuantMode {
    Q8,
    Q5,
    Q4,
    Q3,
    Q1_58,
}

/// Name of a quantization mode.
pub open spec fn quant_mode_name(mode: QuantMode) -> Seq<char> {
    match mode {
        QuantMode::Q8 => seq!['q', '8'],
        QuantMode::Q5 => seq!['q', '5'],
        QuantMode::Q4 => seq!['q', '4'],
        QuantMode::Q3 => seq!['q', '3'],
        QuantMode::Q1_58 => seq!['q', '1', '_', '5', '8'],
    }
}

impl QuantMode {
    /// The mode's short name.
    pub fn as_str(self) -> (r: &'static str)
        ensures
            r@ == quant_mode_name(self),
    {
        proof {
            reveal_strlit("q8");
            reveal_strlit("q5");
            reveal_strlit("q4");
            reveal_strlit("q3");
            reveal_strlit("q1_58");
        }
        match self {
            QuantMode::Q8 => "q8",
            QuantMode::Q5 => "q5",
            QuantMode::Q4 => "q4",
            QuantMode::Q3 => "q3",
            QuantMode::Q1_58 => "q1_58",
        }
    }
}

/// One step of the per-layer forward schedule.
#[derive(Debug, Clone, Copy, PartialEq, Eq, Structural)]
pub enum StaticInstruction {
    LayerStart { layer_idx: usize },
    InputNorm { layer_idx: usize },
    ProjQkv { layer_idx: usize },
    RopeAndCache { layer_idx: usize },
    Attention { layer_idx: usize },
    ProjO { layer_idx: usize },
    AddResidualAttn { layer_idx: usize },
    FeedForwardNorm { layer_idx: usize },
    ProjMlpGateUp { layer_idx: usize },
    ProjMlpDown { layer_idx: usize },
    AddResidualMlp { layer_idx: usize },
    CheckEarlyExit { layer_idx: usize },
}

/// The `step`-th of the twelve instructions of layer `layer_idx`.
pub open spec fn layer_step(layer_idx: usize, step: int) -> StaticInstruction {
    if step == 0 {
        StaticInstruction::LayerStart { layer_idx }
    } else if step == 1 {
        StaticInstruction::InputNorm { layer_idx }
    } else if step == 2 {
        StaticInstruction::ProjQkv { layer_idx }
    } else if step == 3 {
        StaticInstruction::RopeAndCache { layer_idx }
    } else if step == 4 {
        StaticInstruction::Attention { layer_idx }
    } else if step == 5 {
        StaticInstruction::ProjO { layer_idx }
    } else if step == 6 {
        StaticInstruction::AddResidualAttn { layer_idx }
    } else if step == 7 {
        StaticInstruction::FeedForwardNorm { layer_idx }
    } else if step == 8 {
        StaticInstruction::ProjMlpGateUp { layer_idx }
    } else if step == 9 {
        StaticInstruction::ProjMlpDown { layer_idx }
    } else if step == 10 {
        StaticInstruction::AddResidualMlp { layer_idx }
    } else {
        StaticInstruction::CheckEarlyExit { layer_idx }
    }
}

/// The forward schedule: twelve instructions per layer, layer after layer.
pub fn compile_instructions(num_layers: usize) -> (r: Vec<StaticInstruction>)
    requires
        num_layers * 12 <= usize::MAX,
    ensures
        r@.len() == num_layers * 12,
        forall|i: int| 0 <= i < r@.len() ==> #[trigger] r@[i] == layer_step((i / 12) as usize, i % 12),
{
    let mut instructions: Vec<StaticInstruction> = Vec::new();
    let mut layer_idx: usize = 0;
    while layer_idx < num_layers
        invariant
            layer_idx <= num_layers,
            num_layers * 12 <= usize::MAX,
            instructions@.len() == layer_idx * 12,
            forall|i: int| 0 <= i < instructions@.len() ==> #[trigger] instructions@[i] == layer_step((i / 12) as usize, i % 12),
        decreases num_layers - layer_idx,
    {
        let ghost base = instructions@.len() as int;
        instructions.push(StaticInstruction::LayerStart { layer_idx });
        instructions.push(StaticInstruction::InputNorm { layer_idx });
        instructions.push(StaticInstruction::ProjQkv { layer_idx });
        instructions.push(StaticInstruction::RopeAndCache { layer_idx });
        instructions.push(StaticInstruction::Attention { layer_idx });
        instructions.push(StaticInstruction::ProjO { layer_idx });
        instructions.push(StaticInstruction::AddResidualAttn { layer_idx });
        instructions.push(StaticInstruction::FeedForwardNorm { layer_idx });
        instructions.push(StaticInstruction::ProjMlpGateUp { layer_idx });
        instructions.push(StaticInstruction::ProjMlpDown { layer_idx });
        instructions.push(StaticInstruction::AddResidualMlp { layer_idx });
        instructions.push(StaticInstruction::CheckEarlyExit { layer_idx });
        assert forall|i: int| 0 <= i < instructions@.len() implies #[trigger] instructions@[i] == layer_step(
            (i / 12) as usize,
            i % 12,
        ) by {
            if i >= base {
                assert(base == layer_idx * 12);
                assert((i / 12) == layer_idx as int) by (nonlinear_arith)
                    requires base <= i < base + 12, base == layer_idx * 12;
                assert(i % 12 == i - base) by (nonlinear_arith)
                    requires base <= i < base + 12, base == layer_idx * 12;
            }
        }
        layer_idx += 1;
    }
    instructions
}


/// Architecture of a Gemma text model: the sizes, layer kinds and names that
/// shape the runtime. The floating-point settings (norm epsilon, rope bases,
/// embedding scales, logit soft-capping) are carried beside it by the caller.
#[derive(Debug, Clone)]
pub struct GemmaConfig {
    pub vocab_size: usize,
    pub hidden_size: usize,
    pub intermediate_size: usize,
    pub num_hidden_layers: usize,
    pub num_attention_heads: usize,
    pub num_key_value_heads: usize,
    pub num_kv_shared_layers: usize,
    pub head_dim: usize,
    pub global_head_dim: Option<usize>,
    pub max_position_embeddings: usize,
    pub sliding_window: Option<usize>,
    pub layer_types: Vec<String>,
    pub hidden_size_per_layer_input: Option<usize>,
    pub vocab_size_per_layer_input: Option<usize>,
    pub hidden_activation: String,
    pub fold_rms_norm: bool,
}

/// The layer kinds of a config, as character strings.
pub open spec fn layer_kinds(c: GemmaConfig) -> Seq<Seq<char>> {
    c.layer_types@.map_values(|t: String| t@)
}

/// One layer kind per layer, and the attention heads split evenly over the
/// key/value heads.
pub open spec fn gemma_config_consistent(c: GemmaConfig) -> bool {
    &&& c.layer_types@.len() == c.num_hidden_layers
    &&& c.num_key_value_heads != 0
    &&& c.num_attention_heads % c.num_key_value_heads == 0
}

/// Index of the last layer below `k` whose kind is `kind`.
pub open spec fn last_layer_of_kind(kinds: Seq<Seq<char>>, k: int, kind: Seq<char>) -> Option<usize>
    decreases k,
{
    if k <= 0 {
        None
    } else if kinds[k - 1] == kind {
        Some((k - 1) as usize)
    } else {
        last_layer_of_kind(kinds, k - 1, kind)
    }
}

/// Whether layer `layer_idx` reads its key/value cache from an earlier layer:
/// only the last `num_kv_shared_layers` layers do, and only when some layers
/// keep their own cache.
pub open spec fn shares_kv(c: GemmaConfig, layer_idx: int) -> bool {
    c.num_kv_shared_layers != 0 && c.num_kv_shared_layers < c.num_hidden_layers
        && layer_idx >= c.num_hidden_layers - c.num_kv_shared_layers
}

/// The layer whose key/value cache layer `layer_idx` reuses: the last layer of
/// the same kind among those that keep their own cache.
pub open spec fn shared_kv_source(c: GemmaConfig, layer_idx: int) -> Option<usize> {
    if shares_kv(c, layer_idx) {
        last_layer_of_kind(
            layer_kinds(c),
            c.num_hidden_layers - c.num_kv_shared_layers,
            layer_kinds(c)[layer_idx],
        )
    } else {
        None
    }
}

impl GemmaConfig {
    /// Whether the config is consistent: one layer kind per layer, and the
    /// attention heads a multiple of the key/value heads.
    pub fn validate(&self) -> (r: bool)
        ensures
            r == gemma_config_consistent(*self),
    {
        self.layer_types.len() == self.num_hidden_layers && self.num_key_value_heads != 0
            && self.num_attention_heads % self.num_key_value_heads == 0
    }

    /// The sliding-window length of layer `layer_idx`: the configured window
    /// for a sliding-attention layer, none for any other.
    pub fn layer_sliding_window(&self, layer_idx: usize) -> (r: Option<usize>)
        requires
            layer_idx < self.layer_types@.len(),
        ensures
            r == (if self.layer_types@[layer_idx as int]@ == "sliding_attention"@ {
                self.sliding_window
            } else {
                None
            }),
    {
        let sliding: String = "sliding_attention".to_owned();
        proof {
            reveal_strlit("sliding_attention");
        }
        if self.layer_types[layer_idx] == sliding {
            self.sliding_window
        } else {
            None
        }
    }

    /// The earlier layer whose key/value cache layer `layer_idx` reuses, if it
    /// is one of the trailing shared layers.
    pub fn shared_kv_source_layer(&self, layer_idx: usize) -> (r: Option<usize>)
        requires
            shares_kv(*self, layer_idx as int) ==> layer_idx < self.layer_types@.len()
                && self.num_hidden_layers - self.num_kv_shared_layers <= self.layer_types@.len(),
        ensures
            r == shared_kv_source(*self, layer_idx as int),
            r matches Some(j) ==> j < self.num_hidden_layers - self.num_kv_shared_layers
                && self.layer_types@[j as int]@ == self.layer_types@[layer_idx as int]@,
    {
        if self.num_kv_shared_layers == 0 || self.num_kv_shared_layers >= self.num_hidden_layers {
            return None;
        }
        let first_shared: usize = self.num_hidden_layers - self.num_kv_shared_layers;
        if layer_idx < first_shared {
            return None;
        }
        let ghost kinds = layer_kinds(*self);
        let layer_type: &String = &self.layer_types[layer_idx];
        assert(kinds[layer_idx as int] == layer_type@);
        let mut k: usize = first_shared;
        while k > 0
            invariant
                k <= first_shared <= self.layer_types@.len(),
                first_shared == self.num_hidden_layers - self.num_kv_shared_layers,
                shares_kv(*self, layer_idx as int),
                layer_idx < self.layer_types@.len(),
                kinds == layer_kinds(*self),
                kinds[layer_idx as int] == layer_type@,
                last_layer_of_kind(kinds, first_shared as int, layer_type@) == last_layer_of_kind(
                    kinds,
                    k as int,
                    layer_type@,
                ),
                forall|j: int| k <= j < first_shared ==> kinds[j] != layer_type@,
            decreases k,
        {
            if self.layer_types[k - 1] == *layer_type {
                assert(kinds[k - 1] == layer_type@);
                assert(last_layer_of_kind(kinds, k as int, layer_type@) == Some((k - 1) as usize));
                return Some(k - 1);
            }
            assert(kinds[k - 1] != layer_type@);
            k -= 1;
        }
        None
    }
}

/// The UTF-8 bytes of a string.
pub open spec fn string_bytes(s: String) -> Seq<u8> {
    vstd::utf8::encode_utf8(s@)
}

/// The decimal digits of `n`, as ASCII bytes.
pub open spec fn decimal_bytes(n: nat) -> Seq<u8>
    decreases n,
{
    if n < 10 {
        seq![(0x30 + n) as u8]
    } else {
        decimal_bytes(n / 10).push((0x30 + n % 10) as u8)
    }
}

/// Whether `t` ends with `p`.
pub open spec fn ends_with_bytes(t: Seq<u8>, p: Seq<u8>) -> bool {
    t.len() >= p.len() && t.subrange(t.len() - p.len(), t.len() as int) == p
}

/// Whether `a` comes before `b` in byte-wise lexicographic order (the order of
/// `String`).
pub open spec fn bytes_lt(a: Seq<u8>, b: Seq<u8>) -> bool
    decreases a.len(),
{
    if a.len() == 0 {
        b.len() > 0
    } else if b.len() == 0 {
        false
    } else if a[0] != b[0] {
        a[0] < b[0]
    } else {
        bytes_lt(a.drop_first(), b.drop_first())
    }
}

/// Whether `n` names the A or B half (`half`) of the LoRA adapter of
/// projection `proj` in layer `layer`: it holds `layers.{layer}.` and
/// `.{proj}.`, and ends with `.{half}.weight` or `.{half}.default.weight`.
pub open spec fn lora_name_matches(n: Seq<u8>, layer: nat, proj: Seq<u8>, half: Seq<u8>) -> bool {
    &&& crate::gemma_hf::contains_bytes(n, "layers.".spec_bytes() + decimal_bytes(layer) + ".".spec_bytes())
    &&& crate::gemma_hf::contains_bytes(n, ".".spec_bytes() + proj + ".".spec_bytes())
    &&& (ends_with_bytes(n, ".".spec_bytes() + half + ".weight".spec_bytes()) || ends_with_bytes(
        n,
        ".".spec_bytes() + half + ".default.weight".spec_bytes(),
    ))
}

proof fn lemma_bytes_lt_trans(a: Seq<u8>, b: Seq<u8>, c: Seq<u8>)
    requires
        bytes_lt(a, b),
        bytes_lt(b, c),
    ensures
        bytes_lt(a, c),
    decreases a.len(),
{
    if a.len() > 0 && b.len() > 0 && c.len() > 0 && a[0] == b[0] && b[0] == c[0] {
        lemma_bytes_lt_trans(a.drop_first(), b.drop_first(), c.drop_first());
    }
}

proof fn lemma_bytes_lt_total(a: Seq<u8>, b: Seq<u8>)
    ensures
        a != b ==> bytes_lt(a, b) || bytes_lt(b, a),
        !bytes_lt(a, a),
    decreases a.len(),
{
    if a.len() > 0 && b.len() > 0 {
        lemma_bytes_lt_total(a.drop_first(), b.drop_first());
        if a[0] == b[0] && a != b {
            assert(a =~= seq![a[0]] + a.drop_first());
            assert(b =~= seq![b[0]] + b.drop_first());
        }
    } else if a.len() > 0 {
        lemma_bytes_lt_total(a.drop_first(), a.drop_first());
    } else if b.len() > 0 {
    } else {
        assert(a =~= b);
    }
}

/// Appends the bytes `s` to `v`.
fn append_bytes(v: &mut Vec<u8>, s: &[u8])
    ensures
        final(v)@ == old(v)@ + s@,
{
    let mut i: usize = 0;
    while i < s.len()
        invariant
            i <= s@.len(),
            v@ == old(v)@ + s@.subrange(0, i as int),
        decreases s@.len() - i,
    {
        v.push(s[i]);
        assert(v@ =~= old(v)@ + s@.subrange(0, i + 1));
        i += 1;
    }
    assert(s@.subrange(0, s@.len() as int) =~= s@);
}

/// Appends the decimal digits of `n` to `v`.
fn push_decimal_bytes(v: &mut Vec<u8>, n: usize)
    ensures
        final(v)@ == old(v)@ + decimal_bytes(n as nat),
    decreases n,
{
    if n >= 10 {
        push_decimal_bytes(v, n / 10);
    }
    let d: u8 = (n % 10) as u8;
    v.push(0x30 + d);
    assert(v@ =~= old(v)@ + decimal_bytes(n as nat));
}

/// Whether `t` ends with `p`.
fn bytes_end_with(t: &[u8], p: &[u8]) -> (r: bool)
    ensures
        r == ends_with_bytes(t@, p@),
{
    if t.len() < p.len() {
        return false;
    }
    let start: usize = t.len() - p.len();
    crate::cascade::bytes_equal(vstd::slice::slice_subrange(t, start, t.len()), p)
}

/// Whether `a` comes before `b` in byte-wise lexicographic order.
fn bytes_less(a: &[u8], b: &[u8]) -> (r: bool)
    ensures
        r == bytes_lt(a@, b@),
{
    let mut i: usize = 0;
    assert(a@.subrange(0, a@.len() as int) =~= a@);
    assert(b@.subrange(0, b@.len() as int) =~= b@);
    while i < a.len() && i < b.len()
        invariant
            i <= a@.len(),
            i <= b@.len(),
            bytes_lt(a@, b@) == bytes_lt(a@.subrange(i as int, a@.len() as int), b@.subrange(i as int, b@.len() as int)),
        decreases a@.len() - i,
    {
        let ghost sa = a@.subrange(i as int, a@.len() as int);
        let ghost sb = b@.subrange(i as int, b@.len() as int);
        assert(sa.drop_first() =~= a@.subrange(i + 1, a@.len() as int));
        assert(sb.drop_first() =~= b@.subrange(i + 1, b@.len() as int));
        if a[i] != b[i] {
            return a[i] < b[i];
        }
        i += 1;
    }
    i == a.len() && i < b.len()
}

/// The name, among `names`, of the A or B half (`adapter_half`) of the LoRA
/// adapter of `projection` in layer `layer_idx`: of all names that match,
/// the first in `String` order; none when no name matches.
pub fn find_lora_tensor_name(names: &[String], layer_idx: usize, projection: &str, adapter_half: &str) -> (r: Option<String>)
    ensures
        match r {
            Some(m) => exists|i: int|
                0 <= i < names@.len() && names@[i] == m && lora_name_matches(
                    string_bytes(m),
                    layer_idx as nat,
                    projection.spec_bytes(),
                    adapter_half.spec_bytes(),
                ) && forall|j: int|
                    0 <= j < names@.len() && lora_name_matches(
                        string_bytes(#[trigger] names@[j]),
                        layer_idx as nat,
                        projection.spec_bytes(),
                        adapter_half.spec_bytes(),
                    ) ==> !bytes_lt(string_bytes(names@[j]), string_bytes(m)),
            None => forall|j: int|
                0 <= j < names@.len() ==> !lora_name_matches(
                    string_bytes(#[trigger] names@[j]),
                    layer_idx as nat,
                    projection.spec_bytes(),
                    adapter_half.spec_bytes(),
                ),
        },
{
    let ghost proj = projection.spec_bytes();
    let ghost half = adapter_half.spec_bytes();
    let ghost layer = layer_idx as nat;
    let mut layer_marker: Vec<u8> = Vec::new();
    append_bytes(&mut layer_marker, "layers.".as_bytes());
    push_decimal_bytes(&mut layer_marker, layer_idx);
    append_bytes(&mut layer_marker, ".".as_bytes());
    let mut projection_marker: Vec<u8> = Vec::new();
    append_bytes(&mut projection_marker, ".".as_bytes());
    append_bytes(&mut projection_marker, projection.as_bytes());
    append_bytes(&mut projection_marker, ".".as_bytes());
    let mut suffix_plain: Vec<u8> = Vec::new();
    append_bytes(&mut suffix_plain, ".".as_bytes());
    append_bytes(&mut suffix_plain, adapter_half.as_bytes());
    append_bytes(&mut suffix_plain, ".weight".as_bytes());
    let mut suffix_default: Vec<u8> = Vec::new();
    append_bytes(&mut suffix_default, ".".as_bytes());
    append_bytes(&mut suffix_default, adapter_half.as_bytes());
    append_bytes(&mut suffix_default, ".default.weight".as_bytes());
    let mut best: Option<usize> = None;
    let mut i: usize = 0;
    while i < names.len()
        invariant
            i <= names@.len(),
            proj == projection.spec_bytes(),
            half == adapter_half.spec_bytes(),
            layer == layer_idx as nat,
            layer_marker@ == "layers.".spec_bytes() + decimal_bytes(layer) + ".".spec_bytes(),
            projection_marker@ == ".".spec_bytes() + proj + ".".spec_bytes(),
            suffix_plain@ == ".".spec_bytes() + half + ".weight".spec_bytes(),
            suffix_default@ == ".".spec_bytes() + half + ".default.weight".spec_bytes(),
            match best {
                Some(b) => b < i && lora_name_matches(string_bytes(names@[b as int]), layer, proj, half)
                    && forall|j: int|
                    0 <= j < i && lora_name_matches(string_bytes(#[trigger] names@[j]), layer, proj, half)
                        ==> !bytes_lt(string_bytes(names@[j]), string_bytes(names@[b as int])),
                None => forall|j: int| 0 <= j < i ==> !lora_name_matches(string_bytes(#[trigger] names@[j]), layer, proj, half),
            },
        decreases names@.len() - i,
    {
        let n = names[i].as_str().as_bytes();
        let ok: bool = crate::gemma_hf::bytes_contain(n, layer_marker.as_slice())
            && crate::gemma_hf::bytes_contain(n, projection_marker.as_slice())
            && (bytes_end_with(n, suffix_plain.as_slice()) || bytes_end_with(n, suffix_default.as_slice()));
        assert(n@ == string_bytes(names@[i as int]));
        assert(ok == lora_name_matches(string_bytes(names@[i as int]), layer, proj, half));
        if ok {
            match best {
                None => {
                    best = Some(i);
                    proof {
                        lemma_bytes_lt_total(n@, n@);
                    }
                },
                Some(b) => {
                    if bytes_less(n, names[b].as_str().as_bytes()) {
                        proof {
                            let nb = string_bytes(names@[b as int]);
                            assert forall|j: int|
                                0 <= j < i + 1 && lora_name_matches(string_bytes(#[trigger] names@[j]), layer, proj, half)
                                    implies !bytes_lt(string_bytes(names@[j]), n@) by {
                                if j < i {
                                    let nj = string_bytes(names@[j]);
                                    assert(!bytes_lt(nj, nb));
                                    if bytes_lt(nj, n@) {
                                        lemma_bytes_lt_trans(nj, n@, nb);
                                    }
                                } else {
                                    lemma_bytes_lt_total(n@, n@);
                                }
                            }
                        }
                        best = Some(i);
                    }
                },
            }
        }
        i += 1;
    }
    match best {
        Some(b) => Some(names[b].clone()),
        None => None,
    }
}

} // verus!
