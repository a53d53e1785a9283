# zymatica_engine

The logic core of the Zymatica inference engine, written in Verus and proved
against its contracts.

- `src/` is the verified library: concept codecs (`cuneiform`,
  `cuneiform_8d_octonion_engine`, `hyper_cuneiform_bridge`) and the proof that
  the range coder is lossless (`cuneiform_lossless`), the GF(16) parity
  and repair code (`semantic_parity`), swarm consensus (`neural_swarm_hypergraph`),
  the prefix cache and batch planner (`scheduler`), the lossless compression
  cascade and model fallback chain (`cascade`), capsule stage decoders
  (`capsule`), precision policy (`edge_policy`, `model`), model configs and
  tensor-name resolution (`model`, `gemma_hf`, `qwen35`), the GGUF header parser
  and conversion plan (`gguf`), storage-buffer sizing (`gpu`), concept
  constraints, ecosystem services and small state types.
- `tests/` exercises the library on concrete values.
- `app/` holds what stays outside the proofs: file and archive I/O, device
  probing, floating-point numerics, and serializable copies of library types.
