//! Verified core of the Zymatica engine: semantic coordinate codecs, finite-field
//! parity and repair, swarm consensus, prefix scheduling and the lossless
//! compression cascade.

pub mod agent_acp;
pub mod capsule;
pub mod concept_constraints;
pub mod cuneiform;
pub mod cuneiform_8d_octonion_engine;
pub mod cuneiform_lossless;
pub mod ecosystem;
pub mod edge_policy;
pub mod epigenetic_manifold_crystallizer;
pub mod gemma_hf;
pub mod gguf;
pub mod gpu;
pub mod hyper_cuneiform_bridge;
pub mod mcts;
pub mod model;
pub mod neural_swarm_hypergraph;
pub mod qwen35;
pub mod scheduler;
pub mod semantic_parity;
pub mod cascade;

use vstd::prelude::*;

verus! {

} // verus!
