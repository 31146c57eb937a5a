//! The parts of a model's configuration that the statistics use.
use vstd::prelude::*;

verus! {

/// What `config.json` declares of a model.
#[derive(Debug)]
pub struct ModelConfig {
    pub model_type: Option<String>,
    pub num_hidden_layers: Option<u64>,
    pub num_experts: Option<u64>,
    pub vocab_size: Option<u64>,
    pub hidden_size: Option<u64>,
    pub tie_word_embeddings: Option<bool>,
    pub use_qk_norm: Option<bool>,
}

} // verus!
