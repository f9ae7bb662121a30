//! The dimensions of the model and the limits of the engine.
use vstd::prelude::*;

verus! {

/// What `config.json` says of a model. The two doubles are held by their IEEE 754 bits:
/// nothing here computes with them.
#[derive(Debug, Clone)]
pub struct Config {
    pub hidden_size: usize,
    pub intermediate_size: usize,
    pub num_hidden_layers: usize,
    pub num_attention_heads: usize,
    pub num_key_value_heads: usize,
    pub head_dim: usize,
    pub vocab_size: usize,
    pub rms_norm_eps: u64,
    pub rope_theta: u64,
    pub max_position_embeddings: usize,
    pub max_model_len: usize,
    pub eos_token_id: u32,
    pub hidden_act: String,
    pub attention_bias: bool,
    pub tie_word_embeddings: bool,
}

/// Whether the attention projections have a bias where `config.json` does not say.
pub fn default_attention_bias() -> (bias: bool)
    ensures
        bias,
{
    true
}

/// The bits of `1e-6`.
pub const RMS_NORM_EPS_BITS: u64 = 0x3eb0_c6f7_a0b5_ed8d;

/// The bits of `1e6`.
pub const ROPE_THETA_BITS: u64 = 0x412e_8480_0000_0000;

impl Config {
    /// The dimensions of Qwen3-0.6B.
    pub fn qwen3_0_6b() -> (config: Self)
        ensures
            config.hidden_size == 1024,
            config.intermediate_size == 3072,
            config.num_hidden_layers == 28,
            config.num_attention_heads == 16,
            config.num_key_value_heads == 8,
            config.head_dim == 128,
            config.vocab_size == 151936,
            config.rms_norm_eps == RMS_NORM_EPS_BITS,
            config.rope_theta == ROPE_THETA_BITS,
            config.max_position_embeddings == 40960,
            config.max_model_len == 40960,
            config.eos_token_id == 151645,
            config.hidden_act@ == "silu"@,
            !config.attention_bias,
            config.tie_word_embeddings,
    {
        Config {
            hidden_size: 1024,
            intermediate_size: 3072,
            num_hidden_layers: 28,
            num_attention_heads: 16,
            num_key_value_heads: 8,
            head_dim: 128,
            vocab_size: 151936,
            rms_norm_eps: RMS_NORM_EPS_BITS,
            rope_theta: ROPE_THETA_BITS,
            max_position_embeddings: 40960,
            max_model_len: 40960,
            eos_token_id: 151645,
            hidden_act: "silu".to_owned(),
            attention_bias: false,
            tie_word_embeddings: true,
        }
    }

    /// Takes the number of positions that the model knows for the longest length, where
    /// `config.json` names none.
    pub fn fill_max_model_len(&mut self)
        ensures
            *final(self) == (Config {
                max_model_len: if old(self).max_model_len == 0 {
                    old(self).max_position_embeddings
                } else {
                    old(self).max_model_len
                },
                ..*old(self)
            }),
    {
        if self.max_model_len == 0 {
            self.max_model_len = self.max_position_embeddings;
        }
    }
}

/// The limits that the engine works under.
#[derive(Debug, Clone)]
pub struct EngineConfig {
    pub model_path: String,
    pub tensor_parallel_size: usize,
    pub kvcache_block_size: usize,
    pub chunked_prefill: bool,
    pub max_num_seqs: usize,
    pub max_num_batched_tokens: usize,
    pub num_kvcache_blocks: usize,
    pub enforce_eager: bool,
    /// The bits of the share of the memory of a device that may be used.
    pub gpu_memory_utilization: u64,
}

/// The bits of `0.9`.
pub const GPU_MEMORY_UTILIZATION_BITS: u64 = 0x3fec_cccc_cccc_cccd;

impl Default for EngineConfig {
    /// One device, and as many cache blocks as will be found to fit it: none yet.
    fn default() -> (config: Self)
        ensures
            config.model_path@ == ""@,
            config.tensor_parallel_size == 1,
            config.kvcache_block_size == 256,
            !config.chunked_prefill,
            config.max_num_seqs == 512,
            config.max_num_batched_tokens == 16384,
            config.num_kvcache_blocks == 0,
            config.enforce_eager,
            config.gpu_memory_utilization == GPU_MEMORY_UTILIZATION_BITS,
    {
        EngineConfig {
            model_path: "".to_owned(),
            tensor_parallel_size: 1,
            kvcache_block_size: 256,
            chunked_prefill: false,
            max_num_seqs: 512,
            max_num_batched_tokens: 16384,
            num_kvcache_blocks: 0,
            enforce_eager: true,
            gpu_memory_utilization: GPU_MEMORY_UTILIZATION_BITS,
        }
    }
}

} // verus!
