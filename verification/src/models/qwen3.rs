//! The weights of a Qwen3 model, as one rank holds them.
use crate::config::Config;
use crate::layers::embed_head::{ParallelLMHead, VocabParallelEmbedding};
use crate::layers::layernorm::RMSNorm;
use crate::layers::linear;
use crate::layers::linear::{MergedColumnParallelLinear, QKVParallelLinear, RowParallelLinear};
use crate::layers::tensor;
use crate::layers::tensor::LayerError;
use crate::utils::loader::{ModelWeights, PackedModule, ShardId};
use crate::utils::text;
use candle_core::{Device, Tensor};
use vstd::prelude::*;
use vstd::string::StrSliceExecFns;

verus! {

/// The weights of attention, and how they are cut.
pub struct Qwen3Attention {
    pub total_num_heads: usize,
    pub num_heads: usize,
    pub total_num_kv_heads: usize,
    pub num_kv_heads: usize,
    pub head_dim: usize,
    pub q_size: usize,
    pub kv_size: usize,
    pub qkv_bias: bool,
    pub qkv_proj: QKVParallelLinear,
    pub o_proj: RowParallelLinear,
    /// Queries and keys are normalised where their projections have no bias.
    pub q_norm: Option<RMSNorm>,
    pub k_norm: Option<RMSNorm>,
}

/// Cuts what the fused projection gives, along its last dimension, into queries, keys and
/// values.
pub fn split_qkv(qkv: &Tensor, q_size: usize, kv_size: usize) -> (cut: Result<
    (Tensor, Tensor, Tensor),
    LayerError,
>)
    requires
        q_size + 2 * kv_size <= usize::MAX,
    ensures
        cut is Ok == (tensor::dims(*qkv).len() > 0 && q_size + 2 * kv_size <= tensor::dims(
            *qkv,
        )[tensor::dims(*qkv).len() - 1]),
        cut matches Ok(parts) ==> {
            let last = tensor::dims(*qkv).len() - 1;
            &&& tensor::is_slice(parts.0, *qkv, last, 0, q_size as int)
            &&& tensor::is_slice(parts.1, *qkv, last, q_size as int, kv_size as int)
            &&& tensor::is_slice(parts.2, *qkv, last, q_size + kv_size, kv_size as int)
        },
        cut matches Err(error) ==> if tensor::dims(*qkv).len() == 0 {
            error is NoDimension
        } else {
            error is Tensor
        },
{
    let rank = tensor::rank(qkv);
    if rank == 0 {
        return Err(LayerError::NoDimension);
    }
    let last = rank - 1;
    let q = match tensor::narrow(qkv, last, 0, q_size) {
        Ok(part) => part,
        Err(error) => {
            return Err(LayerError::Tensor(error));
        },
    };
    let k = match tensor::narrow(qkv, last, q_size, kv_size) {
        Ok(part) => part,
        Err(error) => {
            return Err(LayerError::Tensor(error));
        },
    };
    match tensor::narrow(qkv, last, q_size + kv_size, kv_size) {
        Ok(v) => Ok((q, k, v)),
        Err(error) => Err(LayerError::Tensor(error)),
    }
}

/// The size of a head: the hidden features shared out among the heads, unless it is said.
pub open spec fn head_size(hidden_size: usize, num_heads: usize, head_dim: Option<usize>) -> usize {
    match head_dim {
        Some(n) => n,
        None => (hidden_size as int / num_heads as int) as usize,
    }
}

/// Attention with these dimensions can be cut for `tp_size` ranks, and its weights counted.
pub open spec fn attention_fits(
    hidden_size: usize,
    num_heads: usize,
    num_kv_heads: usize,
    head_dim: Option<usize>,
    tp_size: usize,
) -> bool {
    let size = head_size(hidden_size, num_heads, head_dim);
    &&& num_heads as int % tp_size as int == 0
    &&& num_kv_heads as int % tp_size as int == 0
    &&& head_dim is None ==> num_heads > 0
    &&& (num_heads + 2 * num_kv_heads) * size <= isize::MAX / 8
    &&& (num_heads + 2 * num_kv_heads) * size * hidden_size <= isize::MAX / 8
    &&& hidden_size * (num_heads * size) <= isize::MAX / 8
    &&& hidden_size <= isize::MAX / 8
    &&& num_heads + 2 * num_kv_heads <= usize::MAX
    &&& num_heads * size <= isize::MAX / 8
    &&& size <= isize::MAX / 8
}

impl Qwen3Attention {
    pub open spec fn wf(&self) -> bool {
        self.qkv_proj.wf() && self.o_proj.wf()
    }

    /// The weights as they are made, cut for `tp_size` ranks.
    pub open spec fn is_new(
        &self,
        hidden_size: usize,
        num_heads: usize,
        num_kv_heads: usize,
        head_dim: Option<usize>,
        rms_norm_eps: u32,
        qkv_bias: bool,
        tp_rank: usize,
        tp_size: usize,
        device: Device,
    ) -> bool {
        &&& self.wf()
        &&& self.total_num_heads == num_heads
        &&& self.num_heads * tp_size == num_heads
        &&& self.total_num_kv_heads == num_kv_heads
        &&& self.num_kv_heads * tp_size == num_kv_heads
        &&& self.head_dim == head_size(hidden_size, num_heads, head_dim)
        &&& self.q_size == self.num_heads * self.head_dim
        &&& self.kv_size == self.num_kv_heads * self.head_dim
        &&& self.qkv_bias == qkv_bias
        &&& self.qkv_proj.num_heads == self.num_heads
        &&& self.qkv_proj.num_kv_heads == self.num_kv_heads
        &&& self.qkv_proj.head_size == self.head_dim
        &&& self.qkv_proj.base.base.is_new(
            hidden_size,
            (self.q_size + 2 * self.kv_size) as usize,
            qkv_bias,
            Some(0),
            tp_rank,
            tp_size,
            device,
        )
        &&& self.o_proj.base.is_new(
            self.q_size,
            hidden_size,
            false,
            Some(1),
            tp_rank,
            tp_size,
            device,
        )
        &&& (self.q_norm is None) == qkv_bias
        &&& (self.k_norm is None) == qkv_bias
        &&& self.q_norm matches Some(n) ==> n.is_new(self.head_dim, rms_norm_eps, device)
        &&& self.k_norm matches Some(n) ==> n.is_new(self.head_dim, rms_norm_eps, device)
    }

    pub fn new(
        hidden_size: usize,
        num_heads: usize,
        num_kv_heads: usize,
        head_dim: Option<usize>,
        rms_norm_eps: u32,
        qkv_bias: bool,
        tp_rank: usize,
        tp_size: usize,
        device: &Device,
    ) -> (attention: Result<Self, LayerError>)
        requires
            tp_rank < tp_size,
            attention_fits(hidden_size, num_heads, num_kv_heads, head_dim, tp_size),
        ensures
            attention matches Ok(a) ==> a.is_new(
                hidden_size,
                num_heads,
                num_kv_heads,
                head_dim,
                rms_norm_eps,
                qkv_bias,
                tp_rank,
                tp_size,
                *device,
            ),
            tensor::is_cpu(*device) ==> attention is Ok,
            attention matches Err(error) ==> error is Tensor,
    {
        let total_num_heads = num_heads;
        let num_heads = linear::divide(total_num_heads, tp_size);
        let total_num_kv_heads = num_kv_heads;
        let num_kv_heads = linear::divide(total_num_kv_heads, tp_size);
        let head_dim = match head_dim {
            Some(n) => n,
            None => hidden_size / total_num_heads,
        };
        let ghost n = tp_size as int;
        let ghost q = num_heads * head_dim;
        let ghost kv = num_kv_heads * head_dim;
        let ghost all = total_num_heads * head_dim;
        let ghost rows = (total_num_heads + 2 * total_num_kv_heads) * head_dim;
        proof {
            assert(n * q == all && 0 <= q) by (nonlinear_arith)
                requires
                    q == num_heads * head_dim,
                    num_heads * n == total_num_heads,
                    all == total_num_heads * head_dim,
            ;
            assert(q <= all) by (nonlinear_arith)
                requires
                    n * q == all,
                    n >= 1,
                    q >= 0,
            ;
            assert(n * kv == total_num_kv_heads * head_dim && 0 <= kv) by (nonlinear_arith)
                requires
                    kv == num_kv_heads * head_dim,
                    num_kv_heads * n == total_num_kv_heads,
            ;
            assert(rows == all + 2 * (total_num_kv_heads * head_dim)) by (nonlinear_arith)
                requires
                    rows == (total_num_heads + 2 * total_num_kv_heads) * head_dim,
                    all == total_num_heads * head_dim,
            ;
            let each = q + 2 * kv;
            assert(rows == n * each) by (nonlinear_arith)
                requires
                    rows == n * q + 2 * (n * kv),
                    each == q + 2 * kv,
            ;
            assert(rows / n == each) by (nonlinear_arith)
                requires
                    rows == n * each,
                    n > 0,
            ;
            assert(each <= rows) by (nonlinear_arith)
                requires
                    rows == n * each,
                    n >= 1,
                    each >= 0,
            ;
            assert(all % n == 0 && all / n == q) by (nonlinear_arith)
                requires
                    all == n * q,
                    n > 0,
            ;
        }
        let q_size = num_heads * head_dim;
        let kv_size = num_kv_heads * head_dim;
        let qkv_proj = match QKVParallelLinear::new(
            hidden_size,
            head_dim,
            total_num_heads,
            Some(total_num_kv_heads),
            qkv_bias,
            tp_rank,
            tp_size,
            device,
        ) {
            Ok(layer) => layer,
            Err(error) => {
                return Err(error);
            },
        };
        proof {
            let m = qkv_proj.num_heads as int;
            let k = qkv_proj.num_kv_heads as int;
            assert(m == num_heads) by (nonlinear_arith)
                requires
                    m * n == num_heads * n,
                    n > 0,
            ;
            assert(k == num_kv_heads) by (nonlinear_arith)
                requires
                    k * n == num_kv_heads * n,
                    n > 0,
            ;
        }
        let o_proj = match RowParallelLinear::new(
            total_num_heads * head_dim,
            hidden_size,
            false,
            tp_rank,
            tp_size,
            device,
        ) {
            Ok(layer) => layer,
            Err(error) => {
                return Err(error);
            },
        };
        let (q_norm, k_norm) = if !qkv_bias {
            let q_norm = match RMSNorm::new(head_dim, rms_norm_eps, device) {
                Ok(norm) => norm,
                Err(error) => {
                    return Err(error);
                },
            };
            let k_norm = match RMSNorm::new(head_dim, rms_norm_eps, device) {
                Ok(norm) => norm,
                Err(error) => {
                    return Err(error);
                },
            };
            (Some(q_norm), Some(k_norm))
        } else {
            (None, None)
        };
        Ok(
            Qwen3Attention {
                total_num_heads,
                num_heads,
                total_num_kv_heads,
                num_kv_heads,
                head_dim,
                q_size,
                kv_size,
                qkv_bias,
                qkv_proj,
                o_proj,
                q_norm,
                k_norm,
            },
        )
    }
}

/// The weights of the feed-forward part.
pub struct Qwen3MLP {
    pub gate_up_proj: MergedColumnParallelLinear,
    pub down_proj: RowParallelLinear,
}

/// A feed-forward part with these dimensions can be cut for `tp_size` ranks, and its weights
/// counted.
pub open spec fn mlp_fits(hidden_size: usize, intermediate_size: usize, tp_size: usize) -> bool {
    &&& intermediate_size as int % tp_size as int == 0
    &&& 2 * intermediate_size <= isize::MAX / 8
    &&& 2 * intermediate_size * hidden_size <= isize::MAX / 8
    &&& hidden_size * intermediate_size <= isize::MAX / 8
    &&& hidden_size <= isize::MAX / 8
}

impl Qwen3MLP {
    pub open spec fn wf(&self) -> bool {
        &&& self.gate_up_proj.wf()
        &&& self.gate_up_proj.output_sizes@.len() == 2
        &&& self.down_proj.wf()
    }

    /// The weights as they are made, cut for `tp_size` ranks.
    pub open spec fn is_new(
        &self,
        hidden_size: usize,
        intermediate_size: usize,
        tp_rank: usize,
        tp_size: usize,
        device: Device,
    ) -> bool {
        &&& self.wf()
        &&& self.gate_up_proj.output_sizes@ == seq![intermediate_size, intermediate_size]
        &&& self.gate_up_proj.base.base.is_new(
            hidden_size,
            (2 * intermediate_size / tp_size as int) as usize,
            false,
            Some(0),
            tp_rank,
            tp_size,
            device,
        )
        &&& self.down_proj.base.is_new(
            (intermediate_size as int / tp_size as int) as usize,
            hidden_size,
            false,
            Some(1),
            tp_rank,
            tp_size,
            device,
        )
    }

    pub fn new(
        hidden_size: usize,
        intermediate_size: usize,
        tp_rank: usize,
        tp_size: usize,
        device: &Device,
    ) -> (mlp: Result<Self, LayerError>)
        requires
            tp_rank < tp_size,
            mlp_fits(hidden_size, intermediate_size, tp_size),
        ensures
            mlp matches Ok(m) ==> m.is_new(
                hidden_size,
                intermediate_size,
                tp_rank,
                tp_size,
                *device,
            ),
            tensor::is_cpu(*device) ==> mlp is Ok,
            mlp matches Err(error) ==> error is Tensor,
    {
        let mut output_sizes: Vec<usize> = Vec::new();
        output_sizes.push(intermediate_size);
        output_sizes.push(intermediate_size);
        proof {
            assert(output_sizes@ =~= seq![intermediate_size, intermediate_size]);
            reveal_with_fuel(linear::sum_of, 3);
            assert(linear::sum_of(output_sizes@, 2) == 2 * intermediate_size);
            let x = intermediate_size as int;
            let n = tp_size as int;
            let k = x / n;
            assert(2 * x == (2 * k) * n) by (nonlinear_arith)
                requires
                    k == x / n,
                    x % n == 0,
                    n > 0,
            ;
            vstd::arithmetic::div_mod::lemma_mod_multiples_basic(2 * k, n);
        }
        let gate_up_proj = match MergedColumnParallelLinear::new(
            hidden_size,
            output_sizes,
            false,
            tp_rank,
            tp_size,
            device,
        ) {
            Ok(layer) => layer,
            Err(error) => {
                return Err(error);
            },
        };
        let down_proj = match RowParallelLinear::new(
            intermediate_size,
            hidden_size,
            false,
            tp_rank,
            tp_size,
            device,
        ) {
            Ok(layer) => layer,
            Err(error) => {
                return Err(error);
            },
        };
        Ok(Qwen3MLP { gate_up_proj, down_proj })
    }
}

/// The weights of one layer.
pub struct Qwen3DecoderLayer {
    pub self_attn: Qwen3Attention,
    pub mlp: Qwen3MLP,
    pub input_layernorm: RMSNorm,
    pub post_attention_layernorm: RMSNorm,
}

/// A model with this configuration can be cut for `tp_size` ranks, and its weights counted.
pub open spec fn config_fits(config: Config, tp_size: usize) -> bool {
    &&& attention_fits(
        config.hidden_size,
        config.num_attention_heads,
        config.num_key_value_heads,
        Some(config.head_dim),
        tp_size,
    )
    &&& mlp_fits(config.hidden_size, config.intermediate_size, tp_size)
    &&& config.vocab_size as int % tp_size as int == 0
    &&& config.vocab_size <= isize::MAX / 8
    &&& config.vocab_size * config.hidden_size <= isize::MAX / 8
    &&& config.hidden_act@ == "silu"@
}

/// Whether `a * b` numbers can be counted.
fn can_count(a: usize, b: usize) -> (fits: bool)
    ensures
        fits == (a * b <= isize::MAX / 8),
{
    match a.checked_mul(b) {
        Some(product) => product <= isize::MAX as usize / 8,
        None => false,
    }
}

/// Whether a model with this configuration can be cut for `tp_size` ranks, and its weights
/// counted.
pub fn is_supported(config: &Config, tp_size: usize) -> (supported: bool)
    requires
        tp_size > 0,
    ensures
        supported == config_fits(*config, tp_size),
{
    let hidden = config.hidden_size;
    let heads = config.num_attention_heads;
    let kv_heads = config.num_key_value_heads;
    let most = isize::MAX as usize / 8;
    if heads % tp_size != 0 || kv_heads % tp_size != 0 || config.intermediate_size % tp_size != 0
        || config.vocab_size % tp_size != 0 {
        return false;
    }
    let all_heads = match kv_heads.checked_mul(2) {
        Some(both) => match both.checked_add(heads) {
            Some(all) => all,
            None => {
                return false;
            },
        },
        None => {
            return false;
        },
    };
    if !can_count(all_heads, config.head_dim) || !can_count(heads, config.head_dim) {
        return false;
    }
    let rows = all_heads * config.head_dim;
    let outputs = heads * config.head_dim;
    if !can_count(rows, hidden) || !can_count(hidden, outputs) || hidden > most
        || config.head_dim > most {
        return false;
    }
    if !can_count(2, config.intermediate_size) {
        return false;
    }
    let both = 2 * config.intermediate_size;
    can_count(both, hidden) && can_count(hidden, config.intermediate_size) && config.vocab_size
        <= most && can_count(config.vocab_size, hidden) && text::same_text(
        config.hidden_act.as_str(),
        "silu",
    )
}

impl Qwen3DecoderLayer {
    pub open spec fn wf(&self) -> bool {
        self.self_attn.wf() && self.mlp.wf()
    }

    /// The weights as they are made, cut for `tp_size` ranks.
    pub open spec fn is_new(
        &self,
        config: Config,
        rms_norm_eps: u32,
        tp_rank: usize,
        tp_size: usize,
        device: Device,
    ) -> bool {
        &&& self.self_attn.is_new(
            config.hidden_size,
            config.num_attention_heads,
            config.num_key_value_heads,
            Some(config.head_dim),
            rms_norm_eps,
            config.attention_bias,
            tp_rank,
            tp_size,
            device,
        )
        &&& self.mlp.is_new(
            config.hidden_size,
            config.intermediate_size,
            tp_rank,
            tp_size,
            device,
        )
        &&& self.input_layernorm.is_new(config.hidden_size, rms_norm_eps, device)
        &&& self.post_attention_layernorm.is_new(config.hidden_size, rms_norm_eps, device)
    }

    pub fn new(
        config: &Config,
        rms_norm_eps: u32,
        tp_rank: usize,
        tp_size: usize,
        device: &Device,
    ) -> (layer: Result<Self, LayerError>)
        requires
            tp_rank < tp_size,
            config_fits(*config, tp_size),
        ensures
            layer matches Ok(l) ==> l.is_new(*config, rms_norm_eps, tp_rank, tp_size, *device),
            tensor::is_cpu(*device) ==> layer is Ok,
            layer matches Err(error) ==> error is Tensor,
    {
        let self_attn = match Qwen3Attention::new(
            config.hidden_size,
            config.num_attention_heads,
            config.num_key_value_heads,
            Some(config.head_dim),
            rms_norm_eps,
            config.attention_bias,
            tp_rank,
            tp_size,
            device,
        ) {
            Ok(attention) => attention,
            Err(error) => {
                return Err(error);
            },
        };
        let mlp = match Qwen3MLP::new(
            config.hidden_size,
            config.intermediate_size,
            tp_rank,
            tp_size,
            device,
        ) {
            Ok(mlp) => mlp,
            Err(error) => {
                return Err(error);
            },
        };
        let input_layernorm = match RMSNorm::new(config.hidden_size, rms_norm_eps, device) {
            Ok(norm) => norm,
            Err(error) => {
                return Err(error);
            },
        };
        let post_attention_layernorm = match RMSNorm::new(
            config.hidden_size,
            rms_norm_eps,
            device,
        ) {
            Ok(norm) => norm,
            Err(error) => {
                return Err(error);
            },
        };
        Ok(Qwen3DecoderLayer { self_attn, mlp, input_layernorm, post_attention_layernorm })
    }
}

/// The weights of the model without its head.
pub struct Qwen3Model {
    pub embed_tokens: VocabParallelEmbedding,
    pub layers: Vec<Qwen3DecoderLayer>,
    pub norm: RMSNorm,
}

impl Qwen3Model {
    pub open spec fn wf(&self) -> bool {
        &&& self.embed_tokens.wf()
        &&& forall|i: int| 0 <= i < self.layers@.len() ==> (#[trigger] self.layers@[i]).wf()
    }

    /// The weights as they are made, cut for `tp_size` ranks.
    pub open spec fn is_new(
        &self,
        config: Config,
        rms_norm_eps: u32,
        tp_rank: usize,
        tp_size: usize,
        device: Device,
    ) -> bool {
        &&& self.embed_tokens.is_new(
            config.vocab_size,
            config.hidden_size,
            tp_rank,
            tp_size,
            device,
        )
        &&& self.layers@.len() == config.num_hidden_layers
        &&& forall|i: int|
            0 <= i < self.layers@.len() ==> (#[trigger] self.layers@[i]).is_new(
                config,
                rms_norm_eps,
                tp_rank,
                tp_size,
                device,
            )
        &&& self.norm.is_new(config.hidden_size, rms_norm_eps, device)
    }

    pub fn new(
        config: &Config,
        rms_norm_eps: u32,
        tp_rank: usize,
        tp_size: usize,
        device: &Device,
    ) -> (model: Result<Self, LayerError>)
        requires
            tp_rank < tp_size,
            config_fits(*config, tp_size),
        ensures
            model matches Ok(m) ==> m.wf() && m.is_new(
                *config,
                rms_norm_eps,
                tp_rank,
                tp_size,
                *device,
            ),
            tensor::is_cpu(*device) ==> model is Ok,
            model matches Err(error) ==> error is Tensor,
    {
        let embed_tokens = match VocabParallelEmbedding::new(
            config.vocab_size,
            config.hidden_size,
            tp_rank,
            tp_size,
            device,
        ) {
            Ok(layer) => layer,
            Err(error) => {
                return Err(error);
            },
        };
        let mut layers: Vec<Qwen3DecoderLayer> = Vec::new();
        while layers.len() < config.num_hidden_layers
            invariant
                tp_rank < tp_size,
                config_fits(*config, tp_size),
                layers@.len() <= config.num_hidden_layers,
                forall|i: int|
                    0 <= i < layers@.len() ==> (#[trigger] layers@[i]).is_new(
                        *config,
                        rms_norm_eps,
                        tp_rank,
                        tp_size,
                        *device,
                    ),
            decreases config.num_hidden_layers - layers@.len(),
        {
            match Qwen3DecoderLayer::new(config, rms_norm_eps, tp_rank, tp_size, device) {
                Ok(layer) => {
                    layers.push(layer);
                },
                Err(error) => {
                    return Err(error);
                },
            }
        }
        let norm = match RMSNorm::new(config.hidden_size, rms_norm_eps, device) {
            Ok(norm) => norm,
            Err(error) => {
                return Err(error);
            },
        };
        Ok(Qwen3Model { embed_tokens, layers, norm })
    }
}

/// The weights of the whole model.
pub struct Qwen3ForCausalLM {
    pub model: Qwen3Model,
    pub lm_head: ParallelLMHead,
    pub tie_word_embeddings: bool,
}

impl Qwen3ForCausalLM {
    pub fn new(
        config: &Config,
        rms_norm_eps: u32,
        tp_rank: usize,
        tp_size: usize,
        device: &Device,
    ) -> (model: Result<Self, LayerError>)
        requires
            tp_rank < tp_size,
            config_fits(*config, tp_size),
        ensures
            model matches Ok(m) ==> {
                &&& m.wf()
                &&& m.model.is_new(*config, rms_norm_eps, tp_rank, tp_size, *device)
                &&& m.lm_head.base.is_new(
                    config.vocab_size,
                    config.hidden_size,
                    tp_rank,
                    tp_size,
                    *device,
                )
                &&& m.tie_word_embeddings == config.tie_word_embeddings
            },
            tensor::is_cpu(*device) ==> model is Ok,
            model matches Err(error) ==> error is Tensor,
    {
        let model = match Qwen3Model::new(config, rms_norm_eps, tp_rank, tp_size, device) {
            Ok(model) => model,
            Err(error) => {
                return Err(error);
            },
        };
        let lm_head = match ParallelLMHead::new(
            config.vocab_size,
            config.hidden_size,
            tp_rank,
            tp_size,
            device,
        ) {
            Ok(head) => head,
            Err(error) => {
                return Err(error);
            },
        };
        Ok(Qwen3ForCausalLM { model, lm_head, tie_word_embeddings: config.tie_word_embeddings })
    }

    /// Uses the embedding for the head too, where the model is made so. This is done once the
    /// weights have been loaded.
    pub fn tie_weights_if_configured(&mut self)
        ensures
            final(self).model == old(self).model,
            final(self).tie_word_embeddings == old(self).tie_word_embeddings,
            final(self).lm_head.base.same_shape(old(self).lm_head.base),
            old(self).tie_word_embeddings ==> tensor::elements(final(self).lm_head.base.weight)
                == tensor::elements(old(self).model.embed_tokens.weight) && tensor::dims(
                final(self).lm_head.base.weight,
            ) == tensor::dims(old(self).model.embed_tokens.weight),
            !old(self).tie_word_embeddings ==> *final(self) == *old(self),
    {
        if self.tie_word_embeddings {
            self.lm_head.tie_weights(&self.model.embed_tokens);
        }
    }
}

/// A weight of one layer.
pub enum LayerTarget {
    /// The queries, the keys or the values, by name.
    Qkv(&'static str),
    Output,
    QueryNorm,
    KeyNorm,
    /// The gating projection or the upward one, by number.
    GateUp(usize),
    Down,
    InputNorm,
    PostAttentionNorm,
}

/// Where a tensor goes.
pub enum Target {
    /// Nowhere: the model has no such weight.
    Nowhere,
    /// To a weight that is made of parts, without saying to which.
    Unclear,
    /// To a part that there is not.
    NoSuchPart,
    Layer(usize, LayerTarget),
    Embedding,
    Norm,
    Head,
}

/// The place of the first `c` in `s`, from place `i` on, or the end.
pub open spec fn find_char(s: Seq<char>, c: char, i: int) -> int
    decreases s.len() - i,
{
    if i < 0 || i >= s.len() || s[i] == c {
        i
    } else {
        find_char(s, c, i + 1)
    }
}

/// Where a tensor of a layer goes, by what stands behind the number of the layer.
pub open spec fn layer_target(suffix: Seq<char>, shard: Option<ShardId>, i: usize) -> Target {
    if suffix == "self_attn.qkv_proj.weight"@ {
        match shard {
            Some(ShardId::Name(name)) => Target::Layer(i, LayerTarget::Qkv(name)),
            _ => Target::Unclear,
        }
    } else if suffix == "self_attn.o_proj.weight"@ {
        Target::Layer(i, LayerTarget::Output)
    } else if suffix == "self_attn.q_norm.weight"@ {
        Target::Layer(i, LayerTarget::QueryNorm)
    } else if suffix == "self_attn.k_norm.weight"@ {
        Target::Layer(i, LayerTarget::KeyNorm)
    } else if suffix == "mlp.gate_up_proj.weight"@ {
        match shard {
            Some(ShardId::Index(part)) => if part < 2 {
                Target::Layer(i, LayerTarget::GateUp(part))
            } else {
                Target::NoSuchPart
            },
            _ => Target::Unclear,
        }
    } else if suffix == "mlp.down_proj.weight"@ {
        Target::Layer(i, LayerTarget::Down)
    } else if suffix == "input_layernorm.weight"@ {
        Target::Layer(i, LayerTarget::InputNorm)
    } else if suffix == "post_attention_layernorm.weight"@ {
        Target::Layer(i, LayerTarget::PostAttentionNorm)
    } else {
        Target::Nowhere
    }
}

/// The part of a name behind `model.layers.`, cut at its first point: the number of the
/// layer, and the rest.
pub open spec fn layer_parts(rest: Seq<char>) -> (Seq<char>, Seq<char>) {
    let dot = find_char(rest, '.', 0);
    (
        rest.subrange(0, dot),
        if dot < rest.len() {
            rest.subrange(dot + 1, rest.len() as int)
        } else {
            Seq::empty()
        },
    )
}

/// Where the tensor of a parameter goes in a model of `num_layers` layers.
pub open spec fn target_of(name: Seq<char>, shard: Option<ShardId>, num_layers: nat) -> Target {
    let prefix = "model.layers."@;
    if text::occurs_at(name, prefix, 0) {
        let parts = layer_parts(name.subrange(prefix.len() as int, name.len() as int));
        match text::number_of(parts.0) {
            Some(i) => if i < num_layers {
                layer_target(parts.1, shard, i)
            } else {
                Target::Nowhere
            },
            None => Target::Nowhere,
        }
    } else if name == "model.embed_tokens.weight"@ {
        Target::Embedding
    } else if name == "model.norm.weight"@ {
        Target::Norm
    } else if name == "lm_head.weight"@ {
        Target::Head
    } else {
        Target::Nowhere
    }
}

/// Finds where a tensor of a layer goes.
fn find_layer_target(suffix: &str, shard: Option<ShardId>, i: usize) -> (target: Target)
    ensures
        target == layer_target(suffix@, shard, i),
{
    if text::same_text(suffix, "self_attn.qkv_proj.weight") {
        match shard {
            Some(ShardId::Name(name)) => Target::Layer(i, LayerTarget::Qkv(name)),
            _ => Target::Unclear,
        }
    } else if text::same_text(suffix, "self_attn.o_proj.weight") {
        Target::Layer(i, LayerTarget::Output)
    } else if text::same_text(suffix, "self_attn.q_norm.weight") {
        Target::Layer(i, LayerTarget::QueryNorm)
    } else if text::same_text(suffix, "self_attn.k_norm.weight") {
        Target::Layer(i, LayerTarget::KeyNorm)
    } else if text::same_text(suffix, "mlp.gate_up_proj.weight") {
        match shard {
            Some(ShardId::Index(part)) => if part < 2 {
                Target::Layer(i, LayerTarget::GateUp(part))
            } else {
                Target::NoSuchPart
            },
            _ => Target::Unclear,
        }
    } else if text::same_text(suffix, "mlp.down_proj.weight") {
        Target::Layer(i, LayerTarget::Down)
    } else if text::same_text(suffix, "input_layernorm.weight") {
        Target::Layer(i, LayerTarget::InputNorm)
    } else if text::same_text(suffix, "post_attention_layernorm.weight") {
        Target::Layer(i, LayerTarget::PostAttentionNorm)
    } else {
        Target::Nowhere
    }
}

/// Finds where the tensor of a parameter goes in a model of `num_layers` layers.
pub fn find_target(name: &str, shard: Option<ShardId>, num_layers: usize) -> (target: Target)
    ensures
        target == target_of(name@, shard, num_layers as nat),
{
    let prefix = "model.layers.";
    if text::is_at(name, prefix, 0) {
        let n = name.unicode_len();
        let rest = name.substring_char(prefix.unicode_len(), n);
        let len = rest.unicode_len();
        let mut dot: usize = 0;
        while dot < len && rest.get_char(dot) != '.'
            invariant
                dot <= len,
                len == rest@.len(),
                find_char(rest@, '.', dot as int) == find_char(rest@, '.', 0),
            decreases len - dot,
        {
            dot = dot + 1;
        }
        let i = match text::parse_usize(rest.substring_char(0, dot)) {
            Some(i) => i,
            None => {
                return Target::Nowhere;
            },
        };
        if i >= num_layers {
            return Target::Nowhere;
        }
        let suffix = if dot < len {
            rest.substring_char(dot + 1, len)
        } else {
            rest.substring_char(len, len)
        };
        assert(dot == len ==> suffix@ =~= Seq::empty());
        find_layer_target(suffix, shard, i)
    } else if text::same_text(name, "model.embed_tokens.weight") {
        Target::Embedding
    } else if text::same_text(name, "model.norm.weight") {
        Target::Norm
    } else if text::same_text(name, "lm_head.weight") {
        Target::Head
    } else {
        Target::Nowhere
    }
}

/// What comes of loading a tensor into one weight of a layer: only that weight changes.
pub open spec fn layer_loaded(
    before: Qwen3DecoderLayer,
    after: Qwen3DecoderLayer,
    target: LayerTarget,
    loaded: Tensor,
    success: bool,
) -> bool {
    match target {
        LayerTarget::Qkv(name) => {
            &&& after == (Qwen3DecoderLayer {
                self_attn: Qwen3Attention {
                    qkv_proj: after.self_attn.qkv_proj,
                    ..before.self_attn
                },
                ..before
            })
            &&& after.self_attn.qkv_proj.loaded(
                before.self_attn.qkv_proj,
                loaded,
                name@,
                success,
            )
        },
        LayerTarget::Output => {
            &&& after == (Qwen3DecoderLayer {
                self_attn: Qwen3Attention { o_proj: after.self_attn.o_proj, ..before.self_attn },
                ..before
            })
            &&& after.self_attn.o_proj.base.loaded_shard(
                before.self_attn.o_proj.base,
                loaded,
                1,
                success,
            )
        },
        LayerTarget::QueryNorm => success && after == (Qwen3DecoderLayer {
            self_attn: Qwen3Attention {
                q_norm: norm_loaded(before.self_attn.q_norm, loaded),
                ..before.self_attn
            },
            ..before
        }),
        LayerTarget::KeyNorm => success && after == (Qwen3DecoderLayer {
            self_attn: Qwen3Attention {
                k_norm: norm_loaded(before.self_attn.k_norm, loaded),
                ..before.self_attn
            },
            ..before
        }),
        LayerTarget::GateUp(part) => {
            &&& after == (Qwen3DecoderLayer {
                mlp: Qwen3MLP { gate_up_proj: after.mlp.gate_up_proj, ..before.mlp },
                ..before
            })
            &&& after.mlp.gate_up_proj.loaded(before.mlp.gate_up_proj, loaded, part, success)
        },
        LayerTarget::Down => {
            &&& after == (Qwen3DecoderLayer {
                mlp: Qwen3MLP { down_proj: after.mlp.down_proj, ..before.mlp },
                ..before
            })
            &&& after.mlp.down_proj.base.loaded_shard(
                before.mlp.down_proj.base,
                loaded,
                1,
                success,
            )
        },
        LayerTarget::InputNorm => success && after == (Qwen3DecoderLayer {
            input_layernorm: RMSNorm { weight: loaded, ..before.input_layernorm },
            ..before
        }),
        LayerTarget::PostAttentionNorm => success && after == (Qwen3DecoderLayer {
            post_attention_layernorm: RMSNorm {
                weight: loaded,
                ..before.post_attention_layernorm
            },
            ..before
        }),
    }
}

/// A norm that there is takes the weight.
pub open spec fn norm_loaded(norm: Option<RMSNorm>, loaded: Tensor) -> Option<RMSNorm> {
    match norm {
        Some(norm) => Some(RMSNorm { weight: loaded, ..norm }),
        None => None,
    }
}

impl Qwen3DecoderLayer {
    /// The target is a part of fused attention by a name that none has.
    pub open spec fn has_no_part(&self, target: LayerTarget) -> bool {
        match target {
            LayerTarget::Qkv(name) => linear::qkv_part(
                name@,
                self.self_attn.qkv_proj.q_size(),
                self.self_attn.qkv_proj.kv_size(),
            ) is None,
            _ => false,
        }
    }

    /// Loads a tensor into one weight of the layer.
    fn load_weight(&mut self, target: LayerTarget, loaded_weight: Tensor) -> (loaded: Result<
        (),
        LayerError,
    >)
        requires
            old(self).wf(),
            target matches LayerTarget::GateUp(part) ==> part < 2,
        ensures
            final(self).wf(),
            layer_loaded(*old(self), *final(self), target, loaded_weight, loaded is Ok),
            loaded matches Err(error) ==> if old(self).has_no_part(target) {
                error is UnknownShard
            } else {
                error.is_misfit()
            },
    {
        match target {
            LayerTarget::Qkv(name) => self.self_attn.qkv_proj.weight_loader(loaded_weight, name),
            LayerTarget::Output => self.self_attn.o_proj.weight_loader(loaded_weight),
            LayerTarget::QueryNorm => {
                if let Some(norm) = &mut self.self_attn.q_norm {
                    norm.weight_loader(loaded_weight);
                }
                Ok(())
            },
            LayerTarget::KeyNorm => {
                if let Some(norm) = &mut self.self_attn.k_norm {
                    norm.weight_loader(loaded_weight);
                }
                Ok(())
            },
            LayerTarget::GateUp(part) => self.mlp.gate_up_proj.weight_loader(
                loaded_weight,
                part,
            ),
            LayerTarget::Down => self.mlp.down_proj.weight_loader(loaded_weight),
            LayerTarget::InputNorm => {
                self.input_layernorm.weight_loader(loaded_weight);
                Ok(())
            },
            LayerTarget::PostAttentionNorm => {
                self.post_attention_layernorm.weight_loader(loaded_weight);
                Ok(())
            },
        }
    }
}

/// A packed module, from plain texts.
fn packed(key: &str, target: &str, shard: ShardId) -> (module: PackedModule)
    ensures
        module@.key == key@,
        module@.target == target@,
        module@.shard == shard,
{
    PackedModule { key: key.to_owned(), target: target.to_owned(), shard }
}

impl ModelWeights for Qwen3ForCausalLM {
    open spec fn wf(&self) -> bool {
        self.model.wf() && self.lm_head.base.wf()
    }

    open spec fn loaded(
        before: Self,
        after: Self,
        name: Seq<char>,
        tensor: Tensor,
        shard: Option<ShardId>,
        success: bool,
    ) -> bool {
        match target_of(name, shard, before.model.layers@.len()) {
            Target::Nowhere => success && after == before,
            Target::Unclear => !success && after == before,
            Target::NoSuchPart => !success && after == before,
            Target::Layer(i, target) => {
                &&& after.lm_head == before.lm_head
                &&& after.tie_word_embeddings == before.tie_word_embeddings
                &&& after.model.embed_tokens == before.model.embed_tokens
                &&& after.model.norm == before.model.norm
                &&& after.model.layers@ == before.model.layers@.update(
                    i as int,
                    after.model.layers@[i as int],
                )
                &&& layer_loaded(
                    before.model.layers@[i as int],
                    after.model.layers@[i as int],
                    target,
                    tensor,
                    success,
                )
            },
            Target::Embedding => {
                &&& after == (Qwen3ForCausalLM {
                    model: Qwen3Model {
                        embed_tokens: after.model.embed_tokens,
                        ..before.model
                    },
                    ..before
                })
                &&& after.model.embed_tokens.loaded_rows(
                    before.model.embed_tokens,
                    tensor,
                    success,
                )
            },
            Target::Norm => success && after == (Qwen3ForCausalLM {
                model: Qwen3Model {
                    norm: RMSNorm { weight: tensor, ..before.model.norm },
                    ..before.model
                },
                ..before
            }),
            Target::Head => {
                &&& after == (Qwen3ForCausalLM { lm_head: after.lm_head, ..before })
                &&& after.lm_head.base.loaded_rows(before.lm_head.base, tensor, success)
            },
        }
    }

    /// The projections of queries, keys and values are packed into one; so are the gating
    /// projection and the upward one.
    fn packed_modules_mapping(&self) -> (modules: Vec<PackedModule>)
        ensures
            modules@.len() == 5,
            modules@[0]@ == packed_view("q_proj"@, "qkv_proj"@, ShardId::Name("q")),
            modules@[1]@ == packed_view("k_proj"@, "qkv_proj"@, ShardId::Name("k")),
            modules@[2]@ == packed_view("v_proj"@, "qkv_proj"@, ShardId::Name("v")),
            modules@[3]@ == packed_view("gate_proj"@, "gate_up_proj"@, ShardId::Index(0)),
            modules@[4]@ == packed_view("up_proj"@, "gate_up_proj"@, ShardId::Index(1)),
    {
        proof {
            reveal_strlit("q_proj");
            reveal_strlit("k_proj");
            reveal_strlit("v_proj");
            reveal_strlit("gate_proj");
            reveal_strlit("up_proj");
        }
        let mut modules: Vec<PackedModule> = Vec::new();
        modules.push(packed("q_proj", "qkv_proj", ShardId::Name("q")));
        modules.push(packed("k_proj", "qkv_proj", ShardId::Name("k")));
        modules.push(packed("v_proj", "qkv_proj", ShardId::Name("v")));
        modules.push(packed("gate_proj", "gate_up_proj", ShardId::Index(0)));
        modules.push(packed("up_proj", "gate_up_proj", ShardId::Index(1)));
        modules
    }

    fn load_weight(
        &mut self,
        param_name: &str,
        loaded_weight: Tensor,
        shard_id: Option<ShardId>,
    ) -> (loaded: Result<(), LayerError>)
        ensures
            loaded matches Err(error) ==> match target_of(
                param_name@,
                shard_id,
                old(self).model.layers@.len(),
            ) {
                Target::Unclear => error is MissingShard,
                Target::NoSuchPart => error is UnknownShard,
                Target::Layer(i, target) => if old(self).model.layers@[i as int].has_no_part(
                    target,
                ) {
                    error is UnknownShard
                } else {
                    error.is_misfit()
                },
                _ => error is Tensor,
            },
    {
        let ghost before = *self;
        match find_target(param_name, shard_id, self.model.layers.len()) {
            Target::Nowhere => Ok(()),
            Target::Unclear => Err(LayerError::MissingShard),
            Target::NoSuchPart => Err(LayerError::UnknownShard),
            Target::Layer(i, target) => {
                let loaded = self.model.layers[i].load_weight(target, loaded_weight);
                assert(self.model.layers@ =~= before.model.layers@.update(
                    i as int,
                    self.model.layers@[i as int],
                ));
                assert forall|k: int| 0 <= k < self.model.layers@.len() implies (
                #[trigger] self.model.layers@[k]).wf() by {
                    if k != i {
                        assert(before.model.layers@[k].wf());
                    }
                }
                loaded
            },
            Target::Embedding => self.model.embed_tokens.weight_loader(loaded_weight),
            Target::Norm => {
                self.model.norm.weight_loader(loaded_weight);
                Ok(())
            },
            Target::Head => self.lm_head.weight_loader(loaded_weight),
        }
    }
}

pub open spec fn packed_view(
    key: Seq<char>,
    target: Seq<char>,
    shard: ShardId,
) -> crate::utils::loader::PackedView {
    crate::utils::loader::PackedView { key, target, shard }
}

} // verus!
