//! The weights of all ranks together are those of the whole model.
use crate::config::Config;
use crate::layers::tensor;
use crate::models::qwen3;
use crate::models::qwen3::{Qwen3DecoderLayer, Qwen3Model};
use candle_core::{Device, Tensor};
use vstd::prelude::*;

verus! {

proof fn lemma_share(whole: int, n: int)
    requires
        n > 0,
        whole % n == 0,
    ensures
        (whole / n) * n == whole,
        (2 * whole) / n == 2 * (whole / n),
{
    assert((whole / n) * n == whole && (2 * whole) / n == 2 * (whole / n)) by (nonlinear_arith)
        requires
            n > 0,
            whole % n == 0,
    ;
}

/// What the ranks have of a layer makes up the whole: each projection is cut either by its outputs
/// or by its inputs, into parts of equal size, and keeps all of the other dimension; the norms are
/// whole.
pub proof fn the_ranks_make_up_a_layer(
    layer: Qwen3DecoderLayer,
    config: Config,
    rms_norm_eps: u32,
    tp_rank: usize,
    tp_size: usize,
    device: Device,
)
    requires
        tp_rank < tp_size,
        qwen3::config_fits(config, tp_size),
        layer.is_new(config, rms_norm_eps, tp_rank, tp_size, device),
    ensures
        ({
            let hidden = config.hidden_size;
            let each = config.head_dim;
            let heads = config.num_attention_heads;
            let kv_heads = config.num_key_value_heads;
            let inner = config.intermediate_size;
            let qkv = tensor::dims(layer.self_attn.qkv_proj.base.base.weight);
            let out = tensor::dims(layer.self_attn.o_proj.base.weight);
            let gate_up = tensor::dims(layer.mlp.gate_up_proj.base.base.weight);
            let down = tensor::dims(layer.mlp.down_proj.base.weight);
            &&& qkv.len() == 2 && out.len() == 2 && gate_up.len() == 2 && down.len() == 2
            &&& qkv[0] * tp_size == (heads + 2 * kv_heads) * each && qkv[1] == hidden
            &&& out[0] == hidden && out[1] * tp_size == heads * each
            &&& gate_up[0] * tp_size == inner + inner && gate_up[1] == hidden
            &&& down[0] == hidden && down[1] * tp_size == inner
            &&& layer.self_attn.qkv_proj.num_heads * tp_size == heads
            &&& layer.self_attn.qkv_proj.num_kv_heads * tp_size == kv_heads
            &&& layer.self_attn.qkv_proj.head_size == each
            &&& layer.self_attn.qkv_proj.base.base.tp_rank == tp_rank
            &&& layer.self_attn.o_proj.base.tp_rank == tp_rank
            &&& layer.mlp.gate_up_proj.base.base.tp_rank == tp_rank
            &&& layer.mlp.down_proj.base.tp_rank == tp_rank
            &&& tensor::dims(layer.input_layernorm.weight) == seq![hidden]
            &&& tensor::dims(layer.post_attention_layernorm.weight) == seq![hidden]
            &&& layer.self_attn.q_norm is Some == !config.attention_bias
            &&& layer.self_attn.k_norm is Some == !config.attention_bias
            &&& layer.self_attn.q_norm matches Some(norm) ==> tensor::dims(norm.weight) == seq![each]
            &&& layer.self_attn.k_norm matches Some(norm) ==> tensor::dims(norm.weight) == seq![each]
        }),
{
    let n = tp_size as int;
    let attention = layer.self_attn;
    let each = config.head_dim as int;
    let heads = config.num_attention_heads as int;
    let kv_heads = config.num_key_value_heads as int;
    let own = attention.num_heads as int;
    let own_kv = attention.num_kv_heads as int;
    let inner = config.intermediate_size as int;
    lemma_share(inner, n);
    assert(inner / n <= inner && 0 <= inner / n) by (nonlinear_arith)
        requires
            inner >= 0,
            n > 0,
    ;
    let rows = attention.q_size + 2 * attention.kv_size;
    assert(rows == (own + 2 * own_kv) * each) by (nonlinear_arith)
        requires
            rows == own * each + 2 * (own_kv * each),
    ;
    assert(rows * n == (heads + 2 * kv_heads) * each) by (nonlinear_arith)
        requires
            rows == (own + 2 * own_kv) * each,
            own * n == heads,
            own_kv * n == kv_heads,
    ;
    assert(own * each * n == heads * each) by (nonlinear_arith)
        requires
            own * n == heads,
    ;
    assert(rows <= rows * n) by (nonlinear_arith)
        requires
            n >= 1,
            rows >= 0,
    ;
    assert(2 * (inner / n) * n == 2 * inner) by (nonlinear_arith)
        requires
            (inner / n) * n == inner,
    ;
}

/// A layer takes the whole projections that it was made for: there is a share for every rank in
/// what attention and the feed-forward part put out.
pub proof fn a_new_layer_takes_whole_projections(
    layer: Qwen3DecoderLayer,
    config: Config,
    rms_norm_eps: u32,
    tp_rank: usize,
    tp_size: usize,
    device: Device,
    out: Tensor,
    down: Tensor,
    after: Qwen3DecoderLayer,
    success: bool,
)
    requires
        tp_rank < tp_size,
        qwen3::config_fits(config, tp_size),
        layer.is_new(config, rms_norm_eps, tp_rank, tp_size, device),
        tensor::dims(out) == seq![
            config.hidden_size,
            (config.num_attention_heads * config.head_dim) as usize,
        ],
        tensor::dims(down) == seq![config.hidden_size, config.intermediate_size],
    ensures
        qwen3::layer_loaded(layer, after, qwen3::LayerTarget::Output, out, success) ==> success
            && tensor::dims(after.self_attn.o_proj.base.weight) == tensor::dims(
            layer.self_attn.o_proj.base.weight,
        ),
        qwen3::layer_loaded(layer, after, qwen3::LayerTarget::Down, down, success) ==> success
            && tensor::dims(after.mlp.down_proj.base.weight) == tensor::dims(
            layer.mlp.down_proj.base.weight,
        ),
{
    the_ranks_make_up_a_layer(layer, config, rms_norm_eps, tp_rank, tp_size, device);
    let a = tensor::dims(layer.self_attn.o_proj.base.weight)[1] as int;
    let b = tensor::dims(layer.mlp.down_proj.base.weight)[1] as int;
    let n = tp_size as int;
    let r = tp_rank as int;
    assert(r * a + a <= a * n && r * b + b <= b * n) by (nonlinear_arith)
        requires
            r + 1 <= n,
            a >= 0,
            b >= 0,
    ;
    if qwen3::layer_loaded(layer, after, qwen3::LayerTarget::Output, out, success) {
        assert(tensor::dims(after.self_attn.o_proj.base.weight) =~= tensor::dims(
            layer.self_attn.o_proj.base.weight,
        ));
    }
    if qwen3::layer_loaded(layer, after, qwen3::LayerTarget::Down, down, success) {
        assert(tensor::dims(after.mlp.down_proj.base.weight) =~= tensor::dims(
            layer.mlp.down_proj.base.weight,
        ));
    }
}

/// The model has as many layers as it is said to have, and the embeddings of all ranks have a row
/// for each token of the vocabulary.
pub proof fn the_ranks_make_up_the_model(
    model: Qwen3Model,
    config: Config,
    rms_norm_eps: u32,
    tp_rank: usize,
    tp_size: usize,
    device: Device,
)
    requires
        tp_rank < tp_size,
        qwen3::config_fits(config, tp_size),
        model.is_new(config, rms_norm_eps, tp_rank, tp_size, device),
    ensures
        model.layers@.len() == config.num_hidden_layers,
        tensor::dims(model.embed_tokens.weight).len() == 2,
        tensor::dims(model.embed_tokens.weight)[0] * tp_size == config.vocab_size,
        tensor::dims(model.embed_tokens.weight)[1] == config.hidden_size,
        model.embed_tokens.vocab_start_idx == tp_rank * tensor::dims(model.embed_tokens.weight)[0],
        tensor::dims(model.norm.weight) == seq![config.hidden_size],
{
    let each = model.embed_tokens.num_embeddings_per_partition as int;
    let r = tp_rank as int;
    assert(each * r == r * each) by (nonlinear_arith);
}

} // verus!
