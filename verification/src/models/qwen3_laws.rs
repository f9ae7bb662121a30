//! Which weight of the model each parameter of a checkpoint is loaded into.
use crate::layers::layernorm::RMSNorm;
use crate::models::qwen3;
use crate::models::qwen3::{LayerTarget, Qwen3ForCausalLM, Target};
use crate::utils::loader;
use crate::utils::loader::{ModelWeights, PackedView, ShardId};
use crate::utils::text;
use crate::utils::text_laws;
use candle_core::Tensor;
use vstd::prelude::*;

verus! {

/// The name of a parameter of layer `i`.
pub open spec fn name_in_layer(i: nat, suffix: Seq<char>) -> Seq<char> {
    "model.layers."@ + text_laws::decimal(i) + seq!['.'] + suffix
}

proof fn lemma_dot(s: Seq<char>, digits: Seq<char>, i: int)
    requires
        0 <= i <= digits.len() < s.len(),
        s.take(digits.len() as int) == digits,
        s[digits.len() as int] == '.',
        forall|k: int| 0 <= k < digits.len() ==> text::is_digit(#[trigger] digits[k]),
    ensures
        qwen3::find_char(s, '.', i) == digits.len(),
    decreases digits.len() - i,
{
    if i < digits.len() {
        assert(text::is_digit(digits[i]));
        assert(s[i] == s.take(digits.len() as int)[i]);
        lemma_dot(s, digits, i + 1);
    }
}

/// A parameter of layer `i` goes where its suffix says.
proof fn lemma_in_layer(i: nat, suffix: Seq<char>, shard: Option<ShardId>, num_layers: nat)
    requires
        i <= usize::MAX,
    ensures
        qwen3::target_of(name_in_layer(i, suffix), shard, num_layers) == if i < num_layers {
            qwen3::layer_target(suffix, shard, i as usize)
        } else {
            Target::Nowhere
        },
{
    let name = name_in_layer(i, suffix);
    let prefix = "model.layers."@;
    let digits = text_laws::decimal(i);
    let rest = digits + seq!['.'] + suffix;
    text_laws::lemma_decimal(i);
    text_laws::numbers_are_read_back(i);
    assert(name.subrange(0, prefix.len() as int) =~= prefix);
    assert(text::occurs_at(name, prefix, 0));
    assert(name.subrange(prefix.len() as int, name.len() as int) =~= rest);
    assert(rest.take(digits.len() as int) =~= digits);
    lemma_dot(rest, digits, 0);
    let parts = qwen3::layer_parts(rest);
    assert(parts.0 =~= digits);
    assert(parts.1 =~= suffix);
}

/// Every parameter of every layer goes to its own weight of that layer, whatever the number of the
/// layer is.
pub proof fn each_parameter_of_a_layer_goes_to_its_weight(
    i: nat,
    num_layers: nat,
    shard: Option<ShardId>,
    part: &'static str,
    half: usize,
)
    requires
        i < num_layers <= usize::MAX,
        half < 2,
    ensures
        ({
            let layer = i as usize;
            &&& qwen3::target_of(
                name_in_layer(i, "self_attn.qkv_proj.weight"@),
                Some(ShardId::Name(part)),
                num_layers,
            ) == Target::Layer(layer, LayerTarget::Qkv(part))
            &&& qwen3::target_of(
                name_in_layer(i, "mlp.gate_up_proj.weight"@),
                Some(ShardId::Index(half)),
                num_layers,
            ) == Target::Layer(layer, LayerTarget::GateUp(half))
            &&& qwen3::target_of(
                name_in_layer(i, "self_attn.o_proj.weight"@),
                shard,
                num_layers,
            ) == Target::Layer(layer, LayerTarget::Output)
            &&& qwen3::target_of(
                name_in_layer(i, "self_attn.q_norm.weight"@),
                shard,
                num_layers,
            ) == Target::Layer(layer, LayerTarget::QueryNorm)
            &&& qwen3::target_of(
                name_in_layer(i, "self_attn.k_norm.weight"@),
                shard,
                num_layers,
            ) == Target::Layer(layer, LayerTarget::KeyNorm)
            &&& qwen3::target_of(name_in_layer(i, "mlp.down_proj.weight"@), shard, num_layers)
                == Target::Layer(layer, LayerTarget::Down)
            &&& qwen3::target_of(name_in_layer(i, "input_layernorm.weight"@), shard, num_layers)
                == Target::Layer(layer, LayerTarget::InputNorm)
            &&& qwen3::target_of(
                name_in_layer(i, "post_attention_layernorm.weight"@),
                shard,
                num_layers,
            ) == Target::Layer(layer, LayerTarget::PostAttentionNorm)
        }),
{
    lemma_suffixes_differ();
    lemma_in_layer(
        i,
        "self_attn.qkv_proj.weight"@,
        Some(ShardId::Name(part)),
        num_layers,
    );
    lemma_in_layer(i, "mlp.gate_up_proj.weight"@, Some(ShardId::Index(half)), num_layers);
    lemma_in_layer(i, "self_attn.o_proj.weight"@, shard, num_layers);
    lemma_in_layer(i, "self_attn.q_norm.weight"@, shard, num_layers);
    lemma_in_layer(i, "self_attn.k_norm.weight"@, shard, num_layers);
    lemma_in_layer(i, "mlp.down_proj.weight"@, shard, num_layers);
    lemma_in_layer(i, "input_layernorm.weight"@, shard, num_layers);
    lemma_in_layer(i, "post_attention_layernorm.weight"@, shard, num_layers);
}

proof fn lemma_suffixes_differ()
    ensures
        "self_attn.qkv_proj.weight"@.len() == 25,
        "self_attn.o_proj.weight"@.len() == 23,
        "self_attn.q_norm.weight"@.len() == 23,
        "self_attn.k_norm.weight"@.len() == 23,
        "mlp.gate_up_proj.weight"@.len() == 23,
        "mlp.down_proj.weight"@.len() == 20,
        "input_layernorm.weight"@.len() == 22,
        "post_attention_layernorm.weight"@.len() == 31,
        "self_attn.o_proj.weight"@[10] == 'o',
        "self_attn.q_norm.weight"@[10] == 'q',
        "self_attn.k_norm.weight"@[10] == 'k',
        "mlp.gate_up_proj.weight"@[10] == 'p',
        "mlp.gate_up_proj.weight"@[0] == 'm',
        "self_attn.o_proj.weight"@[0] == 's',
        "self_attn.q_norm.weight"@[0] == 's',
        "self_attn.k_norm.weight"@[0] == 's',
{
    reveal_strlit("self_attn.qkv_proj.weight");
    reveal_strlit("self_attn.o_proj.weight");
    reveal_strlit("self_attn.q_norm.weight");
    reveal_strlit("self_attn.k_norm.weight");
    reveal_strlit("mlp.gate_up_proj.weight");
    reveal_strlit("mlp.down_proj.weight");
    reveal_strlit("input_layernorm.weight");
    reveal_strlit("post_attention_layernorm.weight");
}

/// A parameter of a layer that the model has not goes nowhere.
pub proof fn layers_behind_the_last_go_nowhere(
    i: nat,
    suffix: Seq<char>,
    shard: Option<ShardId>,
    num_layers: nat,
)
    requires
        num_layers <= i <= usize::MAX,
    ensures
        qwen3::target_of(name_in_layer(i, suffix), shard, num_layers) == Target::Nowhere,
{
    lemma_in_layer(i, suffix, shard, num_layers);
}

/// The parameters outside the layers go to their own weights.
pub proof fn the_other_parameters_go_to_their_weights(shard: Option<ShardId>, num_layers: nat)
    ensures
        qwen3::target_of("model.embed_tokens.weight"@, shard, num_layers) == Target::Embedding,
        qwen3::target_of("model.norm.weight"@, shard, num_layers) == Target::Norm,
        qwen3::target_of("lm_head.weight"@, shard, num_layers) == Target::Head,
{
    reveal_strlit("model.layers.");
    reveal_strlit("model.embed_tokens.weight");
    reveal_strlit("model.norm.weight");
    reveal_strlit("lm_head.weight");
    let prefix = "model.layers."@;
    assert(prefix[6] == 'l' && prefix[0] == 'm');
    assert(!text::occurs_at("model.embed_tokens.weight"@, prefix, 0)) by {
        assert("model.embed_tokens.weight"@.subrange(0, prefix.len() as int)[6] == 'e');
    }
    assert(!text::occurs_at("model.norm.weight"@, prefix, 0)) by {
        assert("model.norm.weight"@.subrange(0, prefix.len() as int)[6] == 'n');
    }
    assert(!text::occurs_at("lm_head.weight"@, prefix, 0)) by {
        assert("lm_head.weight"@.subrange(0, prefix.len() as int)[0] == 'l');
    }
}

/// `key` stands in `name` at place `p`, spelled out.
pub open spec fn stands_at(name: Seq<char>, key: Seq<char>, p: int) -> bool {
    0 <= p && p + key.len() <= name.len() && name.subrange(p, p + key.len()) == key
}

proof fn lemma_replaced_tail(name: Seq<char>, key: Seq<char>, value: Seq<char>, i: int)
    requires
        0 <= i <= name.len(),
        key.len() > 0,
        forall|p: int| i <= p ==> !#[trigger] stands_at(name, key, p),
    ensures
        text::replaced_from(name, key, value, i) == name.skip(i),
    decreases name.len() - i,
{
    if i < name.len() {
        assert(!stands_at(name, key, i));
        lemma_replaced_tail(name, key, value, i + 1);
        assert(seq![name[i]] + name.skip(i + 1) =~= name.skip(i));
    } else {
        assert(name.skip(i) =~= Seq::empty());
    }
}

proof fn lemma_replaced_once(name: Seq<char>, key: Seq<char>, value: Seq<char>, i: int, p: int)
    requires
        0 <= i <= p,
        key.len() > 0,
        stands_at(name, key, p),
        forall|q: int| #[trigger] stands_at(name, key, q) ==> q == p,
    ensures
        text::replaced_from(name, key, value, i) == name.subrange(i, p) + value + name.skip(
            p + key.len(),
        ),
    decreases p - i,
{
    if i < p {
        assert(!stands_at(name, key, i));
        lemma_replaced_once(name, key, value, i + 1, p);
        assert(seq![name[i]] + (name.subrange(i + 1, p) + value + name.skip(p + key.len()))
            =~= name.subrange(i, p) + value + name.skip(p + key.len()));
    } else {
        lemma_replaced_tail(name, key, value, p + key.len());
        assert(value + name.skip(p + key.len()) =~= name.subrange(i, p) + value + name.skip(
            p + key.len(),
        ));
    }
}

/// A tensor in whose name the key of a packed module stands, and none of the keys before it, is a
/// part of the parameter that has the target in place of the key. The part is that of the module.
pub proof fn packed_tensors_go_to_the_packed_parameter(
    name: Seq<char>,
    modules: Seq<PackedView>,
    m: int,
    p: int,
)
    requires
        0 <= m < modules.len(),
        modules[m].key.len() > 0,
        forall|k: int, q: int| 0 <= k < m ==> !#[trigger] stands_at(name, modules[k].key, q),
        stands_at(name, modules[m].key, p),
        forall|q: int| #[trigger] stands_at(name, modules[m].key, q) ==> q == p,
    ensures
        loader::param_of(name, modules, 0) == (
            name.take(p) + modules[m].target + name.skip(p + modules[m].key.len()),
            Some(modules[m].shard),
        ),
{
    lemma_param(name, modules, 0, m);
    assert(text::occurs_at(name, modules[m].key, p));
    lemma_replaced_once(name, modules[m].key, modules[m].target, 0, p);
    assert(name.subrange(0, p) =~= name.take(p));
}

proof fn lemma_param(name: Seq<char>, modules: Seq<PackedView>, i: int, m: int)
    requires
        0 <= i <= m <= modules.len(),
        forall|k: int, q: int| 0 <= k < m ==> !#[trigger] stands_at(name, modules[k].key, q),
    ensures
        loader::param_of(name, modules, i) == loader::param_of(name, modules, m),
    decreases m - i,
{
    if i < m {
        assert(!text::occurs_in(name, modules[i].key)) by {
            assert forall|q: int| !#[trigger] text::occurs_at(name, modules[i].key, q) by {
                assert(!stands_at(name, modules[i].key, q));
            }
        }
        lemma_param(name, modules, i + 1, m);
    }
}

/// A tensor in whose name no key of a packed module stands is the parameter of that name, whole.
pub proof fn other_tensors_keep_their_names(name: Seq<char>, modules: Seq<PackedView>)
    requires
        forall|k: int, q: int|
            0 <= k < modules.len() ==> !#[trigger] stands_at(name, modules[k].key, q),
    ensures
        loader::param_of(name, modules, 0) == (name, None::<ShardId>),
{
    lemma_param(name, modules, 0, modules.len() as int);
}

/// A norm of a layer takes the tensor that is loaded for it, and nothing else of the model changes.
pub proof fn a_norm_of_a_layer_takes_its_tensor(
    before: Qwen3ForCausalLM,
    after: Qwen3ForCausalLM,
    i: nat,
    tensor: Tensor,
    shard: Option<ShardId>,
    success: bool,
)
    requires
        i < before.model.layers@.len() <= usize::MAX,
    ensures
        ({
            let was = before.model.layers@[i as int];
            let is = after.model.layers@[i as int];
            let others = {
                &&& after.lm_head == before.lm_head
                &&& after.model.embed_tokens == before.model.embed_tokens
                &&& after.model.norm == before.model.norm
                &&& after.model.layers@.len() == before.model.layers@.len()
                &&& forall|k: int|
                    0 <= k < before.model.layers@.len() && k != i ==> #[trigger] after.model.layers@[k]
                        == before.model.layers@[k]
            };
            &&& Qwen3ForCausalLM::loaded(
                before,
                after,
                name_in_layer(i, "input_layernorm.weight"@),
                tensor,
                shard,
                success,
            ) ==> {
                &&& success && others
                &&& is.input_layernorm.weight == tensor
                &&& is.post_attention_layernorm == was.post_attention_layernorm
                &&& is.self_attn == was.self_attn
                &&& is.mlp == was.mlp
            }
            &&& Qwen3ForCausalLM::loaded(
                before,
                after,
                name_in_layer(i, "post_attention_layernorm.weight"@),
                tensor,
                shard,
                success,
            ) ==> {
                &&& success && others
                &&& is.post_attention_layernorm.weight == tensor
                &&& is.input_layernorm == was.input_layernorm
                &&& is.self_attn == was.self_attn
                &&& is.mlp == was.mlp
            }
            &&& Qwen3ForCausalLM::loaded(
                before,
                after,
                name_in_layer(i, "self_attn.q_norm.weight"@),
                tensor,
                shard,
                success,
            ) ==> {
                &&& success && others
                &&& takes(was.self_attn.q_norm, is.self_attn.q_norm, tensor)
                &&& is.self_attn.k_norm == was.self_attn.k_norm
                &&& is.self_attn.qkv_proj == was.self_attn.qkv_proj
                &&& is.self_attn.o_proj == was.self_attn.o_proj
                &&& is.mlp == was.mlp
            }
            &&& Qwen3ForCausalLM::loaded(
                before,
                after,
                name_in_layer(i, "self_attn.k_norm.weight"@),
                tensor,
                shard,
                success,
            ) ==> {
                &&& success && others
                &&& takes(was.self_attn.k_norm, is.self_attn.k_norm, tensor)
                &&& is.self_attn.q_norm == was.self_attn.q_norm
                &&& is.self_attn.qkv_proj == was.self_attn.qkv_proj
                &&& is.self_attn.o_proj == was.self_attn.o_proj
                &&& is.mlp == was.mlp
            }
        }),
{
    each_parameter_of_a_layer_goes_to_its_weight(
        i,
        before.model.layers@.len(),
        shard,
        "q",
        0,
    );
}

/// All layers but layer `i` are as they were, and so is what is outside the layers.
pub open spec fn keeps_the_rest(before: Qwen3ForCausalLM, after: Qwen3ForCausalLM, i: nat) -> bool {
    &&& after.lm_head == before.lm_head
    &&& after.model.embed_tokens == before.model.embed_tokens
    &&& after.model.norm == before.model.norm
    &&& after.model.layers@.len() == before.model.layers@.len()
    &&& forall|k: int|
        0 <= k < before.model.layers@.len() && k != i ==> #[trigger] after.model.layers@[k]
            == before.model.layers@[k]
}

/// A projection of a layer takes the share of this rank from the tensor that is loaded for it: the
/// outputs of attention and of the feed-forward part their columns, the fused ones the rows of the
/// part that is named. Nothing else of the model changes.
pub proof fn a_projection_of_a_layer_takes_its_tensor(
    before: Qwen3ForCausalLM,
    after: Qwen3ForCausalLM,
    i: nat,
    tensor: Tensor,
    shard: Option<ShardId>,
    part: &'static str,
    half: usize,
    success: bool,
)
    requires
        i < before.model.layers@.len() <= usize::MAX,
        half < 2,
    ensures
        ({
            let was = before.model.layers@[i as int];
            let is = after.model.layers@[i as int];
            let norms = {
                &&& is.input_layernorm == was.input_layernorm
                &&& is.post_attention_layernorm == was.post_attention_layernorm
                &&& is.self_attn.q_norm == was.self_attn.q_norm
                &&& is.self_attn.k_norm == was.self_attn.k_norm
            };
            &&& Qwen3ForCausalLM::loaded(
                before,
                after,
                name_in_layer(i, "self_attn.qkv_proj.weight"@),
                tensor,
                Some(ShardId::Name(part)),
                success,
            ) ==> {
                &&& keeps_the_rest(before, after, i) && norms
                &&& is.self_attn.qkv_proj.loaded(was.self_attn.qkv_proj, tensor, part@, success)
                &&& is.self_attn.o_proj == was.self_attn.o_proj
                &&& is.mlp == was.mlp
            }
            &&& Qwen3ForCausalLM::loaded(
                before,
                after,
                name_in_layer(i, "self_attn.o_proj.weight"@),
                tensor,
                shard,
                success,
            ) ==> {
                &&& keeps_the_rest(before, after, i) && norms
                &&& is.self_attn.o_proj.base.loaded_shard(
                    was.self_attn.o_proj.base,
                    tensor,
                    1,
                    success,
                )
                &&& is.self_attn.qkv_proj == was.self_attn.qkv_proj
                &&& is.mlp == was.mlp
            }
            &&& Qwen3ForCausalLM::loaded(
                before,
                after,
                name_in_layer(i, "mlp.gate_up_proj.weight"@),
                tensor,
                Some(ShardId::Index(half)),
                success,
            ) ==> {
                &&& keeps_the_rest(before, after, i) && norms
                &&& is.mlp.gate_up_proj.loaded(was.mlp.gate_up_proj, tensor, half, success)
                &&& is.mlp.down_proj == was.mlp.down_proj
                &&& is.self_attn == was.self_attn
            }
            &&& Qwen3ForCausalLM::loaded(
                before,
                after,
                name_in_layer(i, "mlp.down_proj.weight"@),
                tensor,
                shard,
                success,
            ) ==> {
                &&& keeps_the_rest(before, after, i) && norms
                &&& is.mlp.down_proj.base.loaded_shard(
                    was.mlp.down_proj.base,
                    tensor,
                    1,
                    success,
                )
                &&& is.mlp.gate_up_proj == was.mlp.gate_up_proj
                &&& is.self_attn == was.self_attn
            }
        }),
{
    let num_layers = before.model.layers@.len();
    each_parameter_of_a_layer_goes_to_its_weight(i, num_layers, shard, part, half);
}

/// The embedding and the head take the rows of this rank's tokens, the norm behind the layers takes
/// its tensor whole, and each leaves the rest of the model alone.
pub proof fn the_other_weights_take_their_tensors(
    before: Qwen3ForCausalLM,
    after: Qwen3ForCausalLM,
    tensor: Tensor,
    shard: Option<ShardId>,
    success: bool,
)
    ensures
        Qwen3ForCausalLM::loaded(
            before,
            after,
            "model.embed_tokens.weight"@,
            tensor,
            shard,
            success,
        ) ==> {
            &&& after.model.embed_tokens.loaded_rows(before.model.embed_tokens, tensor, success)
            &&& after.model.norm == before.model.norm
            &&& after.model.layers == before.model.layers
            &&& after.lm_head == before.lm_head
        },
        Qwen3ForCausalLM::loaded(before, after, "model.norm.weight"@, tensor, shard, success) ==> {
            &&& success
            &&& after.model.norm.weight == tensor
            &&& after.model.embed_tokens == before.model.embed_tokens
            &&& after.model.layers == before.model.layers
            &&& after.lm_head == before.lm_head
        },
        Qwen3ForCausalLM::loaded(before, after, "lm_head.weight"@, tensor, shard, success) ==> {
            &&& after.lm_head.base.loaded_rows(before.lm_head.base, tensor, success)
            &&& after.model == before.model
        },
{
    the_other_parameters_go_to_their_weights(shard, before.model.layers@.len());
}

/// Tensors that the model has no weight for are passed over, wherever they are named; and a tensor
/// for a fused weight is refused where it is not said which part of the weight it is.
pub proof fn other_tensors_leave_the_model_alone(
    before: Qwen3ForCausalLM,
    after: Qwen3ForCausalLM,
    i: nat,
    name: Seq<char>,
    suffix: Seq<char>,
    tensor: Tensor,
    shard: Option<ShardId>,
    success: bool,
)
    requires
        i < before.model.layers@.len() <= usize::MAX,
        name.take(13) != "model.layers."@ || name.len() < 13,
        name != "model.embed_tokens.weight"@ && name != "model.norm.weight"@ && name
            != "lm_head.weight"@,
        suffix != "self_attn.qkv_proj.weight"@ && suffix != "self_attn.o_proj.weight"@,
        suffix != "self_attn.q_norm.weight"@ && suffix != "self_attn.k_norm.weight"@,
        suffix != "mlp.gate_up_proj.weight"@ && suffix != "mlp.down_proj.weight"@,
        suffix != "input_layernorm.weight"@ && suffix != "post_attention_layernorm.weight"@,
    ensures
        Qwen3ForCausalLM::loaded(before, after, name, tensor, shard, success) ==> success && after
            == before,
        Qwen3ForCausalLM::loaded(
            before,
            after,
            name_in_layer(i, suffix),
            tensor,
            shard,
            success,
        ) ==> success && after == before,
        !(shard matches Some(ShardId::Name(_))) && Qwen3ForCausalLM::loaded(
            before,
            after,
            name_in_layer(i, "self_attn.qkv_proj.weight"@),
            tensor,
            shard,
            success,
        ) ==> !success && after == before,
        !(shard matches Some(ShardId::Index(_))) && Qwen3ForCausalLM::loaded(
            before,
            after,
            name_in_layer(i, "mlp.gate_up_proj.weight"@),
            tensor,
            shard,
            success,
        ) ==> !success && after == before,
        (shard matches Some(ShardId::Index(part)) && part >= 2) && Qwen3ForCausalLM::loaded(
            before,
            after,
            name_in_layer(i, "mlp.gate_up_proj.weight"@),
            tensor,
            shard,
            success,
        ) ==> !success && after == before,
{
    let n = before.model.layers@.len();
    lemma_in_layer(i, suffix, shard, n);
    lemma_in_layer(i, "self_attn.qkv_proj.weight"@, shard, n);
    lemma_in_layer(i, "mlp.gate_up_proj.weight"@, shard, n);
    reveal_strlit("self_attn.qkv_proj.weight");
    reveal_strlit("mlp.gate_up_proj.weight");
    reveal_strlit("self_attn.o_proj.weight");
    reveal_strlit("self_attn.q_norm.weight");
    reveal_strlit("self_attn.k_norm.weight");
    assert("mlp.gate_up_proj.weight"@[0] == 'm' && "self_attn.qkv_proj.weight"@[0] == 's');
    assert("self_attn.o_proj.weight"@[0] == 's' && "self_attn.q_norm.weight"@[0] == 's'
        && "self_attn.k_norm.weight"@[0] == 's');
    reveal_strlit("model.layers.");
    assert(!text::occurs_at(name, "model.layers."@, 0)) by {
        if text::occurs_at(name, "model.layers."@, 0) {
            assert(name.subrange(0, 13) =~= name.take(13));
        }
    }
}

/// A norm that there is has taken the tensor.
pub open spec fn takes(was: Option<RMSNorm>, is: Option<RMSNorm>, tensor: Tensor) -> bool {
    match was {
        Some(_) => is matches Some(norm) && norm.weight == tensor,
        None => is is None,
    }
}

} // verus!
