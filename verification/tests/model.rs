use candle_core::{Device, Tensor};
use nanovllm::config::Config;
use nanovllm::layers::tensor::LayerError;
use nanovllm::models::qwen3::{
    find_target, is_supported, split_qkv, LayerTarget, Qwen3Attention, Qwen3ForCausalLM, Qwen3MLP,
    Target,
};
use nanovllm::utils::loader::{load_tensors, param_name, ModelWeights, PackedModule, ShardId};

/// A model of two layers that is small enough to look at.
fn config() -> Config {
    let mut config = Config::qwen3_0_6b();
    config.hidden_size = 4;
    config.intermediate_size = 6;
    config.num_hidden_layers = 2;
    config.num_attention_heads = 2;
    config.num_key_value_heads = 1;
    config.head_dim = 3;
    config.vocab_size = 5;
    config
}

fn model(config: &Config) -> Qwen3ForCausalLM {
    Qwen3ForCausalLM::new(config, 1e-6f32.to_bits(), 0, 1, &Device::Cpu).ok().unwrap()
}

fn matrix(first: usize, rows: usize, columns: usize) -> Tensor {
    let data: Vec<f32> = (first..first + rows * columns).map(|i| i as f32).collect();
    Tensor::from_vec(data, (rows, columns), &Device::Cpu).unwrap()
}

fn vector(first: usize, len: usize) -> Tensor {
    let data: Vec<f32> = (first..first + len).map(|i| i as f32).collect();
    Tensor::from_vec(data, len, &Device::Cpu).unwrap()
}

fn numbers(tensor: &Tensor) -> Vec<f32> {
    tensor.flatten_all().unwrap().to_vec1().unwrap()
}

fn row(first: usize, len: usize) -> Vec<f32> {
    (first..first + len).map(|i| i as f32).collect()
}

/// Loads one tensor by the name that it has in a checkpoint.
fn load(model: &mut Qwen3ForCausalLM, name: &str, tensor: Tensor) -> Result<(), LayerError> {
    let modules = model.packed_modules_mapping();
    load_tensors(model, &modules, &vec![name.to_string()], vec![tensor])
}

#[test]
fn a_model_has_the_shapes_of_its_configuration() {
    let model = model(&config());
    assert_eq!(model.model.layers.len(), 2);
    assert_eq!(model.model.embed_tokens.weight.dims(), &[5, 4]);
    assert_eq!(model.lm_head.base.weight.dims(), &[5, 4]);
    assert_eq!(model.model.norm.weight.dims(), &[4]);
    let layer = &model.model.layers[1];
    assert_eq!(layer.self_attn.qkv_proj.base.base.weight.dims(), &[12, 4]);
    assert_eq!(layer.self_attn.o_proj.base.weight.dims(), &[4, 6]);
    assert_eq!(layer.mlp.gate_up_proj.base.base.weight.dims(), &[12, 4]);
    assert_eq!(layer.mlp.down_proj.base.weight.dims(), &[4, 6]);
    assert_eq!(layer.input_layernorm.weight.dims(), &[4]);
    assert_eq!(layer.self_attn.q_norm.as_ref().unwrap().weight.dims(), &[3]);
    assert!(model.tie_word_embeddings);
}

#[test]
fn attention_is_cut_by_heads() {
    let eps = 1e-6f32.to_bits();
    let attention =
        Qwen3Attention::new(8, 4, 2, Some(5), eps, false, 1, 2, &Device::Cpu).ok().unwrap();
    assert_eq!((attention.total_num_heads, attention.num_heads), (4, 2));
    assert_eq!((attention.total_num_kv_heads, attention.num_kv_heads), (2, 1));
    assert_eq!((attention.head_dim, attention.q_size, attention.kv_size), (5, 10, 5));
    assert!(attention.q_norm.is_some() && attention.k_norm.is_some());

    let biased = Qwen3Attention::new(8, 4, 2, None, eps, true, 0, 1, &Device::Cpu).ok().unwrap();
    assert_eq!(biased.head_dim, 2);
    assert!(biased.q_norm.is_none() && biased.k_norm.is_none());
    assert!(biased.qkv_proj.base.base.bias.is_some());
}

#[test]
fn the_feed_forward_part_is_cut_in_the_middle() {
    let mlp = Qwen3MLP::new(4, 6, 1, 2, &Device::Cpu).ok().unwrap();
    assert_eq!(mlp.gate_up_proj.output_sizes, vec![6, 6]);
    assert_eq!(mlp.gate_up_proj.base.base.weight.dims(), &[6, 4]);
    assert_eq!(mlp.down_proj.base.weight.dims(), &[4, 3]);
}

#[test]
fn fused_projections_are_cut_apart() {
    let (q, k, v) = split_qkv(&matrix(0, 2, 8), 4, 2).ok().unwrap();
    assert_eq!(numbers(&q), vec![0.0, 1.0, 2.0, 3.0, 8.0, 9.0, 10.0, 11.0]);
    assert_eq!(numbers(&k), vec![4.0, 5.0, 12.0, 13.0]);
    assert_eq!(numbers(&v), vec![6.0, 7.0, 14.0, 15.0]);
    assert!(matches!(split_qkv(&matrix(0, 2, 7), 4, 2), Err(LayerError::Tensor(_))));
    let scalar = Tensor::new(1.0f32, &Device::Cpu).unwrap();
    assert!(matches!(split_qkv(&scalar, 0, 0), Err(LayerError::NoDimension)));
}

#[test]
fn configurations_that_can_be_cut_are_supported() {
    assert!(is_supported(&config(), 1));
    assert!(!is_supported(&config(), 2));
    let mut other = Config::qwen3_0_6b();
    assert!(is_supported(&other, 1));
    assert!(is_supported(&other, 8));
    assert!(!is_supported(&other, 3));
    other.hidden_act = "gelu".to_string();
    assert!(!is_supported(&other, 1));
}

#[test]
fn packed_names_are_replaced() {
    let modules = model(&config()).packed_modules_mapping();
    let (name, shard) = param_name("model.layers.0.self_attn.k_proj.weight", &modules);
    assert_eq!(name, "model.layers.0.self_attn.qkv_proj.weight");
    assert!(matches!(shard, Some(ShardId::Name("k"))));
    let (name, shard) = param_name("model.layers.0.mlp.up_proj.weight", &modules);
    assert_eq!(name, "model.layers.0.mlp.gate_up_proj.weight");
    assert!(matches!(shard, Some(ShardId::Index(1))));
    let (name, shard) = param_name("model.layers.0.mlp.gate_proj.weight", &modules);
    assert_eq!(name, "model.layers.0.mlp.gate_up_proj.weight");
    assert!(matches!(shard, Some(ShardId::Index(0))));
    let (name, shard) = param_name("model.norm.weight", &modules);
    assert_eq!(name, "model.norm.weight");
    assert!(shard.is_none());
}

#[test]
fn the_first_module_that_stands_in_a_name_counts() {
    let modules = [
        PackedModule { key: "ab".to_string(), target: "x".to_string(), shard: ShardId::Index(0) },
        PackedModule { key: "b".to_string(), target: "y".to_string(), shard: ShardId::Index(1) },
    ];
    let (name, shard) = param_name("abcab", &modules);
    assert_eq!(name, "xcx");
    assert!(matches!(shard, Some(ShardId::Index(0))));
    assert_eq!(param_name("cb", &modules).0, "cy");
    assert!(param_name("c", &modules).1.is_none());
}

#[test]
fn names_lead_to_weights() {
    let name = |s: &'static str| Some(ShardId::Name(s));
    let layer = |suffix: &str| format!("model.layers.1.{suffix}");
    assert!(matches!(
        find_target(&layer("self_attn.qkv_proj.weight"), name("v"), 2),
        Target::Layer(1, LayerTarget::Qkv("v"))
    ));
    assert!(matches!(
        find_target(&layer("self_attn.o_proj.weight"), None, 2),
        Target::Layer(1, LayerTarget::Output)
    ));
    assert!(matches!(
        find_target(&layer("self_attn.q_norm.weight"), None, 2),
        Target::Layer(1, LayerTarget::QueryNorm)
    ));
    assert!(matches!(
        find_target(&layer("self_attn.k_norm.weight"), None, 2),
        Target::Layer(1, LayerTarget::KeyNorm)
    ));
    assert!(matches!(
        find_target(&layer("mlp.gate_up_proj.weight"), Some(ShardId::Index(1)), 2),
        Target::Layer(1, LayerTarget::GateUp(1))
    ));
    assert!(matches!(
        find_target(&layer("mlp.down_proj.weight"), None, 2),
        Target::Layer(1, LayerTarget::Down)
    ));
    assert!(matches!(
        find_target(&layer("input_layernorm.weight"), None, 2),
        Target::Layer(1, LayerTarget::InputNorm)
    ));
    assert!(matches!(
        find_target(&layer("post_attention_layernorm.weight"), None, 2),
        Target::Layer(1, LayerTarget::PostAttentionNorm)
    ));
    assert!(matches!(find_target("model.embed_tokens.weight", None, 2), Target::Embedding));
    assert!(matches!(find_target("model.norm.weight", None, 2), Target::Norm));
    assert!(matches!(find_target("lm_head.weight", None, 2), Target::Head));
}

#[test]
fn unknown_names_lead_nowhere() {
    for name in [
        "",
        "model",
        "model.layers.",
        "model.layers.x.mlp.down_proj.weight",
        "model.layers.2.mlp.down_proj.weight",
        "model.layers.-1.mlp.down_proj.weight",
        "model.layers.1",
        "model.layers.1.",
        "model.layers.1.rotary_emb.inv_freq",
        "model.norm.weight.extra",
        "transformer.wte.weight",
    ] {
        assert!(matches!(find_target(name, None, 2), Target::Nowhere));
    }
    assert!(matches!(
        find_target("model.layers.+1.mlp.down_proj.weight", None, 2),
        Target::Layer(1, LayerTarget::Down)
    ));
}

#[test]
fn packed_weights_need_to_say_which_part_they_are() {
    let qkv = "model.layers.0.self_attn.qkv_proj.weight";
    assert!(matches!(find_target(qkv, None, 2), Target::Unclear));
    assert!(matches!(find_target(qkv, Some(ShardId::Index(0)), 2), Target::Unclear));
    let gate_up = "model.layers.0.mlp.gate_up_proj.weight";
    assert!(matches!(find_target(gate_up, None, 2), Target::Unclear));
    assert!(matches!(find_target(gate_up, Some(ShardId::Name("q")), 2), Target::Unclear));
    assert!(matches!(find_target(gate_up, Some(ShardId::Index(2)), 2), Target::NoSuchPart));

    let mut model = model(&config());
    assert!(matches!(
        model.load_weight(qkv, matrix(0, 3, 4), None),
        Err(LayerError::MissingShard)
    ));
    assert!(matches!(
        model.load_weight(gate_up, matrix(0, 6, 4), Some(ShardId::Index(2))),
        Err(LayerError::UnknownShard)
    ));
    assert!(matches!(
        model.load_weight(qkv, matrix(0, 3, 4), Some(ShardId::Name("w"))),
        Err(LayerError::UnknownShard)
    ));
}

#[test]
fn a_checkpoint_fills_the_model() {
    let mut model = model(&config());
    let names: Vec<String> = [
        "model.layers.0.self_attn.q_proj.weight",
        "model.layers.0.self_attn.k_proj.weight",
        "model.layers.0.self_attn.v_proj.weight",
        "model.layers.0.self_attn.o_proj.weight",
        "model.layers.0.self_attn.q_norm.weight",
        "model.layers.0.self_attn.k_norm.weight",
        "model.layers.0.mlp.gate_proj.weight",
        "model.layers.0.mlp.up_proj.weight",
        "model.layers.0.mlp.down_proj.weight",
        "model.layers.0.input_layernorm.weight",
        "model.layers.0.post_attention_layernorm.weight",
        "model.layers.0.self_attn.rotary_emb.inv_freq",
        "model.embed_tokens.weight",
        "model.norm.weight",
    ]
    .iter()
    .map(|name| name.to_string())
    .collect();
    let tensors = vec![
        matrix(100, 6, 4),
        matrix(200, 3, 4),
        matrix(300, 3, 4),
        matrix(400, 4, 6),
        vector(500, 3),
        vector(600, 3),
        matrix(700, 6, 4),
        matrix(800, 6, 4),
        matrix(900, 4, 6),
        vector(1000, 4),
        vector(1100, 4),
        vector(1200, 9),
        matrix(1300, 5, 4),
        vector(1400, 4),
    ];
    let modules = model.packed_modules_mapping();
    assert!(load_tensors(&mut model, &modules, &names, tensors).is_ok());

    let layer = &model.model.layers[0];
    let qkv: Vec<f32> = [row(100, 24), row(200, 12), row(300, 12)].concat();
    assert_eq!(numbers(&layer.self_attn.qkv_proj.base.base.weight), qkv);
    assert_eq!(numbers(&layer.self_attn.o_proj.base.weight), row(400, 24));
    assert_eq!(numbers(&layer.self_attn.q_norm.as_ref().unwrap().weight), row(500, 3));
    assert_eq!(numbers(&layer.self_attn.k_norm.as_ref().unwrap().weight), row(600, 3));
    let gate_up: Vec<f32> = [row(700, 24), row(800, 24)].concat();
    assert_eq!(numbers(&layer.mlp.gate_up_proj.base.base.weight), gate_up);
    assert_eq!(numbers(&layer.mlp.down_proj.base.weight), row(900, 24));
    assert_eq!(numbers(&layer.input_layernorm.weight), row(1000, 4));
    assert_eq!(numbers(&layer.post_attention_layernorm.weight), row(1100, 4));
    assert_eq!(numbers(&model.model.embed_tokens.weight), row(1300, 20));
    assert_eq!(numbers(&model.model.norm.weight), row(1400, 4));

    let other = &model.model.layers[1];
    assert_eq!(numbers(&other.self_attn.qkv_proj.base.base.weight), vec![0.0; 48]);
    assert_eq!(numbers(&other.input_layernorm.weight), vec![1.0; 4]);
    assert_eq!(numbers(&model.lm_head.base.weight), vec![0.0; 20]);

    model.tie_weights_if_configured();
    assert_eq!(numbers(&model.lm_head.base.weight), row(1300, 20));
}

#[test]
fn an_untied_head_has_its_own_weight() {
    let mut untied = config();
    untied.tie_word_embeddings = false;
    let mut model = model(&untied);
    assert!(load(&mut model, "model.embed_tokens.weight", matrix(0, 5, 4)).is_ok());
    assert!(load(&mut model, "lm_head.weight", matrix(50, 5, 4)).is_ok());
    model.tie_weights_if_configured();
    assert_eq!(numbers(&model.lm_head.base.weight), row(50, 20));
}

#[test]
fn a_norm_that_the_model_lacks_is_passed_over() {
    let mut biased = config();
    biased.attention_bias = true;
    let mut model = model(&biased);
    assert!(load(&mut model, "model.layers.0.self_attn.q_norm.weight", vector(0, 3)).is_ok());
    assert!(model.model.layers[0].self_attn.q_norm.is_none());
}

#[test]
fn loading_stops_at_the_first_tensor_that_does_not_fit() {
    let mut model = model(&config());
    let names = vec![
        "model.norm.weight".to_string(),
        "model.layers.1.self_attn.q_proj.weight".to_string(),
        "model.layers.1.input_layernorm.weight".to_string(),
    ];
    let tensors = vec![vector(5, 4), matrix(0, 5, 4), vector(9, 4)];
    let modules = model.packed_modules_mapping();
    assert!(matches!(
        load_tensors(&mut model, &modules, &names, tensors),
        Err(LayerError::Tensor(_))
    ));
    assert_eq!(numbers(&model.model.norm.weight), row(5, 4));
    assert_eq!(numbers(&model.model.layers[1].input_layernorm.weight), vec![1.0; 4]);
}
