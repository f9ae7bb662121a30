use nanovllm::config::{default_attention_bias, Config, EngineConfig};
use nanovllm::engine::model_runner::{dtype_itemsize, ModelRunner};
use nanovllm::engine::sequence::{SeqCounter, Sequence};
use nanovllm::engine::worker::min_blocks;
use nanovllm::sampling_params::SamplingParams;
use nanovllm::utils::context::{get_context, reset_context, set_context, BlockTables, Context};

fn engine_config(block_size: usize, tensor_parallel_size: usize) -> EngineConfig {
    EngineConfig {
        model_path: String::new(),
        tensor_parallel_size,
        kvcache_block_size: block_size,
        chunked_prefill: false,
        max_num_seqs: 8,
        max_num_batched_tokens: 64,
        num_kvcache_blocks: 16,
        enforce_eager: true,
        gpu_memory_utilization: 0.9f64.to_bits(),
    }
}

fn runner(block_size: usize) -> ModelRunner {
    ModelRunner::new(Config::qwen3_0_6b(), engine_config(block_size, 1), 0)
}

fn placed(tokens: Vec<u32>, cached: usize, new: usize, table: Vec<usize>, temperature: f64) -> Sequence {
    let mut counter = SeqCounter::new();
    let sampling = SamplingParams::new(temperature.to_bits(), 8, false);
    let mut seq = Sequence::with_block_size(tokens, sampling, 4, &mut counter);
    seq.num_cached_tokens = cached;
    seq.num_new_tokens = new;
    seq.block_table = table;
    seq
}

fn rows(tables: &BlockTables) -> (usize, usize, Vec<i64>) {
    (tables.rows, tables.width, tables.data.clone())
}

#[test]
fn the_qwen_configuration() {
    let config = Config::qwen3_0_6b();
    assert_eq!(f64::from_bits(config.rms_norm_eps), 1e-6);
    assert_eq!(f64::from_bits(config.rope_theta), 1_000_000.0);
    assert_eq!(config.hidden_size, 1024);
    assert_eq!(config.num_hidden_layers, 28);
    assert_eq!(config.eos_token_id, 151645);
    assert_eq!(config.hidden_act, "silu");
    assert!(!config.attention_bias);
    assert!(config.tie_word_embeddings);
    assert!(default_attention_bias());
}

#[test]
fn tables_are_padded_to_the_longest() {
    let seqs = [
        placed((0..9).collect(), 0, 9, vec![5, 2, 7], 1.0),
        placed(vec![1], 0, 1, vec![3], 1.0),
    ];
    let tables = runner(4).prepare_block_tables(&seqs);
    assert_eq!(rows(&tables), (2, 3, vec![5, 2, 7, 3, -1, -1]));
}

#[test]
fn prompts_are_laid_out_one_behind_the_other() {
    let seqs = [
        placed(vec![10, 11, 12, 13, 14], 0, 5, vec![6, 1], 1.0),
        placed(vec![20, 21], 0, 2, vec![4], 1.0),
    ];
    let input = runner(4).prepare_model_input(&seqs);
    assert_eq!(input.input_ids, vec![10, 11, 12, 13, 14, 20, 21]);
    assert_eq!(input.positions, vec![0, 1, 2, 3, 4, 0, 1]);
    let context = input.context;
    assert_eq!(context.cu_seqlens_q, Some(vec![0, 5, 7]));
    assert_eq!(context.cu_seqlens_k, Some(vec![0, 5, 7]));
    assert_eq!((context.max_seqlen_q, context.max_seqlen_k), (5, 5));
    assert_eq!(context.slot_mapping, Some(vec![24, 25, 26, 27, 4, 16, 17]));
    assert_eq!(context.context_lens, Some(vec![5, 2]));
    assert!(context.block_tables.is_none());
    assert_eq!(context.seq_need_compute_logits, Some(vec![0, 1]));
}

#[test]
fn cached_tokens_are_read_through_the_tables() {
    let seqs = [
        placed((10..17).collect(), 6, 1, vec![3, 9], 1.0),
        placed((20..30).collect(), 4, 4, vec![1, 2], 1.0),
        placed((40..48).collect(), 4, 4, vec![5, 0], 1.0),
    ];
    let input = runner(4).prepare_model_input(&seqs);
    assert_eq!(input.input_ids, vec![16, 24, 25, 26, 27, 44, 45, 46, 47]);
    assert_eq!(input.positions, vec![6, 4, 5, 6, 7, 4, 5, 6, 7]);
    let context = input.context;
    assert_eq!(context.cu_seqlens_q, Some(vec![0, 1, 5, 9]));
    assert_eq!(context.cu_seqlens_k, Some(vec![0, 7, 15, 23]));
    assert_eq!((context.max_seqlen_q, context.max_seqlen_k), (4, 8));
    assert_eq!(context.slot_mapping, Some(vec![38, 8, 9, 10, 11, 0, 1, 2, 3]));
    assert_eq!(context.context_lens, Some(vec![7, 8, 8]));
    assert_eq!(rows(context.block_tables.as_ref().unwrap()), (3, 2, vec![3, 9, 1, 2, 5, 0]));
    assert_eq!(context.seq_need_compute_logits, Some(vec![0, 2]));
}

#[test]
fn a_warmup_has_no_slots_and_draws_nothing() {
    let seqs = [placed(vec![0, 0, 0], 0, 3, vec![], 1.0)];
    let input = runner(4).prepare_model_input(&seqs);
    assert_eq!(input.input_ids, vec![0, 0, 0]);
    assert_eq!(input.context.slot_mapping, Some(vec![]));
    assert_eq!(input.context.seq_need_compute_logits, Some(vec![]));
    assert!(input.context.block_tables.is_none());
    assert!(ModelRunner::sampled_rows(&input.context).is_empty());
}

#[test]
fn temperatures_of_the_sequences_that_draw() {
    let seqs = [
        placed((10..17).collect(), 6, 1, vec![3, 9], 0.1),
        placed((20..30).collect(), 4, 4, vec![1, 2], 0.2),
        placed((40..48).collect(), 4, 4, vec![5, 0], 0.3),
    ];
    let runner = runner(4);
    let context = runner.prepare_model_input(&seqs).context;
    let drawn = runner.prepare_sample(&seqs, &context);
    assert_eq!(drawn, vec![0.1f64.to_bits(), 0.3f64.to_bits()]);
    assert_eq!(ModelRunner::sampled_rows(&context), vec![0, 2]);
}

#[test]
fn all_temperatures_where_none_is_named() {
    let seqs = [placed(vec![1], 0, 1, vec![], 0.1), placed(vec![2], 0, 1, vec![], 0.2)];
    let all = vec![0.1f64.to_bits(), 0.2f64.to_bits()];
    let runner = runner(4);
    let mut context = runner.prepare_model_input(&seqs).context;
    assert_eq!(runner.prepare_sample(&seqs, &context), all);
    reset_context(&mut context);
    assert_eq!(runner.prepare_sample(&seqs, &context), all);
}

#[test]
fn short_steps_may_be_replayed() {
    let mut runner = runner(4);
    assert!(runner.runs_eagerly(1));
    runner.engine_config.enforce_eager = false;
    assert!(!runner.runs_eagerly(512));
    assert!(runner.runs_eagerly(513));
}

#[test]
fn setup_notes_the_blocks_and_asks_for_graphs() {
    let mut runner = runner(4);
    assert_eq!(runner.num_kvcache_blocks(), 0);
    assert!(!runner.finish_setup(77));
    assert_eq!(runner.num_kvcache_blocks(), 77);
    runner.engine_config.enforce_eager = false;
    assert!(runner.finish_setup(78));
    assert_eq!(runner.num_kvcache_blocks(), 78);
}

#[test]
fn a_warmup_fills_the_largest_step() {
    let sampling = SamplingParams::new(1.0f64.to_bits(), 64, false);
    let mut counter = SeqCounter::new();
    let mut runner = runner(4);
    runner.config.max_model_len = 10;
    runner.engine_config.max_num_batched_tokens = 64;
    runner.engine_config.max_num_seqs = 4;
    let seqs = runner.warmup_sequences(sampling, &mut counter);
    assert_eq!(seqs.len(), 4);
    for (i, seq) in seqs.iter().enumerate() {
        assert_eq!(seq.seq_id, i);
        assert_eq!(seq.token_ids, vec![0; 10]);
        assert_eq!(seq.num_new_tokens, 10);
        assert!(seq.block_table.is_empty());
    }

    runner.engine_config.max_num_batched_tokens = 35;
    assert_eq!(runner.warmup_sequences(sampling, &mut counter).len(), 3);

    runner.engine_config.max_num_batched_tokens = 7;
    let seqs = runner.warmup_sequences(sampling, &mut counter);
    assert_eq!(seqs.len(), 1);
    assert_eq!(seqs[0].len(), 7);
    assert_eq!(seqs[0].seq_id, 7);
}

#[test]
fn the_bytes_of_a_block() {
    let one = ModelRunner::new(Config::qwen3_0_6b(), engine_config(256, 1), 0);
    assert_eq!(one.num_kv_heads_per_rank(), 8);
    assert_eq!(one.block_bytes(2), 2 * 28 * 256 * 8 * 128 * 2);
    let two = ModelRunner::new(Config::qwen3_0_6b(), engine_config(256, 2), 1);
    assert_eq!(two.num_kv_heads_per_rank(), 4);
    assert_eq!(two.block_bytes(2), 2 * 28 * 256 * 4 * 128 * 2);
}

#[test]
fn blocks_that_fit_into_the_memory_left() {
    assert_eq!(ModelRunner::probe_num_kvcache_blocks(1000, 300, 100, 50, 100), Some(6));
    assert_eq!(ModelRunner::probe_num_kvcache_blocks(1000, 300, 100, 0, 100), Some(6));
    assert_eq!(ModelRunner::probe_num_kvcache_blocks(1000, 901, 0, 0, 100), None);
    assert_eq!(ModelRunner::probe_num_kvcache_blocks(1000, 5000, 0, 0, 100), None);
}

#[test]
fn the_smallest_report_counts() {
    assert_eq!(min_blocks(10, &[]), 10);
    assert_eq!(min_blocks(10, &[12, 7, 9]), 7);
    assert_eq!(min_blocks(3, &[12, 7, 9]), 3);
}

#[test]
fn the_bytes_of_a_number() {
    for (name, size) in [
        ("float64", 8),
        ("int64", 8),
        ("float32", 4),
        ("int32", 4),
        ("float16", 2),
        ("bfloat16", 2),
        ("uint8", 1),
        ("int8", 1),
    ] {
        assert_eq!(dtype_itemsize(name), Some(size));
    }
    assert_eq!(dtype_itemsize("complex64"), None);
    assert_eq!(dtype_itemsize("float"), None);
    assert_eq!(dtype_itemsize(""), None);
}

#[test]
fn a_context_is_set_read_and_reset() {
    let mut context = Context {
        cu_seqlens_q: None,
        cu_seqlens_k: None,
        max_seqlen_q: 0,
        max_seqlen_k: 0,
        slot_mapping: None,
        context_lens: None,
        block_tables: None,
        seq_need_compute_logits: None,
    };
    set_context(
        &mut context,
        Some(vec![0, 1]),
        Some(vec![0, 2]),
        1,
        2,
        Some(vec![9]),
        Some(vec![2]),
        Some(BlockTables { rows: 1, width: 1, data: vec![4] }),
        Some(vec![0]),
    );
    let copy = get_context(&context);
    assert_eq!(copy.cu_seqlens_q, Some(vec![0, 1]));
    assert_eq!(copy.cu_seqlens_k, Some(vec![0, 2]));
    assert_eq!((copy.max_seqlen_q, copy.max_seqlen_k), (1, 2));
    assert_eq!(copy.slot_mapping, Some(vec![9]));
    assert_eq!(copy.context_lens, Some(vec![2]));
    assert_eq!(rows(copy.block_tables.as_ref().unwrap()), (1, 1, vec![4]));
    assert_eq!(copy.seq_need_compute_logits, Some(vec![0]));

    reset_context(&mut context);
    let copy = get_context(&context);
    assert!(copy.cu_seqlens_q.is_none() && copy.cu_seqlens_k.is_none());
    assert_eq!((copy.max_seqlen_q, copy.max_seqlen_k), (0, 0));
    assert!(copy.slot_mapping.is_none() && copy.context_lens.is_none());
    assert!(copy.block_tables.is_none() && copy.seq_need_compute_logits.is_none());
}
