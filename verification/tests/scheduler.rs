use nanovllm::config::{Config, EngineConfig};
use nanovllm::engine::block_manager::BlockManager;
use nanovllm::engine::scheduler::Scheduler;
use nanovllm::engine::sequence::{SeqCounter, Sequence, SequenceStatus};
use nanovllm::sampling_params::SamplingParams;

const EOS: u32 = 999;

fn engine_config(blocks: usize, batched: usize, seqs: usize, chunked: bool) -> EngineConfig {
    EngineConfig {
        model_path: String::new(),
        tensor_parallel_size: 1,
        kvcache_block_size: 4,
        chunked_prefill: chunked,
        max_num_seqs: seqs,
        max_num_batched_tokens: batched,
        num_kvcache_blocks: blocks,
        enforce_eager: true,
        gpu_memory_utilization: 0.9f64.to_bits(),
    }
}

fn scheduler(limits: &EngineConfig, max_model_len: usize) -> Scheduler {
    let mut config = Config::qwen3_0_6b();
    config.max_model_len = max_model_len;
    config.eos_token_id = EOS;
    Scheduler::new(&config, limits)
}

fn request(tokens: Vec<u32>, max_tokens: i32, counter: &mut SeqCounter) -> Sequence {
    let sampling = SamplingParams::new(1.0f64.to_bits(), max_tokens, false);
    Sequence::with_block_size(tokens, sampling, 4, counter)
}

fn ids<'a>(seqs: impl Iterator<Item = &'a Sequence>) -> Vec<usize> {
    seqs.map(|seq| seq.seq_id).collect()
}

/// The sequences of a step that are complete up to their last token.
fn complete(seqs: &[Sequence]) -> Vec<usize> {
    (0..seqs.len()).filter(|&i| seqs[i].num_context_tokens() == seqs[i].len()).collect()
}

/// Runs one step in which every complete sequence draws `token`.
fn step(scheduler: &mut Scheduler, token: u32) -> Vec<Sequence> {
    assert!(scheduler.can_step());
    let mut seqs = scheduler.schedule().unwrap();
    let at = complete(&seqs);
    let tokens = vec![token; at.len()];
    scheduler.postprocess(&mut seqs, &tokens, &at);
    seqs
}

/// Each block is held as often as it stands in the tables of the running sequences.
fn assert_blocks_are_counted(scheduler: &Scheduler) {
    for (b, block) in scheduler.block_manager.blocks.iter().enumerate() {
        let held: usize = scheduler
            .running
            .iter()
            .map(|seq| seq.block_table.iter().filter(|&&id| id == b).count())
            .sum();
        assert_eq!(block.ref_count, held);
        assert_eq!(scheduler.block_manager.used_block_ids.contains(&b), held > 0);
        assert_eq!(scheduler.block_manager.free_block_ids.contains(&b), held == 0);
    }
}

#[test]
fn a_scheduler_takes_its_limits_from_the_configurations() {
    let scheduler = scheduler(&engine_config(7, 32, 3, true), 64);
    assert!(scheduler.enable_chunked);
    assert_eq!(scheduler.max_model_len, 64);
    assert_eq!(scheduler.max_num_seqs, 3);
    assert_eq!(scheduler.max_num_batched_tokens, 32);
    assert_eq!(scheduler.eos, EOS);
    assert_eq!(scheduler.block_manager.blocks.len(), 7);
    assert_eq!(scheduler.block_manager.block_size, 4);
    assert!(scheduler.is_finished());
}

#[test]
fn nothing_waits_nothing_runs() {
    let mut scheduler = scheduler(&engine_config(7, 32, 3, false), 64);
    assert!(scheduler.can_step());
    assert!(scheduler.schedule().is_none());
}

#[test]
fn requests_run_in_the_order_they_came() {
    let mut counter = SeqCounter::new();
    let mut scheduler = scheduler(&engine_config(8, 32, 8, false), 64);
    scheduler.add(request(vec![1, 2, 3, 4, 5], 8, &mut counter));
    scheduler.add(request(vec![6, 7], 8, &mut counter));
    assert!(!scheduler.is_finished());

    let seqs = scheduler.schedule().unwrap();
    assert_eq!(ids(seqs.iter()), vec![0, 1]);
    assert_eq!(seqs[0].num_new_tokens, 5);
    assert_eq!(seqs[1].num_new_tokens, 2);
    assert_eq!(seqs[0].block_table, vec![0, 1]);
    assert_eq!(seqs[1].block_table, vec![2]);
    assert!(seqs.iter().all(|seq| seq.status == SequenceStatus::Running));
    assert!(scheduler.waiting.is_empty());
    assert_eq!(ids(scheduler.running.iter()), vec![0, 1]);
    assert_blocks_are_counted(&scheduler);
}

#[test]
fn the_budget_bounds_a_step() {
    let mut counter = SeqCounter::new();
    let mut scheduler = scheduler(&engine_config(8, 6, 8, false), 64);
    scheduler.add(request(vec![1, 2, 3, 4], 8, &mut counter));
    scheduler.add(request(vec![5, 6, 7], 8, &mut counter));
    let seqs = scheduler.schedule().unwrap();
    assert_eq!(ids(seqs.iter()), vec![0]);
    assert_eq!(ids(scheduler.waiting.iter()), vec![1]);
}

#[test]
fn without_chunks_a_prompt_is_computed_whole() {
    let mut counter = SeqCounter::new();
    let mut scheduler = scheduler(&engine_config(8, 4, 8, false), 64);
    scheduler.add(request(vec![1, 2, 3, 4, 5], 8, &mut counter));
    assert!(scheduler.schedule().is_none());
    assert_eq!(ids(scheduler.waiting.iter()), vec![0]);
}

#[test]
fn with_chunks_a_prompt_is_cut_at_the_budget() {
    let mut counter = SeqCounter::new();
    let mut scheduler = scheduler(&engine_config(8, 8, 8, true), 64);
    scheduler.add(request((0..11).collect(), 8, &mut counter));
    let seqs = step(&mut scheduler, 50);
    assert_eq!(seqs[0].num_new_tokens, 8);
    assert_eq!(seqs[0].len(), 11);
    assert_eq!(scheduler.running[0].num_cached_tokens, 8);

    let seqs = step(&mut scheduler, 51);
    assert_eq!(seqs[0].token_ids, vec![0, 1, 2, 3, 4, 5, 6, 7, 8, 9, 10, 51]);
    assert_eq!(scheduler.running[0].num_cached_tokens, 11);
    assert_eq!(scheduler.running[0].num_new_tokens, 0);
    assert_blocks_are_counted(&scheduler);
}

#[test]
fn only_the_last_sequence_of_a_step_is_cut() {
    let mut counter = SeqCounter::new();
    let mut scheduler = scheduler(&engine_config(16, 12, 8, true), 64);
    scheduler.add(request((0..6).collect(), 8, &mut counter));
    scheduler.add(request((20..40).collect(), 8, &mut counter));
    scheduler.add(request((60..62).collect(), 8, &mut counter));
    let seqs = scheduler.schedule().unwrap();
    assert_eq!(ids(seqs.iter()), vec![0, 1]);
    assert_eq!(complete(&seqs), vec![0]);
    assert_eq!(seqs[1].num_new_tokens, 6);
}

#[test]
fn a_sequence_cut_inside_a_block_goes_on_there() {
    let mut counter = SeqCounter::new();
    let mut scheduler = scheduler(&engine_config(8, 3, 8, true), 64);
    scheduler.add(request((0..8).collect(), 2, &mut counter));
    for cached in [3, 6] {
        let seqs = step(&mut scheduler, 50);
        assert_eq!(seqs[0].num_new_tokens, 3);
        assert_eq!(scheduler.running[0].num_cached_tokens, cached);
        assert_blocks_are_counted(&scheduler);
    }
    assert_eq!(scheduler.running[0].block_table, vec![0, 1]);
    let first = BlockManager::compute_hash(&[0, 1, 2, 3], -1);
    assert_eq!(scheduler.block_manager.blocks[0].hash, first);
    assert_eq!(scheduler.block_manager.blocks[1].hash, -1);
    let seqs = step(&mut scheduler, 50);
    assert_eq!(seqs[0].num_new_tokens, 2);
    assert_eq!(seqs[0].token_ids, vec![0, 1, 2, 3, 4, 5, 6, 7, 50]);
    let second = BlockManager::compute_hash(&[4, 5, 6, 7], first);
    assert_eq!(scheduler.block_manager.blocks[1].hash, second);
    assert!(step(&mut scheduler, 51)[0].is_finished());
    assert!(scheduler.is_finished());
}

/// A scheduler with blocks of two tokens.
fn small_scheduler(blocks: usize, batched: usize, chunked: bool) -> Scheduler {
    let mut limits = engine_config(blocks, batched, 8, chunked);
    limits.kvcache_block_size = 2;
    scheduler(&limits, 64)
}

fn small_request(tokens: Vec<u32>, counter: &mut SeqCounter) -> Sequence {
    let sampling = SamplingParams::new(1.0f64.to_bits(), 8, false);
    Sequence::with_block_size(tokens, sampling, 2, counter)
}

#[test]
fn a_sequence_cut_inside_a_block_can_make_room() {
    let mut counter = SeqCounter::new();
    let mut scheduler = small_scheduler(2, 3, true);
    scheduler.add(small_request(vec![1, 2], &mut counter));
    scheduler.add(small_request(vec![5, 6, 7], &mut counter));
    let seqs = step(&mut scheduler, 50);
    assert_eq!(ids(seqs.iter()), vec![0, 1]);
    assert_eq!((seqs[0].num_new_tokens, seqs[1].num_new_tokens), (2, 1));
    assert_eq!(scheduler.running[1].num_cached_tokens, 1);

    assert!(scheduler.can_step());
    let seqs = scheduler.schedule().unwrap();
    assert_eq!(ids(seqs.iter()), vec![0]);
    assert_eq!(seqs[0].token_ids, vec![1, 2, 50]);
    assert_eq!(seqs[0].block_table.len(), 2);
    assert_eq!(ids(scheduler.running.iter()), vec![0]);
    assert_eq!(ids(scheduler.waiting.iter()), vec![1]);
    assert!(scheduler.waiting[0].block_table.is_empty());
    assert_blocks_are_counted(&scheduler);
}

#[test]
fn a_step_without_room_is_none() {
    let mut counter = SeqCounter::new();
    let mut scheduler = small_scheduler(1, 64, false);
    scheduler.add(small_request(vec![1, 2], &mut counter));
    step(&mut scheduler, 7);
    assert!(scheduler.can_step());
    assert!(scheduler.schedule().is_none());
    assert_eq!(ids(scheduler.waiting.iter()), vec![0]);
    assert_eq!(scheduler.waiting[0].token_ids, vec![1, 2, 7]);
}

#[test]
fn a_step_is_the_front_of_what_is_running() {
    let mut counter = SeqCounter::new();
    let mut scheduler = scheduler(&engine_config(16, 7, 8, true), 64);
    for n in 1..5u32 {
        scheduler.add(request((0..3).map(|i| n * 10 + i).collect(), 4, &mut counter));
    }
    while !scheduler.is_finished() {
        let mut seqs = scheduler.schedule().unwrap();
        assert!(!seqs.is_empty());
        for (seq, running) in seqs.iter().zip(scheduler.running.iter()) {
            assert_eq!(seq.seq_id, running.seq_id);
            assert_eq!(seq.token_ids, running.token_ids);
            assert_eq!(seq.block_table, running.block_table);
            assert_eq!(seq.num_new_tokens, running.num_new_tokens);
            assert!(seq.status == SequenceStatus::Running);
        }
        let at = complete(&seqs);
        let tokens = vec![70; at.len()];
        scheduler.postprocess(&mut seqs, &tokens, &at);
        assert!(seqs.iter().all(|seq| seq.completion_token_ids().len() <= 4));
    }
}

#[test]
fn a_step_under_way_is_no_time_to_schedule() {
    let mut counter = SeqCounter::new();
    let mut scheduler = scheduler(&engine_config(8, 16, 8, false), 64);
    scheduler.add(request(vec![1, 2, 3], 8, &mut counter));
    let mut seqs = scheduler.schedule().unwrap();
    assert!(!scheduler.can_step());
    scheduler.postprocess(&mut seqs, &[5], &[0]);
    assert!(scheduler.can_step());
}

#[test]
fn no_more_sequences_run_than_may() {
    let mut counter = SeqCounter::new();
    let mut scheduler = scheduler(&engine_config(8, 32, 2, false), 64);
    for t in 0..3 {
        scheduler.add(request(vec![t], 8, &mut counter));
    }
    assert_eq!(ids(scheduler.schedule().unwrap().iter()), vec![0, 1]);
    assert_eq!(ids(scheduler.waiting.iter()), vec![2]);
}

#[test]
fn running_sequences_come_before_waiting_ones() {
    let mut counter = SeqCounter::new();
    let mut scheduler = scheduler(&engine_config(8, 4, 8, false), 64);
    scheduler.add(request(vec![1, 2, 3, 4], 8, &mut counter));
    step(&mut scheduler, 50);
    scheduler.add(request(vec![5, 6, 7], 8, &mut counter));
    scheduler.add(request(vec![8], 8, &mut counter));
    let seqs = scheduler.schedule().unwrap();
    assert_eq!(ids(seqs.iter()), vec![0, 1]);
    assert_eq!(seqs[0].num_new_tokens, 1);
    assert_eq!(seqs[1].num_new_tokens, 3);
}

#[test]
fn the_last_one_in_makes_room() {
    let mut counter = SeqCounter::new();
    let mut scheduler = scheduler(&engine_config(3, 32, 8, false), 64);
    scheduler.add(request(vec![1, 2, 3, 4], 8, &mut counter));
    scheduler.add(request(vec![5, 6, 7, 8, 9], 8, &mut counter));
    step(&mut scheduler, 50);
    assert_eq!(ids(scheduler.running.iter()), vec![0, 1]);

    let seqs = scheduler.schedule().unwrap();
    assert_eq!(ids(seqs.iter()), vec![0]);
    assert_eq!(seqs[0].block_table.len(), 2);
    assert_eq!(ids(scheduler.running.iter()), vec![0]);
    assert_eq!(ids(scheduler.waiting.iter()), vec![1]);
    let back = &scheduler.waiting[0];
    assert_eq!(back.status, SequenceStatus::Waiting);
    assert_eq!(back.token_ids, vec![5, 6, 7, 8, 9, 50]);
    assert_eq!((back.num_cached_tokens, back.num_new_tokens), (0, 0));
    assert!(back.block_table.is_empty());
    assert_blocks_are_counted(&scheduler);
}

#[test]
fn a_sequence_may_have_to_preempt_itself() {
    let mut counter = SeqCounter::new();
    let mut scheduler = scheduler(&engine_config(1, 32, 8, false), 64);
    scheduler.add(request(vec![1, 2, 3, 4], 8, &mut counter));
    step(&mut scheduler, 50);
    assert!(scheduler.schedule().is_none());
    assert!(scheduler.running.is_empty());
    assert_eq!(ids(scheduler.waiting.iter()), vec![0]);
    assert_eq!(scheduler.block_manager.free_block_ids.len(), 1);
}

#[test]
fn nobody_is_let_in_when_someone_had_to_leave() {
    let mut counter = SeqCounter::new();
    let mut scheduler = scheduler(&engine_config(4, 32, 8, false), 64);
    scheduler.add(request(vec![1, 2, 3, 4], 8, &mut counter));
    scheduler.add(request(vec![5, 6, 7, 8, 9, 10, 11, 12], 8, &mut counter));
    step(&mut scheduler, 50);
    scheduler.add(request(vec![13], 8, &mut counter));
    let seqs = scheduler.schedule().unwrap();
    assert_eq!(ids(seqs.iter()), vec![0]);
    assert_eq!(ids(scheduler.waiting.iter()), vec![1, 2]);
    assert!(scheduler.block_manager.free_block_ids.len() >= 1);
}

#[test]
fn preempting_puts_a_sequence_in_front() {
    let mut counter = SeqCounter::new();
    let mut scheduler = scheduler(&engine_config(4, 32, 8, false), 64);
    scheduler.add(request(vec![1, 2, 3], 8, &mut counter));
    assert!(scheduler.schedule().is_some());
    scheduler.add(request(vec![4], 8, &mut counter));
    let seq = scheduler.running.pop_back().unwrap();
    scheduler.preempt(seq);
    assert_eq!(ids(scheduler.waiting.iter()), vec![0, 1]);
    assert_eq!(scheduler.waiting[0].status, SequenceStatus::Waiting);
    assert_eq!(scheduler.block_manager.free_block_ids.len(), 4);
}

#[test]
fn the_end_of_the_text_finishes_a_sequence() {
    let mut counter = SeqCounter::new();
    let mut scheduler = scheduler(&engine_config(4, 32, 8, false), 64);
    scheduler.add(request(vec![1, 2, 3], 8, &mut counter));
    let seqs = step(&mut scheduler, EOS);
    assert!(seqs[0].is_finished());
    assert_eq!(seqs[0].completion_token_ids(), &[EOS]);
    assert!(seqs[0].block_table.is_empty());
    assert!(scheduler.is_finished());
    assert_eq!(scheduler.block_manager.free_block_ids.len(), 4);
}

#[test]
fn the_end_of_the_text_can_be_ignored() {
    let mut counter = SeqCounter::new();
    let mut scheduler = scheduler(&engine_config(4, 32, 8, false), 64);
    let sampling = SamplingParams::new(1.0f64.to_bits(), 2, true);
    scheduler.add(Sequence::with_block_size(vec![1, 2], sampling, 4, &mut counter));
    assert!(!step(&mut scheduler, EOS)[0].is_finished());
    assert!(step(&mut scheduler, EOS)[0].is_finished());
}

#[test]
fn as_many_tokens_are_drawn_as_were_asked_for() {
    let mut counter = SeqCounter::new();
    let mut scheduler = scheduler(&engine_config(4, 32, 8, false), 64);
    scheduler.add(request(vec![1, 2, 3], 3, &mut counter));
    step(&mut scheduler, 10);
    step(&mut scheduler, 11);
    assert!(!scheduler.is_finished());
    let seqs = step(&mut scheduler, 12);
    assert!(seqs[0].is_finished());
    assert_eq!(seqs[0].completion_token_ids(), &[10, 11, 12]);
    assert!(scheduler.is_finished());
}

#[test]
fn a_negative_number_of_tokens_is_never_reached() {
    let mut counter = SeqCounter::new();
    let mut scheduler = scheduler(&engine_config(4, 32, 8, false), 8);
    scheduler.add(request(vec![1, 2, 3], -1, &mut counter));
    let mut drawn = 0;
    while !scheduler.is_finished() {
        step(&mut scheduler, 10);
        drawn += 1;
    }
    assert_eq!(drawn, 5);
}

#[test]
fn the_longest_length_finishes_a_sequence() {
    let mut counter = SeqCounter::new();
    let mut scheduler = scheduler(&engine_config(4, 32, 8, false), 5);
    scheduler.add(request(vec![1, 2, 3, 4], 100, &mut counter));
    let seqs = step(&mut scheduler, 10);
    assert!(seqs[0].is_finished());
    assert_eq!(seqs[0].len(), 5);
}

#[test]
fn a_finished_prompt_is_served_from_the_cache() {
    let mut counter = SeqCounter::new();
    let mut scheduler = scheduler(&engine_config(8, 32, 8, false), 64);
    scheduler.add(request((0..9).collect(), 1, &mut counter));
    step(&mut scheduler, 50);
    assert!(scheduler.is_finished());
    scheduler.add(request((0..10).collect(), 1, &mut counter));
    let seqs = scheduler.schedule().unwrap();
    assert_eq!(seqs[0].num_cached_tokens, 8);
    assert_eq!(seqs[0].num_new_tokens, 2);
}

#[test]
fn generated_tokens_are_served_from_the_cache() {
    let mut counter = SeqCounter::new();
    let mut scheduler = scheduler(&engine_config(8, 32, 8, false), 64);
    scheduler.add(request(vec![1, 2], 4, &mut counter));
    for token in [3, 4, 5, 6] {
        step(&mut scheduler, token);
    }
    assert!(scheduler.is_finished());
    scheduler.add(request(vec![1, 2, 3, 4, 5], 4, &mut counter));
    assert_eq!(scheduler.schedule().unwrap()[0].num_cached_tokens, 4);
}

#[test]
fn no_block_is_written_in_two_places() {
    let mut counter = SeqCounter::new();
    let mut scheduler = scheduler(&engine_config(12, 64, 8, false), 64);
    for n in 1..5u32 {
        let mut tokens: Vec<u32> = (0..6).collect();
        tokens.extend((0..n).map(|i| 100 * n + i));
        scheduler.add(request(tokens, 6, &mut counter));
    }
    for token in 0..4 {
        let mut seqs = scheduler.schedule().unwrap();
        let mut written = Vec::new();
        for seq in &seqs {
            for p in seq.num_cached_tokens..seq.num_context_tokens() {
                written.push(seq.block_table[p / 4] * 4 + p % 4);
            }
        }
        let n = written.len();
        written.sort();
        written.dedup();
        assert_eq!(written.len(), n);
        let at = complete(&seqs);
        let tokens = vec![token; at.len()];
        scheduler.postprocess(&mut seqs, &tokens, &at);
        assert_blocks_are_counted(&scheduler);
    }
}

#[test]
fn every_request_is_served_in_the_end() {
    let mut counter = SeqCounter::new();
    let mut scheduler = scheduler(&engine_config(6, 10, 3, false), 24);
    for n in 1..8u32 {
        scheduler.add(request((0..n).map(|i| n * 10 + i).collect(), 5, &mut counter));
    }
    let mut finished = Vec::new();
    let mut steps = 0;
    while !scheduler.is_finished() {
        let seqs = step(&mut scheduler, 500 + steps);
        assert!(!seqs.is_empty());
        assert_blocks_are_counted(&scheduler);
        finished.extend(seqs.iter().filter(|seq| seq.is_finished()).map(|seq| seq.seq_id));
        steps += 1;
        assert!(steps < 100);
    }
    finished.sort();
    assert_eq!(finished, (0..7).collect::<Vec<usize>>());
    assert_eq!(scheduler.block_manager.free_block_ids.len(), 6);
}

#[test]
fn the_first_request_gets_a_token_in_every_step() {
    let mut counter = SeqCounter::new();
    let mut scheduler = scheduler(&engine_config(5, 19, 4, false), 20);
    for n in 1..6u32 {
        scheduler.add(request((0..n + 2).map(|i| n * 10 + i).collect(), 100, &mut counter));
    }
    for token in 500..560 {
        let all: Vec<Sequence> =
            scheduler.running.iter().chain(scheduler.waiting.iter()).cloned().collect();
        if all.is_empty() {
            break;
        }
        let first = &all[0];
        let seqs = step(&mut scheduler, token);
        let finished: Vec<usize> = ids(seqs.iter().filter(|seq| seq.is_finished()));
        if !finished.contains(&first.seq_id) {
            assert_eq!(scheduler.running[0].seq_id, first.seq_id);
            assert_eq!(scheduler.running[0].len(), first.len() + 1);
            assert_eq!(&scheduler.running[0].token_ids[..first.len()], &first.token_ids[..]);
        }
        let left = ids(scheduler.running.iter().chain(scheduler.waiting.iter()));
        for seq in &all {
            assert!(left.contains(&seq.seq_id) != finished.contains(&seq.seq_id));
        }
        assert_eq!(left.len() + finished.len(), all.len());
    }
}

#[test]
fn the_first_request_is_computed_further_where_its_prompt_is_cut() {
    let mut counter = SeqCounter::new();
    let mut scheduler = scheduler(&engine_config(5, 3, 4, true), 20);
    for n in 1..6u32 {
        scheduler.add(request((0..n + 6).map(|i| n * 20 + i).collect(), 100, &mut counter));
    }
    let mut cut: usize = 0;
    for token in 500..800 {
        let all: Vec<Sequence> =
            scheduler.running.iter().chain(scheduler.waiting.iter()).cloned().collect();
        if all.is_empty() {
            break;
        }
        let first = &all[0];
        let seqs = step(&mut scheduler, token);
        if !seqs.iter().any(|seq| seq.seq_id == first.seq_id && seq.is_finished()) {
            let now = &scheduler.running[0];
            assert_eq!(now.seq_id, first.seq_id);
            assert_eq!(&now.token_ids[..first.len()], &first.token_ids[..]);
            if now.len() == first.len() {
                assert!(now.num_cached_tokens > first.num_cached_tokens);
                cut += 1;
            } else {
                assert_eq!(now.len(), first.len() + 1);
            }
        }
    }
    assert!(cut > 0);
    assert!(scheduler.running.is_empty() && scheduler.waiting.is_empty());
}

#[test]
fn scheduling_keeps_tokens_and_turns() {
    let mut counter = SeqCounter::new();
    let mut scheduler = scheduler(&engine_config(4, 32, 8, false), 64);
    for n in 1..5u32 {
        scheduler.add(request((0..4).map(|i| n * 10 + i).collect(), 100, &mut counter));
    }
    for token in 500..508 {
        let before: Vec<(usize, Vec<u32>)> = scheduler
            .running
            .iter()
            .chain(scheduler.waiting.iter())
            .map(|seq| (seq.seq_id, seq.token_ids.clone()))
            .collect();
        let mut seqs = scheduler.schedule().unwrap();
        let after: Vec<(usize, Vec<u32>)> = scheduler
            .running
            .iter()
            .chain(scheduler.waiting.iter())
            .map(|seq| (seq.seq_id, seq.token_ids.clone()))
            .collect();
        assert_eq!(before, after);
        let at = complete(&seqs);
        let tokens = vec![token; at.len()];
        scheduler.postprocess(&mut seqs, &tokens, &at);
    }
}

#[test]
fn full_blocks_carry_the_hash_of_their_prefix() {
    let mut counter = SeqCounter::new();
    let mut scheduler = scheduler(&engine_config(16, 64, 8, false), 64);
    scheduler.add(request((0..6).collect(), 100, &mut counter));
    scheduler.add(request((0..7).collect(), 100, &mut counter));
    for token in 500..512 {
        step(&mut scheduler, token);
        for seq in &scheduler.running {
            let mut hash = -1;
            for (i, &b) in seq.block_table.iter().enumerate() {
                if (i + 1) * 4 <= seq.num_context_tokens() {
                    let tokens: Vec<i64> = seq.block(i).iter().map(|&t| t as i64).collect();
                    hash = BlockManager::compute_hash(&tokens, hash);
                    assert_eq!(scheduler.block_manager.blocks[b].hash, hash);
                    assert_eq!(scheduler.block_manager.blocks[b].token_ids, seq.block(i));
                }
            }
        }
    }
}
