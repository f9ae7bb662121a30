use nanovllm::engine::sequence::{SeqCounter, Sequence, SequenceStatus, BLOCK_SIZE};
use nanovllm::sampling_params::{is_valid_temperature, SamplingParams};

fn params(max_tokens: i32) -> SamplingParams {
    SamplingParams::new(0.5f64.to_bits(), max_tokens, false)
}

fn sequence(tokens: Vec<u32>, block_size: usize) -> Sequence {
    let mut counter = SeqCounter::new();
    Sequence::with_block_size(tokens, params(8), block_size, &mut counter)
}

#[test]
fn ids_count_up_from_zero() {
    let mut counter = SeqCounter::new();
    let first = Sequence::new(vec![1], params(4), &mut counter);
    let second = Sequence::new(vec![1], params(4), &mut counter);
    let third = Sequence::with_block_size(vec![1], params(4), 16, &mut counter);
    assert_eq!((first.seq_id, second.seq_id, third.seq_id), (0, 1, 2));
    assert_eq!(counter.next_seq_id(), 3);
}

#[test]
fn ids_start_again_after_the_last_one() {
    let mut counter = SeqCounter { next: usize::MAX };
    assert_eq!(counter.next_seq_id(), usize::MAX);
    assert_eq!(counter.next_seq_id(), 0);
}

#[test]
fn a_new_sequence_waits() {
    let mut counter = SeqCounter::new();
    let sampling = SamplingParams::new(0.7f64.to_bits(), 12, true);
    let seq = Sequence::new(vec![5, 6, 7], sampling, &mut counter);
    assert_eq!(seq.block_size, BLOCK_SIZE);
    assert_eq!(seq.block_size, 256);
    assert_eq!(seq.status, SequenceStatus::Waiting);
    assert_eq!(seq.token_ids, vec![5, 6, 7]);
    assert_eq!(seq.last_token, 7);
    assert_eq!(seq.num_tokens, 3);
    assert_eq!(seq.num_prompt_tokens, 3);
    assert_eq!(seq.num_cached_tokens, 0);
    assert_eq!(seq.num_new_tokens, 0);
    assert!(seq.block_table.is_empty());
    assert_eq!(f64::from_bits(seq.temperature), 0.7);
    assert_eq!(seq.max_tokens, 12);
    assert!(seq.ignore_eos);
    assert_eq!(seq.len(), 3);
    assert!(!seq.is_empty());
    assert!(!seq.is_finished());
}

#[test]
fn blocks_needed_by_ten_tokens() {
    let seq = sequence((0..10).collect(), 4);
    assert_eq!(seq.num_blocks(), 3);
    assert_eq!(seq.last_block_num_tokens(), 2);
    assert_eq!(seq.block(0), &[0, 1, 2, 3]);
    assert_eq!(seq.block(1), &[4, 5, 6, 7]);
    assert_eq!(seq.block(2), &[8, 9]);
}

#[test]
fn a_full_last_block_is_counted_once() {
    let seq = sequence((0..8).collect(), 4);
    assert_eq!(seq.num_blocks(), 2);
    assert_eq!(seq.last_block_num_tokens(), 4);
    assert_eq!(seq.block(1), &[4, 5, 6, 7]);
}

#[test]
fn blocks_of_the_tokens_in_context() {
    let mut seq = sequence((0..10).collect(), 4);
    seq.num_cached_tokens = 6;
    seq.num_new_tokens = 2;
    seq.block_table = vec![9, 3];
    assert_eq!(seq.num_context_tokens(), 8);
    assert_eq!(seq.num_cached_blocks(), 1);
    assert_eq!(seq.num_current_blocks(), 2);
}

#[test]
fn every_token_is_in_its_block() {
    let seq = sequence((100..123).collect(), 5);
    for p in 0..seq.len() {
        assert_eq!(seq.block(p / 5)[p % 5], *seq.index(p));
    }
}

#[test]
fn appended_tokens_are_the_completion() {
    let mut seq = sequence(vec![1, 2, 3], 4);
    assert_eq!(seq.num_completion_tokens(), 0);
    seq.append_token(40);
    seq.append_token(50);
    assert_eq!(seq.last_token, 50);
    assert_eq!(seq.len(), 5);
    assert_eq!(seq.num_completion_tokens(), 2);
    assert_eq!(seq.prompt_token_ids(), &[1, 2, 3]);
    assert_eq!(seq.completion_token_ids(), &[40, 50]);
    assert_eq!(seq.slice_tokens(2, 4), &[3, 40]);
    assert_eq!(*seq.index(4), 50);
}

#[test]
fn a_state_carries_over_what_it_holds() {
    let mut from = sequence(vec![1, 2, 3, 4, 5], 4);
    from.append_token(6);
    from.num_cached_tokens = 5;
    from.num_new_tokens = 1;
    from.block_table = vec![7, 8];
    from.status = SequenceStatus::Running;

    let mut counter = SeqCounter { next: 77 };
    let other = SamplingParams::new(2.0f64.to_bits(), 3, true);
    let mut to = Sequence::with_block_size(vec![9], other, 16, &mut counter);
    to.set_state(from.get_state());

    assert_eq!(to.token_ids, vec![1, 2, 3, 4, 5, 6]);
    assert_eq!(to.last_token, 6);
    assert_eq!(to.num_tokens, 6);
    assert_eq!(to.num_prompt_tokens, 5);
    assert_eq!(to.num_cached_tokens, 5);
    assert_eq!(to.num_new_tokens, 1);
    assert_eq!(to.block_table, vec![7, 8]);
    assert_eq!(to.temperature, 0.5f64.to_bits());

    assert_eq!(to.block_size, 16);
    assert_eq!(to.seq_id, 77);
    assert_eq!(to.status, SequenceStatus::Waiting);
    assert_eq!(to.max_tokens, 3);
    assert!(to.ignore_eos);
}

#[test]
fn temperatures_above_the_least_one_are_valid() {
    for valid in [1.0f64, 0.5, 1.1e-10, 1e300, f64::INFINITY] {
        assert!(is_valid_temperature(valid.to_bits()));
        assert!(valid > 1e-10);
    }
    for refused in [1e-10f64, 0.9e-10, 0.0, -0.0, -1.0, f64::NEG_INFINITY, f64::NAN, -f64::NAN] {
        assert!(!is_valid_temperature(refused.to_bits()));
        assert!(!(refused > 1e-10));
    }
    let least = f64::from_bits(1e-10f64.to_bits() + 1);
    assert!(least > 1e-10 && is_valid_temperature(least.to_bits()));
}
