use nanovllm::engine::block_manager::{same_tokens, Block, BlockManager, NO_HASH};
use nanovllm::engine::sequence::{SeqCounter, Sequence};
use nanovllm::sampling_params::SamplingParams;
use xxhash_rust::xxh64::Xxh64;

fn sequence(tokens: Vec<u32>, block_size: usize) -> Sequence {
    let mut counter = SeqCounter::new();
    let sampling = SamplingParams::new(1.0f64.to_bits(), 8, false);
    Sequence::with_block_size(tokens, sampling, block_size, &mut counter)
}

fn free(manager: &BlockManager) -> Vec<usize> {
    manager.free_block_ids.iter().copied().collect()
}

fn used(manager: &BlockManager) -> Vec<usize> {
    let mut ids: Vec<usize> = manager.used_block_ids.iter().copied().collect();
    ids.sort();
    ids
}

fn streamed(token_ids: &[i64], prefix: Option<i64>) -> i64 {
    let mut hasher = Xxh64::new(0);
    if let Some(prefix) = prefix {
        hasher.update(&prefix.to_le_bytes());
    }
    for t in token_ids {
        hasher.update(&t.to_le_bytes());
    }
    hasher.digest() as i64
}

/// Hands out blocks for all the tokens of `seq` that are not cached.
fn start(manager: &mut BlockManager, seq: &mut Sequence) {
    seq.num_new_tokens = manager.get_token_layout(seq).2;
    manager.allocate(seq);
}

/// The step is over: what was new is computed.
fn advance(seq: &mut Sequence) {
    seq.num_cached_tokens += seq.num_new_tokens;
    seq.num_new_tokens = 0;
}

#[test]
fn a_block_is_new_then_filled_then_reset() {
    let mut block = Block::new(4);
    assert_eq!((block.block_id, block.ref_count, block.hash), (4, 0, -1));
    assert!(block.token_ids.is_empty());
    block.update(99, vec![1, 2]);
    assert_eq!((block.block_id, block.ref_count, block.hash), (4, 0, 99));
    assert_eq!(block.token_ids, vec![1, 2]);
    block.reset();
    assert_eq!((block.block_id, block.ref_count, block.hash), (4, 1, NO_HASH));
    assert!(block.token_ids.is_empty());
}

#[test]
fn a_new_manager_has_all_blocks_free() {
    let manager = BlockManager::new(3, 4);
    assert_eq!(manager.block_size, 4);
    assert_eq!(manager.blocks.len(), 3);
    for (i, block) in manager.blocks.iter().enumerate() {
        assert_eq!((block.block_id, block.ref_count, block.hash), (i, 0, -1));
    }
    assert_eq!(free(&manager), vec![0, 1, 2]);
    assert!(manager.used_block_ids.is_empty());
    assert!(manager.hash_to_block_id.is_empty());
}

#[test]
fn the_hash_of_nothing() {
    assert_eq!(BlockManager::compute_hash(&[], NO_HASH), 0xef46_db37_51d8_e999u64 as i64);
}

#[test]
fn hashes_go_over_prefix_and_tokens() {
    let tokens: Vec<i64> = (0..40).map(|i| i * 1_000_003).collect();
    for n in [0, 1, 3, 4, 5, 31, 40] {
        for prefix in [0i64, 1, -2, i64::MIN, i64::MAX] {
            let hash = BlockManager::compute_hash(&tokens[..n], prefix);
            assert_eq!(hash, streamed(&tokens[..n], Some(prefix)));
        }
        let hash = BlockManager::compute_hash(&tokens[..n], NO_HASH);
        assert_eq!(hash, streamed(&tokens[..n], None));
    }
}

#[test]
fn tokens_are_compared_one_by_one() {
    assert!(same_tokens(&[], &[]));
    assert!(same_tokens(&[1, 2], &[1, 2]));
    assert!(!same_tokens(&[1, 2], &[1]));
    assert!(!same_tokens(&[1, 2], &[1, 3]));
}

#[test]
fn whole_blocks_are_counted() {
    let manager = BlockManager::new(2, 4);
    assert!(manager.can_allocate(0));
    assert!(manager.can_allocate(1));
    assert!(manager.can_allocate(8));
    assert!(!manager.can_allocate(9));
}

#[test]
fn the_first_sequence_computes_all_its_tokens() {
    let mut manager = BlockManager::new(4, 4);
    let mut seq = sequence((0..10).collect(), 4);
    assert_eq!(manager.get_token_layout(&seq), (0, 0, 10));
    start(&mut manager, &mut seq);

    assert_eq!(seq.block_table, vec![0, 1, 2]);
    assert_eq!(seq.num_cached_tokens, 0);
    assert_eq!(free(&manager), vec![3]);
    assert_eq!(used(&manager), vec![0, 1, 2]);

    let first = streamed(&[0, 1, 2, 3], None);
    let second = streamed(&[4, 5, 6, 7], Some(first));
    assert_eq!(manager.blocks[0].hash, first);
    assert_eq!(manager.blocks[0].token_ids, vec![0, 1, 2, 3]);
    assert_eq!(manager.blocks[1].hash, second);
    assert_eq!(manager.blocks[1].token_ids, vec![4, 5, 6, 7]);
    assert_eq!(manager.blocks[2].hash, -1);
    assert!(manager.blocks[2].token_ids.is_empty());
    assert_eq!(manager.hash_to_block_id.get(&first), Some(&0));
    assert_eq!(manager.hash_to_block_id.get(&second), Some(&1));
    assert_eq!(manager.hash_to_block_id.len(), 2);
}

#[test]
fn a_common_prefix_is_shared_while_it_is_held() {
    let mut manager = BlockManager::new(6, 4);
    let mut a = sequence((0..10).collect(), 4);
    start(&mut manager, &mut a);

    let mut b = sequence(vec![0, 1, 2, 3, 4, 5, 6, 7, 80, 90, 100], 4);
    assert_eq!(manager.get_token_layout(&b), (8, 0, 3));
    start(&mut manager, &mut b);
    assert_eq!(b.num_cached_tokens, 8);
    assert_eq!(b.block_table, vec![0, 1, 3]);
    assert_eq!(manager.blocks[0].ref_count, 2);
    assert_eq!(manager.blocks[1].ref_count, 2);
    assert_eq!(manager.blocks[3].ref_count, 1);
    assert_eq!(free(&manager), vec![4, 5]);
}

#[test]
fn a_different_first_block_shares_nothing() {
    let mut manager = BlockManager::new(6, 4);
    let mut a = sequence((0..10).collect(), 4);
    start(&mut manager, &mut a);
    let b = sequence(vec![9, 1, 2, 3, 4, 5, 6, 7, 8, 9], 4);
    assert_eq!(manager.get_token_layout(&b), (0, 0, 10));
}

#[test]
fn the_last_block_is_always_computed() {
    let mut manager = BlockManager::new(6, 4);
    let mut a = sequence((0..8).collect(), 4);
    start(&mut manager, &mut a);
    let b = sequence((0..8).collect(), 4);
    assert_eq!(manager.get_token_layout(&b), (4, 0, 4));
}

#[test]
fn released_blocks_are_found_again() {
    let mut manager = BlockManager::new(4, 4);
    let mut a = sequence((0..10).collect(), 4);
    start(&mut manager, &mut a);
    manager.deallocate(&mut a);
    assert_eq!(free(&manager), vec![3, 2, 1, 0]);
    assert!(used(&manager).is_empty());
    assert_eq!((a.num_cached_tokens, a.num_new_tokens), (0, 0));
    assert!(a.block_table.is_empty());

    let mut b = sequence((0..10).collect(), 4);
    assert_eq!(manager.get_token_layout(&b), (0, 8, 2));
    start(&mut manager, &mut b);
    assert_eq!(b.num_cached_tokens, 8);
    assert_eq!(b.block_table, vec![0, 1, 3]);
    assert_eq!(manager.blocks[0].token_ids, vec![0, 1, 2, 3]);
    assert_eq!(manager.blocks[0].ref_count, 1);
    assert_eq!(free(&manager), vec![2]);
    assert_eq!(used(&manager), vec![0, 1, 3]);
}

#[test]
fn a_block_handed_out_anew_is_forgotten() {
    let mut manager = BlockManager::new(2, 4);
    let mut a = sequence((0..8).collect(), 4);
    start(&mut manager, &mut a);
    manager.deallocate(&mut a);
    assert_eq!(manager.hash_to_block_id.len(), 2);

    let mut b = sequence((50..58).collect(), 4);
    start(&mut manager, &mut b);
    assert_eq!(b.block_table, vec![1, 0]);
    assert_eq!(manager.hash_to_block_id.len(), 2);
    assert_eq!(manager.get_token_layout(&sequence((0..8).collect(), 4)), (0, 0, 8));
}

#[test]
fn blocks_are_held_until_the_last_one_lets_go() {
    let mut manager = BlockManager::new(6, 4);
    let mut a = sequence((0..9).collect(), 4);
    let mut b = sequence((0..9).collect(), 4);
    start(&mut manager, &mut a);
    start(&mut manager, &mut b);
    assert_eq!(used(&manager), vec![0, 1, 2, 3]);
    manager.deallocate(&mut a);
    assert_eq!(used(&manager), vec![0, 1, 3]);
    assert_eq!(free(&manager), vec![4, 5, 2]);
    manager.deallocate(&mut b);
    assert!(used(&manager).is_empty());
    assert_eq!(free(&manager), vec![4, 5, 2, 3, 1, 0]);
}

#[test]
fn equal_hashes_of_other_tokens_are_no_match() {
    let mut manager = BlockManager::new(3, 2);
    let hash = BlockManager::compute_hash(&[1, 2], NO_HASH);
    manager.record_block(1, hash, vec![7, 7]);
    assert_eq!(manager.hash_to_block_id.get(&hash), Some(&1));
    assert_eq!(manager.cached_block(hash, &[1, 2]), None);
    assert_eq!(manager.cached_block(hash, &[7, 7]), Some(1));
    assert_eq!(manager.cached_block(hash + 1, &[7, 7]), None);
    assert_eq!(manager.get_token_layout(&sequence(vec![1, 2, 3], 2)), (0, 0, 3));
}

#[test]
fn appending_within_a_block_needs_none() {
    let mut manager = BlockManager::new(1, 4);
    let mut seq = sequence(vec![1, 2], 4);
    start(&mut manager, &mut seq);
    advance(&mut seq);
    assert!(free(&manager).is_empty());
    assert!(manager.can_append(&seq, 1));
    assert!(manager.can_append(&seq, 2));
    assert!(!manager.can_append(&seq, 3));
}

#[test]
fn appending_behind_a_full_block_needs_another() {
    let mut manager = BlockManager::new(2, 4);
    let mut seq = sequence(vec![1, 2, 3, 4], 4);
    start(&mut manager, &mut seq);
    advance(&mut seq);
    assert!(manager.can_append(&seq, 4));
    assert!(!manager.can_append(&seq, 5));
    assert!(manager.can_append(&seq, 0));
}

#[test]
fn a_block_gets_its_hash_when_it_is_full() {
    let mut manager = BlockManager::new(3, 4);
    let mut seq = sequence(vec![1, 2, 3, 4, 5, 6], 4);
    start(&mut manager, &mut seq);
    advance(&mut seq);

    seq.append_token(7);
    seq.num_new_tokens = 1;
    manager.may_append(&mut seq);
    assert_eq!(seq.block_table, vec![0, 1]);
    assert_eq!(manager.blocks[1].hash, -1);
    advance(&mut seq);

    seq.append_token(8);
    seq.num_new_tokens = 1;
    manager.may_append(&mut seq);
    assert_eq!(seq.block_table, vec![0, 1]);
    let first = streamed(&[1, 2, 3, 4], None);
    let second = streamed(&[5, 6, 7, 8], Some(first));
    assert_eq!(manager.blocks[1].hash, second);
    assert_eq!(manager.blocks[1].token_ids, vec![5, 6, 7, 8]);
    assert_eq!(manager.hash_to_block_id.get(&second), Some(&1));
    advance(&mut seq);

    seq.append_token(9);
    seq.num_new_tokens = 1;
    manager.may_append(&mut seq);
    assert_eq!(seq.block_table, vec![0, 1, 2]);
    assert_eq!(manager.blocks[2].hash, -1);
    assert_eq!(manager.blocks[2].ref_count, 1);
    assert!(free(&manager).is_empty());

    let again = sequence(vec![1, 2, 3, 4, 5, 6, 7, 8, 10], 4);
    assert_eq!(manager.get_token_layout(&again), (8, 0, 1));
}

#[test]
fn many_tokens_can_be_appended_at_once() {
    let mut manager = BlockManager::new(4, 2);
    let mut seq = sequence(vec![1, 2, 3, 4, 5, 6, 7], 2);
    seq.num_new_tokens = 2;
    manager.allocate(&mut seq);
    advance(&mut seq);
    seq.num_new_tokens = 5;
    assert!(manager.can_append(&seq, 5));
    manager.may_append(&mut seq);
    assert_eq!(seq.block_table, vec![0, 1, 2, 3]);
    let first = streamed(&[1, 2], None);
    let second = streamed(&[3, 4], Some(first));
    let third = streamed(&[5, 6], Some(second));
    let hashes: Vec<i64> = manager.blocks.iter().map(|b| b.hash).collect();
    assert_eq!(hashes, vec![first, second, third, -1]);
}

#[test]
fn a_cut_first_block_stays_open_until_it_is_full() {
    let mut manager = BlockManager::new(4, 4);
    let mut seq = sequence((0..8).collect(), 4);
    seq.num_new_tokens = 2;
    manager.allocate(&mut seq);
    assert_eq!(seq.block_table, vec![0]);
    assert_eq!(manager.blocks[0].hash, NO_HASH);
    assert!(manager.blocks[0].token_ids.is_empty());
    assert!(manager.hash_to_block_id.is_empty());
    advance(&mut seq);

    seq.num_new_tokens = 5;
    manager.may_append(&mut seq);
    assert_eq!(seq.block_table, vec![0, 1]);
    let first = streamed(&[0, 1, 2, 3], None);
    assert_eq!(manager.blocks[0].hash, first);
    assert_eq!(manager.blocks[0].token_ids, vec![0, 1, 2, 3]);
    assert_eq!(manager.blocks[1].hash, NO_HASH);
    advance(&mut seq);

    seq.num_new_tokens = 1;
    manager.may_append(&mut seq);
    assert_eq!(seq.block_table, vec![0, 1]);
    assert_eq!(manager.blocks[1].hash, streamed(&[4, 5, 6, 7], Some(first)));
}

#[test]
fn an_allocation_takes_just_what_it_needs() {
    let mut manager = BlockManager::new(8, 4);
    let mut a = sequence((0..11).collect(), 4);
    start(&mut manager, &mut a);
    manager.deallocate(&mut a);
    let mut held = sequence((0..5).collect(), 4);
    start(&mut manager, &mut held);
    assert_eq!(free(&manager), vec![4, 5, 6, 7, 2, 1]);

    let mut b = sequence((0..18).collect(), 4);
    assert_eq!(manager.get_token_layout(&b), (4, 4, 10));
    let before = free(&manager).len();
    let counts: Vec<usize> = manager.blocks.iter().map(|block| block.ref_count).collect();
    start(&mut manager, &mut b);
    assert_eq!(b.num_cached_tokens, 8);
    assert_eq!(b.block_table, vec![0, 1, 4, 5, 6]);
    assert_eq!(free(&manager).len(), before - 1 - 3);
    assert_eq!(free(&manager), vec![7, 2]);
    for (i, block) in manager.blocks.iter().enumerate() {
        let times = b.block_table.iter().filter(|&&id| id == i).count();
        assert_eq!(block.ref_count, counts[i] + times);
    }
}

#[test]
fn appending_takes_the_first_free_blocks() {
    let mut manager = BlockManager::new(6, 2);
    let mut other = sequence(vec![90, 91, 92], 2);
    start(&mut manager, &mut other);
    let mut seq = sequence((0..7).collect(), 2);
    seq.num_new_tokens = 1;
    manager.allocate(&mut seq);
    advance(&mut seq);
    manager.deallocate(&mut other);
    assert_eq!(free(&manager), vec![3, 4, 5, 1, 0]);
    seq.num_new_tokens = 6;
    manager.may_append(&mut seq);
    assert_eq!(seq.block_table, vec![2, 3, 4, 5]);
    assert_eq!(free(&manager), vec![1, 0]);
}
