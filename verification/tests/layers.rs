use candle_core::{DType, Device, Tensor};
use nanovllm::layers::attention::{gather_context, gather_paged_kv, paged_slots, seqlens};
use nanovllm::layers::dist_util::{concat_dims, gathered_dims, stacked_dims};
use nanovllm::layers::embed_head::{ParallelLMHead, VocabParallelEmbedding};
use nanovllm::layers::kv_cache::{plan_store, product, StoreError, StorePlan};
use nanovllm::layers::layernorm::RMSNorm;
use nanovllm::layers::linear::{
    divide, ColumnParallelLinear, LinearBase, MergedColumnParallelLinear, QKVParallelLinear,
    ReplicatedLinear, RowParallelLinear,
};
use nanovllm::layers::tensor::{halves, is_readable, splice, LayerError};

/// A matrix that counts up from `first`, row by row.
fn matrix(first: usize, rows: usize, columns: usize) -> Tensor {
    let data: Vec<f32> = (first..first + rows * columns).map(|i| i as f32).collect();
    Tensor::from_vec(data, (rows, columns), &Device::Cpu).unwrap()
}

fn values(tensor: &Tensor) -> Vec<Vec<f32>> {
    tensor.to_vec2().unwrap()
}

fn row(first: usize, columns: usize) -> Vec<f32> {
    (first..first + columns).map(|i| i as f32).collect()
}

#[test]
fn halves_along_the_last_dimension() {
    let (a, b) = halves(&matrix(0, 2, 4)).ok().unwrap();
    assert_eq!(values(&a), vec![vec![0.0, 1.0], vec![4.0, 5.0]]);
    assert_eq!(values(&b), vec![vec![2.0, 3.0], vec![6.0, 7.0]]);
    let (a, b) = halves(&matrix(0, 1, 5)).ok().unwrap();
    assert_eq!(values(&a), vec![vec![0.0, 1.0]]);
    assert_eq!(values(&b), vec![vec![2.0, 3.0]]);
}

#[test]
fn a_number_has_no_halves() {
    let scalar = Tensor::new(1.0f32, &Device::Cpu).unwrap();
    assert!(matches!(halves(&scalar), Err(LayerError::NoDimension)));
}

#[test]
fn a_part_is_spliced_in() {
    let whole = matrix(0, 4, 2);
    let next = splice(&whole, &matrix(100, 2, 2), 0, 1, 2).ok().unwrap();
    assert_eq!(values(&next), vec![row(0, 2), row(100, 2), row(102, 2), row(6, 2)]);
    let next = splice(&whole, &matrix(100, 4, 1), 1, 1, 1).ok().unwrap();
    assert_eq!(values(&next)[3], vec![6.0, 103.0]);
}

#[test]
fn a_part_of_another_width_does_not_fit() {
    let result = splice(&matrix(0, 4, 2), &matrix(100, 2, 3), 0, 1, 2);
    assert!(matches!(result, Err(LayerError::Shape)));
    let vector = Tensor::new(&[1.0f32, 2.0], &Device::Cpu).unwrap();
    assert!(matches!(splice(&matrix(0, 4, 2), &vector, 0, 1, 2), Err(LayerError::Shape)));
}

#[test]
fn empty_pieces_are_left_out() {
    let whole = matrix(0, 2, 2);
    let next = splice(&whole, &matrix(100, 2, 2), 0, 0, 2).ok().unwrap();
    assert_eq!(values(&next), vec![row(100, 2), row(102, 2)]);
    let nothing = matrix(0, 2, 4).narrow(0, 2, 0).unwrap().narrow(1, 2, 2).unwrap();
    let next = splice(&whole, &nothing, 0, 1, 0).ok().unwrap();
    assert_eq!(values(&next), values(&whole));
    let next = splice(&nothing, &nothing, 0, 0, 0).ok().unwrap();
    assert_eq!(next.dims(), &[0, 2]);
}

#[test]
fn a_part_of_another_type_does_not_fit() {
    let whole = matrix(0, 4, 2);
    let half = |rows: usize| matrix(100, rows, 2).to_dtype(DType::F16).unwrap();
    assert!(matches!(splice(&whole, &half(2), 0, 1, 2), Err(LayerError::Kind)));
    assert!(matches!(splice(&whole, &half(4), 0, 0, 4), Err(LayerError::Kind)));
    assert!(matches!(splice(&whole, &half(0), 0, 1, 0), Err(LayerError::Kind)));
    let wider = Tensor::zeros((2, 3), DType::F16, &Device::Cpu).unwrap();
    assert!(matches!(splice(&whole, &wider, 0, 1, 2), Err(LayerError::Shape)));
}

#[test]
fn parts_of_every_type_are_spliced_in() {
    for dtype in [
        DType::U8,
        DType::U32,
        DType::I64,
        DType::BF16,
        DType::F16,
        DType::F32,
        DType::F64,
    ] {
        let whole = matrix(0, 4, 2).to_dtype(dtype).unwrap();
        let part = matrix(100, 2, 2).to_dtype(dtype).unwrap();
        let next = splice(&whole, &part, 0, 1, 2).ok().unwrap();
        assert_eq!(next.dtype(), dtype);
        assert_eq!(
            values(&next.to_dtype(DType::F32).unwrap()),
            vec![row(0, 2), row(100, 2), row(102, 2), row(6, 2)]
        );
    }
}

/// A matrix without rows that begins behind the end of its storage.
fn adrift() -> Tensor {
    matrix(0, 2, 4).narrow(0, 2, 0).unwrap().narrow(1, 2, 2).unwrap()
}

#[test]
fn a_tensor_may_begin_behind_its_storage() {
    assert!(is_readable(&matrix(0, 2, 4)));
    assert!(is_readable(&matrix(0, 0, 4)));
    assert!(is_readable(&matrix(0, 2, 4).narrow(0, 1, 1).unwrap()));
    assert!(!is_readable(&adrift()));
}

#[test]
fn what_begins_behind_its_storage_is_not_read() {
    let mut layer = VocabParallelEmbedding::new(1, 2, 0, 1, &Device::Cpu).ok().unwrap();
    layer.num_embeddings_per_partition = 0;
    layer.vocab_end_idx = 0;
    layer.weight = adrift();
    assert!(matches!(layer.lookup(&[]), Err(LayerError::Unreadable)));
    let result = ParallelLMHead::last_hidden_states(&adrift(), &[0], &[]);
    assert!(matches!(result, Err(LayerError::Unreadable)));

    let cache = matrix(0, 2, 4).reshape((2, 4, 1, 1)).unwrap();
    let cache = cache.narrow(0, 2, 0).unwrap().narrow(1, 2, 2).unwrap();
    let result = gather_paged_kv(&cache, &cache, &[], 0, 2);
    assert!(matches!(result, Err(LayerError::Unreadable)));
    let result = gather_context(&cache, &cache, &[], 0, &[0], 2);
    assert!(matches!(result, Err(LayerError::Unreadable)));
}

#[test]
fn sizes_are_divided_evenly() {
    assert_eq!(divide(12, 4), 3);
    assert_eq!(divide(0, 4), 0);
}

#[test]
fn a_linear_layer_starts_from_zero() {
    let layer = LinearBase::new(3, 2, true, Some(1), 1, 2, &Device::Cpu).ok().unwrap();
    assert_eq!((layer.input_size, layer.output_size), (3, 2));
    assert_eq!((layer.tp_rank, layer.tp_size, layer.tp_dim), (1, 2, Some(1)));
    assert_eq!(values(&layer.weight), vec![vec![0.0; 3]; 2]);
    assert_eq!(layer.bias.unwrap().to_vec1::<f32>().unwrap(), vec![0.0; 2]);
    let plain = LinearBase::new(3, 2, false, None, 0, 1, &Device::Cpu).ok().unwrap();
    assert!(plain.bias.is_none());
}

#[test]
fn a_replicated_layer_takes_the_whole_weight() {
    let mut layer = ReplicatedLinear::new(3, 2, false, 1, 2, &Device::Cpu).ok().unwrap();
    assert_eq!(layer.base.weight.dims(), &[2, 3]);
    layer.weight_loader(matrix(1, 2, 3));
    assert_eq!(values(&layer.base.weight), vec![row(1, 3), row(4, 3)]);
}

#[test]
fn a_column_layer_takes_its_rows() {
    let whole = matrix(0, 4, 3);
    let mut rows = Vec::new();
    for rank in 0..2 {
        let mut layer = ColumnParallelLinear::new(3, 4, false, rank, 2, &Device::Cpu).ok().unwrap();
        assert_eq!(layer.base.weight.dims(), &[2, 3]);
        assert!(layer.weight_loader(whole.clone()).is_ok());
        rows.extend(values(&layer.base.weight));
    }
    assert_eq!(rows, values(&whole));
}

#[test]
fn a_row_layer_takes_its_columns() {
    let whole = matrix(0, 2, 4);
    for rank in 0..2 {
        let mut layer = RowParallelLinear::new(4, 2, true, rank, 2, &Device::Cpu).ok().unwrap();
        assert_eq!(layer.base.weight.dims(), &[2, 2]);
        assert!(layer.weight_loader(whole.clone()).is_ok());
        assert_eq!(values(&layer.base.weight), vec![row(2 * rank, 2), row(4 + 2 * rank, 2)]);
        assert_eq!(layer.adds_bias(), rank == 0);
        assert!(layer.needs_all_reduce());
    }
    let alone = RowParallelLinear::new(4, 2, false, 0, 1, &Device::Cpu).ok().unwrap();
    assert!(!alone.needs_all_reduce());
}

#[test]
fn a_weight_that_is_too_small_is_refused() {
    let mut layer = ColumnParallelLinear::new(3, 4, false, 1, 2, &Device::Cpu).ok().unwrap();
    assert!(matches!(layer.weight_loader(matrix(9, 3, 3)), Err(LayerError::Tensor(_))));
    assert_eq!(values(&layer.base.weight), vec![vec![0.0; 3]; 2]);
}

#[test]
fn merged_parts_stand_one_behind_the_other() {
    let mut layer =
        MergedColumnParallelLinear::new(2, vec![4, 4], false, 1, 2, &Device::Cpu).ok().unwrap();
    assert_eq!(layer.base.base.weight.dims(), &[4, 2]);
    assert!(layer.weight_loader(matrix(100, 4, 2), 1).is_ok());
    assert_eq!(
        values(&layer.base.base.weight),
        vec![vec![0.0; 2], vec![0.0; 2], row(104, 2), row(106, 2)]
    );
    assert!(layer.weight_loader(matrix(0, 4, 2), 0).is_ok());
    assert_eq!(
        values(&layer.base.base.weight),
        vec![row(4, 2), row(6, 2), row(104, 2), row(106, 2)]
    );
}

#[test]
fn queries_keys_and_values_stand_one_behind_the_other() {
    let mut layer =
        QKVParallelLinear::new(3, 2, 4, Some(2), false, 1, 2, &Device::Cpu).ok().unwrap();
    assert_eq!((layer.num_heads, layer.num_kv_heads), (2, 1));
    assert_eq!(layer.base.base.weight.dims(), &[8, 3]);
    assert!(layer.weight_loader(matrix(300, 4, 3), "v").is_ok());
    assert!(layer.weight_loader(matrix(100, 8, 3), "q").is_ok());
    assert!(layer.weight_loader(matrix(200, 4, 3), "k").is_ok());
    let rows = values(&layer.base.base.weight);
    assert_eq!(rows[0], row(112, 3));
    assert_eq!(rows[3], row(121, 3));
    assert_eq!(rows[4], row(206, 3));
    assert_eq!(rows[5], row(209, 3));
    assert_eq!(rows[6], row(306, 3));
    assert_eq!(rows[7], row(309, 3));
    assert!(matches!(
        layer.weight_loader(matrix(0, 4, 3), "o"),
        Err(LayerError::UnknownShard)
    ));
}

#[test]
fn parts_can_be_loaded_in_any_order() {
    let parts = [("q", matrix(100, 8, 3)), ("k", matrix(200, 4, 3)), ("v", matrix(300, 4, 3))];
    let mut weights = Vec::new();
    for order in [[0, 1, 2], [0, 2, 1], [1, 0, 2], [1, 2, 0], [2, 0, 1], [2, 1, 0]] {
        let mut layer =
            QKVParallelLinear::new(3, 2, 4, Some(2), false, 1, 2, &Device::Cpu).ok().unwrap();
        for i in order {
            assert!(layer.weight_loader(parts[i].1.clone(), parts[i].0).is_ok());
        }
        weights.push(values(&layer.base.base.weight));
    }
    assert!(weights.iter().all(|weight| *weight == weights[0]));

    let mut weights = Vec::new();
    for order in [[0, 1], [1, 0]] {
        let mut layer =
            MergedColumnParallelLinear::new(2, vec![4, 2], false, 1, 2, &Device::Cpu).ok().unwrap();
        for i in order {
            assert!(layer.weight_loader(matrix(100 * i, 4 - 2 * i, 2), i).is_ok());
        }
        weights.push(values(&layer.base.base.weight));
    }
    assert_eq!(weights[0], weights[1]);
    assert_eq!(weights[0], vec![row(4, 2), row(6, 2), row(102, 2)]);
}

#[test]
fn without_a_number_all_heads_have_keys() {
    let layer = QKVParallelLinear::new(3, 2, 4, None, true, 0, 2, &Device::Cpu).ok().unwrap();
    assert_eq!((layer.num_heads, layer.num_kv_heads), (2, 2));
    assert_eq!(layer.base.base.weight.dims(), &[12, 3]);
    assert_eq!(layer.base.base.bias.unwrap().dims(), &[12]);
}

#[test]
fn an_embedding_has_its_part_of_the_vocabulary() {
    let mut layer = VocabParallelEmbedding::new(6, 2, 1, 3, &Device::Cpu).ok().unwrap();
    assert_eq!((layer.vocab_start_idx, layer.vocab_end_idx), (2, 4));
    assert_eq!(layer.num_embeddings_per_partition, 2);
    assert!(layer.weight_loader(matrix(0, 6, 2)).is_ok());
    assert_eq!(values(&layer.weight), vec![row(4, 2), row(6, 2)]);
    assert!(matches!(layer.weight_loader(matrix(0, 3, 2)), Err(LayerError::Tensor(_))));
}

#[test]
fn each_token_is_embedded_by_one_rank() {
    for id in 0..6i64 {
        let mut found = Vec::new();
        for rank in 0..3 {
            let layer = VocabParallelEmbedding::new(6, 2, rank, 3, &Device::Cpu).ok().unwrap();
            let (local, own) = layer.local_row(id);
            if own {
                found.push((rank as i64) * 2 + local);
            } else {
                assert_eq!(local, 0);
            }
        }
        assert_eq!(found, vec![id]);
    }
}

#[test]
fn a_head_can_be_tied_to_an_embedding() {
    let mut embedding = VocabParallelEmbedding::new(4, 2, 0, 1, &Device::Cpu).ok().unwrap();
    let mut head = ParallelLMHead::new(4, 2, 0, 1, &Device::Cpu).ok().unwrap();
    assert!(embedding.weight_loader(matrix(7, 4, 2)).is_ok());
    assert!(head.weight_loader(matrix(50, 4, 2)).is_ok());
    assert_eq!(values(&head.base.weight)[0], row(50, 2));
    head.tie_weights(&embedding);
    assert_eq!(values(&head.base.weight), values(&embedding.weight));
}

#[test]
fn logits_come_from_the_last_tokens() {
    assert_eq!(ParallelLMHead::last_indices(&[0, 3, 4, 9], &[]), vec![2, 3, 8]);
    assert_eq!(ParallelLMHead::last_indices(&[0, 3, 4, 9], &[0, 2]), vec![2, 8]);
    assert!(ParallelLMHead::last_indices(&[0], &[]).is_empty());
}

#[test]
fn a_norm_starts_from_ones() {
    let mut norm = RMSNorm::new(3, 1e-6f32.to_bits(), &Device::Cpu).ok().unwrap();
    assert_eq!(norm.weight.to_vec1::<f32>().unwrap(), vec![1.0; 3]);
    assert_eq!(f32::from_bits(norm.eps), 1e-6);
    norm.weight_loader(Tensor::new(&[2.0f32, 3.0], &Device::Cpu).unwrap());
    assert_eq!(norm.weight.to_vec1::<f32>().unwrap(), vec![2.0, 3.0]);
}

#[test]
fn lengths_lie_between_the_bounds() {
    assert_eq!(seqlens(&[0, 3, 3, 10]), vec![3, 0, 7]);
    assert!(seqlens(&[0]).is_empty());
}

#[test]
fn slots_are_read_in_token_order() {
    assert_eq!(paged_slots(&[5, 2], 6, 4), vec![20, 21, 22, 23, 8, 9]);
    assert_eq!(paged_slots(&[5, 2], 4, 4), vec![20, 21, 22, 23]);
    assert_eq!(paged_slots(&[5, u32::MAX], 3, 4), vec![20, 21, 22]);
    assert_eq!(paged_slots(&[1], 9, 2), vec![2, 3]);
    assert!(paged_slots(&[5], 0, 4).is_empty());
}

#[test]
fn dimensions_of_what_is_gathered() {
    assert_eq!(stacked_dims(&[3, 5], 2), vec![6, 5]);
    assert_eq!(gathered_dims(&[3, 5], 2), Some(vec![2, 3, 5]));
    assert_eq!(gathered_dims(&[3, 4, 5], 2), Some(vec![2, 12, 5]));
    assert_eq!(gathered_dims(&[5], 2), Some(vec![2, 1, 5]));
    assert_eq!(gathered_dims(&[usize::MAX, 2, 5], 2), None);
    assert_eq!(concat_dims(&[3, 5], 2), vec![3, 10]);
}

/// The shards of a tensor along its last dimension, put together again.
fn gather(whole: &Tensor, ranks: usize) -> Tensor {
    let last = whole.rank() - 1;
    let columns = whole.dims()[last] / ranks;
    let shards: Vec<Tensor> =
        (0..ranks).map(|r| whole.narrow(last, columns * r, columns).unwrap()).collect();
    let dims = shards[0].dims().to_vec();
    let stacked = Tensor::cat(&shards, 0).unwrap();
    assert_eq!(stacked.dims(), stacked_dims(&dims, ranks).as_slice());
    let gathered = stacked.reshape(gathered_dims(&dims, ranks).unwrap()).unwrap();
    let turned = gathered.transpose(0, 1).unwrap().contiguous().unwrap();
    turned.reshape(concat_dims(&dims, ranks)).unwrap()
}

#[test]
fn gathering_puts_shards_side_by_side() {
    let whole = matrix(0, 3, 4);
    assert_eq!(values(&gather(&whole, 2)), values(&whole));
    let whole = matrix(0, 6, 6).reshape((2, 3, 6)).unwrap();
    let joined = gather(&whole, 3);
    assert_eq!(joined.dims(), &[2, 3, 6]);
    assert_eq!(joined.to_vec3::<f32>().unwrap(), whole.to_vec3::<f32>().unwrap());
    let whole = Tensor::new(&[1.0f32, 2.0, 3.0, 4.0], &Device::Cpu).unwrap();
    assert_eq!(gather(&whole, 2).to_vec1::<f32>().unwrap(), vec![1.0, 2.0, 3.0, 4.0]);
}

#[test]
fn rows_are_stored_slot_by_slot() {
    assert_eq!(
        plan_store(true, &[10, 256, 8, 128], &[7, 8, 128]),
        Ok(Some(StorePlan { num_tokens: 7, width: 1024, threads: 1024 }))
    );
    assert_eq!(
        plan_store(true, &[10, 256, 2, 3], &[7, 2, 3]),
        Ok(Some(StorePlan { num_tokens: 7, width: 6, threads: 6 }))
    );
    assert_eq!(plan_store(true, &[10, 256, 2, 3], &[0, 2, 3]), Ok(None));
    assert_eq!(
        plan_store(true, &[10, 256, 2, 3], &[7, 2, 4]),
        Err(StoreError::WidthMismatch)
    );
    assert_eq!(
        plan_store(false, &[10, 256, 2, 3], &[7, 2, 3]),
        Err(StoreError::NotContiguous)
    );
}

#[test]
fn products_of_dimensions() {
    assert_eq!(product(&[2, 3, 4], 0), Some(24));
    assert_eq!(product(&[2, 3, 4], 1), Some(12));
    assert_eq!(product(&[2, 3, 4], 3), Some(1));
    assert_eq!(product(&[usize::MAX, 2], 0), None);
}

/// A cache of blocks with two slots, one head and two numbers to a slot: slot `i` holds
/// `first + 2 * i` and the number after it.
fn cache(first: usize, blocks: usize) -> Tensor {
    matrix(first, blocks * 2, 2).reshape((blocks, 2, 1, 2)).unwrap()
}

fn tokens(part: &Tensor) -> Vec<Vec<f32>> {
    let all: Vec<Vec<Vec<f32>>> = part.to_vec3().unwrap();
    all.into_iter().map(|heads| heads[0].clone()).collect()
}

#[test]
fn keys_and_values_are_gathered_in_token_order() {
    let (k, v) = gather_paged_kv(&cache(0, 3), &cache(100, 3), &[2, 0], 3, 2).ok().unwrap();
    assert_eq!(k.dims(), &[3, 1, 2]);
    assert_eq!(tokens(&k), vec![row(8, 2), row(10, 2), row(0, 2)]);
    assert_eq!(tokens(&v), vec![row(108, 2), row(110, 2), row(100, 2)]);
}

#[test]
fn what_was_stored_is_gathered() {
    let before = cache(0, 3);
    let rows = matrix(500, 3, 2);
    let slots = [4, 1, 5];
    let mut data: Vec<Vec<f32>> = values(&before.reshape((6, 2)).unwrap());
    for (t, &slot) in slots.iter().enumerate() {
        data[slot] = values(&rows)[t].clone();
    }
    let after = Tensor::new(data, &Device::Cpu).unwrap().reshape((3, 2, 1, 2)).unwrap();
    let (k, _) = gather_paged_kv(&after, &after, &[2, 0], 4, 2).ok().unwrap();
    assert_eq!(tokens(&k), vec![row(500, 2), row(504, 2), row(0, 2), row(502, 2)]);
}

#[test]
fn a_cache_that_is_laid_out_otherwise_is_gathered_too() {
    let turned = matrix(0, 2, 6).reshape((2, 3, 2, 1)).unwrap().transpose(0, 2).unwrap();
    assert_eq!(turned.dims(), &[2, 3, 2, 1]);
    let (k, _) = gather_paged_kv(&turned, &turned, &[1], 2, 3).ok().unwrap();
    assert_eq!(k.to_vec3::<f32>().unwrap(), vec![
        vec![vec![1.0], vec![7.0]],
        vec![vec![3.0], vec![9.0]],
    ]);
}

#[test]
fn padding_behind_the_last_block_is_not_read() {
    let (k, _) = gather_paged_kv(&cache(0, 2), &cache(0, 2), &[1, u32::MAX], 2, 2).ok().unwrap();
    assert_eq!(tokens(&k), vec![row(4, 2), row(6, 2)]);
    let (k, _) = gather_paged_kv(&cache(0, 2), &cache(0, 2), &[1], 0, 2).ok().unwrap();
    assert_eq!(k.dims(), &[0, 1, 2]);
}

#[test]
fn a_block_that_is_not_in_the_cache_is_refused() {
    let result = gather_paged_kv(&cache(0, 2), &cache(0, 2), &[1, 2], 3, 2);
    assert!(matches!(result, Err(LayerError::Tensor(_))));
}

#[test]
fn a_cache_without_heads_is_refused() {
    let empty = matrix(0, 0, 2).reshape((2, 2, 0, 2)).unwrap();
    let result = gather_paged_kv(&empty, &empty, &[0], 1, 2);
    assert!(matches!(result, Err(LayerError::Tensor(_))));
}

#[test]
fn tokens_are_looked_up() {
    let mut layer = VocabParallelEmbedding::new(4, 2, 0, 1, &Device::Cpu).ok().unwrap();
    assert!(layer.weight_loader(matrix(10, 4, 2)).is_ok());
    let (y, own) = layer.lookup(&[3, 0, 3]).ok().unwrap();
    assert_eq!(values(&y), vec![row(16, 2), row(10, 2), row(16, 2)]);
    assert_eq!(own, vec![true, true, true]);
    assert!(matches!(layer.lookup(&[4]), Err(LayerError::Tensor(_))));
    assert!(matches!(layer.lookup(&[-1]), Err(LayerError::Tensor(_))));
}

#[test]
fn tokens_are_looked_up_in_weights_of_half_the_size() {
    for dtype in [DType::F16, DType::BF16] {
        let mut layer = VocabParallelEmbedding::new(4, 2, 0, 1, &Device::Cpu).ok().unwrap();
        assert!(layer.weight_loader(matrix(10, 4, 2).to_dtype(dtype).unwrap()).is_ok());
        let (y, own) = layer.lookup(&[3, 0]).ok().unwrap();
        assert_eq!(y.dtype(), dtype);
        let y = y.to_dtype(DType::F32).unwrap();
        assert_eq!(values(&y), vec![row(16, 2), row(10, 2)]);
        assert_eq!(own, vec![true, true]);
    }
}

#[test]
fn caches_of_half_the_size_are_gathered() {
    for dtype in [DType::F16, DType::BF16] {
        let half = |first: usize| cache(first, 3).to_dtype(dtype).unwrap();
        let (k, v) = gather_paged_kv(&half(0), &half(100), &[2, 0], 3, 2).ok().unwrap();
        assert_eq!(k.dtype(), dtype);
        let (k, v) = (k.to_dtype(DType::F32).unwrap(), v.to_dtype(DType::F32).unwrap());
        assert_eq!(tokens(&k), vec![row(8, 2), row(10, 2), row(0, 2)]);
        assert_eq!(tokens(&v), vec![row(108, 2), row(110, 2), row(100, 2)]);
    }
}

#[test]
fn elements_of_every_full_type_are_moved() {
    for dtype in [
        DType::U8,
        DType::U32,
        DType::I16,
        DType::I32,
        DType::I64,
        DType::BF16,
        DType::F16,
        DType::F32,
        DType::F64,
        DType::F8E4M3,
    ] {
        let zeros = |rows: usize| Tensor::zeros((rows, 2), dtype, &Device::Cpu).unwrap();
        let next = splice(&zeros(4), &zeros(2), 0, 1, 2).ok().unwrap();
        assert_eq!((next.dims(), next.dtype()), (&[4, 2][..], dtype));
        let mut layer = VocabParallelEmbedding::new(4, 2, 0, 1, &Device::Cpu).ok().unwrap();
        assert!(layer.weight_loader(zeros(4)).is_ok());
        assert_eq!(layer.lookup(&[3, 0]).ok().unwrap().0.dtype(), dtype);
        let cached = Tensor::zeros((3, 2, 1, 2), dtype, &Device::Cpu).unwrap();
        let (k, v) = gather_paged_kv(&cached, &cached, &[2, 0], 3, 2).ok().unwrap();
        assert_eq!((k.dims(), v.dtype()), (&[3, 1, 2][..], dtype));
    }
}

#[test]
fn each_token_finds_its_row_on_its_rank() {
    let whole = matrix(0, 6, 2);
    for rank in 0..3 {
        let mut layer = VocabParallelEmbedding::new(6, 2, rank, 3, &Device::Cpu).ok().unwrap();
        assert!(layer.weight_loader(whole.clone()).is_ok());
        let ids: Vec<i64> = (0..6).collect();
        let (y, own) = layer.lookup(&ids).ok().unwrap();
        for (id, own) in own.into_iter().enumerate() {
            assert_eq!(own, id / 2 == rank);
            let expected = if own { id } else { rank * 2 };
            assert_eq!(values(&y)[id], values(&whole)[expected]);
        }
    }
}

#[test]
fn the_head_sees_the_last_tokens() {
    let x = matrix(0, 9, 2);
    let last = ParallelLMHead::last_hidden_states(&x, &[0, 3, 4, 9], &[]).ok().unwrap();
    assert_eq!(values(&last), vec![row(4, 2), row(6, 2), row(16, 2)]);
    let last = ParallelLMHead::last_hidden_states(&x, &[0, 3, 4, 9], &[2]).ok().unwrap();
    assert_eq!(values(&last), vec![row(16, 2)]);
    let result = ParallelLMHead::last_hidden_states(&x, &[0, 3, 10], &[]);
    assert!(matches!(result, Err(LayerError::Tensor(_))));
}

#[test]
fn sequences_are_gathered_one_after_the_other() {
    let tables = [2, 0, 1, u32::MAX];
    let (k, v) = gather_context(&cache(0, 3), &cache(50, 3), &tables, 2, &[3, 2], 2).ok().unwrap();
    assert_eq!(k.dims(), &[5, 1, 2]);
    assert_eq!(tokens(&k), vec![row(8, 2), row(10, 2), row(0, 2), row(4, 2), row(6, 2)]);
    assert_eq!(tokens(&v)[4], row(56, 2));
    let (k, _) = gather_context(&cache(0, 3), &cache(0, 3), &[1, 2], 2, &[1], 2).ok().unwrap();
    assert_eq!(tokens(&k), vec![row(4, 2)]);
}

#[test]
fn without_sequences_nothing_is_gathered() {
    let result = gather_context(&cache(0, 3), &cache(0, 3), &[], 2, &[], 2);
    assert!(matches!(result, Err(LayerError::Tensor(_))));
}

#[test]
fn a_sequence_with_a_foreign_block_is_refused() {
    let result = gather_context(&cache(0, 3), &cache(0, 3), &[0, 1, 3, 0], 2, &[3, 1], 2);
    assert!(matches!(result, Err(LayerError::Tensor(_))));
}
