//! Where each number of a whole weight ends up in the shard of a rank.
use crate::layers::embed_head::VocabParallelEmbedding;
use crate::layers::linear;
use crate::layers::linear::{LinearBase, MergedColumnParallelLinear, QKVParallelLinear};
use crate::layers::tensor;
use candle_core::Tensor;
use vstd::prelude::*;

verus! {

/// The number in row `r` and column `c` of a matrix.
pub open spec fn at(matrix: Tensor, r: int, c: int) -> u64 {
    tensor::elements(matrix)[seq![r as usize, c as usize]]
}

/// `(r, c)` is a place in a matrix.
pub open spec fn has_place(matrix: Tensor, r: int, c: int) -> bool {
    &&& tensor::dims(matrix).len() == 2
    &&& 0 <= r < tensor::dims(matrix)[0]
    &&& 0 <= c < tensor::dims(matrix)[1]
}

proof fn lemma_slice(part: Tensor, whole: Tensor, d: int, start: int, len: int, r: int, c: int)
    requires
        tensor::is_slice(part, whole, d, start, len),
        0 <= start,
        0 <= len <= usize::MAX,
        d == 0 || d == 1,
        has_place(part, r, c),
    ensures
        d == 0 ==> at(part, r, c) == at(whole, start + r, c),
        d == 1 ==> at(part, r, c) == at(whole, r, start + c),
{
    let index = seq![r as usize, c as usize];
    assert(tensor::in_range(index, tensor::dims(part)));
    assert(tensor::elements(part)[index] == tensor::elements(whole)[index.update(
        d,
        (index[d] + start) as usize,
    )]);
    if d == 0 {
        assert(index.update(0, (r + start) as usize) =~= seq![(start + r) as usize, c as usize]);
    } else {
        assert(index.update(1, (c + start) as usize) =~= seq![r as usize, (start + c) as usize]);
    }
}

/// A rank that takes its rows of a whole weight, as many as it has, has those behind the rows of
/// all ranks before it. It can take them where there are so many, and is left alone where not.
pub proof fn a_rank_takes_its_rows(
    after: LinearBase,
    before: LinearBase,
    whole: Tensor,
    success: bool,
    r: int,
    c: int,
)
    requires
        after.loaded_shard(before, whole, 0, success),
        has_place(before.weight, r, 0),
    ensures
        ({
            let rows = tensor::dims(before.weight)[0];
            &&& success <==> tensor::dims(whole).len() > 0 && (before.tp_rank + 1) * rows
                <= tensor::dims(whole)[0]
            &&& !success ==> after == before
            &&& success && tensor::dims(whole).len() == 2 ==> tensor::dims(after.weight)[0] == rows
            &&& success && has_place(after.weight, r, c) ==> at(after.weight, r, c) == at(
                whole,
                before.tp_rank * rows + r,
                c,
            )
        }),
{
    let rows = tensor::dims(before.weight)[0] as int;
    let rank = before.tp_rank as int;
    assert((rank + 1) * rows == rank * rows + rows && rank * rows >= 0) by (nonlinear_arith)
        requires
            rank >= 0,
            rows >= 0,
    ;
    if success && has_place(after.weight, r, c) {
        lemma_slice(after.weight, whole, 0, rank * rows, rows, r, c);
    }
}

/// A rank that takes its columns of a whole weight, as many as it has, has those behind the columns
/// of all ranks before it.
pub proof fn a_rank_takes_its_columns(
    after: LinearBase,
    before: LinearBase,
    whole: Tensor,
    success: bool,
    r: int,
    c: int,
)
    requires
        after.loaded_shard(before, whole, 1, success),
        has_place(before.weight, 0, c),
    ensures
        ({
            let columns = tensor::dims(before.weight)[1];
            &&& success <==> tensor::dims(whole).len() > 1 && (before.tp_rank + 1) * columns
                <= tensor::dims(whole)[1]
            &&& !success ==> after == before
            &&& success && tensor::dims(whole).len() == 2 ==> tensor::dims(after.weight)[1]
                == columns
            &&& success && has_place(after.weight, r, c) ==> at(after.weight, r, c) == at(
                whole,
                r,
                before.tp_rank * columns + c,
            )
        }),
{
    let columns = tensor::dims(before.weight)[1] as int;
    let rank = before.tp_rank as int;
    assert((rank + 1) * columns == rank * columns + columns && rank * columns >= 0)
        by (nonlinear_arith)
        requires
            rank >= 0,
            columns >= 0,
    ;
    if success && has_place(after.weight, r, c) {
        lemma_slice(after.weight, whole, 1, rank * columns, columns, r, c);
    }
}

/// A part that is put in its place: its rows are this rank's, and all others are as they were.
proof fn lemma_part(
    after: LinearBase,
    before: LinearBase,
    whole: Tensor,
    offset: int,
    size: int,
    r: int,
    c: int,
)
    requires
        after.loaded_part(before, whole, 0, offset, size, true),
        0 <= size <= usize::MAX,
        has_place(before.weight, r, c),
    ensures
        has_place(after.weight, r, c),
        offset <= r < offset + size ==> at(after.weight, r, c) == at(
            whole,
            before.tp_rank * size + (r - offset),
            c,
        ),
        !(offset <= r < offset + size) ==> at(after.weight, r, c) == at(before.weight, r, c),
{
    let start = before.tp_rank * size;
    let part = choose|part: Tensor|
        tensor::is_slice(part, whole, 0, start, size) && #[trigger] tensor::is_spliced(
            after.weight,
            before.weight,
            part,
            0,
            offset,
        );
    let index = seq![r as usize, c as usize];
    assert(tensor::in_range(index, tensor::dims(after.weight)));
    assert(tensor::elements(after.weight)[index] == tensor::elements(after.weight)[index]);
    assert(start >= 0) by (nonlinear_arith)
        requires
            start == before.tp_rank * size,
            size >= 0,
    ;
    assert(tensor::dims(part)[0] == size);
    if offset <= r < offset + size {
        assert(index.update(0, (r - offset) as usize) =~= seq![(r - offset) as usize, c as usize]);
        lemma_slice(part, whole, 0, start, size, r - offset, c);
    }
}

/// A fused layer that takes the queries has, for each of its heads, the rows of the head that is
/// its own among all ranks'; and likewise with the keys, which stand behind the queries, and the
/// values, which stand behind the keys. Each load leaves the two others alone.
pub proof fn heads_stand_in_their_places(
    after: QKVParallelLinear,
    before: QKVParallelLinear,
    whole: Tensor,
    h: int,
    e: int,
    r: int,
    c: int,
)
    requires
        before.wf(),
        0 <= h,
        0 <= e < before.head_size,
        has_place(before.base.base.weight, r, c),
    ensures
        ({
            let rank = before.base.base.tp_rank;
            let each = before.head_size as int;
            let weight = after.base.base.weight;
            let old_weight = before.base.base.weight;
            let keys = before.num_heads * each;
            let values = (before.num_heads + before.num_kv_heads) * each;
            &&& after.loaded(before, whole, "q"@, true) ==> {
                &&& h < before.num_heads && r == h * each + e ==> at(weight, r, c) == at(
                    whole,
                    (rank * before.num_heads + h) * each + e,
                    c,
                )
                &&& r >= keys ==> at(weight, r, c) == at(old_weight, r, c)
            }
            &&& after.loaded(before, whole, "k"@, true) ==> {
                &&& h < before.num_kv_heads && r == keys + h * each + e ==> at(weight, r, c) == at(
                    whole,
                    (rank * before.num_kv_heads + h) * each + e,
                    c,
                )
                &&& r < keys || r >= values ==> at(weight, r, c) == at(old_weight, r, c)
            }
            &&& after.loaded(before, whole, "v"@, true) ==> {
                &&& h < before.num_kv_heads && r == values + h * each + e ==> at(weight, r, c)
                    == at(whole, (rank * before.num_kv_heads + h) * each + e, c)
                &&& r < values ==> at(weight, r, c) == at(old_weight, r, c)
            }
        }),
{
    let rank = before.base.base.tp_rank as int;
    let each = before.head_size as int;
    let heads = before.num_heads as int;
    let kv = before.num_kv_heads as int;
    let q_size = before.q_size();
    let kv_size = before.kv_size();
    assert(q_size >= 0 && kv_size >= 0 && (heads + kv) * each == q_size + kv_size)
        by (nonlinear_arith)
        requires
            q_size == heads * each,
            kv_size == kv * each,
            heads >= 0,
            kv >= 0,
            each >= 0,
    ;
    linear::qkv_parts_fit_together(q_size, kv_size);
    lemma_head(rank, heads, each, h, e);
    lemma_head(rank, kv, each, h, e);
    if after.loaded(before, whole, "q"@, true) {
        lemma_part(after.base.base, before.base.base, whole, 0, q_size, r, c);
    }
    if after.loaded(before, whole, "k"@, true) {
        lemma_part(after.base.base, before.base.base, whole, q_size, kv_size, r, c);
    }
    if after.loaded(before, whole, "v"@, true) {
        lemma_part(after.base.base, before.base.base, whole, q_size + kv_size, kv_size, r, c);
    }
}

proof fn lemma_head(rank: int, heads: int, each: int, h: int, e: int)
    requires
        0 <= h,
        0 <= e < each,
    ensures
        rank * (heads * each) + (h * each + e) == (rank * heads + h) * each + e,
        h < heads ==> h * each + e < heads * each,
        0 <= h * each + e,
{
    assert(rank * (heads * each) + h * each == (rank * heads + h) * each) by (nonlinear_arith);
    assert(0 <= h * each) by (nonlinear_arith)
        requires
            h >= 0,
            each >= 0,
    ;
    if h < heads {
        assert(h * each + each <= heads * each) by (nonlinear_arith)
            requires
                h + 1 <= heads,
                each >= 0,
        ;
    }
}

/// A layer for two outputs of equal size that takes the first has this rank's share of it in its
/// upper half, and one that takes the second has its share in the lower half. The other half is
/// left alone.
pub proof fn halves_stand_in_their_places(
    after: MergedColumnParallelLinear,
    before: MergedColumnParallelLinear,
    whole: Tensor,
    total: usize,
    share: int,
    r: int,
    c: int,
)
    requires
        before.wf(),
        before.output_sizes@ == seq![total, total],
        share * before.base.base.tp_size == total,
        has_place(before.base.base.weight, r, c),
    ensures
        ({
            let rank = before.base.base.tp_rank;
            let weight = after.base.base.weight;
            let old_weight = before.base.base.weight;
            &&& after.loaded(before, whole, 0, true) ==> at(weight, r, c) == if r < share {
                at(whole, rank * share + r, c)
            } else {
                at(old_weight, r, c)
            }
            &&& after.loaded(before, whole, 1, true) ==> at(weight, r, c) == if r < share {
                at(old_weight, r, c)
            } else {
                at(whole, rank * share + (r - share), c)
            }
        }),
{
    let sizes = before.output_sizes@;
    let n = before.base.base.tp_size as int;
    assert(linear::sum_of(sizes, 0) == 0);
    assert(linear::sum_of(sizes, 1) == total);
    assert(linear::sum_of(sizes, 2) == 2 * total);
    assert(total as int / n == share && (2 * total) / n == 2 * share && 0int / n == 0 && 0 <= share
        <= total) by (nonlinear_arith)
        requires
            share * n == total,
            n > 0,
            total >= 0,
    ;
    assert(before.offset_of(0) == 0 && before.size_of(0) == share);
    assert(before.offset_of(1) == share && before.size_of(1) == share);
    if after.loaded(before, whole, 0, true) {
        lemma_part(after.base.base, before.base.base, whole, 0, share, r, c);
    }
    if after.loaded(before, whole, 1, true) {
        lemma_part(after.base.base, before.base.base, whole, share, share, r, c);
    }
}

/// The parts of a merged layer follow each other without a gap, where each can be shared out among
/// the ranks, and fill the weight.
pub proof fn merged_parts_leave_no_gap(layer: MergedColumnParallelLinear, i: int)
    requires
        layer.wf(),
        0 <= i < layer.output_sizes@.len(),
        forall|k: int|
            0 <= k < layer.output_sizes@.len() ==> (#[trigger] layer.output_sizes@[k]) as int
                % layer.base.base.tp_size as int == 0,
    ensures
        layer.offset_of(0) == 0,
        layer.offset_of(i + 1) == layer.offset_of(i) + layer.size_of(i),
        layer.size_of(i) * layer.base.base.tp_size == layer.output_sizes@[i],
        layer.offset_of(layer.output_sizes@.len() as int) == tensor::dims(
            layer.base.base.weight,
        )[0],
{
    let sizes = layer.output_sizes@;
    let n = layer.base.base.tp_size as int;
    lemma_shared_out(sizes, n, i);
    let a = linear::sum_of(sizes, i);
    let b = sizes[i] as int;
    assert((a + b) / n == a / n + b / n && (b / n) * n == b && 0int / n == 0) by (nonlinear_arith)
        requires
            a % n == 0,
            b % n == 0,
            n > 0,
    ;
}

proof fn lemma_shared_out(sizes: Seq<usize>, n: int, i: int)
    requires
        n > 0,
        0 <= i <= sizes.len(),
        forall|k: int| 0 <= k < sizes.len() ==> (#[trigger] sizes[k]) as int % n == 0,
    ensures
        linear::sum_of(sizes, i) % n == 0,
    decreases i,
{
    if i > 0 {
        lemma_shared_out(sizes, n, i - 1);
        let a = linear::sum_of(sizes, i - 1);
        let b = sizes[i - 1] as int;
        assert(b % n == 0);
        vstd::arithmetic::div_mod::lemma_add_mod_noop(a, b, n);
        assert(linear::sum_of(sizes, i) == a + b);
        assert(0int % n == 0) by (nonlinear_arith)
            requires
                n > 0,
        ;
    } else {
        assert(0int % n == 0) by (nonlinear_arith)
            requires
                n > 0,
        ;
    }
}

/// A rank takes the rows of its own part of the vocabulary, where there are rows for all of it.
pub proof fn a_rank_takes_the_rows_of_its_tokens(
    after: VocabParallelEmbedding,
    before: VocabParallelEmbedding,
    whole: Tensor,
    success: bool,
    r: int,
    c: int,
)
    requires
        before.wf(),
        after.loaded_rows(before, whole, success),
    ensures
        ({
            let each = before.num_embeddings_per_partition;
            &&& success <==> tensor::dims(whole).len() > 0 && (before.tp_rank + 1) * each
                <= tensor::dims(whole)[0]
            &&& !success ==> after == before
            &&& success && has_place(after.weight, r, c) ==> r < each && at(after.weight, r, c)
                == at(whole, before.tp_rank * each + r, c)
        }),
{
    let each = before.num_embeddings_per_partition as int;
    let rank = before.tp_rank as int;
    assert((rank + 1) * each == each * rank + each && rank * each == each * rank && each * rank
        >= 0) by (nonlinear_arith)
        requires
            rank >= 0,
            each >= 0,
    ;
    if success && has_place(after.weight, r, c) {
        lemma_slice(after.weight, whole, 0, each * rank, each, r, c);
    }
}

} // verus!
