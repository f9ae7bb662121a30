//! How the elements of a tensor are counted, and which of its rows the head reads.
use crate::engine::layout_laws;
use crate::engine::model_runner;
use crate::engine::model_runner::ModelRunner;
use crate::engine::sequence::SeqView;
use crate::layers::attention;
use crate::layers::dist_util;
use crate::layers::embed_head;
use crate::layers::kv_cache;
use crate::utils::dtype;
use crate::utils::dtype::ElementType;
use vstd::prelude::*;

verus! {

proof fn lemma_product_skips(dims: Seq<usize>, i: int)
    requires
        0 <= i <= dims.len(),
    ensures
        kv_cache::product_from(dims, i) == kv_cache::product_from(dims.skip(i), 0),
    decreases dims.len() - i,
{
    let rest = dims.skip(i);
    if i < dims.len() {
        lemma_product_skips(dims, i + 1);
        lemma_product_skips(rest, 1);
        assert(rest.skip(1) =~= dims.skip(i + 1));
        assert(rest[0] == dims[i]);
    }
}

/// Products of dimensions multiply: that of two lists is the product of both, one dimension alone
/// is itself, and none is one. From a place on, the product is that of the rest.
pub proof fn products_multiply(some: Seq<usize>, others: Seq<usize>, dim: usize)
    ensures
        kv_cache::product_from(some + others, 0) == kv_cache::product_from(some, 0)
            * kv_cache::product_from(others, 0),
        kv_cache::product_from(some + others, some.len() as int) == kv_cache::product_from(
            others,
            0,
        ),
        kv_cache::product_from(seq![dim], 0) == dim,
        kv_cache::product_from(Seq::empty(), 0) == 1,
    decreases some.len(),
{
    let all = some + others;
    assert(kv_cache::product_from(seq![dim], 1) == 1);
    lemma_product_skips(all, some.len() as int);
    assert(all.skip(some.len() as int) =~= others);
    if some.len() == 0 {
        assert(all =~= others);
        assert(kv_cache::product_from(some, 0) == 1);
    } else {
        let rest = some.skip(1);
        products_multiply(rest, others, dim);
        lemma_product_skips(all, 1);
        lemma_product_skips(some, 1);
        assert(all.skip(1) =~= rest + others);
        let a = some[0] as int;
        let b = kv_cache::product_from(rest, 0);
        let c = kv_cache::product_from(others, 0);
        assert(a * (b * c) == (a * b) * c) by (nonlinear_arith);
    }
}

/// The elements of a tensor are counted alike: two lists of dimensions multiply, one dimension alone
/// counts as itself, and none as one.
pub proof fn counts_multiply(some: Seq<usize>, others: Seq<usize>, dim: usize)
    ensures
        dist_util::count(some + others) == dist_util::count(some) * dist_util::count(others),
        dist_util::count(seq![dim]) == dim,
        dist_util::count(Seq::empty()) == 1,
    decreases others.len(),
{
    let all = some + others;
    assert(seq![dim].drop_last() =~= Seq::empty());
    assert(dist_util::count(seq![dim].drop_last()) == 1);
    if others.len() == 0 {
        assert(all =~= some);
    } else {
        counts_multiply(some, others.drop_last(), dim);
        assert(all.drop_last() =~= some + others.drop_last());
        let a = dist_util::count(some);
        let b = dist_util::count(others.drop_last());
        let c = others.last() as int;
        assert((a * b) * c == a * (b * c)) by (nonlinear_arith);
    }
}

/// The blocks of all ranks together hold, for every layer and every slot, a key and a value for each
/// head of the model.
pub proof fn the_ranks_share_the_heads(runner: ModelRunner, dtype_bytes: usize)
    requires
        runner.engine_config.tensor_parallel_size > 0,
        runner.config.num_key_value_heads as int
            % runner.engine_config.tensor_parallel_size as int == 0,
    ensures
        ({
            let layers = runner.config.num_hidden_layers as int;
            let slots = runner.engine_config.kvcache_block_size as int;
            let numbers = runner.config.num_key_value_heads * runner.config.head_dim;
            runner.spec_block_bytes(dtype_bytes) * runner.engine_config.tensor_parallel_size
                == layers * (slots * ((numbers + numbers) * dtype_bytes))
        }),
{
    let layers = runner.config.num_hidden_layers as int;
    let slots = runner.engine_config.kvcache_block_size as int;
    let n = runner.engine_config.tensor_parallel_size as int;
    let heads = runner.config.num_key_value_heads as int;
    let own = runner.spec_kv_heads();
    let dim = runner.config.head_dim as int;
    let bytes = dtype_bytes as int;
    assert(own * n == heads) by (nonlinear_arith)
        requires
            own == heads / n,
            heads % n == 0,
            n > 0,
    ;
    let one = own * dim * bytes;
    assert(2 * layers * slots * own * dim * bytes == 2 * layers * slots * one) by (nonlinear_arith)
        requires
            one == own * dim * bytes,
    ;
    assert(one * n == heads * dim * bytes) by (nonlinear_arith)
        requires
            one == own * dim * bytes,
            own * n == heads,
    ;
    let all = heads * dim * bytes;
    assert(2 * layers * slots * one * n == 2 * layers * slots * all) by (nonlinear_arith)
        requires
            one * n == all,
    ;
    assert((heads * dim + heads * dim) * bytes == all + all) by (nonlinear_arith)
        requires
            all == heads * dim * bytes,
    ;
    assert(layers * (slots * (all + all)) == 2 * layers * slots * all) by (nonlinear_arith);
}

/// A type takes as many bytes in a checkpoint as its numbers have, by the name that torch has for it.
pub proof fn names_tell_the_bytes(dtype: ElementType)
    ensures
        model_runner::itemsize_of(dtype.torch_name()) matches Some(bytes) && bytes * 8
            == dtype.width(),
{
    reveal_strlit("float64");
    reveal_strlit("int64");
    reveal_strlit("float32");
    reveal_strlit("int32");
    reveal_strlit("float16");
    reveal_strlit("bfloat16");
    reveal_strlit("uint8");
    reveal_strlit("int8");
    assert("float64"@[5] == '6' && "float32"@[5] == '3' && "float16"@[5] == '1');
    assert("int64"@[3] == '6' && "int32"@[3] == '3' && "uint8"@[0] == 'u' && "int8"@.len() == 4);
    assert("bfloat16"@[0] == 'b' && "float16"@[0] == 'f' && "uint8"@.len() == 5);
    assert("int64"@.len() == 5 && "int32"@.len() == 5 && "float16"@.len() == 7 && "bfloat16"@.len()
        == 8);
}

/// The name of a type tells its kind too, but for the unsigned type that torch takes for a signed
/// one: the numbers of a type whose name starts with an `f` are floats, and so on.
pub proof fn names_tell_the_kind(dtype: ElementType)
    ensures
        dtype.code() == dtype::K_DL_FLOAT <==> dtype.torch_name()[0] == 'f',
        dtype.code() == dtype::K_DL_BFLOAT <==> dtype.torch_name()[0] == 'b',
        dtype.torch_name()[0] == 'u' ==> dtype.code() == dtype::K_DL_UINT,
        dtype.torch_name()[0] == 'i' && dtype != ElementType::U32 ==> dtype.code()
            == dtype::K_DL_INT,
        dtype == ElementType::U32 ==> dtype.code() == dtype::K_DL_UINT && dtype.torch_name()
            == "int32"@,
{
    reveal_strlit("float64");
    reveal_strlit("int64");
    reveal_strlit("float32");
    reveal_strlit("int32");
    reveal_strlit("float16");
    reveal_strlit("bfloat16");
    reveal_strlit("uint8");
}

/// The head reads, for each sequence that a token is drawn for, the row of the last token in its
/// context; where nobody is named, that of every sequence.
pub proof fn the_head_reads_the_last_tokens(
    seqs: Seq<SeqView>,
    size: nat,
    bounds: Seq<u32>,
    rows: Seq<u32>,
    k: int,
)
    requires
        model_runner::can_run_all(seqs, size),
        bounds.len() == seqs.len() + 1,
        forall|i: int|
            0 <= i < bounds.len() ==> (#[trigger] bounds[i]) == model_runner::step_context(
                seqs,
            ).cu_seqlens_q->0[i],
        forall|i: int| 0 <= i < rows.len() ==> (#[trigger] rows[i]) < seqs.len(),
        0 <= k < (if rows.len() == 0 {
            seqs.len()
        } else {
            rows.len()
        }),
        seqs[if rows.len() == 0 {
            k
        } else {
            rows[k] as int
        }].num_new > 0,
    ensures
        ({
            let seq = seqs[if rows.len() == 0 {
                k
            } else {
                rows[k] as int
            }];
            let read = embed_head::head_rows(bounds, rows);
            &&& read.len() == if rows.len() == 0 {
                seqs.len()
            } else {
                rows.len()
            }
            &&& read[k] < model_runner::all_ids(seqs).len()
            &&& model_runner::all_ids(seqs)[read[k] as int] == seq.tokens[seq.num_cached
                + seq.num_new - 1]
            &&& model_runner::all_positions(seqs)[read[k] as int] == seq.num_cached + seq.num_new
                - 1
        }),
{
    let j = if rows.len() == 0 {
        k
    } else {
        rows[k] as int
    };
    layout_laws::each_new_token_stands_at_its_place(seqs, size, j, seqs[j].num_new - 1);
    layout_laws::bounds_count_the_tokens(seqs, size, j);
    assert(bounds[j] == model_runner::step_context(seqs).cu_seqlens_q->0[j]);
    assert(bounds[j + 1] == model_runner::step_context(seqs).cu_seqlens_q->0[j + 1]);
}

/// What is gathered for the sequences of a step stands one behind the other, each with all its
/// tokens in context: sequence `i` begins where the bounds of the step say.
pub proof fn contexts_follow_each_other(
    seqs: Seq<SeqView>,
    size: nat,
    lens: Seq<u32>,
    width: int,
    i: int,
)
    requires
        model_runner::can_run_all(seqs, size),
        lens.len() == seqs.len(),
        forall|j: int| 0 <= j < seqs.len() ==> (#[trigger] lens[j]) == seqs[j].context(),
        forall|j: int| 0 <= j < seqs.len() ==> (#[trigger] lens[j]) <= width * size,
        0 <= i <= seqs.len(),
        seqs.len() > 0,
    ensures
        attention::tokens_before(lens, width, size as int, i) == model_runner::step_context(
            seqs,
        ).cu_seqlens_k->0[i],
    decreases i,
{
    if i > 0 {
        contexts_follow_each_other(seqs, size, lens, width, i - 1);
        layout_laws::bounds_count_the_tokens(seqs, size, i - 1);
        assert(lens[i - 1] == seqs[i - 1].context());
        assert(lens[i - 1] <= width * size);
    } else {
        layout_laws::bounds_count_the_tokens(seqs, size, 0);
    }
}

} // verus!
