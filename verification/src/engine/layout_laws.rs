//! What the model is given to run a step, token by token.
use crate::engine::model_runner;
use crate::engine::sequence;
use crate::engine::sequence::SeqView;
use vstd::prelude::*;

verus! {

/// The new tokens of the first `j` sequences of `seqs`.
spec fn new_before(seqs: Seq<SeqView>, j: int) -> int
    decreases j,
{
    if j <= 0 {
        0
    } else {
        new_before(seqs, j - 1) + seqs[j - 1].num_new
    }
}

spec fn context_before(seqs: Seq<SeqView>, j: int) -> int
    decreases j,
{
    if j <= 0 {
        0
    } else {
        context_before(seqs, j - 1) + seqs[j - 1].num_cached + seqs[j - 1].num_new
    }
}

proof fn lemma_before(seqs: Seq<SeqView>, j: int)
    requires
        0 <= j <= seqs.len(),
    ensures
        model_runner::sum_new(seqs.take(j)) == new_before(seqs, j),
        model_runner::sum_context(seqs.take(j)) == context_before(seqs, j),
        0 <= new_before(seqs, j) <= context_before(seqs, j),
    decreases j,
{
    if j > 0 {
        lemma_before(seqs, j - 1);
        assert(seqs.take(j).drop_last() =~= seqs.take(j - 1));
        assert(seqs.take(j).last() == seqs[j - 1]);
    }
}

proof fn lemma_before_grows(seqs: Seq<SeqView>, i: int, j: int)
    requires
        0 <= i <= j,
    ensures
        new_before(seqs, i) <= new_before(seqs, j),
        context_before(seqs, i) <= context_before(seqs, j),
    decreases j - i,
{
    if i < j {
        lemma_before_grows(seqs, i, j - 1);
    }
}

/// All sequences of `seqs` are in blocks.
pub open spec fn are_placed(seqs: Seq<SeqView>) -> bool {
    forall|j: int| 0 <= j < seqs.len() ==> (#[trigger] seqs[j]).table.len() > 0
}

proof fn lemma_laid_out(seqs: Seq<SeqView>, n: int)
    requires
        0 <= n <= seqs.len(),
    ensures
        model_runner::all_ids(seqs.take(n)).len() == new_before(seqs, n),
        model_runner::all_positions(seqs.take(n)).len() == new_before(seqs, n),
        are_placed(seqs) ==> model_runner::all_slots(seqs.take(n)).len() == new_before(seqs, n),
    decreases n,
{
    if n > 0 {
        lemma_laid_out(seqs, n - 1);
        assert(seqs.take(n).drop_last() =~= seqs.take(n - 1));
        assert(seqs.take(n).last() == seqs[n - 1]);
    }
}

proof fn lemma_entry(seqs: Seq<SeqView>, n: int, j: int, i: int)
    requires
        0 <= j < n <= seqs.len(),
        0 <= i < seqs[j].num_new,
    ensures
        new_before(seqs, j) + i < new_before(seqs, n),
        model_runner::all_ids(seqs.take(n))[new_before(seqs, j) + i] == seqs[j].tokens[
            seqs[j].num_cached + i
        ] as i64,
        model_runner::all_positions(seqs.take(n))[new_before(seqs, j) + i] == (
        seqs[j].num_cached + i) as i64,
        are_placed(seqs) ==> model_runner::all_slots(seqs.take(n))[new_before(seqs, j) + i]
            == model_runner::slot(seqs[j], seqs[j].num_cached + i) as i64,
    decreases n,
{
    lemma_laid_out(seqs, n);
    lemma_laid_out(seqs, n - 1);
    lemma_before_grows(seqs, j + 1, n);
    assert(new_before(seqs, j + 1) == new_before(seqs, j) + seqs[j].num_new);
    lemma_before(seqs, j);
    assert(seqs.take(n).drop_last() =~= seqs.take(n - 1));
    assert(seqs.take(n).last() == seqs[n - 1]);
    if j < n - 1 {
        lemma_entry(seqs, n - 1, j, i);
    }
}

/// The tokens of a step stand one sequence after the other, and each with its own place: behind the
/// new tokens of the sequences before it, new token `i` of sequence `j` is the token behind its
/// computed ones and the `i` before it, its position is how many those are, and it is written to
/// its place in the block that the table of the sequence gives it.
pub proof fn each_new_token_stands_at_its_place(seqs: Seq<SeqView>, size: nat, j: int, i: int)
    requires
        model_runner::can_run_all(seqs, size),
        0 <= j < seqs.len(),
        0 <= i < seqs[j].num_new,
    ensures
        ({
            let context = model_runner::step_context(seqs);
            let starts = context.cu_seqlens_q->0;
            let k = starts[j] + i;
            let p = seqs[j].num_cached + i;
            &&& context.cu_seqlens_q is Some && context.slot_mapping is Some
            &&& starts.len() == seqs.len() + 1
            &&& 0 <= k < model_runner::all_ids(seqs).len()
            &&& model_runner::all_ids(seqs)[k] == seqs[j].tokens[p]
            &&& model_runner::all_positions(seqs)[k] == p
            &&& are_placed(seqs) ==> context.slot_mapping->0[k] == seqs[j].table[p / size as int]
                * size + p % size as int
        }),
{
    lemma_before(seqs, j);
    lemma_before(seqs, seqs.len() as int);
    lemma_before_grows(seqs, j, seqs.len() as int);
    assert(seqs.take(seqs.len() as int) =~= seqs);
    lemma_laid_out(seqs, seqs.len() as int);
    lemma_entry(seqs, seqs.len() as int, j, i);
    let seq = seqs[j];
    assert(model_runner::can_run(seqs[j], size));
    lemma_context_is_less(seqs, j);
    if are_placed(seqs) {
        model_runner::lemma_slot(seq, size, seq.num_cached + i);
    }
}

proof fn lemma_context_is_less(seqs: Seq<SeqView>, j: int)
    requires
        0 <= j < seqs.len(),
    ensures
        seqs[j].num_cached + seqs[j].num_new <= model_runner::sum_context(seqs),
{
    lemma_before(seqs, seqs.len() as int);
    lemma_before(seqs, j);
    assert(seqs.take(seqs.len() as int) =~= seqs);
    lemma_before_grows(seqs, j + 1, seqs.len() as int);
    assert(context_before(seqs, j + 1) == context_before(seqs, j) + seqs[j].num_cached
        + seqs[j].num_new);
}

/// The positions of the new tokens of a sequence go up by one, and the last of them is the last
/// place in its context.
pub proof fn positions_go_up_to_the_end_of_the_context(seqs: Seq<SeqView>, size: nat, j: int, i: int)
    requires
        model_runner::can_run_all(seqs, size),
        0 <= j < seqs.len(),
        0 <= i < seqs[j].num_new,
    ensures
        ({
            let context = model_runner::step_context(seqs);
            let k = context.cu_seqlens_q->0[j] + i;
            let positions = model_runner::all_positions(seqs);
            &&& i + 1 < seqs[j].num_new ==> positions[k + 1] == positions[k] + 1
            &&& i + 1 == seqs[j].num_new ==> positions[k] == context.context_lens->0[j] - 1
        }),
{
    each_new_token_stands_at_its_place(seqs, size, j, i);
    if i + 1 < seqs[j].num_new {
        each_new_token_stands_at_its_place(seqs, size, j, i + 1);
    }
    lemma_context_is_less(seqs, j);
}

/// Sequences without blocks write nothing.
pub proof fn without_blocks_nothing_is_written(seqs: Seq<SeqView>)
    requires
        forall|j: int| 0 <= j < seqs.len() ==> (#[trigger] seqs[j]).table.len() == 0,
    ensures
        model_runner::step_context(seqs).slot_mapping == Some(Seq::<i64>::empty()),
    decreases seqs.len(),
{
    if seqs.len() > 0 {
        let rest = seqs.drop_last();
        assert forall|j: int| 0 <= j < rest.len() implies (#[trigger] rest[j]).table.len() == 0 by {
            assert(rest[j] == seqs[j]);
        }
        without_blocks_nothing_is_written(rest);
        assert(seqs[seqs.len() - 1].table.len() == 0);
        assert(model_runner::all_slots(seqs) =~= Seq::<i64>::empty());
    } else {
        assert(model_runner::all_slots(seqs) =~= Seq::<i64>::empty());
    }
}

/// The bounds of a step start at zero and go up, sequence by sequence, by the tokens that it
/// computes and by the tokens that it has in context. There are as many tokens, positions and slots
/// as the last bound says.
pub proof fn bounds_count_the_tokens(seqs: Seq<SeqView>, size: nat, j: int)
    requires
        model_runner::can_run_all(seqs, size),
        0 <= j < seqs.len(),
    ensures
        ({
            let context = model_runner::step_context(seqs);
            let q = context.cu_seqlens_q->0;
            let k = context.cu_seqlens_k->0;
            let n = seqs.len() as int;
            &&& context.cu_seqlens_q is Some && context.cu_seqlens_k is Some
            &&& context.context_lens is Some
            &&& q.len() == n + 1 && k.len() == n + 1 && context.context_lens->0.len() == n
            &&& q[0] == 0 && k[0] == 0
            &&& q[j + 1] == q[j] + seqs[j].num_new
            &&& k[j + 1] == k[j] + seqs[j].num_cached + seqs[j].num_new
            &&& context.context_lens->0[j] == seqs[j].num_cached + seqs[j].num_new
            &&& model_runner::all_ids(seqs).len() == q[n]
            &&& model_runner::all_positions(seqs).len() == q[n]
            &&& are_placed(seqs) ==> context.slot_mapping->0.len() == q[n]
        }),
{
    let n = seqs.len() as int;
    lemma_before(seqs, 0);
    lemma_before(seqs, j);
    lemma_before(seqs, j + 1);
    lemma_before(seqs, n);
    lemma_before_grows(seqs, j, n);
    lemma_before_grows(seqs, j + 1, n);
    lemma_laid_out(seqs, n);
    assert(seqs.take(n) =~= seqs);
    lemma_context_is_less(seqs, j);
}

/// The longest of a step is that of one of its sequences, and no sequence has a longer one.
pub proof fn the_longest_is_that_of_a_sequence(seqs: Seq<SeqView>)
    requires
        seqs.len() > 0,
    ensures
        ({
            let context = model_runner::step_context(seqs);
            &&& exists|j: int|
                0 <= j < seqs.len() && (#[trigger] seqs[j]).num_new == context.max_seqlen_q
            &&& exists|j: int|
                0 <= j < seqs.len() && (#[trigger] seqs[j]).num_cached + seqs[j].num_new
                    == context.max_seqlen_k
            &&& forall|j: int|
                0 <= j < seqs.len() ==> (#[trigger] seqs[j]).num_new <= context.max_seqlen_q
                    && seqs[j].num_cached + seqs[j].num_new <= context.max_seqlen_k
        }),
    decreases seqs.len(),
{
    let rest = seqs.drop_last();
    let last = seqs.len() - 1;
    assert(seqs[last] == seqs.last());
    if rest.len() > 0 {
        the_longest_is_that_of_a_sequence(rest);
        let context = model_runner::step_context(rest);
        let a = choose|j: int|
            0 <= j < rest.len() && (#[trigger] rest[j]).num_new == context.max_seqlen_q;
        let b = choose|j: int|
            0 <= j < rest.len() && (#[trigger] rest[j]).num_cached + rest[j].num_new
                == context.max_seqlen_k;
        assert(seqs[a] == rest[a]);
        assert(seqs[b] == rest[b]);
        assert forall|j: int| 0 <= j < seqs.len() implies (#[trigger] seqs[j]).num_new
            <= model_runner::max_new(seqs) && seqs[j].num_cached + seqs[j].num_new
            <= model_runner::max_context(seqs) by {
            if j < last {
                assert(rest[j] == seqs[j]);
            }
        }
    } else {
        assert(model_runner::max_new(rest) == 0);
        assert(model_runner::max_context(rest) == 0);
    }
}

proof fn lemma_rows(seqs: Seq<SeqView>, width: int, n: int, j: int, b: int)
    requires
        0 <= j < n <= seqs.len(),
        0 <= b < width,
    ensures
        model_runner::all_rows(seqs.take(n), width).len() == n * width,
        0 <= j * width + b < n * width,
        model_runner::all_rows(seqs.take(n), width)[j * width + b] == if b < seqs[j].table.len() {
            seqs[j].table[b] as i64
        } else {
            -1i64
        },
    decreases n,
{
    lemma_rows_len(seqs, width, n);
    lemma_rows_len(seqs, width, n - 1);
    assert(seqs.take(n).drop_last() =~= seqs.take(n - 1));
    assert(seqs.take(n).last() == seqs[n - 1]);
    assert(0 <= j * width + b < n * width && (j < n - 1 ==> j * width + b < (n - 1) * width)
        && (j == n - 1 ==> j * width == (n - 1) * width)) by (nonlinear_arith)
        requires
            0 <= j < n,
            0 <= b < width,
    ;
    if j < n - 1 {
        lemma_rows(seqs, width, n - 1, j, b);
    }
}

proof fn lemma_rows_len(seqs: Seq<SeqView>, width: int, n: int)
    requires
        0 <= n <= seqs.len(),
        0 <= width,
    ensures
        model_runner::all_rows(seqs.take(n), width).len() == n * width,
    decreases n,
{
    if n > 0 {
        lemma_rows_len(seqs, width, n - 1);
        assert(seqs.take(n).drop_last() =~= seqs.take(n - 1));
        assert((n - 1) * width + width == n * width) by (nonlinear_arith);
    } else {
        assert(seqs.take(0).len() == 0);
        assert(n * width == 0) by (nonlinear_arith)
            requires
                n == 0,
        ;
    }
}

proof fn lemma_widest(seqs: Seq<SeqView>, j: int)
    requires
        0 <= j < seqs.len(),
    ensures
        seqs[j].table.len() <= model_runner::max_table(seqs),
    decreases seqs.len(),
{
    if j < seqs.len() - 1 {
        assert(seqs.drop_last()[j] == seqs[j]);
        lemma_widest(seqs.drop_last(), j);
    }
}

/// The block tables are given where some sequence has computed tokens, and only there. Row `j` is
/// the table of sequence `j`, whole, and behind it `-1`.
pub proof fn block_tables_are_those_of_the_sequences(seqs: Seq<SeqView>, j: int, b: int)
    requires
        0 <= j < seqs.len(),
        0 <= b,
    ensures
        ({
            let tables = model_runner::step_context(seqs).block_tables;
            &&& tables is Some <==> exists|i: int|
                0 <= i < seqs.len() && (#[trigger] seqs[i]).num_cached > 0
            &&& tables matches Some(t) ==> {
                &&& t.rows == seqs.len()
                &&& seqs[j].table.len() <= t.width
                &&& t.data.len() == t.rows * t.width
                &&& b < t.width ==> t.data[j * t.width + b] == if b < seqs[j].table.len() {
                    seqs[j].table[b] as i64
                } else {
                    -1i64
                }
            }
        }),
{
    let n = seqs.len() as int;
    let width = model_runner::max_table(seqs) as int;
    lemma_widest(seqs, j);
    assert(seqs.take(n) =~= seqs);
    lemma_rows_len(seqs, width, n);
    if b < width {
        lemma_rows(seqs, width, n, j, b);
    }
    lemma_some_are_cached(seqs);
}

proof fn lemma_some_are_cached(seqs: Seq<SeqView>)
    ensures
        model_runner::sum_new(seqs) <= model_runner::sum_context(seqs),
        model_runner::sum_context(seqs) > model_runner::sum_new(seqs) <==> exists|i: int|
            0 <= i < seqs.len() && (#[trigger] seqs[i]).num_cached > 0,
    decreases seqs.len(),
{
    if seqs.len() > 0 {
        let rest = seqs.drop_last();
        lemma_some_are_cached(rest);
        assert(seqs[seqs.len() - 1] == seqs.last());
        if exists|i: int| 0 <= i < rest.len() && (#[trigger] rest[i]).num_cached > 0 {
            let i = choose|i: int| 0 <= i < rest.len() && (#[trigger] rest[i]).num_cached > 0;
            assert(seqs[i].num_cached > 0);
        }
        if exists|i: int| 0 <= i < seqs.len() && (#[trigger] seqs[i]).num_cached > 0 {
            let i = choose|i: int| 0 <= i < seqs.len() && (#[trigger] seqs[i]).num_cached > 0;
            if i < rest.len() {
                assert(rest[i].num_cached > 0);
            }
        }
    }
}

/// The rows that a token is drawn for are those of the sequences in blocks whose tokens are all in
/// context, each of them once and in order, and each is sampled with the temperature of its own
/// sequence.
pub proof fn tokens_are_drawn_for_complete_sequences(seqs: Seq<SeqView>)
    requires
        seqs.len() <= i64::MAX,
    ensures
        ({
            let drawn = model_runner::step_context(seqs).seq_need_compute_logits;
            let rows = drawn->0;
            let temperatures = model_runner::sample_temperatures(seqs, drawn);
            &&& drawn is Some
            &&& forall|k: int, l: int| 0 <= k < l < rows.len() ==> rows[k] < rows[l]
            &&& forall|k: int| 0 <= k < rows.len() ==> 0 <= (#[trigger] rows[k]) < seqs.len()
            &&& forall|j: int|
                0 <= j < seqs.len() ==> (rows.contains(j as i64) <==> (
                #[trigger] seqs[j]).num_cached + seqs[j].num_new == seqs[j].num_tokens
                    && seqs[j].table.len() > 0)
            &&& rows.len() > 0 ==> temperatures.len() == rows.len()
            &&& forall|k: int|
                0 <= k < rows.len() ==> temperatures[k] == seqs[#[trigger] rows[k] as int].temperature
            &&& model_runner::row_numbers(drawn).len() == rows.len()
            &&& forall|k: int|
                0 <= k < rows.len() ==> model_runner::row_numbers(drawn)[k] == (
                #[trigger] rows[k]) as usize
        }),
{
    lemma_drawn(seqs);
}

proof fn lemma_drawn(seqs: Seq<SeqView>)
    requires
        seqs.len() <= i64::MAX,
    ensures
        ({
            let rows = model_runner::logit_rows(seqs);
            &&& forall|k: int, l: int| 0 <= k < l < rows.len() ==> rows[k] < rows[l]
            &&& forall|k: int| 0 <= k < rows.len() ==> 0 <= (#[trigger] rows[k]) < seqs.len()
            &&& forall|j: int|
                0 <= j < seqs.len() ==> (rows.contains(j as i64) <==> (
                #[trigger] seqs[j]).num_cached + seqs[j].num_new == seqs[j].num_tokens
                    && seqs[j].table.len() > 0)
        }),
    decreases seqs.len(),
{
    if seqs.len() > 0 {
        let rest = seqs.drop_last();
        lemma_drawn(rest);
        let less = model_runner::logit_rows(rest);
        let rows = model_runner::logit_rows(seqs);
        let last = seqs.len() - 1;
        assert forall|k: int| 0 <= k < rows.len() implies 0 <= (#[trigger] rows[k])
            < seqs.len() by {
            if k < less.len() {
                assert(rows[k] == less[k]);
            }
        }
        assert forall|k: int, l: int| 0 <= k < l < rows.len() implies rows[k] < rows[l] by {
            assert(rows[k] == less[k]);
            if l < less.len() {
                assert(rows[l] == less[l]);
            }
        }
        assert forall|j: int| 0 <= j < seqs.len() implies (rows.contains(j as i64) <==> (
        #[trigger] seqs[j]).num_cached + seqs[j].num_new == seqs[j].num_tokens
            && seqs[j].table.len() > 0) by {
            if j < last {
                assert(rest[j] == seqs[j]);
                if less.contains(j as i64) {
                    let k = choose|k: int| 0 <= k < less.len() && less[k] == j as i64;
                    assert(rows[k] == j as i64);
                }
                if rows.contains(j as i64) {
                    let k = choose|k: int| 0 <= k < rows.len() && rows[k] == j as i64;
                    assert(less[k] == j as i64);
                }
            } else {
                if rows.len() > less.len() {
                    assert(rows[less.len() as int] == last as i64);
                }
                if rows.contains(j as i64) {
                    let k = choose|k: int| 0 <= k < rows.len() && rows[k] == j as i64;
                    if k < less.len() {
                        assert(less[k] == rows[k]);
                    }
                }
            }
        }
    }
}

/// The model is warmed up with the largest step that can come: sequences as long as they may get,
/// or as the budget, and as many of them as the budget and the number of places allow, but one at
/// least.
pub proof fn the_warm_up_is_the_largest_step(batched: usize, max_len: usize, max_seqs: usize)
    requires
        batched > 0,
        max_len > 0,
    ensures
        ({
            let n = model_runner::warmup_count(batched, max_len, max_seqs);
            let len = model_runner::warmup_len(batched, max_len);
            &&& n >= 1
            &&& 1 <= len <= max_len
            &&& len <= batched
            &&& len == max_len || len == batched
            &&& n > 1 ==> n * len <= batched && n <= max_seqs
            &&& n < max_seqs ==> (n + 1) * max_len > batched
        }),
{
    let fit = batched as int / max_len as int;
    let n = model_runner::warmup_count(batched, max_len, max_seqs);
    let len = model_runner::warmup_len(batched, max_len) as int;
    sequence::lemma_floor_div(batched as int, max_len as int);
    assert(n > 1 ==> n * len <= batched) by (nonlinear_arith)
        requires
            n > 1 ==> n <= fit,
            fit * max_len <= batched,
            0 <= len <= max_len,
    ;
    assert(n < max_seqs ==> (n + 1) * max_len > batched) by (nonlinear_arith)
        requires
            n < max_seqs ==> n >= fit,
            batched < fit * max_len + max_len,
            max_len > 0,
    ;
}

} // verus!
