//! How the scheduler and the runner of the model fit together.
use crate::engine::llm_engine;
use crate::engine::model_runner;
use crate::engine::scheduler;
use crate::engine::scheduler::SchedView;
use crate::engine::scheduler_laws;
use crate::engine::scheduler_proofs;
use crate::engine::sequence;
use crate::engine::sequence::{SeqView, SequenceStatus};
use vstd::prelude::*;

verus! {

/// Every token that a step computes has a slot of the cache to itself: no two tokens, of one
/// sequence or of two, are written to the same slot.
pub proof fn each_new_token_has_its_own_slot(
    running: Seq<SeqView>,
    size: nat,
    p: int,
    a: int,
    q: int,
    b: int,
)
    requires
        size > 0,
        scheduler_laws::writes_are_disjoint(running),
        0 <= p < running.len(),
        0 <= q < running.len(),
        model_runner::can_run(running[p], size),
        model_runner::can_run(running[q], size),
        running[p].table.len() > 0,
        running[q].table.len() > 0,
        running[p].num_cached <= a < running[p].context(),
        running[q].num_cached <= b < running[q].context(),
        p != q || a != b,
    ensures
        model_runner::slot(running[p], a) != model_runner::slot(running[q], b),
{
    let n = size as int;
    let i = a / n;
    let j = b / n;
    model_runner::lemma_slot(running[p], size, a);
    model_runner::lemma_slot(running[q], size, b);
    sequence::lemma_floor_div(a, n);
    sequence::lemma_floor_div(b, n);
    lemma_floor_monotone(running[p].num_cached as int, a, n);
    lemma_floor_monotone(running[q].num_cached as int, b, n);
    assert(scheduler_laws::is_written(running[p], i));
    assert(scheduler_laws::is_written(running[q], j));
    let x = running[p].table[i] as int;
    let y = running[q].table[j] as int;
    if p != q || i != j {
        assert(x != y);
        assert((x + 1) * n == x * n + n && (y + 1) * n == y * n + n) by (nonlinear_arith);
        assert(x < y ==> (x + 1) * n <= y * n) by (nonlinear_arith)
            requires
                n > 0,
        ;
        assert(y < x ==> (y + 1) * n <= x * n) by (nonlinear_arith)
            requires
                n > 0,
        ;
    } else {
        assert(a % n != b % n);
    }
}

proof fn lemma_floor_monotone(a: int, b: int, n: int)
    requires
        0 <= a <= b,
        n > 0,
    ensures
        a / n <= b / n,
{
    sequence::lemma_floor_div(a, n);
    sequence::lemma_floor_div(b, n);
    let x = a / n;
    let y = b / n;
    assert(x <= y) by (nonlinear_arith)
        requires
            x * n <= a,
            a <= b,
            b < y * n + n,
            n > 0,
    ;
}

/// The slots of a sequence lie within the cache of `num_blocks` blocks.
pub proof fn slots_lie_in_the_cache(seq: SeqView, size: nat, num_blocks: nat, p: int)
    requires
        size > 0,
        model_runner::can_run(seq, size),
        seq.table.len() > 0,
        0 <= p < seq.context(),
        forall|i: int| 0 <= i < seq.table.len() ==> (#[trigger] seq.table[i]) < num_blocks,
    ensures
        0 <= model_runner::slot(seq, p) < num_blocks * size,
{
    model_runner::lemma_slot(seq, size, p);
    let b = seq.table[p / size as int] as int;
    assert((b + 1) * size <= num_blocks * size) by (nonlinear_arith)
        requires
            b + 1 <= num_blocks,
    ;
}

/// The slots of the cache, and the tokens that can be in context at once, can be counted.
pub open spec fn can_be_counted(state: SchedView) -> bool {
    &&& state.bm.blocks.len() * state.bm.block_size <= i64::MAX
    &&& state.bm.blocks.len() * state.bm.block_size <= usize::MAX
    &&& (state.running.len() + state.waiting.len()) * (state.max_len + 1) <= i64::MAX
    &&& (state.running.len() + state.waiting.len()) * (state.max_len + 1) <= usize::MAX
    &&& state.running.len() + state.waiting.len() <= u32::MAX
}

/// Between two steps, an engine whose slots and whose tokens, were all sequences as long as they can
/// be, are no more than a word of 31 bits counts can go on with the next step.
pub proof fn an_engine_of_usual_size_can_go_on(state: SchedView)
    requires
        state.wf(),
        forall|i: int| 0 <= i < state.running.len() ==> (#[trigger] state.running[i]).num_new == 0,
        state.bm.blocks.len() * state.bm.block_size <= i32::MAX,
        (state.running.len() + state.waiting.len()) * (state.max_len + 1) <= i32::MAX,
    ensures
        scheduler_laws::is_ready(state),
        can_be_counted(state),
{
    let n = state.running.len() + state.waiting.len();
    let m = state.max_len as int;
    assert(n <= n * (m + 1) && n * m <= n * (m + 1)) by (nonlinear_arith)
        requires
            n >= 0,
            m >= 0,
    ;
}

proof fn lemma_sum_context(seqs: Seq<SeqView>, most: nat)
    requires
        forall|i: int| 0 <= i < seqs.len() ==> (#[trigger] seqs[i]).context() <= most,
    ensures
        model_runner::sum_context(seqs) <= seqs.len() * most,
    decreases seqs.len(),
{
    if seqs.len() > 0 {
        let rest = seqs.drop_last();
        assert forall|i: int| 0 <= i < rest.len() implies (#[trigger] rest[i]).context()
            <= most by {
            assert(rest[i] == seqs[i]);
        }
        lemma_sum_context(rest, most);
        assert(seqs.last() == seqs[seqs.len() - 1]);
        assert(seqs.len() * most == rest.len() * most + most) by (nonlinear_arith)
            requires
                seqs.len() == rest.len() + 1,
        ;
    }
}

/// What the scheduler picks can be run.
pub proof fn what_is_scheduled_can_be_run(state: SchedView)
    requires
        scheduler_laws::is_ready(state),
        can_be_counted(state),
    ensures
        model_runner::can_run_all(state.scheduled().picked, state.bm.block_size),
        state.scheduled().picked.len() <= u32::MAX,
{
    let plan = state.scheduled();
    let size = state.bm.block_size;
    scheduler_laws::scheduling_keeps_the_limits(state);
    scheduler_laws::scheduling_keeps_the_order(state);
    scheduler_laws::a_step_runs_the_active_sequences(state);
    assert(scheduler::ids(plan.state.running + plan.state.waiting).len()
        == scheduler::ids(state.running + state.waiting).len());
    lemma_active_len(plan.state.running);
    assert forall|i: int| 0 <= i < plan.picked.len() implies model_runner::can_run(
        #[trigger] plan.picked[i],
        size,
    ) && plan.picked[i].context() <= state.max_len by {
        assert(plan.state.running.contains(plan.picked[i]));
        let p = choose|p: int|
            0 <= p < plan.state.running.len() && plan.state.running[p] == plan.picked[i];
        let seq = plan.state.running[p];
        assert(plan.state.may_run(seq));
        assert forall|k: int| 0 <= k < seq.table.len() implies ((#[trigger] seq.table[k]) + 1)
            * size <= i64::MAX && (seq.table[k] + 1) * size <= usize::MAX by {
            let b = seq.table[k] as int;
            let n = state.bm.blocks.len();
            assert((b + 1) * size <= n * size) by (nonlinear_arith)
                requires
                    b + 1 <= n,
            ;
        }
    }
    lemma_sum_context(plan.picked, state.max_len);
    let n = plan.picked.len();
    let m = state.running.len() + state.waiting.len();
    let most = state.max_len;
    assert(n * most <= m * (most + 1)) by (nonlinear_arith)
        requires
            n <= m,
    ;
}

/// What the scheduler picks is no more than it has.
pub proof fn no_more_is_scheduled_than_there_is(state: SchedView)
    requires
        scheduler_laws::is_ready(state),
    ensures
        state.scheduled().picked.len() <= state.running.len() + state.waiting.len(),
{
    let plan = state.scheduled();
    scheduler_laws::scheduling_keeps_the_order(state);
    scheduler_laws::a_step_runs_the_active_sequences(state);
    assert(scheduler::ids(plan.state.running + plan.state.waiting).len()
        == scheduler::ids(state.running + state.waiting).len());
    lemma_active_len(plan.state.running);
}

proof fn lemma_active_len(running: Seq<SeqView>)
    ensures
        scheduler::active(running).len() <= running.len(),
    decreases running.len(),
{
    reveal(Seq::filter);
    if running.len() > 0 {
        lemma_active_len(running.drop_last());
    }
}

/// The rows that get logits are those of the complete sequences, in ascending order.
proof fn lemma_logit_rows(seqs: Seq<SeqView>)
    requires
        seqs.len() <= i64::MAX,
    ensures
        ({
            let rows = model_runner::logit_rows(seqs);
            &&& forall|k: int|
                0 <= k < rows.len() ==> 0 <= (#[trigger] rows[k]) < seqs.len()
                    && model_runner::needs_logits(seqs[rows[k] as int])
            &&& forall|j: int|
                0 <= j < seqs.len() && model_runner::needs_logits(#[trigger] seqs[j])
                    ==> rows.contains(j as i64)
            &&& forall|k: int, l: int| 0 <= k < l < rows.len() ==> rows[k] < rows[l]
        }),
    decreases seqs.len(),
{
    if seqs.len() > 0 {
        let rest = seqs.drop_last();
        lemma_logit_rows(rest);
        let less = model_runner::logit_rows(rest);
        let rows = model_runner::logit_rows(seqs);
        let last = seqs.len() - 1;
        assert forall|k: int| 0 <= k < rows.len() implies 0 <= (#[trigger] rows[k]) < seqs.len()
            && model_runner::needs_logits(seqs[rows[k] as int]) by {
            if k < less.len() {
                assert(rows[k] == less[k]);
                assert(rest[less[k] as int] == seqs[less[k] as int]);
            }
        }
        assert forall|j: int|
            0 <= j < seqs.len() && model_runner::needs_logits(
                #[trigger] seqs[j],
            ) implies rows.contains(j as i64) by {
            if j < last {
                assert(rest[j] == seqs[j]);
                assert(less.contains(j as i64));
                let k = choose|k: int| 0 <= k < less.len() && less[k] == j as i64;
                assert(rows[k] == j as i64);
            } else {
                assert(rows[less.len() as int] == j as i64);
            }
        }
        assert forall|k: int, l: int| 0 <= k < l < rows.len() implies rows[k] < rows[l] by {
            assert(rows[k] == less[k]);
            if l < less.len() {
                assert(rows[l] == less[l]);
            }
        }
    }
}

/// The runner draws tokens for just the sequences that are complete: what it reports can be
/// handed to the scheduler, which is then ready for the next step.
pub proof fn the_runner_reports_the_complete_sequences(state: SchedView)
    requires
        scheduler_laws::is_ready(state),
        can_be_counted(state),
    ensures
        ({
            let plan = state.scheduled();
            let at = model_runner::row_numbers(Some(model_runner::logit_rows(plan.picked)));
            &&& plan.state.is_step(plan.picked, at)
            &&& forall|i: int| 0 <= i < at.len() ==> (#[trigger] at[i]) < plan.picked.len()
            &&& model_runner::rows_below(
                Some(model_runner::logit_rows(plan.picked)),
                plan.picked.len() as int,
            )
        }),
{
    let plan = state.scheduled();
    let rows = model_runner::logit_rows(plan.picked);
    let at = model_runner::row_numbers(Some(rows));
    what_is_scheduled_can_be_run(state);
    scheduler_laws::scheduling_keeps_the_limits(state);
    scheduler_laws::a_step_runs_the_active_sequences(state);
    lemma_logit_rows(plan.picked);
    assert forall|j: int| 0 <= j < plan.picked.len() implies (at.contains(j as usize) <==> (
    #[trigger] plan.picked[j]).context() == plan.picked[j].num_tokens) by {
        let seq = plan.picked[j];
        assert(plan.state.running.contains(seq));
        let p = choose|p: int| 0 <= p < plan.state.running.len() && plan.state.running[p] == seq;
        assert(plan.state.may_run(plan.state.running[p]));
        sequence::lemma_ceil_div(seq.context() as int, state.bm.block_size as int);
        assert(model_runner::needs_logits(seq) <==> seq.context() == seq.num_tokens);
        if model_runner::needs_logits(seq) {
            assert(rows.contains(j as i64));
            let k = choose|k: int| 0 <= k < rows.len() && rows[k] == j as i64;
            assert(at[k] == j as usize);
        }
        if at.contains(j as usize) {
            let k = choose|k: int| 0 <= k < at.len() && at[k] == j as usize;
            assert(rows[k] == j);
        }
    }
    assert(at.no_duplicates()) by {
        assert forall|k: int, l: int| 0 <= k < at.len() && 0 <= l < at.len() && k != l implies at[k]
            != at[l] by {
            if k < l {
                assert(rows[k] < rows[l]);
            } else {
                assert(rows[l] < rows[k]);
            }
        }
    }
}

/// One of `outputs` answers the request with this id.
pub open spec fn answers(outputs: Seq<(usize, Seq<u32>)>, id: usize) -> bool {
    exists|k: int| 0 <= k < outputs.len() && (#[trigger] outputs[k]).0 == id
}

/// The finished sequences are those that hand something back.
proof fn lemma_answers(seqs: Seq<SeqView>, id: usize)
    ensures
        answers(llm_engine::finished_outputs(seqs), id) == scheduler_proofs::has_finished(
            seqs,
            id,
        ),
    decreases seqs.len(),
{
    if seqs.len() > 0 {
        let rest = seqs.drop_last();
        let less = llm_engine::finished_outputs(rest);
        let outputs = llm_engine::finished_outputs(seqs);
        let last = seqs.last();
        lemma_answers(rest, id);
        assert(seqs[seqs.len() - 1] == last);
        if scheduler_proofs::has_finished(rest, id) {
            let j = choose|j: int|
                0 <= j < rest.len() && (#[trigger] rest[j]).seq_id == id && rest[j].status
                    == SequenceStatus::Finished;
            assert(seqs[j] == rest[j]);
            let k = choose|k: int| 0 <= k < less.len() && (#[trigger] less[k]).0 == id;
            assert(outputs[k] == less[k]);
        } else if last.status == SequenceStatus::Finished && last.seq_id == id {
            assert(outputs[less.len() as int].0 == id);
        } else {
            if answers(outputs, id) {
                let k = choose|k: int| 0 <= k < outputs.len() && (#[trigger] outputs[k]).0 == id;
                assert(less[k].0 == id);
            }
            if scheduler_proofs::has_finished(seqs, id) {
                let j = choose|j: int|
                    0 <= j < seqs.len() && (#[trigger] seqs[j]).seq_id == id && seqs[j].status
                        == SequenceStatus::Finished;
                assert(rest[j] == seqs[j]);
            }
        }
    }
}

/// A completion is no longer than was asked for: of what a step hands back, each has at most the
/// tokens that its request allows, if that is one or more.
pub proof fn a_completion_is_no_longer_than_asked(
    state: SchedView,
    tokens: Seq<u32>,
    at: Seq<usize>,
    j: int,
)
    requires
        scheduler_laws::is_ready(state),
        state.scheduled().picked.len() <= usize::MAX,
        state.scheduled().state.is_step(state.scheduled().picked, at),
        forall|i: int|
            0 <= i < at.len() ==> (#[trigger] at[i]) < state.scheduled().picked.len(),
        0 <= j < state.scheduled().picked.len(),
    ensures
        ({
            let plan = state.scheduled();
            let grown = plan.state.postprocessed(plan.picked, tokens, at).1[j];
            grown.max_tokens >= 1 ==> llm_engine::output_of(grown).1.len() <= grown.max_tokens
        }),
{
    let plan = state.scheduled();
    let grown = plan.state.postprocessed(plan.picked, tokens, at).1;
    scheduler_laws::scheduling_keeps_the_limits(state);
    scheduler_laws::a_step_runs_the_active_sequences(state);
    scheduler_proofs::lemma_step_limits(plan.state, plan.picked, tokens, at);
    llm_engine::lemma_grown(plan.state, plan.picked, tokens, at);
    assert(grown[j].within_limit());
}

/// No request is lost and none is answered twice: after a step, a request that was there is
/// either answered or still there, and there is no other.
#[verifier::rlimit(40)]
pub proof fn every_request_is_answered_or_goes_on(
    state: SchedView,
    tokens: Seq<u32>,
    at: Seq<usize>,
    id: usize,
)
    requires
        scheduler_laws::is_ready(state),
        state.scheduled().picked.len() <= usize::MAX,
        state.scheduled().state.is_step(state.scheduled().picked, at),
        forall|i: int|
            0 <= i < at.len() ==> (#[trigger] at[i]) < state.scheduled().picked.len(),
    ensures
        ({
            let plan = state.scheduled();
            let (next, grown) = plan.state.postprocessed(plan.picked, tokens, at);
            let was = scheduler::ids(state.running + state.waiting).contains(id);
            let goes_on = scheduler::ids(next.running + next.waiting).contains(id);
            let answered = answers(llm_engine::finished_outputs(grown), id);
            &&& was ==> goes_on != answered
            &&& !was ==> !goes_on && !answered
        }),
{
    let plan = state.scheduled();
    let (next, grown) = plan.state.postprocessed(plan.picked, tokens, at);
    let running = plan.state.running;
    let waiting = plan.state.waiting;
    let all = scheduler::ids(running + waiting);
    let after = scheduler::ids(next.running + next.waiting);
    scheduler_laws::scheduling_keeps_the_order(state);
    scheduler_laws::scheduling_keeps_the_limits(state);
    scheduler_laws::a_step_runs_the_active_sequences(state);
    scheduler_proofs::lemma_step_ends(plan.state, plan.picked, tokens, at);
    scheduler_proofs::lemma_step_answers(plan.state, plan.picked, tokens, at);
    lemma_answers(grown, id);
    assert(scheduler::ids(grown).len() == scheduler::ids(plan.picked).len());
    let answered = scheduler_proofs::has_finished(grown, id);
    let runs_on = scheduler_proofs::has_id(next.running, id);
    if runs_on {
        let p = choose|p: int| 0 <= p < next.running.len() && (#[trigger] next.running[p]).seq_id
            == id;
        assert(after[p] == id);
        let q = choose|q: int|
            0 <= q < running.len() && scheduler_proofs::carries_on(
                #[trigger] running[q],
                next.running[p],
            );
        assert(all[q] == id);
    }
    if answered {
        let j = choose|j: int|
            0 <= j < grown.len() && (#[trigger] grown[j]).seq_id == id && grown[j].status
                == SequenceStatus::Finished;
        assert(scheduler::ids(grown)[j] == id);
        assert(scheduler::ids(plan.picked)[j] == plan.picked[j].seq_id);
        assert(running.contains(plan.picked[j]));
        let q = choose|q: int| 0 <= q < running.len() && running[q] == plan.picked[j];
        assert(all[q] == id);
    }
    if after.contains(id) {
        let m = choose|m: int| 0 <= m < after.len() && after[m] == id;
        if m < next.running.len() {
            assert(next.running[m].seq_id == id);
        } else {
            let w = m - next.running.len();
            assert(waiting[w].seq_id == id);
            assert(all[running.len() + w] == id);
        }
    }
    if all.contains(id) {
        let m = choose|m: int| 0 <= m < all.len() && all[m] == id;
        if m < running.len() {
            assert(running[m].seq_id == id);
            if after.contains(id) && !runs_on {
                let n = choose|n: int| 0 <= n < after.len() && after[n] == id;
                let w = n - next.running.len();
                assert(n >= next.running.len()) by {
                    if n < next.running.len() {
                        assert(next.running[n].seq_id == id);
                    }
                }
                assert(all[running.len() + w] == id);
            }
        } else {
            let w = m - running.len();
            assert(waiting[w].seq_id == id);
            assert(after[next.running.len() + w] == id);
            if answered {
                let j = choose|j: int|
                    0 <= j < grown.len() && (#[trigger] grown[j]).seq_id == id
                        && grown[j].status == SequenceStatus::Finished;
                assert(scheduler::ids(grown)[j] == id);
                assert(scheduler::ids(plan.picked)[j] == plan.picked[j].seq_id);
                let q = choose|q: int| 0 <= q < running.len() && running[q] == plan.picked[j];
                assert(all[q] == id);
            }
        }
    }
}

} // verus!
