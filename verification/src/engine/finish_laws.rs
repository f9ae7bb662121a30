//! When a sequence is finished, and what becomes of it.
use crate::engine::llm_engine;
use crate::engine::scheduler;
use crate::engine::scheduler::SchedView;
use crate::engine::scheduler_laws;
use crate::engine::scheduler_proofs;
use crate::engine::sequence::{SeqView, SequenceStatus};
use vstd::prelude::*;

verus! {

/// `seq`, which has just got `token`, has no more to say: the token ends the text and is not
/// ignored, or it has as many tokens behind the prompt as were asked for, or as many in all as a
/// sequence can have.
pub open spec fn has_ended(seq: SeqView, token: u32, eos: u32, max_len: nat) -> bool {
    ||| token == eos && !seq.ignore_eos
    ||| seq.tokens.len() - seq.num_prompt == seq.max_tokens
    ||| seq.tokens.len() >= max_len
}

/// `now` is `seq` with one more token.
pub open spec fn is_longer_by(seq: SeqView, now: SeqView, token: u32) -> bool {
    &&& now.tokens == seq.tokens.push(token)
    &&& now.num_tokens == seq.num_tokens + 1
    &&& now.last_token == token
    &&& now.seq_id == seq.seq_id
    &&& now.num_prompt == seq.num_prompt
    &&& now.max_tokens == seq.max_tokens
    &&& now.ignore_eos == seq.ignore_eos
    &&& now.temperature == seq.temperature
    &&& now.block_size == seq.block_size
}

proof fn lemma_untouched(
    state: SchedView,
    seqs: Seq<SeqView>,
    tokens: Seq<u32>,
    at: Seq<usize>,
    k: int,
    j: int,
)
    requires
        0 <= k,
        0 <= j < seqs.len(),
        forall|i: int| 0 <= i < at.len() ==> (#[trigger] at[i]) < seqs.len(),
        forall|i: int| k <= i < at.len() ==> (#[trigger] at[i]) != j,
    ensures
        state.take_tokens(seqs, tokens, at, k).1.len() == seqs.len(),
        state.take_tokens(seqs, tokens, at, k).1[j] == seqs[j],
        state.take_tokens(seqs, tokens, at, k).0.eos == state.eos,
        state.take_tokens(seqs, tokens, at, k).0.max_len == state.max_len,
    decreases at.len() - k,
{
    if k < at.len() {
        let (next, grown) = state.take_token(seqs, at[k] as int, tokens[k]);
        lemma_untouched(next, grown, tokens, at, k + 1, j);
    }
}

proof fn lemma_taken(
    state: SchedView,
    seqs: Seq<SeqView>,
    tokens: Seq<u32>,
    at: Seq<usize>,
    k: int,
    m: int,
)
    requires
        0 <= k <= m < at.len(),
        at.no_duplicates(),
        forall|i: int| 0 <= i < at.len() ==> (#[trigger] at[i]) < seqs.len(),
        seqs[at[m] as int].num_tokens == seqs[at[m] as int].tokens.len(),
        seqs[at[m] as int].status == SequenceStatus::Running,
    ensures
        ({
            let j = at[m] as int;
            let now = state.take_tokens(seqs, tokens, at, k).1[j];
            &&& state.take_tokens(seqs, tokens, at, k).1.len() == seqs.len()
            &&& is_longer_by(seqs[j], now, tokens[m])
            &&& now.status == SequenceStatus::Finished <==> has_ended(
                now,
                tokens[m],
                state.eos,
                state.max_len,
            )
            &&& now.status == SequenceStatus::Finished ==> now.table.len() == 0
            &&& now.status != SequenceStatus::Finished ==> now.status == SequenceStatus::Running
                && now.table == seqs[j].table && now.num_cached == seqs[j].num_cached && now.num_new
                == seqs[j].num_new
        }),
    decreases m - k,
{
    let j = at[m] as int;
    let (next, grown) = state.take_token(seqs, at[k] as int, tokens[k]);
    if k < m {
        assert(at[k] != at[m]);
        lemma_taken(next, grown, tokens, at, k + 1, m);
    } else {
        assert forall|i: int| k + 1 <= i < at.len() implies (#[trigger] at[i]) != j by {
            assert(at[i] != at[m]);
        }
        lemma_untouched(next, grown, tokens, at, k + 1, j);
    }
}

proof fn lemma_replaced_keeps(seqs: Seq<SeqView>, seq: SeqView, p: int)
    requires
        0 <= p < seqs.len(),
    ensures
        scheduler::replaced(seqs, seq).len() == seqs.len(),
        seqs[p].seq_id != seq.seq_id ==> scheduler::replaced(seqs, seq)[p] == seqs[p],
        scheduler::replaced(seqs, seq)[p].seq_id == seqs[p].seq_id,
    decreases seqs.len(),
{
    if seqs[0].seq_id != seq.seq_id {
        let rest = seqs.subrange(1, seqs.len() as int);
        if p > 0 {
            lemma_replaced_keeps(rest, seq, p - 1);
        } else if rest.len() > 0 {
            lemma_replaced_keeps(rest, seq, 0);
        }
    }
}

proof fn lemma_replaced_has(seqs: Seq<SeqView>, seq: SeqView) -> (p: int)
    requires
        scheduler_proofs::has_id(seqs, seq.seq_id),
    ensures
        0 <= p < seqs.len(),
        p < scheduler::replaced(seqs, seq).len(),
        scheduler::replaced(seqs, seq)[p] == seq,
    decreases seqs.len(),
{
    if seqs[0].seq_id == seq.seq_id {
        0
    } else {
        let rest = seqs.subrange(1, seqs.len() as int);
        let q = choose|q: int| 0 <= q < seqs.len() && (#[trigger] seqs[q]).seq_id == seq.seq_id;
        assert(rest[q - 1].seq_id == seq.seq_id);
        lemma_replaced_has(rest, seq) + 1
    }
}

proof fn lemma_sync_keeps(state: SchedView, seqs: Seq<SeqView>, j: int, p: int)
    requires
        0 <= j,
        0 <= p < state.running.len(),
        forall|i: int|
            j <= i < seqs.len() ==> (#[trigger] seqs[i]).seq_id != state.running[p].seq_id,
    ensures
        p < state.sync_all(seqs, j).running.len(),
        state.sync_all(seqs, j).running[p] == state.running[p],
    decreases seqs.len() - j,
{
    if j < seqs.len() {
        lemma_replaced_keeps(state.running, seqs[j].advanced(), p);
        lemma_sync_keeps(state.sync(seqs[j]), seqs, j + 1, p);
    }
}

proof fn lemma_sync_puts(state: SchedView, seqs: Seq<SeqView>, j: int, i: int) -> (p: int)
    requires
        0 <= j <= i < seqs.len(),
        scheduler::ids(seqs).no_duplicates(),
        seqs[i].status != SequenceStatus::Finished,
        scheduler_proofs::has_id(state.running, seqs[i].seq_id),
    ensures
        0 <= p < state.sync_all(seqs, j).running.len(),
        state.sync_all(seqs, j).running[p] == seqs[i].advanced(),
    decreases i - j,
{
    let next = state.sync(seqs[j]);
    if j == i {
        let p = lemma_replaced_has(state.running, seqs[i].advanced());
        assert forall|k: int| j + 1 <= k < seqs.len() implies (#[trigger] seqs[k]).seq_id
            != next.running[p].seq_id by {
            assert(scheduler::ids(seqs)[k] == seqs[k].seq_id);
            assert(scheduler::ids(seqs)[i] == seqs[i].seq_id);
        }
        lemma_sync_keeps(next, seqs, j + 1, p);
        p
    } else {
        let q = choose|q: int|
            0 <= q < state.running.len() && (#[trigger] state.running[q]).seq_id == seqs[i].seq_id;
        lemma_replaced_keeps(state.running, seqs[j].advanced(), q);
        assert(next.running[q].seq_id == seqs[i].seq_id);
        lemma_sync_puts(next, seqs, j + 1, i)
    }
}

/// What a step was, to its end: `seqs` are the running sequences with tokens to compute, and `at`
/// numbers those whose tokens are all in context.
pub open spec fn is_run(state: SchedView, seqs: Seq<SeqView>, at: Seq<usize>) -> bool {
    &&& state.wf()
    &&& state.runs(seqs)
    &&& state.is_step(seqs, at)
    &&& seqs.len() <= usize::MAX
    &&& forall|i: int| 0 <= i < at.len() ==> (#[trigger] at[i]) < seqs.len()
}

/// A sequence of a step gets the token that was drawn for it. It is finished if and only if that
/// token ends the text and is not ignored, or it has just as many tokens behind the prompt as were
/// asked for, or as many in all as a sequence can have. A finished sequence runs no longer and has
/// no blocks; any other one runs on in its blocks, with all that it had in context computed.
pub proof fn a_sequence_ends_when_it_should(
    state: SchedView,
    seqs: Seq<SeqView>,
    tokens: Seq<u32>,
    at: Seq<usize>,
    m: int,
)
    requires
        is_run(state, seqs, at),
        0 <= m < at.len(),
    ensures
        ({
            let (next, grown) = state.postprocessed(seqs, tokens, at);
            let seq = seqs[at[m] as int];
            let now = grown[at[m] as int];
            let running = next.running;
            &&& grown.len() == seqs.len()
            &&& is_longer_by(seq, now, tokens[m])
            &&& now.status == SequenceStatus::Finished <==> has_ended(
                now,
                tokens[m],
                state.eos,
                state.max_len,
            )
            &&& now.status == SequenceStatus::Finished ==> now.table.len() == 0 && forall|p: int|
                0 <= p < running.len() ==> (#[trigger] running[p]).seq_id != seq.seq_id
            &&& now.status != SequenceStatus::Finished ==> exists|p: int|
                {
                    &&& 0 <= p < running.len()
                    &&& is_longer_by(seq, #[trigger] running[p], tokens[m])
                    &&& running[p].status == SequenceStatus::Running
                    &&& running[p].table == seq.table
                    &&& running[p].num_cached == seq.num_cached + seq.num_new
                    &&& running[p].num_new == 0
                }
        }),
{
    let j = at[m] as int;
    assert(state.running.contains(seqs[j]));
    let q = choose|q: int| 0 <= q < state.running.len() && state.running[q] == seqs[j];
    assert(state.may_run(state.running[q]));
    lemma_taken(state, seqs, tokens, at, 0, m);
    scheduler_proofs::lemma_step_ends(state, seqs, tokens, at);
    scheduler_proofs::lemma_step_answers(state, seqs, tokens, at);
    let (mid, grown) = state.take_tokens(seqs, tokens, at, 0);
    let (next, _) = state.postprocessed(seqs, tokens, at);
    let now = grown[j];
    let id = state.running[q].seq_id;
    if now.status == SequenceStatus::Finished {
        assert(scheduler_proofs::has_finished(grown, id));
        assert(!scheduler_proofs::has_id(next.running, id));
    } else {
        assert(!scheduler_proofs::has_finished(grown, id)) by {
            if scheduler_proofs::has_finished(grown, id) {
                let i = choose|i: int|
                    0 <= i < grown.len() && (#[trigger] grown[i]).seq_id == id && grown[i].status
                        == SequenceStatus::Finished;
                assert(scheduler::ids(grown)[i] == id);
                assert(scheduler::ids(grown)[j] == id);
                assert(scheduler::ids(seqs).no_duplicates());
            }
        }
        assert(scheduler_proofs::has_id(next.running, id));
        let r = choose|r: int| 0 <= r < next.running.len() && (#[trigger] next.running[r]).seq_id
            == id;
        assert(scheduler_proofs::carries_on(mid.running[r], next.running[r]));
        assert(mid.running[r].seq_id == id);
        let p = lemma_sync_puts(mid, grown, 0, j);
        assert(next.running[p] == now.advanced());
        assert(is_longer_by(seqs[j], next.running[p], tokens[m]));
    }
}

/// A sequence of a step that is not complete gets no token: it runs on as it was, with all that it
/// had in context computed.
pub proof fn an_incomplete_sequence_goes_on(
    state: SchedView,
    seqs: Seq<SeqView>,
    tokens: Seq<u32>,
    at: Seq<usize>,
    j: int,
)
    requires
        is_run(state, seqs, at),
        0 <= j < seqs.len(),
        seqs[j].num_cached + seqs[j].num_new < seqs[j].num_tokens,
    ensures
        ({
            let (next, grown) = state.postprocessed(seqs, tokens, at);
            let running = next.running;
            &&& grown[j] == seqs[j]
            &&& exists|p: int|
                0 <= p < running.len() && #[trigger] running[p] == (SeqView {
                    num_cached: seqs[j].num_cached + seqs[j].num_new,
                    num_new: 0,
                    ..seqs[j]
                })
        }),
{
    assert(state.running.contains(seqs[j]));
    let q = choose|q: int| 0 <= q < state.running.len() && state.running[q] == seqs[j];
    assert(state.may_run(state.running[q]));
    assert(!at.contains(j as usize));
    assert forall|i: int| 0 <= i < at.len() implies (#[trigger] at[i]) != j by {
        if at[i] == j {
            assert(at.contains(j as usize));
        }
    }
    lemma_untouched(state, seqs, tokens, at, 0, j);
    scheduler_proofs::lemma_step_ends(state, seqs, tokens, at);
    scheduler_proofs::lemma_step_answers(state, seqs, tokens, at);
    let (mid, grown) = state.take_tokens(seqs, tokens, at, 0);
    let (next, _) = state.postprocessed(seqs, tokens, at);
    let id = state.running[q].seq_id;
    assert(!scheduler_proofs::has_finished(grown, id)) by {
        if scheduler_proofs::has_finished(grown, id) {
            let i = choose|i: int|
                0 <= i < grown.len() && (#[trigger] grown[i]).seq_id == id && grown[i].status
                    == SequenceStatus::Finished;
            assert(scheduler::ids(grown)[i] == id);
            assert(scheduler::ids(grown)[j] == id);
            assert(scheduler::ids(seqs).no_duplicates());
        }
    }
    assert(scheduler_proofs::has_id(next.running, id));
    let r = choose|r: int| 0 <= r < next.running.len() && (#[trigger] next.running[r]).seq_id == id;
    assert(scheduler_proofs::carries_on(mid.running[r], next.running[r]));
    assert(mid.running[r].seq_id == id);
    let p = lemma_sync_puts(mid, grown, 0, j);
    assert(next.running[p] == grown[j].advanced());
}

/// `seq` may have more to say: of the tokens behind its prompt the last does not end the text,
/// unless that is ignored.
pub open spec fn may_go_on(seq: SeqView, eos: u32) -> bool {
    seq.tokens.len() > seq.num_prompt && !seq.ignore_eos ==> seq.tokens.last() != eos
}

/// All that run or wait may have more to say.
pub open spec fn all_may_go_on(state: SchedView) -> bool {
    forall|i: int|
        0 <= i < state.running.len() + state.waiting.len() ==> may_go_on(
            #[trigger] (state.running + state.waiting)[i],
            state.eos,
        )
}

/// Nobody runs or waits whose last drawn token ended the text: it was so before, and scheduling a
/// step and running it to its end keeps it so.
pub proof fn nobody_goes_on_past_the_end_of_the_text(
    state: SchedView,
    tokens: Seq<u32>,
    at: Seq<usize>,
)
    requires
        scheduler_laws::is_ready(state),
        all_may_go_on(state),
        is_run(state.scheduled().state, state.scheduled().picked, at),
    ensures
        all_may_go_on(state.scheduled().state),
        all_may_go_on(
            state.scheduled().state.postprocessed(state.scheduled().picked, tokens, at).0,
        ),
{
    let plan = state.scheduled();
    let now = plan.state;
    let seqs = plan.picked;
    let (next, grown) = now.postprocessed(seqs, tokens, at);
    scheduler_laws::scheduling_changes_no_request(state);
    scheduler_laws::scheduling_keeps_the_limits(state);
    let before = state.running + state.waiting;
    let after = now.running + now.waiting;
    assert forall|i: int| 0 <= i < after.len() implies may_go_on(
        #[trigger] after[i],
        now.eos,
    ) by {
        assert(scheduler_laws::requests(after).len() == scheduler_laws::requests(before).len());
        assert(scheduler_laws::requests(after)[i] == scheduler_laws::requests(before)[i]);
        assert(may_go_on(before[i], state.eos));
    }
    let (mid, _) = now.take_tokens(seqs, tokens, at, 0);
    scheduler_proofs::lemma_step_ends(now, seqs, tokens, at);
    scheduler_proofs::lemma_step_answers(now, seqs, tokens, at);
    lemma_limits_kept(now, seqs, tokens, at, 0);
    lemma_sync_limits(mid, grown, 0);
    let end = next.running + next.waiting;
    assert forall|i: int| 0 <= i < end.len() implies may_go_on(#[trigger] end[i], next.eos) by {
        if i >= next.running.len() {
            let w = i - next.running.len();
            assert(after[now.running.len() + w] == end[i]);
        } else {
            let one = next.running[i];
            let q = choose|q: int|
                0 <= q < now.running.len() && scheduler_proofs::carries_on(
                    #[trigger] now.running[q],
                    next.running[i],
                );
            let orig = now.running[q];
            assert(after[q] == orig);
            assert(may_go_on(orig, now.eos));
            assert(next.may_run(next.running[i]));
            if scheduler::ids(seqs).contains(orig.seq_id) {
                let j = choose|j: int|
                    0 <= j < seqs.len() && scheduler::ids(seqs)[j] == orig.seq_id;
                assert(now.running.contains(seqs[j]));
                let r = choose|r: int| 0 <= r < now.running.len() && now.running[r] == seqs[j];
                scheduler_proofs::lemma_running_ids(now, r, q);
                assert(seqs[j] == orig);
                assert(now.may_run(now.running[q]));
                if at.contains(j as usize) {
                    let m = choose|m: int| 0 <= m < at.len() && at[m] == j as usize;
                    a_sequence_ends_when_it_should(now, seqs, tokens, at, m);
                    let p = choose|p: int|
                        {
                            &&& 0 <= p < next.running.len()
                            &&& is_longer_by(seqs[j], #[trigger] next.running[p], tokens[m])
                            &&& next.running[p].status == SequenceStatus::Running
                            &&& next.running[p].table == seqs[j].table
                            &&& next.running[p].num_cached == seqs[j].num_cached + seqs[j].num_new
                            &&& next.running[p].num_new == 0
                        };
                    if grown[j].status == SequenceStatus::Finished {
                        assert(next.running[i].seq_id != orig.seq_id);
                    } else {
                        scheduler_proofs::lemma_running_ids(next, p, i);
                        assert(one.tokens.last() == tokens[m]);
                    }
                } else {
                    an_incomplete_sequence_goes_on(now, seqs, tokens, at, j);
                    let p = choose|p: int|
                        0 <= p < next.running.len() && #[trigger] next.running[p] == (SeqView {
                            num_cached: seqs[j].num_cached + seqs[j].num_new,
                            num_new: 0,
                            ..seqs[j]
                        });
                    scheduler_proofs::lemma_running_ids(next, p, i);
                }
            } else {
                lemma_bystander(now, seqs, tokens, at, q, i);
            }
        }
    }
}

proof fn lemma_limits_kept(
    state: SchedView,
    seqs: Seq<SeqView>,
    tokens: Seq<u32>,
    at: Seq<usize>,
    k: int,
)
    ensures
        state.take_tokens(seqs, tokens, at, k).0.eos == state.eos,
        state.take_tokens(seqs, tokens, at, k).0.max_len == state.max_len,
    decreases at.len() - k,
{
    if k < at.len() {
        let (next, grown) = state.take_token(seqs, at[k] as int, tokens[k]);
        lemma_limits_kept(next, grown, tokens, at, k + 1);
    }
}

proof fn lemma_sync_limits(state: SchedView, seqs: Seq<SeqView>, j: int)
    ensures
        state.sync_all(seqs, j).eos == state.eos,
        state.sync_all(seqs, j).max_len == state.max_len,
    decreases seqs.len() - j,
{
    if j < seqs.len() {
        lemma_sync_limits(state.sync(seqs[j]), seqs, j + 1);
    }
}

/// A running sequence that is not of the step stays as it is.
proof fn lemma_bystander(
    state: SchedView,
    seqs: Seq<SeqView>,
    tokens: Seq<u32>,
    at: Seq<usize>,
    q: int,
    p: int,
)
    requires
        is_run(state, seqs, at),
        0 <= q < state.running.len(),
        !scheduler::ids(seqs).contains(state.running[q].seq_id),
        0 <= p < state.postprocessed(seqs, tokens, at).0.running.len(),
        state.postprocessed(seqs, tokens, at).0.running[p].seq_id == state.running[q].seq_id,
    ensures
        state.postprocessed(seqs, tokens, at).0.running[p] == state.running[q],
{
    let (mid, grown) = state.take_tokens(seqs, tokens, at, 0);
    let next = state.postprocessed(seqs, tokens, at).0;
    scheduler_proofs::lemma_step_ends(state, seqs, tokens, at);
    assert(scheduler_proofs::carries_on(mid.running[p], next.running[p]));
    lemma_comes_from(state, seqs, tokens, at, 0, p);
    let r = choose|r: int| 0 <= r < state.running.len() && state.running[r] == mid.running[p];
    scheduler_proofs::lemma_running_ids(state, r, q);
    assert forall|i: int| 0 <= i < grown.len() implies (#[trigger] grown[i]).seq_id
        != mid.running[p].seq_id by {
        assert(scheduler::ids(grown)[i] == grown[i].seq_id);
        assert(scheduler::ids(seqs)[i] == grown[i].seq_id);
    }
    lemma_sync_keeps(mid, grown, 0, p);
}

proof fn lemma_comes_from(
    state: SchedView,
    seqs: Seq<SeqView>,
    tokens: Seq<u32>,
    at: Seq<usize>,
    k: int,
    p: int,
)
    requires
        0 <= p < state.take_tokens(seqs, tokens, at, k).0.running.len(),
    ensures
        state.running.contains(state.take_tokens(seqs, tokens, at, k).0.running[p]),
    decreases at.len() - k,
{
    if k < at.len() {
        let (next, grown) = state.take_token(seqs, at[k] as int, tokens[k]);
        lemma_comes_from(next, grown, tokens, at, k + 1, p);
        let one = state.take_tokens(seqs, tokens, at, k).0.running[p];
        let r = choose|r: int| 0 <= r < next.running.len() && next.running[r] == one;
        lemma_without_adds_none(state.running, grown[at[k] as int].seq_id, r);
        lemma_without_adds_none(state.running, seqs[at[k] as int].seq_id, r);
    }
}

proof fn lemma_without_adds_none(seqs: Seq<SeqView>, id: usize, p: int)
    ensures
        0 <= p < scheduler::without(seqs, id).len() ==> seqs.contains(
            scheduler::without(seqs, id)[p],
        ),
    decreases seqs.len(),
{
    let less = scheduler::without(seqs, id);
    if 0 <= p < less.len() {
        let rest = seqs.subrange(1, seqs.len() as int);
        if seqs[0].seq_id == id {
            assert(seqs[p + 1] == less[p]);
        } else if p == 0 {
            assert(seqs[0] == less[p]);
        } else {
            lemma_without_adds_none(rest, id, p - 1);
            let r = choose|r: int| 0 <= r < rest.len() && rest[r] == less[p];
            assert(seqs[r + 1] == less[p]);
        }
    }
}

/// What a step hands back is of its finished sequences: of each just one entry, in order, with the
/// id of its request and all the tokens that it has behind its prompt.
pub proof fn finished_sequences_hand_back_their_completions(seqs: Seq<SeqView>)
    ensures
        ({
            let done = seqs.filter(|seq: SeqView| seq.status == SequenceStatus::Finished);
            let outputs = llm_engine::finished_outputs(seqs);
            &&& outputs.len() == done.len()
            &&& forall|k: int|
                0 <= k < done.len() ==> {
                    &&& (#[trigger] outputs[k]).0 == done[k].seq_id
                    &&& outputs[k].1 == done[k].tokens.skip(done[k].num_prompt as int)
                }
        }),
    decreases seqs.len(),
{
    reveal(Seq::filter);
    if seqs.len() > 0 {
        let rest = seqs.drop_last();
        finished_sequences_hand_back_their_completions(rest);
    }
}

} // verus!
