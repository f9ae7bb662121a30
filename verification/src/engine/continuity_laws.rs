//! A sequence that runs goes on where it was: what has been computed of it is not lost.
use crate::engine::block_manager::BmView;
use crate::engine::scheduler;
use crate::engine::scheduler::{Plan, SchedView};
use crate::engine::scheduler_laws;
use crate::engine::scheduler_proofs;
use crate::engine::sequence;
use crate::engine::sequence::SeqView;
use vstd::prelude::*;

verus! {

/// `now` is sequence `was` with blocks at the end, if any: as much of it has been computed.
pub open spec fn goes_on(was: SeqView, now: SeqView) -> bool {
    &&& now.seq_id == was.seq_id
    &&& now.tokens == was.tokens
    &&& now.num_cached == was.num_cached
    &&& was.table.len() <= now.table.len()
    &&& now.table.take(was.table.len() as int) == was.table
}

/// Whoever runs in both states, at the same place, goes on.
pub open spec fn all_go_on(was: SchedView, now: SchedView) -> bool {
    forall|k: int|
        0 <= k < was.running.len() && k < now.running.len() ==> goes_on(
            #[trigger] was.running[k],
            now.running[k],
        )
}

proof fn lemma_append(bm: BmView, seq: SeqView, i: int, table: Seq<usize>)
    ensures
        table.len() <= bm.append_from(seq, i, table).1.len(),
        bm.append_from(seq, i, table).1.take(table.len() as int) == table,
    decreases seq.context_blocks() - i,
{
    if i < seq.context_blocks() {
        let (next, longer) = bm.append_block(seq, i, table);
        lemma_append(next, seq, i + 1, longer);
        let end = bm.append_from(seq, i, table).1;
        assert(longer.take(table.len() as int) =~= table);
        assert(end.take(table.len() as int) =~= end.take(longer.len() as int).take(
            table.len() as int,
        ));
    } else {
        assert(table.take(table.len() as int) =~= table);
    }
}

proof fn lemma_run(plan: Plan, start: SchedView)
    requires
        scheduler_laws::plan_ok(plan, start),
        all_go_on(start, plan.state),
        plan.state.running.len() <= start.running.len(),
    ensures
        all_go_on(start, plan.run_from(plan.picked.len() as int).state),
        plan.run_from(plan.picked.len() as int).state.running.len() <= start.running.len(),
    decreases plan.state.running.len() - plan.picked.len(),
{
    let i = plan.picked.len() as int;
    let state = plan.state;
    if i < state.running.len() && plan.budget > 0 {
        let seq = state.running[i];
        let new = state.grant(seq, plan.budget);
        let room = state.make_room(seq, new, i);
        scheduler_laws::lemma_make_room(plan, start, seq, new, i);
        assert forall|k: int|
            0 <= k < start.running.len() && k < room.running.len() implies goes_on(
            #[trigger] start.running[k],
            room.running[k],
        ) by {
            assert(room.running[k] == state.running[k]);
        }
        if room.running.len() > i {
            assert(room.running[i] == seq);
            scheduler_proofs::lemma_grant(state, i, plan.budget);
            scheduler_proofs::lemma_append_running(room, i, new);
            scheduler_laws::lemma_disjoint_append(room, i, new);
            let asked = SeqView { num_new: new, ..seq };
            let (bm, grown) = room.bm.appended(asked);
            lemma_append(
                room.bm,
                asked,
                asked.num_cached as int / room.bm.block_size as int,
                asked.table,
            );
            let next = Plan {
                state: SchedView { bm, running: room.running.update(i, grown), ..room },
                budget: (plan.budget - new) as nat,
                picked: plan.picked.push(grown),
            };
            scheduler_laws::lemma_total_push(plan.picked, grown);
            assert(next.picked =~= next.state.running.take(i + 1));
            scheduler_laws::lemma_append_len(room, i, new);
            assert(scheduler_laws::plan_ok(next, start));
            assert forall|k: int|
                0 <= k < start.running.len() && k < next.state.running.len() implies goes_on(
                #[trigger] start.running[k],
                next.state.running[k],
            ) by {
                assert(goes_on(start.running[k], room.running[k]));
                if k == i {
                    let was = start.running[k];
                    assert(grown.table.take(was.table.len() as int) =~= grown.table.take(
                        seq.table.len() as int,
                    ).take(was.table.len() as int));
                }
            }
            lemma_run(next, start);
        }
    }
}

proof fn lemma_let_in(plan: Plan)
    ensures
        plan.state.running.len() <= plan.let_in().state.running.len(),
        plan.let_in().state.running.take(plan.state.running.len() as int) == plan.state.running,
    decreases plan.state.waiting.len(),
{
    let state = plan.state;
    assert(state.running.take(state.running.len() as int) =~= state.running);
    if state.waiting.len() == 0 || plan.budget == 0 || state.running.len() >= state.max_seqs {
    } else {
        let seq = state.waiting[0];
        let layout = state.bm.token_layout(seq);
        let new = if state.chunked && plan.budget < layout.2 {
            plan.budget as int
        } else {
            layout.2
        };
        if new > plan.budget || state.bm.free.len() < sequence::ceil_div(
            layout.1 + new,
            state.bm.block_size as int,
        ) {
        } else {
            let (next, started) = state.start_first(new as nat);
            let more = Plan {
                state: next,
                budget: (plan.budget - new) as nat,
                picked: plan.picked.push(started),
            };
            lemma_let_in(more);
            let end = plan.let_in().state.running;
            assert(next.running.take(state.running.len() as int) =~= state.running);
            assert(end.take(state.running.len() as int) =~= end.take(
                next.running.len() as int,
            ).take(state.running.len() as int));
        }
    }
}

/// A sequence that runs and is not preempted goes on where it was: it keeps its place, what has
/// been computed of it and the blocks that hold it. And where somebody is preempted, nobody is let
/// in.
pub proof fn whoever_is_kept_goes_on(state: SchedView)
    requires
        scheduler_laws::is_ready(state),
    ensures
        all_go_on(state, state.scheduled().state),
        state.scheduled().state.running.len() < state.running.len()
            ==> state.scheduled().state.waiting.len() > state.waiting.len(),
        state.scheduled().state.running.len() >= state.running.len()
            ==> state.scheduled().state.waiting.len() <= state.waiting.len(),
{
    let start = state.start();
    assert(start.picked =~= state.running.take(0));
    scheduler_laws::lemma_disjoint_at_rest(state);
    assert(scheduler_laws::plan_ok(start, state));
    assert forall|k: int| 0 <= k < state.running.len() implies goes_on(
        #[trigger] state.running[k],
        state.running[k],
    ) by {
        let table = state.running[k].table;
        assert(table.take(table.len() as int) =~= table);
    }
    lemma_run(start, state);
    let ran = start.run_from(0);
    if ran.state.running.len() >= state.running.len() {
        lemma_let_in(ran);
        let end = ran.let_in().state;
        assert forall|k: int|
            0 <= k < state.running.len() && k < end.running.len() implies goes_on(
            #[trigger] state.running[k],
            end.running[k],
        ) by {
            assert(goes_on(state.running[k], ran.state.running[k]));
            assert(end.running.take(ran.state.running.len() as int)[k] == end.running[k]);
        }
    }
    scheduler_laws::scheduling_keeps_the_order(state);
    let end = state.scheduled().state;
    assert(scheduler::ids(end.running + end.waiting).len() == end.running.len()
        + end.waiting.len());
    assert(scheduler::ids(state.running + state.waiting).len() == state.running.len()
        + state.waiting.len());
}

/// Whoever is preempted gives up all blocks and starts anew when its turn comes; its tokens, those
/// that were generated too, are kept.
pub proof fn whoever_is_preempted_starts_anew(state: SchedView)
    requires
        state.wf(),
        state.running.len() > 0,
    ensures
        ({
            let next = state.preempt_last();
            let was = state.running.last();
            let now = next.waiting[0];
            &&& next.running == state.running.drop_last()
            &&& next.waiting.skip(1) == state.waiting
            &&& next.waiting.len() == state.waiting.len() + 1
            &&& now.seq_id == was.seq_id
            &&& now.tokens == was.tokens
            &&& now.num_tokens == was.num_tokens
            &&& now.num_prompt == was.num_prompt
            &&& now.max_tokens == was.max_tokens
            &&& now.ignore_eos == was.ignore_eos
            &&& now.temperature == was.temperature
            &&& now.num_cached == 0
            &&& now.num_new == 0
            &&& now.table.len() == 0
        }),
{
    let next = state.preempt_last();
    assert(next.waiting.skip(1) =~= state.waiting);
    assert(next.running =~= state.running.drop_last());
}

} // verus!
