//! What a step makes of the budget, the blocks and the places that there are.
use crate::engine::block_laws;
use crate::engine::block_manager::BmView;
use crate::engine::block_proofs;
use crate::engine::prefix_laws;
use crate::engine::scheduler::{Plan, SchedView};
use crate::engine::scheduler_laws;
use crate::engine::scheduler_proofs;
use crate::engine::sequence;
use crate::engine::sequence::SeqView;
use vstd::prelude::*;

verus! {

/// While budget is left, each sequence of the plan is computed whole; only the last one may be cut,
/// where it takes the rest of the budget.
spec fn is_cut_last(plan: Plan) -> bool {
    forall|k: int|
        0 <= k < plan.picked.len() ==> (#[trigger] plan.picked[k]).num_cached
            + plan.picked[k].num_new == plan.picked[k].num_tokens || {
            &&& plan.state.chunked
            &&& k == plan.picked.len() - 1
            &&& plan.budget == 0
        }
}

/// The sequences that have not had their turn are as they were.
spec fn rest_is_kept(plan: Plan, start: SchedView) -> bool {
    &&& plan.state.running.len() <= start.running.len()
    &&& forall|k: int|
        plan.picked.len() <= k < plan.state.running.len() ==> #[trigger] plan.state.running[k]
            == start.running[k]
}

/// Blocks are short: fewer are free than the last sequence to go had.
spec fn is_short(plan: Plan, start: SchedView) -> bool {
    let r = plan.state.running.len() as int;
    r < start.running.len() ==> {
        ||| plan.state.bm.free.len() < start.running[r].table.len()
        ||| plan.picked.len() == r && plan.state.bm.free.len() * start.bm.block_size
            < start.running[r].num_tokens
    }
}

proof fn lemma_release_bound(bm: BmView, table: Seq<usize>)
    ensures
        bm.release(table).free.len() <= bm.free.len() + table.len(),
    decreases table.len(),
{
    if table.len() > 0 {
        lemma_release_bound(bm.drop_one(table.last()), table.drop_last());
    }
}

/// Where nobody has to go, nothing changes.
proof fn lemma_same_room(state: SchedView, seq: SeqView, new: nat, i: int)
    requires
        state.make_room(seq, new, i).running.len() == state.running.len(),
    ensures
        state.make_room(seq, new, i) == state,
{
    if state.running.len() <= i || state.running.len() == 0 || state.bm.can_append(
        seq.num_cached,
        new,
    ) {
    } else {
        scheduler_proofs::lemma_make_room_len(state.preempt_last(), seq, new, i);
    }
}

/// Where sequences have to go, the last to go was needed.
proof fn lemma_room_is_needed(plan: Plan, start: SchedView, seq: SeqView, new: nat, i: int)
    requires
        scheduler_laws::plan_ok(plan, start),
        i == plan.picked.len(),
    ensures
        ({
            let room = plan.state.make_room(seq, new, i);
            let size = plan.state.bm.block_size as int;
            let need = sequence::ceil_div((seq.num_cached + new) as int, size)
                - sequence::ceil_div(seq.num_cached as int, size);
            room.running.len() < plan.state.running.len() ==> room.bm.free.len() < need
                + plan.state.running[room.running.len() as int].table.len()
        }),
    decreases plan.state.running.len(),
{
    let state = plan.state;
    if state.running.len() <= i || state.running.len() == 0 || state.bm.can_append(
        seq.num_cached,
        new,
    ) {
    } else {
        let next = state.preempt_last();
        scheduler_proofs::lemma_preempt_last(state);
        lemma_release_bound(state.bm, state.running.last().table);
        assert(next.running.take(i) =~= state.running.take(i));
        assert forall|k: int| 0 <= k < next.running.len() implies #[trigger] next.running[k]
            == state.running[k] by {
        }
        let less = Plan { state: next, ..plan };
        assert(scheduler_laws::plan_ok(less, start));
        scheduler_laws::lemma_make_room(less, start, seq, new, i);
        lemma_room_is_needed(less, start, seq, new, i);
        let room = state.make_room(seq, new, i);
        if room.running.len() == next.running.len() {
            lemma_same_room(next, seq, new, i);
            assert(state.running[room.running.len() as int] == state.running.last());
        }
    }
}

proof fn lemma_run(plan: Plan, start: SchedView)
    requires
        scheduler_laws::plan_ok(plan, start),
        is_cut_last(plan),
        rest_is_kept(plan, start),
        is_short(plan, start),
    ensures
        ({
            let ran = plan.run_from(plan.picked.len() as int);
            &&& is_cut_last(ran)
            &&& is_short(ran, start)
            &&& ran.picked.len() < ran.state.running.len() ==> ran.budget == 0
        }),
    decreases plan.state.running.len() - plan.picked.len(),
{
    let i = plan.picked.len() as int;
    let state = plan.state;
    let size = state.bm.block_size as int;
    if i < state.running.len() && plan.budget > 0 {
        let seq = state.running[i];
        let new = state.grant(seq, plan.budget);
        let room = state.make_room(seq, new, i);
        scheduler_laws::lemma_make_room(plan, start, seq, new, i);
        lemma_room_is_needed(plan, start, seq, new, i);
        scheduler_proofs::lemma_grant(state, i, plan.budget);
        let need = sequence::ceil_div((seq.num_cached + new) as int, size) - sequence::ceil_div(
            seq.num_cached as int,
            size,
        );
        assert(state.may_run(seq));
        sequence::lemma_ceil_monotone(
            seq.num_cached as int,
            (seq.num_cached + new) as int,
            size,
        );
        let r = room.running.len() as int;
        if r < state.running.len() {
            assert(state.running[r] == start.running[r]);
        } else {
            lemma_same_room(state, seq, new, i);
        }
        if r > i {
            assert(room.running[i] == seq);
            scheduler_proofs::lemma_append_running(room, i, new);
            scheduler_laws::lemma_disjoint_append(room, i, new);
            let (bm, grown) = room.bm.appended(SeqView { num_new: new, ..seq });
            let next = Plan {
                state: SchedView { bm, running: room.running.update(i, grown), ..room },
                budget: (plan.budget - new) as nat,
                picked: plan.picked.push(grown),
            };
            scheduler_laws::lemma_total_push(plan.picked, grown);
            assert(next.picked =~= next.state.running.take(i + 1));
            scheduler_laws::lemma_append_len(room, i, new);
            assert(scheduler_laws::plan_ok(next, start));
            lemma_append_free(room, i, new);
            assert(is_cut_last(next)) by {
                assert forall|k: int| 0 <= k < next.picked.len() implies (
                #[trigger] next.picked[k]).num_cached + next.picked[k].num_new
                    == next.picked[k].num_tokens || {
                    &&& next.state.chunked
                    &&& k == next.picked.len() - 1
                    &&& next.budget == 0
                } by {
                    if k < i {
                        assert(next.picked[k] == plan.picked[k]);
                    }
                }
            }
            assert(rest_is_kept(next, start)) by {
                assert forall|k: int|
                    next.picked.len() <= k
                        < next.state.running.len() implies #[trigger] next.state.running[k]
                    == start.running[k] by {
                    assert(room.running[k] == state.running[k]);
                    assert(state.running[k] == start.running[k]);
                }
            }
            assert(is_short(next, start));
            lemma_run(next, start);
        } else {
            assert(r == i);
            assert(seq == start.running[i]);
            let ran = Plan { state: room, ..plan };
            let free = room.bm.free.len() as int;
            let blocks = sequence::ceil_div((seq.num_cached + new) as int, size);
            sequence::lemma_ceil_div((seq.num_cached + new) as int, size);
            assert(seq.table.len() == sequence::ceil_div(seq.num_cached as int, size));
            assert(free * size < seq.num_tokens) by (nonlinear_arith)
                requires
                    free + 1 <= blocks,
                    blocks * size < seq.num_cached + new + size,
                    seq.num_cached + new <= seq.num_tokens,
                    size > 0,
            ;
            assert(is_short(ran, start));
            assert(is_cut_last(ran));
        }
    }
}

proof fn lemma_append_free(state: SchedView, i: int, new: nat)
    requires
        state.wf(),
        0 <= i < state.running.len(),
        state.running[i].num_new == 0,
        state.running[i].num_cached + new <= state.running[i].num_tokens,
        state.bm.can_append(state.running[i].num_cached, new),
    ensures
        ({
            let seq = state.running[i];
            let size = state.bm.block_size as int;
            let bm = state.bm.appended(SeqView { num_new: new, ..seq }).0;
            bm.free.len() == state.bm.free.len() - (sequence::ceil_div(
                (seq.num_cached + new) as int,
                size,
            ) - sequence::ceil_div(seq.num_cached as int, size))
        }),
{
    let seq = SeqView { num_new: new, ..state.running[i] };
    let size = state.bm.block_size as int;
    let first = seq.num_cached as int / size;
    assert(state.may_run(state.running[i]));
    assert(state.may_resume(state.running[i]));
    sequence::lemma_floor_div(seq.num_cached as int, size);
    sequence::lemma_ceil_monotone(seq.num_cached as int, seq.context() as int, size);
    if seq.num_cached as int % size != 0 {
        scheduler_proofs::lemma_last_block(state, i);
        assert(seq.table[first] == seq.table.last());
    }
    block_proofs::lemma_append_from(state.bm, seq, first, seq.table);
}

/// The queue is stopped: nobody waits, or the budget, the places or the blocks have run out.
spec fn is_stopped(plan: Plan) -> bool {
    let state = plan.state;
    let layout = state.bm.token_layout(state.waiting[0]);
    let wanted = if state.chunked && plan.budget < layout.2 {
        plan.budget as int
    } else {
        layout.2
    };
    ||| state.waiting.len() == 0
    ||| plan.budget == 0
    ||| state.running.len() >= state.max_seqs
    ||| wanted > plan.budget
    ||| state.bm.free.len() < sequence::ceil_div(
        layout.1 + wanted,
        state.bm.block_size as int,
    )
}

proof fn lemma_let_in(plan: Plan, start: SchedView)
    requires
        scheduler_laws::plan_ok(plan, start),
        plan.budget > 0 ==> plan.picked.len() == plan.state.running.len(),
        plan.state.fits(),
        is_cut_last(plan),
    ensures
        is_cut_last(plan.let_in()),
        is_stopped(plan.let_in()),
        plan.let_in().picked.len() < plan.let_in().state.running.len() ==> plan.let_in().budget
            == 0,
    decreases plan.state.waiting.len(),
{
    let state = plan.state;
    if state.waiting.len() == 0 || plan.budget == 0 || state.running.len() >= state.max_seqs {
    } else {
        let seq = state.waiting[0];
        let layout = state.bm.token_layout(seq);
        let new = if state.chunked && plan.budget < layout.2 {
            plan.budget as int
        } else {
            layout.2
        };
        assert(state.may_wait(seq));
        block_laws::layout_accounts_for_every_token(state.bm, seq);
        if new > plan.budget || state.bm.free.len() < sequence::ceil_div(
            layout.1 + new,
            state.bm.block_size as int,
        ) {
        } else {
            scheduler_proofs::lemma_start(state, new as nat);
            scheduler_laws::lemma_disjoint_start(state, new as nat);
            let (next, started) = state.start_first(new as nat);
            let more = Plan {
                state: next,
                budget: (plan.budget - new) as nat,
                picked: plan.picked.push(started),
            };
            scheduler_laws::lemma_total_push(plan.picked, started);
            assert(plan.picked =~= state.running);
            assert(more.picked =~= next.running);
            assert(more.picked =~= next.running.take(next.running.len() as int));
            assert forall|k: int| 0 <= k < next.running.len() implies (
            #[trigger] next.running[k]).num_new > 0 by {
                if k < state.running.len() {
                    assert(next.running[k] == state.running[k]);
                }
            }
            assert(scheduler_laws::plan_ok(more, start));
            block_laws::layout_foretells_allocation(
                state.bm,
                SeqView { num_new: new as nat, ..seq },
            );
            scheduler_proofs::lemma_same_layout(
                state.bm,
                seq,
                SeqView { num_new: new as nat, ..seq },
            );
            assert(is_cut_last(more)) by {
                assert forall|k: int| 0 <= k < more.picked.len() implies (
                #[trigger] more.picked[k]).num_cached + more.picked[k].num_new
                    == more.picked[k].num_tokens || {
                    &&& more.state.chunked
                    &&& k == more.picked.len() - 1
                    &&& more.budget == 0
                } by {
                    if k < plan.picked.len() {
                        assert(more.picked[k] == plan.picked[k]);
                    }
                }
            }
            lemma_let_in(more, start);
        }
    }
}

proof fn lemma_plan(state: SchedView)
    requires
        scheduler_laws::is_ready(state),
    ensures
        is_cut_last(state.scheduled()),
        state.scheduled().state.running.len() < state.running.len() ==> is_short(
            state.scheduled(),
            state,
        ),
        state.scheduled().state.running.len() >= state.running.len() ==> is_stopped(
            state.scheduled(),
        ),
        state.scheduled().picked.len() < state.scheduled().state.running.len()
            ==> state.scheduled().budget == 0,
{
    let start = state.start();
    assert(start.picked =~= state.running.take(0));
    scheduler_laws::lemma_disjoint_at_rest(state);
    assert(scheduler_laws::plan_ok(start, state));
    scheduler_laws::lemma_scheduled(state);
    scheduler_laws::lemma_run_from(start, state);
    lemma_run(start, state);
    let ran = start.run_from(0);
    assert(ran.state.fits()) by {
        assert(crate::engine::scheduler::ids(ran.state.running + ran.state.waiting).len()
            == ran.state.running.len() + ran.state.waiting.len());
        assert(crate::engine::scheduler::ids(state.running + state.waiting).len()
            == state.running.len() + state.waiting.len());
    }
    if ran.state.running.len() < state.running.len() {
    } else {
        lemma_let_in(ran, state);
        scheduler_laws::lemma_let_in(ran, state);
        lemma_let_in_grows(ran);
    }
}

proof fn lemma_let_in_grows(plan: Plan)
    ensures
        plan.let_in().state.running.len() >= plan.state.running.len(),
    decreases plan.state.waiting.len(),
{
    let state = plan.state;
    if state.waiting.len() == 0 || plan.budget == 0 || state.running.len() >= state.max_seqs {
    } else {
        let layout = state.bm.token_layout(state.waiting[0]);
        let new = if state.chunked && plan.budget < layout.2 {
            plan.budget as int
        } else {
            layout.2
        };
        if new > plan.budget || state.bm.free.len() < sequence::ceil_div(
            layout.1 + new,
            state.bm.block_size as int,
        ) {
        } else {
            let (next, started) = state.start_first(new as nat);
            lemma_let_in_grows(
                Plan {
                    state: next,
                    budget: (plan.budget - new) as nat,
                    picked: plan.picked.push(started),
                },
            );
        }
    }
}

/// Nobody waits without need: if no sequence had to go and one still waits, then the budget is used
/// up, or as many sequences run as may, or the first that waits needs more tokens than the budget
/// has left, or more blocks than are free. Of that sequence the first `n` blocks are in the cache;
/// it needs those of them that nobody holds, and blocks for the tokens behind them, all of them or,
/// where prompts are cut, as many as the budget has left.
pub proof fn admission_is_maximal(state: SchedView, n: nat)
    requires
        scheduler_laws::is_ready(state),
        state.scheduled().state.running.len() >= state.running.len(),
        state.scheduled().state.waiting.len() > 0,
        prefix_laws::are_there(
            state.scheduled().state.bm,
            state.scheduled().state.waiting[0],
            n as int,
        ),
    ensures
        ({
            let plan = state.scheduled();
            let bm = plan.state.bm;
            let size = bm.block_size as int;
            let first = plan.state.waiting[0];
            let left = state.max_batched - scheduler_laws::total_new(plan.picked);
            let behind = first.tokens.len() - n * size;
            let wanted = if state.chunked && left < behind {
                left
            } else {
                behind
            };
            ||| left == 0
            ||| plan.state.running.len() == state.max_seqs
            ||| wanted > left
            ||| bm.free.len() * size < (n - prefix_laws::held_places(bm, first, n)) * size + wanted
        }),
{
    let plan = state.scheduled();
    let bm = plan.state.bm;
    let size = bm.block_size as int;
    let first = plan.state.waiting[0];
    lemma_plan(state);
    scheduler_laws::lemma_scheduled(state);
    scheduler_laws::scheduling_keeps_the_limits(state);
    assert(plan.state.may_wait(plan.state.waiting[0]));
    prefix_laws::the_layout_counts_what_is_there(bm, first, n);
    block_laws::layout_accounts_for_every_token(bm, first);
    let layout = bm.token_layout(first);
    let wanted = if plan.state.chunked && plan.budget < layout.2 {
        plan.budget as int
    } else {
        layout.2
    };
    let x = layout.1 + wanted;
    let free = bm.free.len() as int;
    sequence::lemma_ceil_div(x, size);
    let c = sequence::ceil_div(x, size);
    if free < c {
        assert(free * size < x) by (nonlinear_arith)
            requires
                free + 1 <= c,
                c * size < x + size,
                size > 0,
        ;
    }
}

/// Whoever runs is computed as far as the budget goes: each sequence of the step is computed to its
/// last token, but for the last of the step, which may be cut where prompts may be and then takes
/// what was left of the budget; and a running sequence is passed over only where the budget is used
/// up.
pub proof fn the_budget_goes_to_whoever_runs(state: SchedView)
    requires
        scheduler_laws::is_ready(state),
    ensures
        ({
            let plan = state.scheduled();
            let total = scheduler_laws::total_new(plan.picked);
            &&& forall|k: int|
                0 <= k < plan.picked.len() ==> (#[trigger] plan.picked[k]).num_cached
                    + plan.picked[k].num_new == plan.picked[k].tokens.len() || {
                    &&& state.chunked
                    &&& k == plan.picked.len() - 1
                    &&& total == state.max_batched
                }
            &&& plan.picked.len() < plan.state.running.len() ==> total == state.max_batched
        }),
{
    lemma_plan(state);
    scheduler_laws::lemma_scheduled(state);
    let plan = state.scheduled();
    assert forall|k: int| 0 <= k < plan.picked.len() implies (#[trigger] plan.picked[k]).num_cached
        + plan.picked[k].num_new == plan.picked[k].tokens.len() || {
        &&& state.chunked
        &&& k == plan.picked.len() - 1
        &&& scheduler_laws::total_new(plan.picked) == state.max_batched
    } by {
        assert(plan.picked[k] == plan.state.running[k]);
        assert(plan.state.may_run(plan.state.running[k]));
    }
}

/// Nobody goes without need: where sequences had to give up their blocks, fewer blocks are free
/// after the step than the last of them to go had, or it was its own turn and all that are free do
/// not suffice for it.
pub proof fn nobody_is_preempted_without_need(state: SchedView)
    requires
        scheduler_laws::is_ready(state),
        state.scheduled().state.running.len() < state.running.len(),
    ensures
        ({
            let plan = state.scheduled();
            let r = plan.state.running.len() as int;
            let free = plan.state.bm.free.len();
            ||| free < state.running[r].table.len()
            ||| plan.picked.len() == r && free * state.bm.block_size
                < state.running[r].tokens.len()
        }),
{
    lemma_plan(state);
    let r = state.scheduled().state.running.len() as int;
    assert(state.may_run(state.running[r]));
}

} // verus!
