//! What holds of every step of the scheduler.
use crate::engine::block_laws;
use crate::engine::block_manager;
use crate::engine::block_proofs;
use crate::engine::scheduler;
use crate::engine::scheduler::{Plan, SchedView};
use crate::engine::scheduler_proofs;
use crate::engine::sequence;
use crate::engine::sequence::{SeqView, SequenceStatus};
use vstd::prelude::*;

verus! {

/// The tokens that the sequences of `seqs` compute in this step, all together.
pub open spec fn total_new(seqs: Seq<SeqView>) -> nat
    decreases seqs.len(),
{
    if seqs.len() == 0 {
        0
    } else {
        total_new(seqs.drop_last()) + seqs.last().num_new
    }
}

/// Two states have the same limits and the same number of blocks.
pub open spec fn same_limits(a: SchedView, b: SchedView) -> bool {
    &&& a.chunked == b.chunked
    &&& a.max_len == b.max_len
    &&& a.max_seqs == b.max_seqs
    &&& a.max_batched == b.max_batched
    &&& a.eos == b.eos
    &&& a.bm.block_size == b.bm.block_size
    &&& a.bm.blocks.len() == b.bm.blocks.len()
}

/// Place `i` of the table of `seq` is one that this step, or a later one, writes to.
pub open spec fn is_written(seq: SeqView, i: int) -> bool {
    seq.num_cached as int / seq.block_size as int <= i < seq.table.len()
}

/// No block is written to in two places, of one running sequence or of two.
pub open spec fn writes_are_disjoint(running: Seq<SeqView>) -> bool {
    forall|p: int, i: int, q: int, j: int|
        0 <= p < running.len() && 0 <= q < running.len() && #[trigger] is_written(running[p], i)
            && #[trigger] is_written(running[q], j) && (p != q || i != j) ==> running[p].table[i]
            != running[q].table[j]
}

/// What holds of a plan while it is made from `start`.
pub open spec fn plan_ok(plan: Plan, start: SchedView) -> bool {
    let n = plan.picked.len() as int;
    let running = plan.state.running;
    &&& plan.state.wf()
    &&& same_limits(plan.state, start)
    &&& scheduler::ids(running + plan.state.waiting) == scheduler::ids(
        start.running + start.waiting,
    )
    &&& n <= running.len()
    &&& plan.picked == running.take(n)
    &&& forall|k: int| 0 <= k < n ==> (#[trigger] running[k]).num_new > 0
    &&& forall|k: int| n <= k < running.len() ==> (#[trigger] running[k]).num_new == 0
    &&& total_new(plan.picked) + plan.budget == start.max_batched
    &&& writes_are_disjoint(running)
}

/// Before the step every running sequence writes at most to its open block.
pub proof fn lemma_disjoint_at_rest(state: SchedView)
    requires
        state.wf(),
        state.idle(),
    ensures
        writes_are_disjoint(state.running),
{
    let running = state.running;
    let size = state.bm.block_size as int;
    assert forall|p: int, i: int, q: int, j: int|
        0 <= p < running.len() && 0 <= q < running.len() && #[trigger] is_written(running[p], i)
            && #[trigger] is_written(running[q], j) && (p != q || i != j) implies running[p].table[i]
        != running[q].table[j] by {
        assert(state.may_run(running[p]));
        assert(state.may_run(running[q]));
        assert(state.may_resume(running[p]));
        assert(running[p].num_new == 0);
        assert(running[q].num_new == 0);
        sequence::lemma_floor_div(running[p].num_cached as int, size);
        sequence::lemma_floor_div(running[q].num_cached as int, size);
        assert(i == running[p].table.len() - 1);
        assert(j == running[q].table.len() - 1);
        assert(p != q);
        let b = running[p].table.last();
        if running[q].table.last() == b {
            scheduler_proofs::lemma_count_last(running[p].table);
            scheduler_proofs::lemma_count_last(running[q].table);
            scheduler_proofs::lemma_holders_two(running, p, q, b as int);
            scheduler_proofs::lemma_last_block(state, p);
            assert(state.bm.blocks[b as int].ref_count == scheduler::holders(running, b as int));
        }
    }
}

/// A block that a running sequence has in its table is held.
proof fn lemma_held(state: SchedView, p: int, i: int)
    requires
        state.wf(),
        0 <= p < state.running.len(),
        0 <= i < state.running[p].table.len(),
    ensures
        state.running[p].table[i] < state.bm.blocks.len(),
        state.bm.blocks[state.running[p].table[i] as int].ref_count > 0,
{
    let table = state.running[p].table;
    let b = table[i];
    assert(state.may_run(state.running[p]));
    assert(table.contains(b));
    block_proofs::lemma_count_contains(table, b);
    scheduler_proofs::lemma_holders_remove(state.running, p, b as int);
    assert(state.bm.blocks[b as int].ref_count == scheduler::holders(state.running, b as int));
}

/// One more sequence, with its tokens.
pub proof fn lemma_total_push(seqs: Seq<SeqView>, seq: SeqView)
    ensures
        total_new(seqs.push(seq)) == total_new(seqs) + seq.num_new,
{
    assert(seqs.push(seq).drop_last() =~= seqs);
}

/// Preemption keeps the plan.
pub proof fn lemma_make_room(plan: Plan, start: SchedView, seq: SeqView, new: nat, i: int)
    requires
        plan_ok(plan, start),
        i == plan.picked.len(),
    ensures
        ({
            let room = plan.state.make_room(seq, new, i);
            &&& plan_ok((Plan { state: room, ..plan }), start)
            &&& room.running == plan.state.running.take(room.running.len() as int)
            &&& room.running.len() <= plan.state.running.len()
            &&& room.running.len() > i ==> room.bm.can_append(seq.num_cached, new)
        }),
    decreases plan.state.running.len(),
{
    let state = plan.state;
    assert(state.running.take(state.running.len() as int) =~= state.running);
    if state.running.len() <= i || state.running.len() == 0 || state.bm.can_append(
        seq.num_cached,
        new,
    ) {
    } else {
        let next = state.preempt_last();
        scheduler_proofs::lemma_preempt_last(state);
        assert(next.running.take(i) =~= state.running.take(i));
        assert forall|k: int| 0 <= k < next.running.len() implies #[trigger] next.running[k]
            == state.running[k] by {
        }
        assert(writes_are_disjoint(next.running));
        let less = Plan { state: next, ..plan };
        lemma_make_room(less, start, seq, new, i);
        let room = state.make_room(seq, new, i);
        assert(next.running.take(room.running.len() as int) =~= state.running.take(
            room.running.len() as int,
        ));
    }
}

/// A running sequence writes only to blocks of its own once it has been given blocks.
pub proof fn lemma_disjoint_append(state: SchedView, i: int, new: nat)
    requires
        state.wf(),
        0 <= i < state.running.len(),
        state.running[i].num_new == 0,
        new > 0,
        state.running[i].num_cached + new <= state.running[i].num_tokens,
        !state.chunked ==> state.running[i].num_cached + new == state.running[i].num_tokens,
        state.bm.can_append(state.running[i].num_cached, new),
        writes_are_disjoint(state.running),
    ensures
        writes_are_disjoint(
            state.running.update(
                i,
                state.bm.appended(SeqView { num_new: new, ..state.running[i] }).1,
            ),
        ),
{
    let old_seq = state.running[i];
    let seq = SeqView { num_new: new, ..old_seq };
    let size = state.bm.block_size as int;
    let first = seq.num_cached as int / size;
    let grown = state.bm.appended(seq).1;
    let running = state.running.update(i, grown);
    let n = seq.table.len() as int;
    assert(state.may_run(old_seq));
    assert(state.may_resume(old_seq));
    sequence::lemma_floor_div(seq.num_cached as int, size);
    sequence::lemma_ceil_monotone(seq.num_cached as int, seq.context() as int, size);
    if seq.num_cached as int % size != 0 {
        scheduler_proofs::lemma_last_block(state, i);
        assert(seq.table[first] == seq.table.last());
    }
    block_proofs::lemma_append_from(state.bm, seq, first, seq.table);
    assert forall|k: int| 0 <= k < n implies #[trigger] grown.table[k] == old_seq.table[k] by {
        assert(grown.table[k] == grown.table.take(n)[k]);
    }
    assert forall|p: int, a: int, q: int, b: int|
        0 <= p < running.len() && 0 <= q < running.len() && #[trigger] is_written(running[p], a)
            && #[trigger] is_written(running[q], b) && (p != q || a != b) implies running[p].table[a]
        != running[q].table[b] by {
        let fresh_a = p == i && a >= n;
        let fresh_b = q == i && b >= n;
        if !fresh_a {
            lemma_held(state, p, a);
            assert(is_written(state.running[p], a));
        }
        if !fresh_b {
            lemma_held(state, q, b);
            assert(is_written(state.running[q], b));
        }
        if fresh_a {
            assert(state.bm.blocks[grown.table[a] as int].ref_count == 0);
        }
        if fresh_b {
            assert(state.bm.blocks[grown.table[b] as int].ref_count == 0);
        }
        if fresh_a && fresh_b {
            lemma_fresh_are_distinct(state.bm, seq, first, a, b);
        }
    }
}

/// The blocks that an append takes are all different.
proof fn lemma_fresh_are_distinct(
    bm: block_manager::BmView,
    seq: SeqView,
    first: int,
    a: int,
    b: int,
)
    requires
        bm.wf(),
        bm.block_size > 0,
        seq.block_size == bm.block_size,
        0 <= first <= seq.context_blocks(),
        first <= seq.table.len() <= first + 1,
        seq.table.len() <= seq.context_blocks(),
        forall|j: int| 0 <= j < seq.table.len() ==> (#[trigger] seq.table[j]) < bm.blocks.len(),
        first < seq.table.len() ==> bm.is_open(seq.table[first])
            && bm.blocks[seq.table[first] as int].ref_count == 1,
        bm.free.len() >= seq.context_blocks() - seq.table.len(),
        seq.table.len() <= a < seq.context_blocks(),
        seq.table.len() <= b < seq.context_blocks(),
        a != b,
    ensures
        bm.append_from(seq, first, seq.table).1[a] != bm.append_from(seq, first, seq.table).1[b],
{
    block_proofs::lemma_append_from(bm, seq, first, seq.table);
    let (next, table) = bm.append_from(seq, first, seq.table);
    let x = table[a];
    if table[b] == x {
        assert(next.blocks[x as int].ref_count == 1);
        assert(bm.blocks[x as int].ref_count == 0);
        lemma_count_rest(table, seq.table, a, b);
        assert(next.blocks[x as int].ref_count + block_manager::count_of(seq.table, x as int)
            == bm.blocks[x as int].ref_count + block_manager::count_of(table, x as int));
    }
}

/// An entry that stands twice behind the head of a table is counted twice more than there.
proof fn lemma_count_rest(table: Seq<usize>, head: Seq<usize>, a: int, b: int)
    requires
        head.len() <= a < table.len(),
        head.len() <= b < table.len(),
        a != b,
        table[a] == table[b],
        table.take(head.len() as int) == head,
    ensures
        block_manager::count_of(table, table[a] as int) >= block_manager::count_of(
            head,
            table[a] as int,
        ) + 2,
    decreases table.len(),
{
    let x = table[a];
    let n = head.len() as int;
    let rest = table.drop_last();
    let last = table.len() - 1;
    assert(rest.take(n) =~= head);
    if a == last {
        lemma_count_rest_one(rest, head, b);
    } else if b == last {
        lemma_count_rest_one(rest, head, a);
    } else {
        lemma_count_rest(rest, head, a, b);
    }
}

proof fn lemma_count_rest_one(table: Seq<usize>, head: Seq<usize>, a: int)
    requires
        head.len() <= a < table.len(),
        table.take(head.len() as int) == head,
    ensures
        block_manager::count_of(table, table[a] as int) >= block_manager::count_of(
            head,
            table[a] as int,
        ) + 1,
    decreases table.len(),
{
    let n = head.len() as int;
    let rest = table.drop_last();
    assert(rest.take(n) =~= head);
    if a == table.len() - 1 {
        lemma_count_head(rest, head, table[a] as int);
    } else {
        lemma_count_rest_one(rest, head, a);
    }
}

proof fn lemma_count_head(table: Seq<usize>, head: Seq<usize>, x: int)
    requires
        head.len() <= table.len(),
        table.take(head.len() as int) == head,
    ensures
        block_manager::count_of(table, x) >= block_manager::count_of(head, x),
    decreases table.len(),
{
    if head.len() < table.len() {
        assert(table.drop_last().take(head.len() as int) =~= head);
        lemma_count_head(table.drop_last(), head, x);
    } else {
        assert(table.take(head.len() as int) =~= table);
    }
}

/// The running sequences are granted their tokens.
pub proof fn lemma_run_from(plan: Plan, start: SchedView)
    requires
        plan_ok(plan, start),
    ensures
        ({
            let ran = plan.run_from(plan.picked.len() as int);
            &&& plan_ok(ran, start)
            &&& ran.state.running.len() <= plan.state.running.len()
            &&& ran.state.running.len() == plan.state.running.len() && ran.budget > 0
                ==> ran.picked.len() == ran.state.running.len()
            &&& ran.picked.len() >= plan.picked.len()
            &&& ran.picked.take(plan.picked.len() as int) == plan.picked
        }),
    decreases plan.state.running.len() - plan.picked.len(),
{
    let i = plan.picked.len() as int;
    let state = plan.state;
    if i < state.running.len() && plan.budget > 0 {
        let seq = state.running[i];
        let new = state.grant(seq, plan.budget);
        let room = state.make_room(seq, new, i);
        lemma_make_room(plan, start, seq, new, i);
        if room.running.len() > i {
            assert(room.running[i] == seq);
            scheduler_proofs::lemma_grant(state, i, plan.budget);
            scheduler_proofs::lemma_append_running(room, i, new);
            lemma_disjoint_append(room, i, new);
            let (bm, grown) = room.bm.appended(SeqView { num_new: new, ..seq });
            let next = Plan {
                state: SchedView { bm, running: room.running.update(i, grown), ..room },
                budget: (plan.budget - new) as nat,
                picked: plan.picked.push(grown),
            };
            lemma_total_push(plan.picked, grown);
            assert(next.picked =~= next.state.running.take(i + 1));
            lemma_append_len(room, i, new);
            assert(plan_ok(next, start));
            lemma_run_from(next, start);
            let ran = plan.run_from(i);
            assert(ran.picked.take(i) =~= ran.picked.take(i + 1).take(i));
            assert(next.picked.take(i) =~= plan.picked);
        } else {
            assert(plan.picked.take(i) =~= plan.picked);
        }
    } else {
        assert(plan.picked.take(i) =~= plan.picked);
    }
}

/// An append makes no blocks.
pub proof fn lemma_append_len(state: SchedView, i: int, new: nat)
    requires
        state.wf(),
        0 <= i < state.running.len(),
        state.running[i].num_new == 0,
        state.running[i].num_cached + new <= state.running[i].num_tokens,
        state.bm.can_append(state.running[i].num_cached, new),
    ensures
        ({
            let bm = state.bm.appended(SeqView { num_new: new, ..state.running[i] }).0;
            bm.blocks.len() == state.bm.blocks.len() && bm.block_size == state.bm.block_size
        }),
{
    let seq = SeqView { num_new: new, ..state.running[i] };
    let size = state.bm.block_size as int;
    let first = seq.num_cached as int / size;
    assert(state.may_run(state.running[i]));
    assert(state.may_resume(state.running[i]));
    sequence::lemma_floor_div(seq.num_cached as int, size);
    sequence::lemma_ceil_monotone(seq.num_cached as int, seq.context() as int, size);
    if seq.num_cached as int % size != 0 {
        scheduler_proofs::lemma_last_block(state, i);
        assert(seq.table[first] == seq.table.last());
    }
    block_proofs::lemma_append_from(state.bm, seq, first, seq.table);
}

/// A sequence that starts writes only to blocks that nobody held.
pub proof fn lemma_disjoint_start(state: SchedView, new: nat)
    requires
        state.wf(),
        state.fits(),
        state.waiting.len() > 0,
        new <= state.bm.token_layout(state.waiting[0]).2,
        state.bm.free.len() >= sequence::ceil_div(
            state.bm.token_layout(state.waiting[0]).1 + new,
            state.bm.block_size as int,
        ),
        writes_are_disjoint(state.running),
    ensures
        writes_are_disjoint(state.start_first(new).0.running),
        state.start_first(new).0.bm.blocks.len() == state.bm.blocks.len(),
        state.start_first(new).0.bm.block_size == state.bm.block_size,
{
    let seq = SeqView { num_new: new, ..state.waiting[0] };
    let size = state.bm.block_size as int;
    let hits = state.bm.hits(seq) as int;
    assert(state.may_wait(state.waiting[0]));
    scheduler_proofs::lemma_can_start(state, new);
    block_proofs::lemma_allocated(state.bm, seq);
    let (bm, placed) = state.bm.allocated(seq);
    let (next, run) = state.start_first(new);
    let running = next.running;
    let n = state.running.len() as int;
    assert(placed.num_cached as int / size == hits) by (nonlinear_arith)
        requires
            placed.num_cached == hits * size,
            size > 0,
    ;
    assert forall|p: int, a: int, q: int, b: int|
        0 <= p < running.len() && 0 <= q < running.len() && #[trigger] is_written(running[p], a)
            && #[trigger] is_written(running[q], b) && (p != q || a != b) implies running[p].table[a]
        != running[q].table[b] by {
        if p < n {
            lemma_held(state, p, a);
            assert(is_written(state.running[p], a));
        } else {
            assert(state.bm.blocks[placed.table[a] as int].ref_count == 0);
        }
        if q < n {
            lemma_held(state, q, b);
            assert(is_written(state.running[q], b));
        } else {
            assert(state.bm.blocks[placed.table[b] as int].ref_count == 0);
        }
        if p == n && q == n && placed.table[a] == placed.table[b] {
            let x = placed.table[a];
            let head = placed.table.take(hits);
            lemma_count_rest(placed.table, head, a, b);
            assert(bm.blocks[x as int].ref_count == 1);
            assert(bm.blocks[x as int].ref_count == state.bm.blocks[x as int].ref_count
                + block_manager::count_of(placed.table, x as int));
        }
    }
}

/// Sequences are taken from the queue.
pub proof fn lemma_let_in(plan: Plan, start: SchedView)
    requires
        plan_ok(plan, start),
        plan.budget > 0 ==> plan.picked.len() == plan.state.running.len(),
        plan.state.fits(),
    ensures
        plan_ok(plan.let_in(), start),
        plan.let_in().picked.len() >= plan.picked.len(),
        plan.let_in().picked.take(plan.picked.len() as int) == plan.picked,
    decreases plan.state.waiting.len(),
{
    let state = plan.state;
    let n = plan.picked.len() as int;
    assert(plan.picked.take(n) =~= plan.picked);
    if state.waiting.len() == 0 || plan.budget == 0 || state.running.len() >= state.max_seqs {
    } else {
        let seq = state.waiting[0];
        let layout = state.bm.token_layout(seq);
        let new = if state.chunked && plan.budget < layout.2 {
            plan.budget as int
        } else {
            layout.2
        };
        assert(state.may_wait(seq));
        block_laws::layout_accounts_for_every_token(state.bm, seq);
        if new > plan.budget || state.bm.free.len() < sequence::ceil_div(
            layout.1 + new,
            state.bm.block_size as int,
        ) {
        } else {
            scheduler_proofs::lemma_start(state, new as nat);
            lemma_disjoint_start(state, new as nat);
            let (next, started) = state.start_first(new as nat);
            let more = Plan {
                state: next,
                budget: (plan.budget - new) as nat,
                picked: plan.picked.push(started),
            };
            lemma_total_push(plan.picked, started);
            assert(plan.picked =~= state.running);
            assert(more.picked =~= next.running);
            assert(more.picked =~= next.running.take(next.running.len() as int));
            assert forall|k: int| 0 <= k < next.running.len() implies (
            #[trigger] next.running[k]).num_new > 0 by {
                if k < state.running.len() {
                    assert(next.running[k] == state.running[k]);
                }
            }
            assert(plan_ok(more, start));
            lemma_let_in(more, start);
        }
    }
}

/// A scheduler between two steps, within the limits of the machine.
pub open spec fn is_ready(state: SchedView) -> bool {
    &&& state.wf()
    &&& state.idle()
    &&& state.fits()
}

/// All that holds of a step.
pub proof fn lemma_scheduled(state: SchedView)
    requires
        is_ready(state),
    ensures
        plan_ok(state.scheduled(), state),
        state.start().run_from(0).picked.len() <= state.scheduled().picked.len(),
        state.scheduled().picked.take(state.start().run_from(0).picked.len() as int)
            == state.start().run_from(0).picked,
{
    let start = state.start();
    assert(start.picked =~= state.running.take(0));
    lemma_disjoint_at_rest(state);
    assert(plan_ok(start, state));
    lemma_run_from(start, state);
    let ran = start.run_from(0);
    assert(ran.state.fits()) by {
        assert(scheduler::ids(ran.state.running + ran.state.waiting).len() == ran.state.running.len()
            + ran.state.waiting.len());
        assert(scheduler::ids(state.running + state.waiting).len() == state.running.len()
            + state.waiting.len());
    }
    if ran.state.running.len() < state.running.len() {
        assert(ran.picked.take(ran.picked.len() as int) =~= ran.picked);
    } else {
        lemma_let_in(ran, state);
    }
}

/// A step computes no more tokens than the budget allows.
pub proof fn a_step_stays_within_the_budget(state: SchedView)
    requires
        is_ready(state),
    ensures
        total_new(state.scheduled().picked) <= state.max_batched,
        total_new(state.scheduled().picked) + state.scheduled().budget == state.max_batched,
{
    lemma_scheduled(state);
}

/// No sequence is lost, doubled or overtaken: the running sequences, followed by those that
/// wait, stand in the same order before and after.
pub proof fn scheduling_keeps_the_order(state: SchedView)
    requires
        is_ready(state),
    ensures
        scheduler::ids(state.scheduled().state.running + state.scheduled().state.waiting)
            == scheduler::ids(state.running + state.waiting),
{
    lemma_scheduled(state);
}

/// The scheduler stays well formed, with the limits that it had, and never runs more
/// sequences than it may.
pub proof fn scheduling_keeps_the_limits(state: SchedView)
    requires
        is_ready(state),
    ensures
        state.scheduled().state.wf(),
        same_limits(state.scheduled().state, state),
        state.scheduled().state.running.len() <= state.max_seqs,
{
    lemma_scheduled(state);
}

/// The sequences that a step runs are exactly the running ones with tokens to compute, in
/// order, each of them once.
pub proof fn a_step_runs_the_active_sequences(state: SchedView)
    requires
        is_ready(state),
    ensures
        state.scheduled().picked == scheduler::active(state.scheduled().state.running),
        state.scheduled().state.runs(state.scheduled().picked),
        forall|i: int|
            0 <= i < state.scheduled().picked.len() ==> (
            #[trigger] state.scheduled().picked[i]).num_new > 0,
{
    lemma_scheduled(state);
    let plan = state.scheduled();
    let running = plan.state.running;
    lemma_active_prefix(running, plan.picked.len() as int);
    assert forall|j: int| 0 <= j < plan.picked.len() implies running.contains(
        #[trigger] plan.picked[j],
    ) by {
        assert(running[j] == plan.picked[j]);
    }
    assert(scheduler::ids(plan.picked).no_duplicates()) by {
        let all = scheduler::ids(running + plan.state.waiting);
        assert forall|i: int, j: int|
            0 <= i < plan.picked.len() && 0 <= j < plan.picked.len() && i
                != j implies scheduler::ids(plan.picked)[i] != scheduler::ids(plan.picked)[j] by {
            assert(all[i] == running[i].seq_id);
            assert(all[j] == running[j].seq_id);
        }
    }
    assert forall|i: int| 0 <= i < plan.picked.len() implies (
    #[trigger] plan.picked[i]).num_new > 0 by {
        assert(plan.picked[i] == running[i]);
    }
}

/// Where the first `n` sequences have tokens to compute, and no others, they are the active
/// ones.
proof fn lemma_active_prefix(running: Seq<SeqView>, n: int)
    requires
        0 <= n <= running.len(),
        forall|k: int| 0 <= k < n ==> (#[trigger] running[k]).num_new > 0,
        forall|k: int| n <= k < running.len() ==> (#[trigger] running[k]).num_new == 0,
    ensures
        scheduler::active(running) == running.take(n),
    decreases running.len(),
{
    reveal(Seq::filter);
    if running.len() == 0 {
        assert(scheduler::active(running) =~= running.take(n));
    } else {
        let rest = running.drop_last();
        let m = if n < running.len() {
            n
        } else {
            n - 1
        };
        assert forall|k: int| 0 <= k < m implies (#[trigger] rest[k]).num_new > 0 by {
            assert(rest[k] == running[k]);
        }
        assert forall|k: int| m <= k < rest.len() implies (#[trigger] rest[k]).num_new == 0 by {
            assert(rest[k] == running[k]);
        }
        lemma_active_prefix(rest, m);
        let last = running.len() - 1;
        if n == running.len() {
            assert(running[last].num_new > 0);
            assert(scheduler::active(running) == scheduler::active(rest).push(running.last()));
            assert(rest.take(m).push(running.last()) =~= running.take(n));
        } else {
            assert(running[last].num_new == 0);
            assert(scheduler::active(running) == scheduler::active(rest));
            assert(rest.take(m) =~= running.take(n));
        }
    }
}

/// The sequences of a step are the first ones that run, as they are and in order: none that is
/// scheduled is preempted in the same step. Each computes at least one token and no more than
/// it has left, and is in blocks for its tokens in context, all of them in use.
pub proof fn a_step_is_the_front_of_what_runs(state: SchedView)
    requires
        is_ready(state),
    ensures
        ({
            let plan = state.scheduled();
            let n = plan.picked.len() as int;
            &&& plan.state.wf()
            &&& n <= plan.state.running.len() <= plan.state.max_seqs
            &&& plan.picked == plan.state.running.take(n)
            &&& forall|k: int|
                0 <= k < n ==> {
                    let seq = #[trigger] plan.picked[k];
                    &&& seq.status == SequenceStatus::Running
                    &&& 1 <= seq.num_new <= seq.num_tokens - seq.num_cached
                    &&& seq.table.len() == sequence::ceil_div(
                        seq.context() as int,
                        state.bm.block_size as int,
                    )
                    &&& forall|i: int|
                        0 <= i < seq.table.len() ==> plan.state.bm.used.contains(
                            #[trigger] seq.table[i],
                        )
                }
        }),
{
    lemma_scheduled(state);
    let plan = state.scheduled();
    let n = plan.picked.len() as int;
    assert forall|k: int| 0 <= k < n implies {
        let seq = #[trigger] plan.picked[k];
        &&& seq.status == SequenceStatus::Running
        &&& 1 <= seq.num_new <= seq.num_tokens - seq.num_cached
        &&& seq.table.len() == sequence::ceil_div(
            seq.context() as int,
            state.bm.block_size as int,
        )
        &&& forall|i: int|
            0 <= i < seq.table.len() ==> plan.state.bm.used.contains(#[trigger] seq.table[i])
    } by {
        let seq = plan.state.running[k];
        assert(plan.picked[k] == seq);
        assert(plan.state.may_run(seq));
        assert forall|i: int| 0 <= i < seq.table.len() implies plan.state.bm.used.contains(
            #[trigger] seq.table[i],
        ) by {
            lemma_held(plan.state, k, i);
        }
    }
}

/// No two sequences of a step write to the same block, and none writes to a block twice:
/// each token that is computed has a place of its own.
pub proof fn a_step_writes_each_block_once(state: SchedView)
    requires
        is_ready(state),
    ensures
        writes_are_disjoint(state.scheduled().state.running),
{
    lemma_scheduled(state);
}

/// Where nothing runs every block is free: no block is ever lost.
pub proof fn nothing_running_means_all_free(state: SchedView)
    requires
        state.wf(),
        state.running.len() == 0,
        state.bm.blocks.len() <= usize::MAX,
    ensures
        state.bm.free.len() == state.bm.blocks.len(),
{
    block_laws::free_and_used_make_up_all(state.bm);
    assert(state.bm.used =~= Set::empty()) by {
        assert forall|b: usize| !state.bm.used.contains(b) by {
            if state.bm.used.contains(b) {
                assert(state.bm.blocks[b as int].ref_count == scheduler::holders(
                    state.running,
                    b as int,
                ));
            }
        }
    }
}

/// A sequence that runs alone leaves free all the blocks that are not in its table.
proof fn lemma_alone(state: SchedView)
    requires
        state.wf(),
        state.running.len() == 1,
        state.bm.blocks.len() <= usize::MAX,
    ensures
        state.bm.free.len() + state.running[0].table.len() >= state.bm.blocks.len(),
{
    let table = state.running[0].table;
    let used = state.bm.used;
    block_laws::free_and_used_make_up_all(state.bm);
    assert(used.subset_of(table.to_set())) by {
        assert forall|b: usize| used.contains(b) implies table.to_set().contains(b) by {
            assert(state.bm.blocks[b as int].ref_count == scheduler::holders(
                state.running,
                b as int,
            ));
            assert(state.running.drop_last().len() == 0);
            assert(scheduler::holders(state.running.drop_last(), b as int) == 0);
            block_proofs::lemma_count_contains(table, b);
        }
    }
    table.lemma_cardinality_of_set();
    vstd::seq_lib::seq_to_set_is_finite(table);
    vstd::set_lib::lemma_len_subset(used, table.to_set());
}

/// The first running sequence is never preempted, if the blocks suffice for it alone.
proof fn lemma_first_stays(state: SchedView, seq: SeqView, new: nat)
    requires
        state.wf(),
        state.running.len() > 0,
        state.running[0] == seq,
        seq.num_new == 0,
        seq.num_cached + new <= seq.num_tokens,
        state.bm.blocks.len() <= usize::MAX,
        sequence::ceil_div(state.max_len - 1, state.bm.block_size as int)
            <= state.bm.blocks.len(),
    ensures
        state.make_room(seq, new, 0).running.len() > 0,
    decreases state.running.len(),
{
    let size = state.bm.block_size as int;
    if state.bm.can_append(seq.num_cached, new) {
    } else if state.running.len() == 1 {
        assert(state.may_run(state.running[0]));
        lemma_alone(state);
        sequence::lemma_ceil_monotone((seq.num_cached + new) as int, state.max_len - 1, size);
    } else {
        scheduler_proofs::lemma_preempt_last(state);
        let next = state.preempt_last();
        assert(next.running[0] == seq);
        lemma_first_stays(next, seq, new);
    }
}

/// The engine does not get stuck: while there is a sequence left, a step runs at least one,
/// if the blocks suffice for the longest sequence alone and, where prompts are not cut, the
/// budget for its prompt. The one that it runs first has lost nothing of what was computed
/// of the sequence that is first in turn.
pub proof fn a_step_makes_progress(state: SchedView)
    requires
        is_ready(state),
        state.running.len() > 0 || state.waiting.len() > 0,
        state.max_seqs > 0,
        state.max_batched > 0,
        state.bm.blocks.len() <= usize::MAX,
        sequence::ceil_div(state.max_len - 1, state.bm.block_size as int)
            <= state.bm.blocks.len(),
        state.chunked || state.max_len - 1 <= state.max_batched,
    ensures
        state.scheduled().picked.len() > 0,
        state.scheduled().picked[0].num_cached >= (state.running + state.waiting)[0].num_cached,
{
    let size = state.bm.block_size as int;
    let start = state.start();
    lemma_scheduled(state);
    if state.running.len() > 0 {
        let seq = state.running[0];
        let new = state.grant(seq, start.budget);
        let room = state.make_room(seq, new, 0);
        assert(state.may_run(seq));
        scheduler_proofs::lemma_grant(state, 0, start.budget);
        lemma_first_stays(state, seq, new);
        assert(start.picked =~= state.running.take(0));
        lemma_disjoint_at_rest(state);
        assert(plan_ok(start, state));
        lemma_make_room(start, state, seq, new, 0);
        assert(room.running[0] == seq);
        scheduler_proofs::lemma_append_running(room, 0, new);
        lemma_disjoint_append(room, 0, new);
        lemma_append_len(room, 0, new);
        let (bm, grown) = room.bm.appended(SeqView { num_new: new, ..seq });
        let next = Plan {
            state: SchedView { bm, running: room.running.update(0, grown), ..room },
            budget: (start.budget - new) as nat,
            picked: start.picked.push(grown),
        };
        lemma_total_push(start.picked, grown);
        assert(next.picked =~= next.state.running.take(1));
        assert(plan_ok(next, state));
        lemma_run_from(next, state);
        assert(start.run_from(0) == next.run_from(1));
        let ran = start.run_from(0);
        assert(ran.picked.take(1)[0] == grown);
        assert(state.scheduled().picked.take(ran.picked.len() as int)[0] == grown);
    } else {
        let ran = start.run_from(0);
        assert(ran == start);
        let seq = state.waiting[0];
        let layout = state.bm.token_layout(seq);
        assert(state.may_wait(seq));
        block_laws::layout_accounts_for_every_token(state.bm, seq);
        nothing_running_means_all_free(state);
        let new = if state.chunked && start.budget < layout.2 {
            start.budget as int
        } else {
            layout.2
        };
        sequence::lemma_ceil_monotone(layout.1 + new, state.max_len - 1, size);
        scheduler_proofs::lemma_start(state, new as nat);
        lemma_disjoint_start(state, new as nat);
        let (next, started) = state.start_first(new as nat);
        let more = Plan {
            state: next,
            budget: (start.budget - new) as nat,
            picked: start.picked.push(started),
        };
        lemma_disjoint_at_rest(state);
        lemma_total_push(start.picked, started);
        assert(more.picked =~= next.running);
        assert(more.picked =~= next.running.take(1));
        assert(plan_ok(more, state));
        lemma_let_in(more, state);
        assert(start.let_in() == more.let_in());
    }
}

/// The ends of a step leave the queue alone and add no running sequence.
proof fn lemma_take_tokens_shrinks(
    state: SchedView,
    seqs: Seq<SeqView>,
    tokens: Seq<u32>,
    at: Seq<usize>,
    k: int,
)
    ensures
        ({
            let next = state.take_tokens(seqs, tokens, at, k).0;
            &&& next.waiting == state.waiting
            &&& next.running.len() <= state.running.len()
            &&& next.max_len == state.max_len
        }),
    decreases at.len() - k,
{
    if k < at.len() {
        let (next, grown) = state.take_token(seqs, at[k] as int, tokens[k]);
        lemma_without_shrinks(state.running, seqs[at[k] as int].seq_id);
        lemma_take_tokens_shrinks(next, grown, tokens, at, k + 1);
    }
}

proof fn lemma_without_shrinks(seqs: Seq<SeqView>, id: usize)
    ensures
        scheduler::without(seqs, id).len() <= seqs.len(),
    decreases seqs.len(),
{
    if seqs.len() > 0 {
        lemma_without_shrinks(seqs.subrange(1, seqs.len() as int), id);
    }
}

proof fn lemma_sync_all_keeps_len(state: SchedView, seqs: Seq<SeqView>, j: int)
    ensures
        ({
            let next = state.sync_all(seqs, j);
            &&& next.waiting == state.waiting
            &&& next.running.len() == state.running.len()
            &&& next.max_len == state.max_len
        }),
    decreases seqs.len() - j,
{
    if j < seqs.len() {
        lemma_replaced_keeps_len(state.running, seqs[j].advanced());
        lemma_sync_all_keeps_len(state.sync(seqs[j]), seqs, j + 1);
    }
}

proof fn lemma_replaced_keeps_len(seqs: Seq<SeqView>, seq: SeqView)
    ensures
        scheduler::replaced(seqs, seq).len() == seqs.len(),
    decreases seqs.len(),
{
    if seqs.len() > 0 {
        lemma_replaced_keeps_len(seqs.subrange(1, seqs.len() as int), seq);
    }
}

/// Steps follow each other: once the sequences of a step have got their tokens, the
/// scheduler is ready for the next step.
pub proof fn a_step_leads_to_the_next(state: SchedView, tokens: Seq<u32>, at: Seq<usize>)
    requires
        is_ready(state),
        state.scheduled().picked.len() <= usize::MAX,
        state.scheduled().state.is_step(state.scheduled().picked, at),
        forall|i: int|
            0 <= i < at.len() ==> (#[trigger] at[i]) < state.scheduled().picked.len(),
    ensures
        is_ready(
            state.scheduled().state.postprocessed(state.scheduled().picked, tokens, at).0,
        ),
{
    let plan = state.scheduled();
    let next = plan.state.postprocessed(plan.picked, tokens, at).0;
    lemma_scheduled(state);
    a_step_runs_the_active_sequences(state);
    scheduler_proofs::lemma_step_ends(plan.state, plan.picked, tokens, at);
    let (mid, grown) = plan.state.take_tokens(plan.picked, tokens, at, 0);
    lemma_take_tokens_shrinks(plan.state, plan.picked, tokens, at, 0);
    lemma_sync_all_keeps_len(mid, grown, 0);
    assert(plan.state.running.len() + plan.state.waiting.len() == state.running.len()
        + state.waiting.len()) by {
        assert(scheduler::ids(plan.state.running + plan.state.waiting).len()
            == scheduler::ids(state.running + state.waiting).len());
    }
    let n = next.running.len() + next.waiting.len();
    let m = state.running.len() + state.waiting.len();
    assert(n * state.max_len <= m * state.max_len) by (nonlinear_arith)
        requires
            n <= m,
    ;
}

/// Every block of `seq` that is full with tokens in context has the hash of all the tokens up
/// to its end, and holds its own tokens if that hash is one.
pub open spec fn has_true_hashes(bm: block_manager::BmView, seq: SeqView) -> bool {
    forall|i: int|
        0 <= i < seq.table.len() && (i + 1) * seq.block_size <= seq.context() ==> block_is_true(
            bm,
            seq,
            #[trigger] seq.table[i],
            i,
        )
}

/// Block `b` has the hash of block `i` of `seq`, and holds its tokens if that hash is one.
pub open spec fn block_is_true(
    bm: block_manager::BmView,
    seq: SeqView,
    b: usize,
    i: int,
) -> bool {
    &&& bm.blocks[b as int].hash == block_manager::chain_hash(seq.tokens, seq.block_size, i)
    &&& bm.blocks[b as int].hash != block_manager::NO_HASH ==> bm.blocks[b as int].tokens
        == seq.block(i)
}

/// So it is with all running sequences.
pub open spec fn hashes_are_true(state: SchedView) -> bool {
    forall|p: int|
        0 <= p < state.running.len() ==> has_true_hashes(state.bm, #[trigger] state.running[p])
}

proof fn lemma_preempt_hashes(state: SchedView)
    requires
        state.wf(),
        state.running.len() > 0,
        hashes_are_true(state),
    ensures
        hashes_are_true(state.preempt_last()),
{
    let next = state.preempt_last();
    let n = state.running.len() - 1;
    scheduler_proofs::lemma_preempt_last(state);
    scheduler_proofs::lemma_can_release(state, n);
    block_proofs::lemma_release(state.bm, state.running[n].table);
    assert forall|p: int| 0 <= p < next.running.len() implies has_true_hashes(
        next.bm,
        #[trigger] next.running[p],
    ) by {
        let seq = state.running[p];
        assert(next.running[p] == seq);
        assert(has_true_hashes(state.bm, state.running[p]));
        assert(state.may_run(seq));
        assert forall|i: int|
            0 <= i < seq.table.len() && (i + 1) * seq.block_size
                <= seq.context() implies block_is_true(next.bm, seq, #[trigger] seq.table[i], i) by {
            assert(block_is_true(state.bm, seq, seq.table[i], i));
            assert(next.bm.blocks[seq.table[i] as int].hash
                == state.bm.blocks[seq.table[i] as int].hash);
        }
    }
}

/// The blocks that an append fills get the hashes of the tokens up to their ends.
proof fn lemma_append_hashes(
    bm: block_manager::BmView,
    seq: SeqView,
    i: int,
    table: Seq<usize>,
)
    requires
        bm.wf(),
        bm.block_size > 0,
        seq.block_size == bm.block_size,
        seq.context() <= seq.tokens.len(),
        0 <= i <= seq.context_blocks(),
        i <= table.len() <= i + 1,
        table.len() <= seq.context_blocks(),
        forall|j: int| 0 <= j < table.len() ==> (#[trigger] table[j]) < bm.blocks.len(),
        i < table.len() ==> bm.is_open(table[i]) && bm.blocks[table[i] as int].ref_count == 1,
        bm.free.len() >= seq.context_blocks() - table.len(),
        i > 0 ==> bm.blocks[table[i - 1] as int].hash == block_manager::chain_hash(
            seq.tokens,
            seq.block_size,
            i - 1,
        ),
    ensures
        ({
            let (next, longer) = bm.append_from(seq, i, table);
            forall|j: int|
                i <= j < longer.len() && (j + 1) * seq.block_size <= seq.context()
                    ==> block_is_true(next, seq, #[trigger] longer[j], j)
        }),
    decreases seq.context_blocks() - i,
{
    if i < seq.context_blocks() {
        let size = bm.block_size as int;
        let (mid, pushed) = bm.append_block(seq, i, table);
        let (next, longer) = bm.append_from(seq, i, table);
        sequence::lemma_block_bounds(seq.context() as int, size, i);
        sequence::lemma_piece(seq, i);
        block_proofs::lemma_append_block(bm, seq, i, table);
        block_proofs::lemma_append_block_frame(bm, seq, i, table);
        block_proofs::lemma_append_from(mid, seq, i + 1, pushed);
        let b = pushed[i];
        assert(longer[i] == longer.take(pushed.len() as int)[i]);
        assert(next.blocks[b as int] == mid.blocks[b as int]);
        if seq.piece(i).len() == bm.block_size {
            assert(mid.blocks[b as int].hash == block_manager::chain_hash(
                seq.tokens,
                seq.block_size,
                i,
            )) by {
                if i == 0 {
                    assert(block_manager::chain_hash(seq.tokens, seq.block_size, i - 1)
                        == block_manager::NO_HASH);
                }
            }
            assert(mid.blocks[b as int].tokens == seq.block(i));
            lemma_append_hashes(mid, seq, i + 1, pushed);
            assert forall|j: int|
                i <= j < longer.len() && (j + 1) * seq.block_size
                    <= seq.context() implies block_is_true(next, seq, #[trigger] longer[j], j) by {
            }
        } else {
            assert(i + 1 == seq.context_blocks());
            assert forall|j: int|
                i <= j < longer.len() && (j + 1) * seq.block_size
                    <= seq.context() implies block_is_true(next, seq, #[trigger] longer[j], j) by {
                assert(j == i);
            }
        }
    }
}

/// An entry that stands twice in a table is held twice.
proof fn lemma_own_entries(state: SchedView, p: int, a: int, b: int)
    requires
        state.wf(),
        0 <= p < state.running.len(),
        0 <= a < b < state.running[p].table.len(),
        state.running[p].table[a] == state.running[p].table[b],
    ensures
        state.bm.blocks[state.running[p].table[a] as int].ref_count >= 2,
{
    let table = state.running[p].table;
    let x = table[a];
    assert(state.may_run(state.running[p]));
    assert(table.take(0) =~= Seq::empty());
    lemma_count_rest(table, Seq::empty(), a, b);
    scheduler_proofs::lemma_holders_remove(state.running, p, x as int);
    assert(state.bm.blocks[x as int].ref_count == scheduler::holders(state.running, x as int));
}

/// Granting tokens keeps the hashes true.
pub proof fn lemma_append_running_hashes(state: SchedView, p: int, new: nat)
    requires
        state.wf(),
        0 <= p < state.running.len(),
        state.running[p].num_new == 0,
        new > 0,
        state.running[p].num_cached + new <= state.running[p].num_tokens,
        !state.chunked ==> state.running[p].num_cached + new == state.running[p].num_tokens,
        state.bm.can_append(state.running[p].num_cached, new),
        hashes_are_true(state),
    ensures
        ({
            let (bm, grown) = state.bm.appended(SeqView { num_new: new, ..state.running[p] });
            hashes_are_true(
                SchedView { bm, running: state.running.update(p, grown), ..state },
            )
        }),
{
    let old_seq = state.running[p];
    let seq = SeqView { num_new: new, ..old_seq };
    let size = state.bm.block_size as int;
    let first = seq.num_cached as int / size;
    let (bm, grown) = state.bm.appended(seq);
    let next = SchedView { bm, running: state.running.update(p, grown), ..state };
    let n = seq.table.len() as int;
    assert(state.may_run(old_seq));
    assert(state.may_resume(old_seq));
    assert(has_true_hashes(state.bm, state.running[p]));
    sequence::lemma_floor_div(seq.num_cached as int, size);
    sequence::lemma_ceil_monotone(seq.num_cached as int, seq.context() as int, size);
    if seq.num_cached as int % size != 0 {
        scheduler_proofs::lemma_last_block(state, p);
        assert(seq.table[first] == seq.table.last());
    }
    if first > 0 {
        assert((first - 1 + 1) * size <= seq.num_cached);
        assert(block_is_true(state.bm, old_seq, old_seq.table[first - 1], first - 1));
    }
    block_proofs::lemma_append_from(state.bm, seq, first, seq.table);
    lemma_append_hashes(state.bm, seq, first, seq.table);
    assert forall|q: int| 0 <= q < next.running.len() implies has_true_hashes(
        next.bm,
        #[trigger] next.running[q],
    ) by {
        let now = next.running[q];
        if q != p {
            let other = state.running[q];
            assert(has_true_hashes(state.bm, state.running[q]));
            assert(state.may_run(other));
            assert forall|i: int|
                0 <= i < other.table.len() && (i + 1) * other.block_size
                    <= other.context() implies block_is_true(
                next.bm,
                other,
                #[trigger] other.table[i],
                i,
            ) by {
                let b = other.table[i];
                assert(block_is_true(state.bm, other, b, i));
                lemma_held(state, q, i);
                if first < n && b == seq.table[first] {
                    assert(other.table.contains(b));
                    block_proofs::lemma_count_contains(other.table, b);
                    scheduler_proofs::lemma_count_last(seq.table);
                    scheduler_proofs::lemma_holders_two(state.running, p, q, b as int);
                    assert(state.bm.blocks[b as int].ref_count == scheduler::holders(
                        state.running,
                        b as int,
                    ));
                }
                assert(next.bm.blocks[b as int] == state.bm.blocks[b as int]);
            }
        } else {
            assert forall|i: int|
                0 <= i < grown.table.len() && (i + 1) * grown.block_size
                    <= grown.context() implies block_is_true(
                next.bm,
                grown,
                #[trigger] grown.table[i],
                i,
            ) by {
                let b = grown.table[i];
                if i < first {
                    assert(b == grown.table.take(n)[i]);
                    assert((i + 1) * size <= first * size) by (nonlinear_arith)
                        requires
                            i + 1 <= first,
                            size > 0,
                    ;
                    assert(block_is_true(state.bm, old_seq, old_seq.table[i], i));
                    lemma_held(state, p, i);
                    if first < n && b == seq.table[first] {
                        lemma_own_entries(state, p, i, first);
                    }
                    assert(next.bm.blocks[b as int] == state.bm.blocks[b as int]);
                } else {
                    assert(block_is_true(bm, seq, b, i));
                }
            }
        }
    }
}

/// The blocks that are handed out get the hashes of the tokens up to their ends.
proof fn lemma_fill_hashes(
    bm: block_manager::BmView,
    seq: SeqView,
    i: int,
    table: Seq<usize>,
)
    requires
        bm.wf(),
        bm.block_size > 0,
        seq.block_size == bm.block_size,
        seq.context() <= seq.tokens.len(),
        0 <= i <= seq.context_blocks(),
        table.len() == i,
        forall|j: int| 0 <= j < table.len() ==> (#[trigger] table[j]) < bm.blocks.len(),
        bm.free.len() >= seq.context_blocks() - i,
    ensures
        ({
            let (next, longer) = bm.fill(seq, i, table);
            forall|j: int|
                i <= j < longer.len() && (j + 1) * seq.block_size <= seq.context()
                    ==> block_is_true(next, seq, #[trigger] longer[j], j)
        }),
    decreases seq.context_blocks() - i,
{
    if i < seq.context_blocks() {
        let size = bm.block_size as int;
        let piece = seq.piece(i);
        let h = if piece.len() == bm.block_size {
            block_manager::chain_hash(seq.tokens, bm.block_size, i)
        } else {
            block_manager::NO_HASH
        };
        let b = bm.free[0];
        let mid = bm.fresh_block(h, piece);
        let pushed = table.push(b);
        let (next, longer) = bm.fill(seq, i, table);
        sequence::lemma_block_bounds(seq.context() as int, size, i);
        sequence::lemma_piece(seq, i);
        block_proofs::lemma_fresh_block(bm, h, piece);
        assert forall|j: int| 0 <= j < pushed.len() implies (#[trigger] pushed[j])
            < mid.blocks.len() by {
            if j < table.len() {
                assert(pushed[j] == table[j]);
            }
        }
        block_proofs::lemma_fill(mid, seq, i + 1, pushed);
        lemma_fill_hashes(mid, seq, i + 1, pushed);
        assert(longer[i] == longer.take(i + 1)[i]);
        assert(next.blocks[b as int] == mid.blocks[b as int]);
        assert forall|j: int|
            i <= j < longer.len() && (j + 1) * seq.block_size
                <= seq.context() implies block_is_true(next, seq, #[trigger] longer[j], j) by {
        }
    }
}

/// Starting a sequence keeps the hashes true.
pub proof fn lemma_start_hashes(state: SchedView, new: nat)
    requires
        state.wf(),
        state.fits(),
        state.waiting.len() > 0,
        new <= state.bm.token_layout(state.waiting[0]).2,
        state.bm.free.len() >= sequence::ceil_div(
            state.bm.token_layout(state.waiting[0]).1 + new,
            state.bm.block_size as int,
        ),
        hashes_are_true(state),
    ensures
        hashes_are_true(state.start_first(new).0),
{
    let seq = SeqView { num_new: new, ..state.waiting[0] };
    let size = state.bm.block_size as int;
    let hits = state.bm.hits(seq) as int;
    let table = state.bm.hit_table(seq);
    assert(state.may_wait(state.waiting[0]));
    scheduler_proofs::lemma_can_start(state, new);
    block_proofs::lemma_allocated(state.bm, seq);
    block_proofs::lemma_hit_table(state.bm, seq);
    block_proofs::lemma_hold_all(state.bm, table);
    let held = state.bm.hold_all(table);
    let cached = SeqView { num_cached: (hits * size) as nat, table, ..seq };
    let (bm, placed) = state.bm.allocated(seq);
    let (next, run) = state.start_first(new);
    sequence::lemma_shifted_blocks(new as int, size, hits);
    sequence::lemma_ceil_div(new as int, size);
    assert(0 <= hits * size) by (nonlinear_arith)
        requires
            hits >= 0,
            size >= 0,
    ;
    lemma_fill_hashes(held, cached, hits, table);
    assert forall|q: int| 0 <= q < next.running.len() implies has_true_hashes(
        next.bm,
        #[trigger] next.running[q],
    ) by {
        if q < state.running.len() {
            let other = state.running[q];
            assert(next.running[q] == other);
            assert(has_true_hashes(state.bm, state.running[q]));
            assert(state.may_run(other));
            assert forall|i: int|
                0 <= i < other.table.len() && (i + 1) * other.block_size
                    <= other.context() implies block_is_true(
                next.bm,
                other,
                #[trigger] other.table[i],
                i,
            ) by {
                assert(block_is_true(state.bm, other, other.table[i], i));
                lemma_held(state, q, i);
                assert(next.bm.blocks[other.table[i] as int].hash
                    == state.bm.blocks[other.table[i] as int].hash);
            }
        } else {
            assert(next.running[q] == run);
            assert forall|i: int|
                0 <= i < run.table.len() && (i + 1) * run.block_size
                    <= run.context() implies block_is_true(
                next.bm,
                run,
                #[trigger] run.table[i],
                i,
            ) by {
                let b = run.table[i];
                assert(b == placed.table[i]);
                if i < hits {
                    assert(b == placed.table.take(hits)[i]);
                    assert(table[i] == b);
                    assert(table.contains(b));
                    assert(bm.blocks[b as int].hash == state.bm.blocks[b as int].hash);
                } else {
                    assert(block_is_true(bm, cached, b, i));
                }
            }
        }
    }
}

pub proof fn lemma_make_room_hashes(plan: Plan, start: SchedView, seq: SeqView, new: nat, i: int)
    requires
        plan_ok(plan, start),
        i == plan.picked.len(),
        hashes_are_true(plan.state),
    ensures
        hashes_are_true(plan.state.make_room(seq, new, i)),
    decreases plan.state.running.len(),
{
    let state = plan.state;
    if state.running.len() <= i || state.running.len() == 0 || state.bm.can_append(
        seq.num_cached,
        new,
    ) {
    } else {
        let next = state.preempt_last();
        scheduler_proofs::lemma_preempt_last(state);
        lemma_preempt_hashes(state);
        assert(next.running.take(i) =~= state.running.take(i));
        assert forall|k: int| 0 <= k < next.running.len() implies #[trigger] next.running[k]
            == state.running[k] by {
        }
        let less = Plan { state: next, ..plan };
        assert(plan_ok(less, start));
        lemma_make_room_hashes(less, start, seq, new, i);
    }
}

proof fn lemma_run_hashes(plan: Plan, start: SchedView)
    requires
        plan_ok(plan, start),
        hashes_are_true(plan.state),
    ensures
        hashes_are_true(plan.run_from(plan.picked.len() as int).state),
    decreases plan.state.running.len() - plan.picked.len(),
{
    let i = plan.picked.len() as int;
    let state = plan.state;
    if i < state.running.len() && plan.budget > 0 {
        let seq = state.running[i];
        let new = state.grant(seq, plan.budget);
        let room = state.make_room(seq, new, i);
        lemma_make_room(plan, start, seq, new, i);
        lemma_make_room_hashes(plan, start, seq, new, i);
        if room.running.len() > i {
            assert(room.running[i] == seq);
            scheduler_proofs::lemma_grant(state, i, plan.budget);
            scheduler_proofs::lemma_append_running(room, i, new);
            lemma_disjoint_append(room, i, new);
            lemma_append_running_hashes(room, i, new);
            let (bm, grown) = room.bm.appended(SeqView { num_new: new, ..seq });
            let next = Plan {
                state: SchedView { bm, running: room.running.update(i, grown), ..room },
                budget: (plan.budget - new) as nat,
                picked: plan.picked.push(grown),
            };
            lemma_total_push(plan.picked, grown);
            assert(next.picked =~= next.state.running.take(i + 1));
            lemma_append_len(room, i, new);
            assert(plan_ok(next, start));
            lemma_run_hashes(next, start);
        }
    }
}

proof fn lemma_let_in_hashes(plan: Plan, start: SchedView)
    requires
        plan_ok(plan, start),
        plan.budget > 0 ==> plan.picked.len() == plan.state.running.len(),
        plan.state.fits(),
        hashes_are_true(plan.state),
    ensures
        hashes_are_true(plan.let_in().state),
    decreases plan.state.waiting.len(),
{
    let state = plan.state;
    if state.waiting.len() == 0 || plan.budget == 0 || state.running.len() >= state.max_seqs {
    } else {
        let seq = state.waiting[0];
        let layout = state.bm.token_layout(seq);
        let new = if state.chunked && plan.budget < layout.2 {
            plan.budget as int
        } else {
            layout.2
        };
        assert(state.may_wait(seq));
        block_laws::layout_accounts_for_every_token(state.bm, seq);
        if new > plan.budget || state.bm.free.len() < sequence::ceil_div(
            layout.1 + new,
            state.bm.block_size as int,
        ) {
        } else {
            scheduler_proofs::lemma_start(state, new as nat);
            lemma_disjoint_start(state, new as nat);
            lemma_start_hashes(state, new as nat);
            let (next, started) = state.start_first(new as nat);
            let more = Plan {
                state: next,
                budget: (plan.budget - new) as nat,
                picked: plan.picked.push(started),
            };
            lemma_total_push(plan.picked, started);
            assert(plan.picked =~= state.running);
            assert(more.picked =~= next.running.take(next.running.len() as int));
            assert forall|k: int| 0 <= k < next.running.len() implies (
            #[trigger] next.running[k]).num_new > 0 by {
                if k < state.running.len() {
                    assert(next.running[k] == state.running[k]);
                }
            }
            assert(plan_ok(more, start));
            lemma_let_in_hashes(more, start);
        }
    }
}

/// The cache tells the truth: scheduling a step fills blocks under the hashes of the tokens
/// that they, and the blocks before them, are for.
pub proof fn scheduling_keeps_the_hashes_true(state: SchedView)
    requires
        is_ready(state),
        hashes_are_true(state),
    ensures
        hashes_are_true(state.scheduled().state),
{
    let start = state.start();
    assert(start.picked =~= state.running.take(0));
    lemma_disjoint_at_rest(state);
    assert(plan_ok(start, state));
    lemma_run_from(start, state);
    lemma_run_hashes(start, state);
    let ran = start.run_from(0);
    assert(ran.state.fits()) by {
        assert(scheduler::ids(ran.state.running + ran.state.waiting).len() == ran.state.running.len()
            + ran.state.waiting.len());
        assert(scheduler::ids(state.running + state.waiting).len() == state.running.len()
            + state.waiting.len());
    }
    if ran.state.running.len() < state.running.len() {
    } else {
        lemma_let_in_hashes(ran, state);
    }
}

/// The hash of a full block rests on no token behind it.
proof fn lemma_chain_of_prefix(a: Seq<u32>, b: Seq<u32>, size: nat, i: int)
    requires
        size > 0,
        0 <= i,
        (i + 1) * size <= a.len() <= b.len(),
        b.take(a.len() as int) == a,
    ensures
        block_manager::chain_hash(a, size, i) == block_manager::chain_hash(b, size, i),
        sequence::block_of(a, size as int, i) == sequence::block_of(b, size as int, i),
    decreases i,
{
    assert((i + 1) * size == i * size + size && 0 <= i * size) by (nonlinear_arith)
        requires
            0 <= i,
    ;
    assert(sequence::block_of(a, size as int, i) =~= sequence::block_of(b, size as int, i)) by {
        assert(a =~= b.take(a.len() as int));
    }
    if i > 0 {
        assert((i - 1 + 1) * size == i * size);
        lemma_chain_of_prefix(a, b, size, i - 1);
    } else {
        assert(block_manager::chain_hash(a, size, i - 1) == block_manager::NO_HASH);
        assert(block_manager::chain_hash(b, size, i - 1) == block_manager::NO_HASH);
    }
}

/// The end of a step leaves the hashes of the running sequences true.
pub proof fn a_step_keeps_the_hashes_true(
    state: SchedView,
    seqs: Seq<SeqView>,
    tokens: Seq<u32>,
    at: Seq<usize>,
)
    requires
        state.wf(),
        state.runs(seqs),
        state.is_step(seqs, at),
        seqs.len() <= usize::MAX,
        forall|i: int| 0 <= i < at.len() ==> (#[trigger] at[i]) < seqs.len(),
        hashes_are_true(state),
    ensures
        hashes_are_true(state.postprocessed(seqs, tokens, at).0),
{
    scheduler_proofs::lemma_step_ends(state, seqs, tokens, at);
    let next = state.postprocessed(seqs, tokens, at).0;
    assert forall|p: int| 0 <= p < next.running.len() implies has_true_hashes(
        next.bm,
        #[trigger] next.running[p],
    ) by {
        let now = next.running[p];
        let q = choose|q: int|
            0 <= q < state.running.len() && scheduler_proofs::carries_on(
                #[trigger] state.running[q],
                now,
            );
        let orig = state.running[q];
        assert(state.may_run(state.running[q]));
        assert(has_true_hashes(state.bm, state.running[q]));
        assert forall|i: int|
            0 <= i < now.table.len() && (i + 1) * now.block_size
                <= now.context() implies block_is_true(next.bm, now, #[trigger] now.table[i], i) by {
            assert(block_is_true(state.bm, orig, orig.table[i], i));
            lemma_chain_of_prefix(orig.tokens, now.tokens, now.block_size, i);
        }
    }
}

/// What the requests behind `seqs` are, whether they run or wait: their ids, their tokens and
/// what was asked for.
pub open spec fn requests(seqs: Seq<SeqView>) -> Seq<SeqView> {
    Seq::new(seqs.len(), |i: int| request_of(seqs[i]))
}

/// A sequence as it would wait.
pub open spec fn request_of(seq: SeqView) -> SeqView {
    SeqView {
        status: SequenceStatus::Waiting,
        num_cached: 0,
        num_new: 0,
        table: Seq::empty(),
        ..seq
    }
}

proof fn lemma_make_room_requests(state: SchedView, seq: SeqView, new: nat, i: int)
    ensures
        ({
            let room = state.make_room(seq, new, i);
            &&& requests(room.running + room.waiting) == requests(state.running + state.waiting)
            &&& room.running.len() <= state.running.len()
            &&& room.running == state.running.take(room.running.len() as int)
        }),
    decreases state.running.len(),
{
    let room = state.make_room(seq, new, i);
    if state.running.len() <= i || state.running.len() == 0 || state.bm.can_append(
        seq.num_cached,
        new,
    ) {
        assert(state.running.take(state.running.len() as int) =~= state.running);
    } else {
        let next = state.preempt_last();
        lemma_make_room_requests(next, seq, new, i);
        assert(requests(next.running + next.waiting) =~= requests(
            state.running + state.waiting,
        ));
        assert(room.running =~= state.running.take(room.running.len() as int));
    }
}

proof fn lemma_run_requests(plan: Plan, i: int)
    ensures
        ({
            let ran = plan.run_from(i).state;
            requests(ran.running + ran.waiting) == requests(
                plan.state.running + plan.state.waiting,
            )
        }),
    decreases plan.state.running.len() - i,
{
    let state = plan.state;
    if i < 0 || i >= state.running.len() || plan.budget == 0 {
    } else {
        let seq = state.running[i];
        let new = state.grant(seq, plan.budget);
        let room = state.make_room(seq, new, i);
        lemma_make_room_requests(state, seq, new, i);
        if room.running.len() > i {
            let (bm, grown) = room.bm.appended(SeqView { num_new: new, ..seq });
            let next = Plan {
                state: SchedView { bm, running: room.running.update(i, grown), ..room },
                budget: (plan.budget - new) as nat,
                picked: plan.picked.push(grown),
            };
            assert(room.running[i] == seq);
            assert(request_of(grown) == request_of(seq));
            assert(requests(next.state.running + next.state.waiting) =~= requests(
                room.running + room.waiting,
            ));
            lemma_run_requests(next, i + 1);
        }
    }
}

proof fn lemma_let_in_requests(plan: Plan)
    ensures
        ({
            let more = plan.let_in().state;
            requests(more.running + more.waiting) == requests(
                plan.state.running + plan.state.waiting,
            )
        }),
    decreases plan.state.waiting.len(),
{
    let state = plan.state;
    if state.waiting.len() == 0 || plan.budget == 0 || state.running.len() >= state.max_seqs {
    } else {
        let seq = state.waiting[0];
        let layout = state.bm.token_layout(seq);
        let new = if state.chunked && plan.budget < layout.2 {
            plan.budget as int
        } else {
            layout.2
        };
        if new > plan.budget || state.bm.free.len() < sequence::ceil_div(
            layout.1 + new,
            state.bm.block_size as int,
        ) {
        } else {
            let (next, started) = state.start_first(new as nat);
            assert(request_of(started) == request_of(seq));
            assert(requests(next.running + next.waiting) =~= requests(
                state.running + state.waiting,
            ));
            lemma_let_in_requests(
                Plan {
                    state: next,
                    budget: (plan.budget - new) as nat,
                    picked: plan.picked.push(started),
                },
            );
        }
    }
}

/// Scheduling changes no request: a sequence that has to go back to the queue keeps the
/// tokens that it has got, and its turn.
pub proof fn scheduling_changes_no_request(state: SchedView)
    ensures
        requests(state.scheduled().state.running + state.scheduled().state.waiting) == requests(
            state.running + state.waiting,
        ),
{
    lemma_run_requests(state.start(), 0);
    lemma_let_in_requests(state.start().run_from(0));
}

/// The request that is first in turn comes closer to its end with every step: it is finished,
/// or it is still the first and longer by a token, or, where prompts are cut, still the first
/// with the same tokens, more of which are computed. This is so where the blocks suffice for
/// the longest sequence alone and, unless prompts are cut, the budget for its prompt.
pub proof fn the_first_request_comes_closer(
    state: SchedView,
    tokens: Seq<u32>,
    at: Seq<usize>,
)
    requires
        is_ready(state),
        state.running.len() > 0 || state.waiting.len() > 0,
        state.max_seqs > 0,
        state.max_batched > 0,
        state.bm.blocks.len() <= usize::MAX,
        sequence::ceil_div(state.max_len - 1, state.bm.block_size as int)
            <= state.bm.blocks.len(),
        state.chunked || state.max_len - 1 <= state.max_batched,
        state.scheduled().picked.len() <= usize::MAX,
        state.scheduled().state.is_step(state.scheduled().picked, at),
        forall|i: int|
            0 <= i < at.len() ==> (#[trigger] at[i]) < state.scheduled().picked.len(),
    ensures
        ({
            let first = (state.running + state.waiting)[0];
            let plan = state.scheduled();
            let (next, grown) = plan.state.postprocessed(plan.picked, tokens, at);
            scheduler_proofs::has_finished(grown, first.seq_id) || {
                &&& next.running.len() > 0
                &&& next.running[0].seq_id == first.seq_id
                &&& next.running[0].tokens.take(first.tokens.len() as int) == first.tokens
                &&& next.running[0].num_tokens == first.num_tokens + 1 || {
                    &&& state.chunked
                    &&& next.running[0].num_tokens == first.num_tokens
                    &&& next.running[0].num_cached > first.num_cached
                }
            }
        }),
{
    let plan = state.scheduled();
    let first = (state.running + state.waiting)[0];
    let all = plan.state.running + plan.state.waiting;
    a_step_makes_progress(state);
    lemma_scheduled(state);
    a_step_runs_the_active_sequences(state);
    scheduling_changes_no_request(state);
    let now = plan.picked[0];
    assert(now == plan.state.running[0]);
    assert(all[0] == now);
    assert(requests(all)[0] == request_of(now));
    assert(requests(state.running + state.waiting)[0] == request_of(first));
    assert(plan.state.may_run(plan.state.running[0]));
    assert(now.num_new > 0);
    assert(at.contains(0usize) <==> plan.picked[0].context() == plan.picked[0].num_tokens);
    scheduler_proofs::lemma_first_goes_on(plan.state, plan.picked, tokens, at);
    let next = plan.state.postprocessed(plan.picked, tokens, at).0;
    if next.running.len() > 0 {
        let token = next.running[0].last_token;
        assert(now.tokens.push(token).take(first.tokens.len() as int) =~= first.tokens);
        assert(now.tokens.take(first.tokens.len() as int) =~= first.tokens);
    }
}

} // verus!
