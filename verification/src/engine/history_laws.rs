//! What the cache holds is what was computed before: every known hash is that of a block of tokens
//! that some sequence has had.
use crate::engine::block_laws;
use crate::engine::block_manager;
use crate::engine::block_manager::BmView;
use crate::engine::block_proofs;
use crate::engine::prefix_laws;
use crate::engine::scheduler;
use crate::engine::scheduler::{Plan, SchedView};
use crate::engine::scheduler_laws;
use crate::engine::scheduler_proofs;
use crate::engine::sequence;
use crate::engine::sequence::SeqView;
use vstd::prelude::*;

verus! {

/// What is known of hash `h` stays so where its block and what it holds do.
proof fn lemma_same_entry(bm: BmView, next: BmView, seen: Set<Seq<u32>>, h: i64)
    requires
        bm.cached.contains_key(h),
        prefix_laws::cache_is_of(bm, seen),
        next.block_size == bm.block_size,
        next.blocks[next.cached[h] as int].tokens == bm.blocks[bm.cached[h] as int].tokens,
    ensures
        prefix_laws::comes_from(next, seen, h),
{
    assert(prefix_laws::comes_from(bm, seen, h));
    let (t, i) = choose|t: Seq<u32>, i: int| #[trigger]
        prefix_laws::is_block_of(bm, t, i, h) && seen.contains(t);
    assert(prefix_laws::is_block_of(next, t, i, h));
}

proof fn lemma_take(bm: BmView, b: usize, seen: Set<Seq<u32>>)
    requires
        bm.wf(),
        bm.free.contains(b),
        prefix_laws::cache_is_of(bm, seen),
    ensures
        prefix_laws::cache_is_of(bm.take(b), seen),
{
    block_proofs::lemma_take(bm, b);
    let next = bm.take(b);
    assert forall|h: i64| #[trigger] next.cached.contains_key(h) implies prefix_laws::comes_from(
        next,
        seen,
        h,
    ) by {
        lemma_same_entry(bm, next, seen, h);
    }
}

proof fn lemma_record(bm: BmView, b: usize, seq: SeqView, i: int, seen: Set<Seq<u32>>)
    requires
        bm.wf(),
        b < bm.blocks.len(),
        bm.is_open(b),
        bm.block_size > 0,
        0 <= i,
        (i + 1) * bm.block_size <= seq.tokens.len(),
        seen.contains(seq.tokens),
        prefix_laws::cache_is_of(bm, seen),
    ensures
        prefix_laws::cache_is_of(
            bm.record(
                b,
                block_manager::chain_hash(seq.tokens, bm.block_size, i),
                seq.tokens.subrange(i * bm.block_size, (i + 1) * bm.block_size),
            ),
            seen,
        ),
{
    let size = bm.block_size;
    let own = block_manager::chain_hash(seq.tokens, size, i);
    let next = bm.record(b, own, seq.tokens.subrange(i * size, (i + 1) * size));
    assert forall|h: i64| #[trigger] next.cached.contains_key(h) implies prefix_laws::comes_from(
        next,
        seen,
        h,
    ) by {
        if h == own {
            assert(prefix_laws::is_block_of(next, seq.tokens, i, h));
        } else {
            assert(bm.cached.contains_key(h));
            assert(bm.cached[h] != b);
            lemma_same_entry(bm, next, seen, h);
        }
    }
}

proof fn lemma_fill(bm: BmView, seq: SeqView, i: int, table: Seq<usize>, seen: Set<Seq<u32>>)
    requires
        bm.wf(),
        bm.block_size > 0,
        seq.block_size == bm.block_size,
        seq.context() <= seq.tokens.len(),
        0 <= i <= seq.context_blocks(),
        table.len() == i,
        forall|j: int| 0 <= j < table.len() ==> (#[trigger] table[j]) < bm.blocks.len(),
        bm.free.len() >= seq.context_blocks() - i,
        seen.contains(seq.tokens),
        prefix_laws::cache_is_of(bm, seen),
    ensures
        prefix_laws::cache_is_of(bm.fill(seq, i, table).0, seen),
    decreases seq.context_blocks() - i,
{
    if i < seq.context_blocks() {
        let size = bm.block_size as int;
        let piece = seq.piece(i);
        let h = if piece.len() == bm.block_size {
            block_manager::chain_hash(seq.tokens, bm.block_size, i)
        } else {
            block_manager::NO_HASH
        };
        let b = bm.free[0];
        let mid = bm.fresh_block(h, piece);
        let pushed = table.push(b);
        sequence::lemma_block_bounds(seq.context() as int, size, i);
        sequence::lemma_piece(seq, i);
        assert(bm.free.contains(b));
        lemma_take(bm, b, seen);
        block_proofs::lemma_take(bm, b);
        if h != block_manager::NO_HASH {
            lemma_record(bm.take(b), b, seq, i, seen);
        }
        block_proofs::lemma_fresh_block(bm, h, piece);
        assert forall|j: int| 0 <= j < pushed.len() implies (#[trigger] pushed[j])
            < mid.blocks.len() by {
            if j < table.len() {
                assert(pushed[j] == table[j]);
            }
        }
        lemma_fill(mid, seq, i + 1, pushed, seen);
    }
}

proof fn lemma_append(bm: BmView, seq: SeqView, i: int, table: Seq<usize>, seen: Set<Seq<u32>>)
    requires
        bm.wf(),
        bm.block_size > 0,
        seq.block_size == bm.block_size,
        seq.context() <= seq.tokens.len(),
        0 <= i <= seq.context_blocks(),
        i <= table.len() <= i + 1,
        table.len() <= seq.context_blocks(),
        forall|j: int| 0 <= j < table.len() ==> (#[trigger] table[j]) < bm.blocks.len(),
        i < table.len() ==> bm.is_open(table[i]) && bm.blocks[table[i] as int].ref_count == 1,
        bm.free.len() >= seq.context_blocks() - table.len(),
        i > 0 ==> bm.blocks[table[i - 1] as int].hash == block_manager::chain_hash(
            seq.tokens,
            seq.block_size,
            i - 1,
        ),
        seen.contains(seq.tokens),
        prefix_laws::cache_is_of(bm, seen),
    ensures
        prefix_laws::cache_is_of(bm.append_from(seq, i, table).0, seen),
    decreases seq.context_blocks() - i,
{
    if i < seq.context_blocks() {
        let size = bm.block_size as int;
        let (mid, pushed) = bm.append_block(seq, i, table);
        sequence::lemma_block_bounds(seq.context() as int, size, i);
        sequence::lemma_piece(seq, i);
        block_proofs::lemma_append_block(bm, seq, i, table);
        block_proofs::lemma_append_block_frame(bm, seq, i, table);
        let b = pushed[i];
        let ready = if i < table.len() {
            bm
        } else {
            bm.take(bm.free[0])
        };
        if i >= table.len() {
            assert(bm.free.contains(bm.free[0]));
            lemma_take(bm, bm.free[0], seen);
            block_proofs::lemma_take(bm, bm.free[0]);
        }
        if i == 0 {
            assert(block_manager::chain_hash(seq.tokens, seq.block_size, i - 1)
                == block_manager::NO_HASH);
        }
        if seq.piece(i).len() == bm.block_size {
            assert(mid == ready.record(
                b,
                block_manager::chain_hash(seq.tokens, bm.block_size, i),
                seq.piece(i),
            ));
            lemma_record(ready, b, seq, i, seen);
            lemma_append(mid, seq, i + 1, pushed, seen);
        } else {
            assert(mid == ready);
            assert(i + 1 == seq.context_blocks());
            assert(mid.append_from(seq, i + 1, pushed).0 == mid);
        }
    }
}

/// The token lists of all that run or wait have been seen, and the cache is of what has been seen.
pub open spec fn is_of(state: SchedView, seen: Set<Seq<u32>>) -> bool {
    &&& prefix_laws::cache_is_of(state.bm, seen)
    &&& forall|p: int|
        0 <= p < state.running.len() ==> seen.contains((#[trigger] state.running[p]).tokens)
    &&& forall|w: int|
        0 <= w < state.waiting.len() ==> seen.contains((#[trigger] state.waiting[w]).tokens)
}

proof fn lemma_preempt(state: SchedView, seen: Set<Seq<u32>>)
    requires
        state.wf(),
        state.running.len() > 0,
        is_of(state, seen),
    ensures
        is_of(state.preempt_last(), seen),
{
    let n = state.running.len() - 1;
    let next = state.preempt_last();
    scheduler_proofs::lemma_can_release(state, n);
    block_proofs::lemma_release(state.bm, state.running[n].table);
    assert(state.running.last() == state.running[n]);
    assert forall|h: i64| #[trigger] next.bm.cached.contains_key(h) implies prefix_laws::comes_from(
        next.bm,
        seen,
        h,
    ) by {
        lemma_same_entry(state.bm, next.bm, seen, h);
    }
    assert forall|w: int| 0 <= w < next.waiting.len() implies seen.contains(
        (#[trigger] next.waiting[w]).tokens,
    ) by {
        if w == 0 {
            assert(next.waiting[0].tokens == state.running[n].tokens);
        } else {
            assert(next.waiting[w] == state.waiting[w - 1]);
        }
    }
}

proof fn lemma_make_room(
    plan: Plan,
    start: SchedView,
    seq: SeqView,
    new: nat,
    i: int,
    seen: Set<Seq<u32>>,
)
    requires
        scheduler_laws::plan_ok(plan, start),
        i == plan.picked.len(),
        is_of(plan.state, seen),
    ensures
        is_of(plan.state.make_room(seq, new, i), seen),
    decreases plan.state.running.len(),
{
    let state = plan.state;
    if state.running.len() <= i || state.running.len() == 0 || state.bm.can_append(
        seq.num_cached,
        new,
    ) {
    } else {
        let next = state.preempt_last();
        scheduler_proofs::lemma_preempt_last(state);
        lemma_preempt(state, seen);
        assert(next.running.take(i) =~= state.running.take(i));
        assert forall|k: int| 0 <= k < next.running.len() implies #[trigger] next.running[k]
            == state.running[k] by {
        }
        let less = Plan { state: next, ..plan };
        assert(scheduler_laws::plan_ok(less, start));
        lemma_make_room(less, start, seq, new, i, seen);
    }
}

proof fn lemma_append_running(state: SchedView, p: int, new: nat, seen: Set<Seq<u32>>)
    requires
        state.wf(),
        0 <= p < state.running.len(),
        state.running[p].num_new == 0,
        new > 0,
        state.running[p].num_cached + new <= state.running[p].num_tokens,
        state.bm.can_append(state.running[p].num_cached, new),
        scheduler_laws::hashes_are_true(state),
        is_of(state, seen),
    ensures
        ({
            let (bm, grown) = state.bm.appended(SeqView { num_new: new, ..state.running[p] });
            is_of(SchedView { bm, running: state.running.update(p, grown), ..state }, seen)
        }),
{
    let old_seq = state.running[p];
    let seq = SeqView { num_new: new, ..old_seq };
    let size = state.bm.block_size as int;
    let first = seq.num_cached as int / size;
    assert(state.may_run(old_seq));
    assert(state.may_resume(old_seq));
    assert(scheduler_laws::has_true_hashes(state.bm, state.running[p]));
    sequence::lemma_floor_div(seq.num_cached as int, size);
    sequence::lemma_ceil_monotone(seq.num_cached as int, seq.context() as int, size);
    if seq.num_cached as int % size != 0 {
        scheduler_proofs::lemma_last_block(state, p);
        assert(seq.table[first] == seq.table.last());
    }
    if first > 0 {
        assert((first - 1 + 1) * size <= seq.num_cached);
        assert(scheduler_laws::block_is_true(
            state.bm,
            old_seq,
            old_seq.table[first - 1],
            first - 1,
        ));
    }
    lemma_append(state.bm, seq, first, seq.table, seen);
    let (bm, grown) = state.bm.appended(seq);
    let next = SchedView { bm, running: state.running.update(p, grown), ..state };
    assert forall|q: int| 0 <= q < next.running.len() implies seen.contains(
        (#[trigger] next.running[q]).tokens,
    ) by {
        assert(seen.contains(state.running[q].tokens));
    }
}

proof fn lemma_start(state: SchedView, new: nat, seen: Set<Seq<u32>>)
    requires
        state.wf(),
        state.fits(),
        state.waiting.len() > 0,
        new <= state.bm.token_layout(state.waiting[0]).2,
        state.bm.free.len() >= sequence::ceil_div(
            state.bm.token_layout(state.waiting[0]).1 + new,
            state.bm.block_size as int,
        ),
        is_of(state, seen),
    ensures
        is_of(state.start_first(new).0, seen),
{
    let seq = SeqView { num_new: new, ..state.waiting[0] };
    let size = state.bm.block_size as int;
    let hits = state.bm.hits(seq) as int;
    let table = state.bm.hit_table(seq);
    assert(state.may_wait(state.waiting[0]));
    scheduler_proofs::lemma_can_start(state, new);
    block_proofs::lemma_hit_table(state.bm, seq);
    block_proofs::lemma_hold_all(state.bm, table);
    let held = state.bm.hold_all(table);
    let cached = SeqView { num_cached: (hits * size) as nat, table, ..seq };
    sequence::lemma_shifted_blocks(new as int, size, hits);
    sequence::lemma_ceil_div(new as int, size);
    assert(0 <= hits * size) by (nonlinear_arith)
        requires
            hits >= 0,
            size >= 0,
    ;
    assert forall|h: i64| #[trigger] held.cached.contains_key(h) implies prefix_laws::comes_from(
        held,
        seen,
        h,
    ) by {
        lemma_same_entry(state.bm, held, seen, h);
    }
    assert(seen.contains(state.waiting[0].tokens));
    lemma_fill(held, cached, hits, table, seen);
    let (next, run) = state.start_first(new);
    assert forall|q: int| 0 <= q < next.running.len() implies seen.contains(
        (#[trigger] next.running[q]).tokens,
    ) by {
        if q < state.running.len() {
            assert(next.running[q] == state.running[q]);
        }
    }
    assert forall|w: int| 0 <= w < next.waiting.len() implies seen.contains(
        (#[trigger] next.waiting[w]).tokens,
    ) by {
        assert(next.waiting[w] == state.waiting[w + 1]);
    }
}

proof fn lemma_run(plan: Plan, start: SchedView, seen: Set<Seq<u32>>)
    requires
        scheduler_laws::plan_ok(plan, start),
        scheduler_laws::hashes_are_true(plan.state),
        is_of(plan.state, seen),
    ensures
        is_of(plan.run_from(plan.picked.len() as int).state, seen),
    decreases plan.state.running.len() - plan.picked.len(),
{
    let i = plan.picked.len() as int;
    let state = plan.state;
    if i < state.running.len() && plan.budget > 0 {
        let seq = state.running[i];
        let new = state.grant(seq, plan.budget);
        let room = state.make_room(seq, new, i);
        scheduler_laws::lemma_make_room(plan, start, seq, new, i);
        scheduler_laws::lemma_make_room_hashes(plan, start, seq, new, i);
        lemma_make_room(plan, start, seq, new, i, seen);
        if room.running.len() > i {
            assert(room.running[i] == seq);
            scheduler_proofs::lemma_grant(state, i, plan.budget);
            scheduler_proofs::lemma_append_running(room, i, new);
            scheduler_laws::lemma_disjoint_append(room, i, new);
            scheduler_laws::lemma_append_running_hashes(room, i, new);
            lemma_append_running(room, i, new, seen);
            let (bm, grown) = room.bm.appended(SeqView { num_new: new, ..seq });
            let next = Plan {
                state: SchedView { bm, running: room.running.update(i, grown), ..room },
                budget: (plan.budget - new) as nat,
                picked: plan.picked.push(grown),
            };
            scheduler_laws::lemma_total_push(plan.picked, grown);
            assert(next.picked =~= next.state.running.take(i + 1));
            scheduler_laws::lemma_append_len(room, i, new);
            assert(scheduler_laws::plan_ok(next, start));
            lemma_run(next, start, seen);
        }
    }
}

proof fn lemma_let_in(plan: Plan, start: SchedView, seen: Set<Seq<u32>>)
    requires
        scheduler_laws::plan_ok(plan, start),
        plan.budget > 0 ==> plan.picked.len() == plan.state.running.len(),
        plan.state.fits(),
        is_of(plan.state, seen),
    ensures
        is_of(plan.let_in().state, seen),
    decreases plan.state.waiting.len(),
{
    let state = plan.state;
    if state.waiting.len() == 0 || plan.budget == 0 || state.running.len() >= state.max_seqs {
    } else {
        let seq = state.waiting[0];
        let layout = state.bm.token_layout(seq);
        let new = if state.chunked && plan.budget < layout.2 {
            plan.budget as int
        } else {
            layout.2
        };
        assert(state.may_wait(seq));
        block_laws::layout_accounts_for_every_token(state.bm, seq);
        if new > plan.budget || state.bm.free.len() < sequence::ceil_div(
            layout.1 + new,
            state.bm.block_size as int,
        ) {
        } else {
            scheduler_proofs::lemma_start(state, new as nat);
            scheduler_laws::lemma_disjoint_start(state, new as nat);
            lemma_start(state, new as nat, seen);
            let (next, started) = state.start_first(new as nat);
            let more = Plan {
                state: next,
                budget: (plan.budget - new) as nat,
                picked: plan.picked.push(started),
            };
            scheduler_laws::lemma_total_push(plan.picked, started);
            assert(plan.picked =~= state.running);
            assert(more.picked =~= next.running.take(next.running.len() as int));
            assert forall|k: int| 0 <= k < next.running.len() implies (
            #[trigger] next.running[k]).num_new > 0 by {
                if k < state.running.len() {
                    assert(next.running[k] == state.running[k]);
                }
            }
            assert(scheduler_laws::plan_ok(more, start));
            lemma_let_in(more, start, seen);
        }
    }
}

/// A new cache is of whatever has been seen: there is nothing in it. All its blocks are free, the
/// first one first, and no tokens are found in it.
pub proof fn a_new_cache_is_of_anything(bm: BmView, seen: Set<Seq<u32>>, seq: SeqView)
    requires
        bm.is_new(),
    ensures
        prefix_laws::cache_is_of(bm, seen),
        bm.free.len() == bm.blocks.len(),
        forall|i: int| 0 <= i < bm.free.len() ==> (#[trigger] bm.free[i]) == i as usize,
        forall|i: int| 0 <= i < bm.blocks.len() ==> (#[trigger] bm.blocks[i]).ref_count == 0,
        bm.hits(seq) == 0,
        bm.token_layout(seq) == (0int, 0int, seq.num_tokens as int),
{
    assert(bm.hit(seq, 0) is None);
    assert(bm.hits(seq) == 0);
    assert(bm.hit_table(seq) =~= Seq::empty());
}

/// Scheduling a step fills blocks with tokens of the sequences that run, under the hashes that go
/// over all their tokens up to there: the cache stays one of what has been seen.
pub proof fn scheduling_keeps_the_cache_of_what_was_seen(state: SchedView, seen: Set<Seq<u32>>)
    requires
        scheduler_laws::is_ready(state),
        scheduler_laws::hashes_are_true(state),
        is_of(state, seen),
    ensures
        is_of(state.scheduled().state, seen),
{
    let start = state.start();
    assert(start.picked =~= state.running.take(0));
    scheduler_laws::lemma_disjoint_at_rest(state);
    assert(scheduler_laws::plan_ok(start, state));
    scheduler_laws::lemma_run_from(start, state);
    lemma_run(start, state, seen);
    let ran = start.run_from(0);
    assert(ran.state.fits()) by {
        assert(scheduler::ids(ran.state.running + ran.state.waiting).len() == ran.state.running.len()
            + ran.state.waiting.len());
        assert(scheduler::ids(state.running + state.waiting).len() == state.running.len()
            + state.waiting.len());
    }
    if ran.state.running.len() < state.running.len() {
    } else {
        lemma_let_in(ran, state, seen);
    }
}

/// The end of a step changes nothing in the cache.
pub proof fn the_end_of_a_step_keeps_the_cache(
    state: SchedView,
    seqs: Seq<SeqView>,
    tokens: Seq<u32>,
    at: Seq<usize>,
    seen: Set<Seq<u32>>,
)
    requires
        state.wf(),
        state.runs(seqs),
        state.is_step(seqs, at),
        seqs.len() <= usize::MAX,
        forall|i: int| 0 <= i < at.len() ==> (#[trigger] at[i]) < seqs.len(),
        prefix_laws::cache_is_of(state.bm, seen),
    ensures
        prefix_laws::cache_is_of(state.postprocessed(seqs, tokens, at).0.bm, seen),
{
    let (mid, grown) = state.take_tokens(seqs, tokens, at, 0);
    let next = state.postprocessed(seqs, tokens, at).0;
    scheduler_proofs::lemma_step_ends(state, seqs, tokens, at);
    lemma_taken_cached(state, seqs, tokens, at, 0);
    lemma_sync_bm(mid, grown, 0);
    assert forall|h: i64| #[trigger] next.bm.cached.contains_key(h) implies prefix_laws::comes_from(
        next.bm,
        seen,
        h,
    ) by {
        assert(state.bm.cached[h] < state.bm.blocks.len());
        lemma_same_entry(state.bm, next.bm, seen, h);
    }
}

proof fn lemma_taken_cached(
    state: SchedView,
    seqs: Seq<SeqView>,
    tokens: Seq<u32>,
    at: Seq<usize>,
    k: int,
)
    ensures
        state.take_tokens(seqs, tokens, at, k).0.bm.cached == state.bm.cached,
        state.take_tokens(seqs, tokens, at, k).0.bm.block_size == state.bm.block_size,
    decreases at.len() - k,
{
    if k < at.len() {
        let (next, grown) = state.take_token(seqs, at[k] as int, tokens[k]);
        lemma_released_cached(state.bm, seqs[at[k] as int].table);
        lemma_taken_cached(next, grown, tokens, at, k + 1);
    }
}

proof fn lemma_released_cached(bm: BmView, table: Seq<usize>)
    ensures
        bm.release(table).cached == bm.cached,
        bm.release(table).block_size == bm.block_size,
    decreases table.len(),
{
    if table.len() > 0 {
        lemma_released_cached(bm.drop_one(table.last()), table.drop_last());
    }
}

proof fn lemma_sync_bm(state: SchedView, seqs: Seq<SeqView>, j: int)
    ensures
        state.sync_all(seqs, j).bm == state.bm,
    decreases seqs.len() - j,
{
    if j < seqs.len() {
        lemma_sync_bm(state.sync(seqs[j]), seqs, j + 1);
    }
}

/// What [`BmView::append_from`] works on: the blocks before block `i` are full and hashed, block `i`
/// is open if there is one, and there are free blocks for the rest.
spec fn can_go_on(bm: BmView, seq: SeqView, i: int, table: Seq<usize>) -> bool {
    &&& bm.wf()
    &&& bm.block_size > 0
    &&& seq.block_size == bm.block_size
    &&& seq.context() <= seq.tokens.len()
    &&& 0 <= i <= seq.context_blocks()
    &&& i <= table.len() <= i + 1
    &&& table.len() <= seq.context_blocks()
    &&& forall|j: int| 0 <= j < table.len() ==> (#[trigger] table[j]) < bm.blocks.len()
    &&& i < table.len() ==> bm.is_open(table[i]) && bm.blocks[table[i] as int].ref_count == 1
    &&& bm.free.len() >= seq.context_blocks() - table.len()
    &&& i > 0 ==> bm.blocks[table[i - 1] as int].hash == block_manager::chain_hash(
        seq.tokens,
        seq.block_size,
        i - 1,
    )
}

/// Hash `h` leads to block `b`, which is held and holds `tokens`.
spec fn leads_to(bm: BmView, h: i64, b: usize, tokens: Seq<u32>) -> bool {
    &&& bm.cached.contains_key(h)
    &&& bm.cached[h] == b
    &&& b < bm.blocks.len()
    &&& bm.blocks[b as int].ref_count > 0
    &&& bm.blocks[b as int].tokens == tokens
}

/// One block more: what it comes to, and what is left of an entry under another hash.
proof fn lemma_one_more(bm: BmView, seq: SeqView, i: int, table: Seq<usize>)
    requires
        can_go_on(bm, seq, i, table),
        i < seq.context_blocks(),
    ensures
        ({
            let size = bm.block_size as int;
            let (mid, longer) = bm.append_block(seq, i, table);
            let own = block_manager::chain_hash(seq.tokens, bm.block_size, i);
            &&& longer.len() == i + 1
            &&& mid.block_size == bm.block_size
            &&& (i + 1) * size <= seq.context() ==> can_go_on(mid, seq, i + 1, longer) && leads_to(
                mid,
                own,
                longer[i],
                seq.tokens.subrange(i * size, (i + 1) * size),
            )
            &&& (i + 1) * size > seq.context() ==> i + 1 == seq.context_blocks()
            &&& forall|h: i64, b: usize, tokens: Seq<u32>| #[trigger]
                leads_to(bm, h, b, tokens) && ((i + 1) * size <= seq.context() ==> h != own)
                    ==> leads_to(mid, h, b, tokens)
        }),
{
    let size = bm.block_size as int;
    let (mid, longer) = bm.append_block(seq, i, table);
    let own = block_manager::chain_hash(seq.tokens, bm.block_size, i);
    sequence::lemma_block_bounds(seq.context() as int, size, i);
    sequence::lemma_piece(seq, i);
    block_proofs::lemma_append_block(bm, seq, i, table);
    block_proofs::lemma_append_block_frame(bm, seq, i, table);
    if i >= table.len() {
        assert(bm.free.contains(bm.free[0]));
        block_proofs::lemma_take(bm, bm.free[0]);
    }
    if i == 0 {
        assert(block_manager::chain_hash(seq.tokens, seq.block_size, i - 1)
            == block_manager::NO_HASH);
    }
    assert forall|h: i64, b: usize, tokens: Seq<u32>| #[trigger]
        leads_to(bm, h, b, tokens) && ((i + 1) * size <= seq.context() ==> h
            != own) implies leads_to(mid, h, b, tokens) by {
        if i < table.len() {
            assert(b != table[i]);
        } else {
            assert(b != bm.free[0]);
        }
    }
    if (i + 1) * size <= seq.context() {
        assert(seq.piece(i) =~= seq.tokens.subrange(i * size, (i + 1) * size));
    }
}

proof fn lemma_entry_stays(
    bm: BmView,
    seq: SeqView,
    i: int,
    table: Seq<usize>,
    h: i64,
    b: usize,
    tokens: Seq<u32>,
)
    requires
        can_go_on(bm, seq, i, table),
        leads_to(bm, h, b, tokens),
        forall|k: int|
            i <= k && (k + 1) * bm.block_size <= seq.context()
                ==> #[trigger] block_manager::chain_hash(seq.tokens, bm.block_size, k) != h,
    ensures
        leads_to(bm.append_from(seq, i, table).0, h, b, tokens),
        bm.append_from(seq, i, table).1.len() == if i < seq.context_blocks() {
            seq.context_blocks() as nat
        } else {
            table.len()
        },
    decreases seq.context_blocks() - i,
{
    if i < seq.context_blocks() {
        let (mid, longer) = bm.append_block(seq, i, table);
        lemma_one_more(bm, seq, i, table);
        assert((i + 1) * bm.block_size <= seq.context() ==> block_manager::chain_hash(
            seq.tokens,
            bm.block_size,
            i,
        ) != h);
        assert(leads_to(bm, h, b, tokens));
        if (i + 1) * bm.block_size <= seq.context() {
            lemma_entry_stays(mid, seq, i + 1, longer, h, b, tokens);
        } else {
            assert(mid.append_from(seq, i + 1, longer) == (mid, longer));
        }
    }
}

proof fn lemma_entered(bm: BmView, seq: SeqView, i: int, table: Seq<usize>, j: int)
    requires
        can_go_on(bm, seq, i, table),
        i <= j,
        (j + 1) * bm.block_size <= seq.context(),
        forall|k: int|
            j < k && (k + 1) * bm.block_size <= seq.context() ==> #[trigger] block_manager::chain_hash(
                seq.tokens,
                bm.block_size,
                k,
            ) != block_manager::chain_hash(seq.tokens, bm.block_size, j),
    ensures
        ({
            let (end, longer) = bm.append_from(seq, i, table);
            let h = block_manager::chain_hash(seq.tokens, bm.block_size, j);
            &&& end.cached.contains_key(h)
            &&& end.blocks[end.cached[h] as int].tokens == seq.tokens.subrange(
                j * bm.block_size,
                (j + 1) * bm.block_size,
            )
        }),
    decreases j - i,
{
    let size = bm.block_size as int;
    assert(i < seq.context_blocks()) by {
        sequence::lemma_ceil_div(seq.context() as int, size);
        assert((i + 1) * size <= (j + 1) * size) by (nonlinear_arith)
            requires
                i <= j,
                size > 0,
        ;
        if seq.context_blocks() <= i {
            assert(seq.context_blocks() * size <= i * size && i * size < (i + 1) * size)
                by (nonlinear_arith)
                requires
                    seq.context_blocks() <= i,
                    size > 0,
            ;
        }
    }
    assert((i + 1) * size <= (j + 1) * size) by (nonlinear_arith)
        requires
            i <= j,
            size > 0,
    ;
    let (mid, longer) = bm.append_block(seq, i, table);
    lemma_one_more(bm, seq, i, table);
    if i < j {
        lemma_entered(mid, seq, i + 1, longer, j);
    } else {
        lemma_entry_stays(
            mid,
            seq,
            i + 1,
            longer,
            block_manager::chain_hash(seq.tokens, bm.block_size, i),
            longer[i],
            seq.tokens.subrange(i * size, (i + 1) * size),
        );
    }
}

/// What a sequence fills while it runs is found from then on: block `j` of its tokens, if the new
/// tokens fill it up, is in the cache under the hash of all tokens up to its end. This rests on the
/// hashes of the blocks behind it being others.
pub proof fn blocks_filled_while_running_are_found(state: SchedView, p: int, new: nat, j: int)
    requires
        state.wf(),
        0 <= p < state.running.len(),
        state.running[p].num_new == 0,
        new > 0,
        state.running[p].num_cached + new <= state.running[p].num_tokens,
        state.bm.can_append(state.running[p].num_cached, new),
        scheduler_laws::hashes_are_true(state),
        state.running[p].num_cached < (j + 1) * state.bm.block_size
            <= state.running[p].num_cached + new,
        j >= 0,
        forall|k: int|
            j < k && (k + 1) * state.bm.block_size <= state.running[p].num_cached + new
                ==> #[trigger] block_manager::chain_hash(
                state.running[p].tokens,
                state.bm.block_size,
                k,
            ) != block_manager::chain_hash(state.running[p].tokens, state.bm.block_size, j),
    ensures
        ({
            let size = state.bm.block_size;
            let tokens = state.running[p].tokens;
            let next = state.bm.appended(SeqView { num_new: new, ..state.running[p] }).0;
            next.lookup(
                block_manager::chain_hash(tokens, size, j),
                tokens.subrange(j * size, (j + 1) * size),
            ) is Some
        }),
{
    let old_seq = state.running[p];
    let seq = SeqView { num_new: new, ..old_seq };
    let size = state.bm.block_size as int;
    let first = seq.num_cached as int / size;
    assert(state.may_run(old_seq));
    assert(state.may_resume(old_seq));
    assert(scheduler_laws::has_true_hashes(state.bm, state.running[p]));
    sequence::lemma_floor_div(seq.num_cached as int, size);
    sequence::lemma_ceil_monotone(seq.num_cached as int, seq.context() as int, size);
    if seq.num_cached as int % size != 0 {
        scheduler_proofs::lemma_last_block(state, p);
        assert(seq.table[first] == seq.table.last());
    }
    if first > 0 {
        assert((first - 1 + 1) * size <= seq.num_cached);
        assert(scheduler_laws::block_is_true(
            state.bm,
            old_seq,
            old_seq.table[first - 1],
            first - 1,
        ));
    }
    assert(first <= j) by (nonlinear_arith)
        requires
            first == seq.num_cached as int / size,
            seq.num_cached < (j + 1) * size,
            size > 0,
    ;
    lemma_entered(state.bm, seq, first, seq.table, j);
}

/// Blocks that are given up go behind the free ones, which keep their order, and the last of a
/// sequence goes there first: what was freed last is handed out last, and can be found the longest.
pub proof fn released_blocks_go_behind_the_free_ones(bm: BmView, table: Seq<usize>)
    ensures
        bm.free.len() <= bm.release(table).free.len(),
        bm.release(table).free.take(bm.free.len() as int) == bm.free,
        forall|k: int|
            bm.free.len() <= k < bm.release(table).free.len() ==> stands_in(
                table,
                #[trigger] bm.release(table).free[k],
                table.len() as int,
            ),
        forall|k: int, l: int|
            bm.free.len() <= k < l < bm.release(table).free.len() ==> #[trigger] stand_reversed(
                table,
                bm.release(table).free[k],
                bm.release(table).free[l],
            ),
    decreases table.len(),
{
    let end = bm.release(table);
    if table.len() > 0 {
        let last = table.last();
        let next = bm.drop_one(last);
        let rest = table.drop_last();
        released_blocks_go_behind_the_free_ones(next, rest);
        assert(next.free.take(bm.free.len() as int) =~= bm.free);
        assert(end.free.take(bm.free.len() as int) =~= end.free.take(next.free.len() as int).take(
            bm.free.len() as int,
        ));
        assert forall|k: int| bm.free.len() <= k < end.free.len() implies stands_in(
            table,
            #[trigger] end.free[k],
            table.len() as int,
        ) && (k >= next.free.len() ==> stands_in(table, end.free[k], table.len() - 1)) && (k
            < next.free.len() ==> end.free[k] == last) by {
            if k < next.free.len() {
                assert(end.free[k] == end.free.take(next.free.len() as int)[k]);
                assert(table[table.len() - 1] == end.free[k]);
            } else {
                assert(stands_in(rest, end.free[k], rest.len() as int));
                let i = choose|i: int| 0 <= i < rest.len() && rest[i] == end.free[k];
                assert(table[i] == end.free[k]);
            }
        }
        assert forall|k: int, l: int| bm.free.len() <= k < l < end.free.len() implies
            #[trigger] stand_reversed(table, end.free[k], end.free[l]) by {
            assert(stands_in(table, end.free[k], table.len() as int));
            assert(stands_in(table, end.free[l], table.len() as int));
            if k < next.free.len() {
                assert(next.free.len() <= bm.free.len() + 1);
                assert(stands_in(table, end.free[l], table.len() - 1));
                assert(table[table.len() - 1] == end.free[k]);
            } else {
                assert(stand_reversed(rest, end.free[k], end.free[l]));
                let i = choose|i: int|
                    0 <= i < rest.len() && rest[i] == end.free[k] && #[trigger] stands_in(
                        rest,
                        end.free[l],
                        i,
                    );
                let j = choose|j: int| 0 <= j < i && rest[j] == end.free[l];
                assert(table[j] == end.free[l]);
                assert(table[i] == end.free[k]);
                assert(stands_in(table, end.free[l], i));
            }
        }
    } else {
        assert(bm.free.take(bm.free.len() as int) =~= bm.free);
    }
}

/// Block `b` is one of the first `n` of `table`.
pub open spec fn stands_in(table: Seq<usize>, b: usize, n: int) -> bool {
    exists|i: int| 0 <= i < n && i < table.len() && #[trigger] table[i] == b
}

/// Block `b` stands in `table` before `a`.
pub open spec fn stand_reversed(table: Seq<usize>, a: usize, b: usize) -> bool {
    exists|i: int| 0 <= i < table.len() && table[i] == a && #[trigger] stands_in(table, b, i)
}

} // verus!
