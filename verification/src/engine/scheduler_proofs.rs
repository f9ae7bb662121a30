//! What each step of scheduling keeps.
use crate::engine::block_laws;
use crate::engine::block_manager;
use crate::engine::block_manager::{BmView, NO_HASH};
use crate::engine::block_proofs;
use crate::engine::scheduler;
use crate::engine::scheduler::SchedView;
use crate::engine::sequence;
use crate::engine::sequence::{SeqView, SequenceStatus};
use vstd::prelude::*;

verus! {

/// Preemption leaves no more running sequences than there were.
pub proof fn lemma_make_room_len(state: SchedView, seq: SeqView, new: nat, i: int)
    ensures
        state.make_room(seq, new, i).running.len() <= state.running.len(),
    decreases state.running.len(),
{
    if state.running.len() <= i || state.running.len() == 0 || state.bm.can_append(
        seq.num_cached,
        new,
    ) {
    } else {
        lemma_make_room_len(state.preempt_last(), seq, new, i);
    }
}

/// One more running sequence.
pub proof fn lemma_holders_push(running: Seq<SeqView>, seq: SeqView, b: int)
    ensures
        scheduler::holders(running.push(seq), b) == scheduler::holders(running, b)
            + block_manager::count_of(seq.table, b),
{
    assert(running.push(seq).drop_last() =~= running);
}

/// One running sequence in place of another.
pub proof fn lemma_holders_update(running: Seq<SeqView>, i: int, seq: SeqView, b: int)
    requires
        0 <= i < running.len(),
    ensures
        scheduler::holders(running.update(i, seq), b) + block_manager::count_of(
            running[i].table,
            b,
        ) == scheduler::holders(running, b) + block_manager::count_of(seq.table, b),
    decreases running.len(),
{
    let next = running.update(i, seq);
    if i == running.len() - 1 {
        assert(next.drop_last() =~= running.drop_last());
    } else {
        assert(next.drop_last() =~= running.drop_last().update(i, seq));
        lemma_holders_update(running.drop_last(), i, seq, b);
    }
}

/// Running sequence `i` gone.
pub proof fn lemma_holders_remove(running: Seq<SeqView>, i: int, b: int)
    requires
        0 <= i < running.len(),
    ensures
        scheduler::holders(running.remove(i), b) + block_manager::count_of(running[i].table, b)
            == scheduler::holders(running, b),
    decreases running.len(),
{
    let next = running.remove(i);
    if i == running.len() - 1 {
        assert(next =~= running.drop_last());
    } else {
        assert(next.drop_last() =~= running.drop_last().remove(i));
        lemma_holders_remove(running.drop_last(), i, b);
    }
}

/// Two running sequences hold a block at least as often as they do together.
pub proof fn lemma_holders_two(running: Seq<SeqView>, i: int, j: int, b: int)
    requires
        0 <= i < running.len(),
        0 <= j < running.len(),
        i != j,
    ensures
        scheduler::holders(running, b) >= block_manager::count_of(running[i].table, b)
            + block_manager::count_of(running[j].table, b),
{
    lemma_holders_remove(running, i, b);
    let rest = running.remove(i);
    let k = if j < i {
        j
    } else {
        j - 1
    };
    assert(rest[k] == running[j]);
    lemma_holders_remove(rest, k, b);
}

/// No block is held more often than there are entries in the tables.
pub proof fn lemma_holders_bound(running: Seq<SeqView>, b: int, most: nat)
    requires
        forall|i: int| 0 <= i < running.len() ==> (#[trigger] running[i]).table.len() <= most,
    ensures
        scheduler::holders(running, b) <= running.len() * most,
    decreases running.len(),
{
    if running.len() > 0 {
        let rest = running.drop_last();
        assert forall|i: int| 0 <= i < rest.len() implies (#[trigger] rest[i]).table.len()
            <= most by {
            assert(rest[i] == running[i]);
        }
        lemma_holders_bound(rest, b, most);
        assert(running.last() == running[running.len() - 1]);
        block_proofs::lemma_count_bound(running.last().table, b);
        assert(running.len() * most == rest.len() * most + most) by (nonlinear_arith)
            requires
                running.len() == rest.len() + 1,
        ;
    }
}

/// A running sequence can give up its blocks.
pub proof fn lemma_can_release(state: SchedView, i: int)
    requires
        state.wf(),
        0 <= i < state.running.len(),
    ensures
        state.bm.can_release(state.running[i].table),
{
    assert(state.may_run(state.running[i]));
    let table = state.running[i].table;
    assert forall|b: int| 0 <= b < state.bm.blocks.len() implies block_manager::count_of(table, b)
        <= (#[trigger] state.bm.blocks[b]).ref_count by {
        lemma_holders_remove(state.running, i, b);
    }
}

/// The running sequence that came last goes back to the queue.
pub proof fn lemma_preempt_last(state: SchedView)
    requires
        state.wf(),
        state.running.len() > 0,
    ensures
        state.bm.can_release(state.running.last().table),
        state.preempt_last().wf(),
        state.preempt_last().running == state.running.drop_last(),
        state.preempt_last().running.len() + state.preempt_last().waiting.len()
            == state.running.len() + state.waiting.len(),
        scheduler::ids(state.preempt_last().running + state.preempt_last().waiting)
            == scheduler::ids(state.running + state.waiting),
        state.preempt_last().bm.blocks.len() == state.bm.blocks.len(),
        state.preempt_last().bm.block_size == state.bm.block_size,
{
    let n = state.running.len() - 1;
    let last = state.running[n];
    let next = state.preempt_last();
    assert(last == state.running.last());
    assert(state.may_run(last));
    lemma_can_release(state, n);
    block_proofs::lemma_release(state.bm, last.table);
    assert(next.running =~= state.running.remove(n));
    assert forall|b: int| 0 <= b < next.bm.blocks.len() implies (
    #[trigger] next.bm.blocks[b]).ref_count == scheduler::holders(next.running, b) by {
        lemma_holders_remove(state.running, n, b);
        assert(state.bm.blocks[b].ref_count == scheduler::holders(state.running, b));
    }
    assert forall|i: int| 0 <= i < next.waiting.len() implies next.may_wait(
        #[trigger] next.waiting[i],
    ) by {
        if i > 0 {
            assert(next.waiting[i] == state.waiting[i - 1]);
            assert(state.may_wait(state.waiting[i - 1]));
        }
    }
    assert forall|i: int| 0 <= i < next.running.len() implies next.may_run(
        #[trigger] next.running[i],
    ) by {
        assert(next.running[i] == state.running[i]);
        assert(state.may_run(state.running[i]));
    }
    assert(scheduler::ids(next.running + next.waiting) =~= scheduler::ids(
        state.running + state.waiting,
    ));
    assert forall|i: int| 0 <= i < next.running.len() implies next.may_resume(
        #[trigger] next.running[i],
    ) by {
        let seq = state.running[i];
        assert(next.running[i] == seq);
        assert(state.may_resume(seq));
        assert(state.may_run(seq));
        if seq.context() as int % state.bm.block_size as int != 0 {
            lemma_last_block(state, i);
            let b = seq.table.last();
            assert(state.bm.is_open(b));
            lemma_count_last(seq.table);
            lemma_holders_two(state.running, i, n, b as int);
            assert(state.bm.blocks[b as int].ref_count == scheduler::holders(
                state.running,
                b as int,
            ));
            assert(next.bm.blocks[b as int].ref_count + block_manager::count_of(
                last.table,
                b as int,
            ) == 1);
        }
    }
}

/// A sequence whose last block is not full has a last block.
pub proof fn lemma_last_block(state: SchedView, i: int)
    requires
        state.bm.block_size > 0,
        0 <= i < state.running.len(),
        state.may_run(state.running[i]),
        state.running[i].context() as int % state.bm.block_size as int != 0,
    ensures
        state.running[i].table.len() > 0,
        state.running[i].table.last() < state.bm.blocks.len(),
{
    let seq = state.running[i];
    let size = state.bm.block_size as int;
    sequence::lemma_floor_div(seq.context() as int, size);
    assert(seq.table[seq.table.len() - 1] == seq.table.last());
}

/// The last entry of a table stands in it.
pub proof fn lemma_count_last(table: Seq<usize>)
    requires
        table.len() > 0,
    ensures
        block_manager::count_of(table, table.last() as int) >= 1,
{
}

/// A running sequence is granted at least one token, and no more than the budget and its
/// own tokens allow.
pub proof fn lemma_grant(state: SchedView, i: int, budget: nat)
    requires
        state.wf(),
        0 <= i < state.running.len(),
        state.running[i].num_new == 0,
        budget > 0,
    ensures
        ({
            let seq = state.running[i];
            let new = state.grant(seq, budget);
            &&& 0 < new <= budget
            &&& seq.num_cached + new <= seq.num_tokens
            &&& !state.chunked ==> seq.num_cached + new == seq.num_tokens
            &&& seq.num_cached + new < seq.num_tokens ==> new == budget
        }),
{
    assert(state.may_run(state.running[i]));
}

/// Running sequence `i` gets the blocks for the tokens that it was granted.
pub proof fn lemma_append_running(state: SchedView, i: int, new: nat)
    requires
        state.wf(),
        0 <= i < state.running.len(),
        state.running[i].num_new == 0,
        new > 0,
        state.running[i].num_cached + new <= state.running[i].num_tokens,
        !state.chunked ==> state.running[i].num_cached + new == state.running[i].num_tokens,
        state.bm.can_append(state.running[i].num_cached, new),
    ensures
        ({
            let seq = SeqView { num_new: new, ..state.running[i] };
            let (bm, grown) = state.bm.appended(seq);
            let next = SchedView { bm, running: state.running.update(i, grown), ..state };
            &&& state.bm.can_extend(seq)
            &&& grown == (SeqView { table: grown.table, ..seq })
            &&& next.wf()
            &&& scheduler::ids(next.running + next.waiting) == scheduler::ids(
                state.running + state.waiting,
            )
        }),
{
    let old_seq = state.running[i];
    let seq = SeqView { num_new: new, ..old_seq };
    let size = state.bm.block_size as int;
    let (bm, grown) = state.bm.appended(seq);
    let next = SchedView { bm, running: state.running.update(i, grown), ..state };
    let first = seq.num_cached as int / size;
    assert(state.may_run(old_seq));
    assert(state.may_resume(old_seq));
    sequence::lemma_floor_div(seq.num_cached as int, size);
    sequence::lemma_ceil_monotone(seq.num_cached as int, seq.context() as int, size);
    if seq.num_cached as int % size != 0 {
        lemma_last_block(state, i);
        assert(seq.table[first] == seq.table.last());
    }
    block_proofs::lemma_append_from(state.bm, seq, first, seq.table);
    assert(scheduler::ids(next.running + next.waiting) =~= scheduler::ids(
        state.running + state.waiting,
    ));
    assert forall|b: int| 0 <= b < next.bm.blocks.len() implies (
    #[trigger] next.bm.blocks[b]).ref_count == scheduler::holders(next.running, b) by {
        lemma_holders_update(state.running, i, grown, b);
        assert(state.bm.blocks[b].ref_count == scheduler::holders(state.running, b));
    }
    assert forall|k: int| 0 <= k < next.waiting.len() implies next.may_wait(
        #[trigger] next.waiting[k],
    ) by {
        assert(state.may_wait(state.waiting[k]));
    }
    assert forall|k: int| 0 <= k < next.running.len() implies next.may_run(
        #[trigger] next.running[k],
    ) by {
        if k != i {
            assert(next.running[k] == state.running[k]);
            assert(state.may_run(state.running[k]));
        }
    }
    assert forall|k: int| 0 <= k < next.running.len() implies next.may_resume(
        #[trigger] next.running[k],
    ) by {
        if k != i {
            let other = state.running[k];
            assert(next.running[k] == other);
            assert(state.may_run(other));
            assert(state.may_resume(other));
            if other.context() as int % size != 0 {
                lemma_last_block(state, k);
                let b = other.table.last();
                assert(state.bm.is_open(b));
                lemma_count_last(other.table);
                lemma_holders_two(state.running, i, k, b as int);
                assert(state.bm.blocks[b as int].ref_count == scheduler::holders(
                    state.running,
                    b as int,
                ));
                if first < seq.table.len() && b == seq.table[first] {
                    lemma_count_last(seq.table);
                }
                assert(next.bm.blocks[b as int] == state.bm.blocks[b as int]);
            }
        } else if grown.context() as int % size != 0 {
            let n = grown.context_blocks();
            sequence::lemma_floor_div(grown.context() as int, size);
            assert(n - 1 == grown.context() as int / size);
            assert(first < n) by (nonlinear_arith)
                requires
                    first * size <= grown.context(),
                    grown.context() < (n - 1) * size + size,
                    size > 0,
            ;
            sequence::lemma_piece(grown, n - 1);
            assert(grown.piece(n - 1) == seq.piece(n - 1));
            assert(next.bm.is_open(grown.table.last()));
            let b = grown.table.last();
            assert(b == grown.table[n - 1]);
            if n - 1 >= seq.table.len() {
                assert(next.bm.blocks[b as int].ref_count == 1);
            } else {
                assert(n == seq.table.len());
                assert(grown.table.take(seq.table.len() as int) =~= grown.table);
                assert(grown.table == seq.table);
                assert(first == n - 1);
                assert(state.bm.blocks[b as int].ref_count == 1);
                assert(next.bm.blocks[b as int].ref_count + block_manager::count_of(
                    seq.table,
                    b as int,
                ) == state.bm.blocks[b as int].ref_count + block_manager::count_of(
                    grown.table,
                    b as int,
                ));
            }
        }
    }
}

/// What is found in the cache depends on the tokens alone.
pub proof fn lemma_same_hits(bm: BmView, a: SeqView, b: SeqView, i: int)
    requires
        a.tokens == b.tokens,
        a.block_size == b.block_size,
        a.num_tokens == b.num_tokens,
    ensures
        bm.hits_from(a, i) == bm.hits_from(b, i),
    decreases a.num_blocks() - i,
{
    assert(bm.hit(a, i) == bm.hit(b, i));
    if bm.hit(a, i) is Some {
        lemma_same_hits(bm, a, b, i + 1);
    }
}

pub proof fn lemma_same_layout(bm: BmView, a: SeqView, b: SeqView)
    requires
        a.tokens == b.tokens,
        a.block_size == b.block_size,
        a.num_tokens == b.num_tokens,
    ensures
        bm.hits(a) == bm.hits(b),
        bm.hit_table(a) == bm.hit_table(b),
        bm.token_layout(a) == bm.token_layout(b),
{
    lemma_same_hits(bm, a, b, 0);
    assert forall|i: int| bm.hit(a, i) == #[trigger] bm.hit(b, i) by {
    }
    assert(bm.hit_table(a) =~= bm.hit_table(b));
}

/// An open block is not found in the cache.
pub proof fn lemma_open_is_no_hit(bm: BmView, seq: SeqView, b: usize)
    requires
        bm.wf(),
        b < bm.blocks.len(),
        bm.is_open(b),
    ensures
        !bm.hit_table(seq).contains(b),
{
    block_proofs::lemma_hit_table(bm, seq);
    let table = bm.hit_table(seq);
    if table.contains(b) {
        let i = choose|i: int| 0 <= i < table.len() && table[i] == b;
        let h = block_manager::chain_hash(seq.tokens, bm.block_size, i);
        assert(bm.hit(seq, i) == Some(b));
        assert(bm.cached.contains_key(h));
        assert(h == NO_HASH);
    }
}

/// A table counts a block as often as its two parts do.
pub proof fn lemma_count_split(table: Seq<usize>, n: int, b: int)
    requires
        0 <= n <= table.len(),
        forall|j: int| n <= j < table.len() ==> table[j] != b,
    ensures
        block_manager::count_of(table, b) == block_manager::count_of(table.take(n), b),
    decreases table.len() - n,
{
    if n < table.len() {
        let rest = table.drop_last();
        assert forall|j: int| n <= j < rest.len() implies rest[j] != b by {
            assert(rest[j] == table[j]);
        }
        lemma_count_split(rest, n, b);
        assert(rest.take(n) =~= table.take(n));
        assert(table.last() == table[table.len() - 1]);
    } else {
        assert(table.take(n) =~= table);
    }
}

/// The first sequence of the queue can be started with `new` tokens.
pub proof fn lemma_can_start(state: SchedView, new: nat)
    requires
        state.wf(),
        state.fits(),
        state.waiting.len() > 0,
        new <= state.bm.token_layout(state.waiting[0]).2,
        state.bm.free.len() >= sequence::ceil_div(
            state.bm.token_layout(state.waiting[0]).1 + new,
            state.bm.block_size as int,
        ),
    ensures
        ({
            let seq = SeqView { num_new: new, ..state.waiting[0] };
            &&& state.bm.hits(seq) * state.bm.block_size + new <= seq.num_tokens
            &&& state.bm.can_hold(seq)
            &&& forall|b: int|
                0 <= b < state.bm.blocks.len() ==> (#[trigger] state.bm.blocks[b]).ref_count
                    + state.bm.hits(seq) <= usize::MAX
            &&& state.bm.allocated(seq).1.num_cached == state.bm.token_layout(
                state.waiting[0],
            ).0 + state.bm.token_layout(state.waiting[0]).1
        }),
{
    let waiting = state.waiting[0];
    let seq = SeqView { num_new: new, ..waiting };
    let size = state.bm.block_size as int;
    assert(state.may_wait(waiting));
    lemma_same_layout(state.bm, seq, waiting);
    block_laws::layout_accounts_for_every_token(state.bm, seq);
    block_laws::layout_foretells_allocation(state.bm, seq);
    block_laws::enough_free_blocks_for_allocation(state.bm, seq);
    block_proofs::lemma_hit_table(state.bm, seq);
    sequence::lemma_ceil_div(seq.num_tokens as int, size);
    let hits = state.bm.hits(seq);
    assert forall|b: int| 0 <= b < state.bm.blocks.len() implies (
    #[trigger] state.bm.blocks[b]).ref_count + hits <= usize::MAX by {
        assert forall|i: int| 0 <= i < state.running.len() implies (
        #[trigger] state.running[i]).table.len() <= state.max_len by {
            assert(state.may_run(state.running[i]));
            sequence::lemma_ceil_div(state.running[i].context() as int, size);
        }
        lemma_holders_bound(state.running, b, state.max_len);
        let n = state.running.len();
        let m = state.waiting.len();
        let most = state.max_len;
        assert(n * most + most <= (n + m) * most) by (nonlinear_arith)
            requires
                m >= 1,
        ;
    }
}

/// The first sequence of the queue is started with `new` tokens.
pub proof fn lemma_start(state: SchedView, new: nat)
    requires
        state.wf(),
        state.fits(),
        state.waiting.len() > 0,
        state.running.len() < state.max_seqs,
        0 < new <= state.bm.token_layout(state.waiting[0]).2,
        !state.chunked ==> new == state.bm.token_layout(state.waiting[0]).2,
        state.bm.free.len() >= sequence::ceil_div(
            state.bm.token_layout(state.waiting[0]).1 + new,
            state.bm.block_size as int,
        ),
    ensures
        ({
            let (next, seq) = state.start_first(new);
            &&& next.wf()
            &&& next.fits()
            &&& scheduler::ids(next.running + next.waiting) == scheduler::ids(
                state.running + state.waiting,
            )
            &&& seq.num_new == new
        }),
{
    let waiting = state.waiting[0];
    let seq = SeqView { num_new: new, ..waiting };
    let size = state.bm.block_size as int;
    let (next, run) = state.start_first(new);
    let placed = state.bm.allocated(seq).1;
    let hits = state.bm.hits(seq) as int;
    assert(state.may_wait(waiting));
    lemma_can_start(state, new);
    lemma_same_layout(state.bm, seq, waiting);
    block_laws::layout_accounts_for_every_token(state.bm, seq);
    block_proofs::lemma_allocated(state.bm, seq);
    assert(run.context() == hits * size + new);
    assert(run.table.len() == run.context_blocks());
    assert(scheduler::ids(next.running + next.waiting) =~= scheduler::ids(
        state.running + state.waiting,
    ));
    assert(next.fits());
    assert forall|b: int| 0 <= b < next.bm.blocks.len() implies (
    #[trigger] next.bm.blocks[b]).ref_count == scheduler::holders(next.running, b) by {
        lemma_holders_push(state.running, run, b);
        assert(state.bm.blocks[b].ref_count == scheduler::holders(state.running, b));
    }
    assert forall|k: int| 0 <= k < next.waiting.len() implies next.may_wait(
        #[trigger] next.waiting[k],
    ) by {
        assert(next.waiting[k] == state.waiting[k + 1]);
        assert(state.may_wait(state.waiting[k + 1]));
    }
    assert forall|k: int| 0 <= k < next.running.len() implies next.may_run(
        #[trigger] next.running[k],
    ) by {
        if k < state.running.len() {
            assert(next.running[k] == state.running[k]);
            assert(state.may_run(state.running[k]));
        }
    }
    assert forall|k: int| 0 <= k < state.running.len() implies next.may_resume(
        #[trigger] next.running[k],
    ) by {
        let other = state.running[k];
        assert(next.running[k] == other);
        assert(state.may_run(other));
        assert(state.may_resume(other));
        if other.context() as int % size != 0 {
            lemma_last_block(state, k);
            let b = other.table.last();
            assert(state.bm.is_open(b));
            lemma_open_is_no_hit(state.bm, seq, b);
            assert(placed.table.take(hits) == state.bm.hit_table(seq));
            assert forall|j: int| hits <= j < placed.table.len() implies placed.table[j] != b by {
                assert(state.bm.blocks[placed.table[j] as int].ref_count == 0);
            }
            lemma_count_split(placed.table, hits, b as int);
            block_proofs::lemma_count_contains(state.bm.hit_table(seq), b);
            assert(next.bm.blocks[b as int].ref_count == state.bm.blocks[b as int].ref_count);
        }
    }
    assert(next.may_resume(run)) by {
        if run.context() as int % size != 0 {
            let n = run.context_blocks();
            sequence::lemma_floor_div(run.context() as int, size);
            sequence::lemma_piece(run, n - 1);
            assert(run.piece(n - 1) == placed.piece(n - 1));
            sequence::lemma_ceil_div(new as int, size);
            assert(hits < placed.table.len());
            assert(run.table.last() == placed.table[n - 1]);
        }
    }
    assert forall|k: int| 0 <= k < next.running.len() implies next.may_resume(
        #[trigger] next.running[k],
    ) by {
        if k == state.running.len() {
            assert(next.running[k] == run);
        }
    }
}

/// A sequence that may wait joins the queue.
pub proof fn lemma_add(state: SchedView, seq: SeqView)
    requires
        state.wf(),
        state.may_wait(seq),
        !scheduler::ids(state.running + state.waiting).contains(seq.seq_id),
    ensures
        (SchedView { waiting: state.waiting.push(seq), ..state }).wf(),
{
    let next = SchedView { waiting: state.waiting.push(seq), ..state };
    let before = scheduler::ids(state.running + state.waiting);
    let after = scheduler::ids(next.running + next.waiting);
    assert(after =~= before.push(seq.seq_id));
    assert(after.no_duplicates()) by {
        assert forall|i: int, j: int| 0 <= i < after.len() && 0 <= j < after.len() && i != j
            implies after[i] != after[j] by {
            if i < before.len() {
                assert(before.contains(before[i]));
            }
            if j < before.len() {
                assert(before.contains(before[j]));
            }
        }
    }
    assert forall|k: int| 0 <= k < next.waiting.len() implies next.may_wait(
        #[trigger] next.waiting[k],
    ) by {
        if k < state.waiting.len() {
            assert(state.may_wait(state.waiting[k]));
        }
    }
    assert forall|k: int| 0 <= k < next.running.len() implies next.may_run(
        #[trigger] next.running[k],
    ) by {
        assert(state.may_run(state.running[k]));
    }
}

/// To remove the first sequence with an id is to remove it at its place.
pub proof fn lemma_without(seqs: Seq<SeqView>, i: int)
    requires
        0 <= i < seqs.len(),
        forall|k: int| 0 <= k < i ==> (#[trigger] seqs[k]).seq_id != seqs[i].seq_id,
    ensures
        scheduler::without(seqs, seqs[i].seq_id) == seqs.remove(i),
    decreases i,
{
    if i == 0 {
        assert(seqs.subrange(1, seqs.len() as int) =~= seqs.remove(0));
    } else {
        let rest = seqs.subrange(1, seqs.len() as int);
        assert(seqs[0].seq_id != seqs[i].seq_id);
        assert forall|k: int| 0 <= k < i - 1 implies (#[trigger] rest[k]).seq_id
            != rest[i - 1].seq_id by {
            assert(rest[k] == seqs[k + 1]);
        }
        lemma_without(rest, i - 1);
        assert(seq![seqs[0]] + rest.remove(i - 1) =~= seqs.remove(i));
    }
}

pub proof fn lemma_without_none(seqs: Seq<SeqView>, id: usize)
    requires
        forall|k: int| 0 <= k < seqs.len() ==> (#[trigger] seqs[k]).seq_id != id,
    ensures
        scheduler::without(seqs, id) == seqs,
    decreases seqs.len(),
{
    if seqs.len() > 0 {
        let rest = seqs.subrange(1, seqs.len() as int);
        assert(seqs[0].seq_id != id);
        assert forall|k: int| 0 <= k < rest.len() implies (#[trigger] rest[k]).seq_id != id by {
            assert(rest[k] == seqs[k + 1]);
        }
        lemma_without_none(rest, id);
        assert(seq![seqs[0]] + rest =~= seqs);
    }
}

/// To replace the first sequence with an id is to replace it at its place.
pub proof fn lemma_replaced(seqs: Seq<SeqView>, i: int, seq: SeqView)
    requires
        0 <= i < seqs.len(),
        seqs[i].seq_id == seq.seq_id,
        forall|k: int| 0 <= k < i ==> (#[trigger] seqs[k]).seq_id != seq.seq_id,
    ensures
        scheduler::replaced(seqs, seq) == seqs.update(i, seq),
    decreases i,
{
    if i > 0 {
        let rest = seqs.subrange(1, seqs.len() as int);
        assert(seqs[0].seq_id != seq.seq_id);
        assert forall|k: int| 0 <= k < i - 1 implies (#[trigger] rest[k]).seq_id
            != seq.seq_id by {
            assert(rest[k] == seqs[k + 1]);
        }
        lemma_replaced(rest, i - 1, seq);
        assert(seq![seqs[0]] + rest.update(i - 1, seq) =~= seqs.update(i, seq));
    }
}

pub proof fn lemma_replaced_none(seqs: Seq<SeqView>, seq: SeqView)
    requires
        forall|k: int| 0 <= k < seqs.len() ==> (#[trigger] seqs[k]).seq_id != seq.seq_id,
    ensures
        scheduler::replaced(seqs, seq) == seqs,
    decreases seqs.len(),
{
    if seqs.len() > 0 {
        let rest = seqs.subrange(1, seqs.len() as int);
        assert(seqs[0].seq_id != seq.seq_id);
        assert forall|k: int| 0 <= k < rest.len() implies (#[trigger] rest[k]).seq_id
            != seq.seq_id by {
            assert(rest[k] == seqs[k + 1]);
        }
        lemma_replaced_none(rest, seq);
        assert(seq![seqs[0]] + rest =~= seqs);
    }
}

/// Some running sequence has this id.
pub open spec fn has_id(running: Seq<SeqView>, id: usize) -> bool {
    exists|p: int| 0 <= p < running.len() && (#[trigger] running[p]).seq_id == id
}

/// Some sequence of `seqs` is finished and has this id.
pub open spec fn has_finished(seqs: Seq<SeqView>, id: usize) -> bool {
    exists|j: int|
        0 <= j < seqs.len() && (#[trigger] seqs[j]).seq_id == id && seqs[j].status
            == SequenceStatus::Finished
}

/// `seq` follows a running sequence, of which it has the id, the blocks and the counts, with
/// at most `k` tokens more; or it holds no block and runs no longer.
pub open spec fn follows(state: SchedView, seq: SeqView, k: int) -> bool {
    &&& seq.wf()
    &&& seq.num_tokens < state.max_len + k
    &&& seq.context() <= seq.num_tokens
    &&& if seq.table.len() == 0 {
        !has_id(state.running, seq.seq_id)
    } else {
        exists|p: int|
            0 <= p < state.running.len() && (#[trigger] state.running[p]).seq_id == seq.seq_id
                && state.running[p].table == seq.table
    }
}

/// The ids of running sequences tell them apart.
pub proof fn lemma_running_ids(state: SchedView, p: int, q: int)
    requires
        state.wf(),
        0 <= p < state.running.len(),
        0 <= q < state.running.len(),
        state.running[p].seq_id == state.running[q].seq_id,
    ensures
        p == q,
{
    let all = scheduler::ids(state.running + state.waiting);
    assert(all[p] == state.running[p].seq_id);
    assert(all[q] == state.running[q].seq_id);
}

/// A running sequence has blocks, if it has tokens in context.
pub proof fn lemma_follows_start(state: SchedView, seqs: Seq<SeqView>, j: int)
    requires
        state.wf(),
        state.runs(seqs),
        0 <= j < seqs.len(),
    ensures
        follows(state, seqs[j], 0),
{
    let seq = seqs[j];
    assert(state.running.contains(seq));
    let p = choose|p: int| 0 <= p < state.running.len() && state.running[p] == seq;
    assert(state.may_run(state.running[p]));
    sequence::lemma_ceil_div(seq.context() as int, state.bm.block_size as int);
}

/// The blocks of `a` and `b` have the same hashes and hold the same tokens.
pub open spec fn same_contents(a: BmView, b: BmView) -> bool {
    &&& a.blocks.len() == b.blocks.len()
    &&& forall|x: int|
        0 <= x < a.blocks.len() ==> a.blocks[x].hash == (#[trigger] b.blocks[x]).hash
            && a.blocks[x].tokens == b.blocks[x].tokens
}

/// Running sequence `p` is finished: it gives up its blocks and runs no longer.
pub proof fn lemma_finish(state: SchedView, p: int)
    requires
        state.wf(),
        0 <= p < state.running.len(),
    ensures
        ({
            let next = SchedView {
                bm: state.bm.release(state.running[p].table),
                running: state.running.remove(p),
                ..state
            };
            &&& next.wf()
            &&& state.bm.can_release(state.running[p].table)
            &&& scheduler::without(state.running, state.running[p].seq_id) == next.running
            &&& !has_id(next.running, state.running[p].seq_id)
            &&& same_contents(state.bm, next.bm)
        }),
{
    let gone = state.running[p];
    let next = SchedView {
        bm: state.bm.release(gone.table),
        running: state.running.remove(p),
        ..state
    };
    lemma_can_release(state, p);
    block_proofs::lemma_release(state.bm, gone.table);
    assert forall|k: int| 0 <= k < p implies (#[trigger] state.running[k]).seq_id
        != gone.seq_id by {
        if state.running[k].seq_id == gone.seq_id {
            lemma_running_ids(state, k, p);
        }
    }
    lemma_without(state.running, p);
    assert forall|q: int| 0 <= q < next.running.len() implies (#[trigger] next.running[q]).seq_id
        != gone.seq_id by {
        let k = if q < p {
            q
        } else {
            q + 1
        };
        assert(next.running[q] == state.running[k]);
        if state.running[k].seq_id == gone.seq_id {
            lemma_running_ids(state, k, p);
        }
    }
    assert forall|b: int| 0 <= b < next.bm.blocks.len() implies (
    #[trigger] next.bm.blocks[b]).ref_count == scheduler::holders(next.running, b) by {
        lemma_holders_remove(state.running, p, b);
        assert(state.bm.blocks[b].ref_count == scheduler::holders(state.running, b));
    }
    assert forall|i: int| 0 <= i < next.waiting.len() implies next.may_wait(
        #[trigger] next.waiting[i],
    ) by {
        assert(state.may_wait(state.waiting[i]));
    }
    assert forall|q: int| 0 <= q < next.running.len() implies next.may_run(
        #[trigger] next.running[q],
    ) && next.may_resume(next.running[q]) by {
        let k = if q < p {
            q
        } else {
            q + 1
        };
        let seq = state.running[k];
        assert(next.running[q] == seq);
        assert(state.may_run(seq));
        if seq.context() as int % state.bm.block_size as int != 0 {
            assert(state.may_resume(seq));
            lemma_last_block(state, k);
            let b = seq.table.last();
            assert(state.bm.is_open(b));
            lemma_count_last(seq.table);
            lemma_holders_two(state.running, k, p, b as int);
            assert(state.bm.blocks[b as int].ref_count == scheduler::holders(
                state.running,
                b as int,
            ));
            assert(next.bm.blocks[b as int].ref_count + block_manager::count_of(
                gone.table,
                b as int,
            ) == 1);
        }
    }
    let before = scheduler::ids(state.running + state.waiting);
    let after = scheduler::ids(next.running + next.waiting);
    assert(after =~= before.remove(p));
    assert(after.no_duplicates()) by {
        assert forall|i: int, j: int| 0 <= i < after.len() && 0 <= j < after.len() && i != j
            implies after[i] != after[j] by {
            let a = if i < p {
                i
            } else {
                i + 1
            };
            let b = if j < p {
                j
            } else {
                j + 1
            };
            assert(after[i] == before[a] && after[j] == before[b]);
        }
    }
}

/// Sequence `i` of a step gets its next token.
pub proof fn lemma_take_token(
    state: SchedView,
    seqs: Seq<SeqView>,
    i: int,
    token: u32,
    k: int,
)
    requires
        state.wf(),
        scheduler::ids(seqs).no_duplicates(),
        0 <= i < seqs.len(),
        k >= 0,
        forall|j: int| 0 <= j < seqs.len() ==> follows(state, #[trigger] seqs[j], k),
    ensures
        ({
            let (next, grown) = state.take_token(seqs, i, token);
            &&& state.stops(seqs[i].appended(token), token) ==> state.bm.can_release(
                seqs[i].table,
            )
            &&& next.wf()
            &&& next.max_len == state.max_len
            &&& grown.len() == seqs.len()
            &&& scheduler::ids(grown) == scheduler::ids(seqs)
            &&& forall|j: int| 0 <= j < grown.len() ==> follows(next, #[trigger] grown[j], k + 1)
            &&& same_contents(state.bm, next.bm)
        }),
{
    let (next, grown) = state.take_token(seqs, i, token);
    let seq = seqs[i];
    assert(follows(state, seq, k));
    assert(scheduler::ids(grown) =~= scheduler::ids(seqs));
    let longer = seq.appended(token);
    let stops = state.stops(longer, token);
    if stops {
        if seq.table.len() == 0 {
            assert forall|q: int| 0 <= q < state.running.len() implies (
            #[trigger] state.running[q]).seq_id != seq.seq_id by {
            }
            lemma_without_none(state.running, seq.seq_id);
            assert(next == state);
        } else {
            let p = choose|p: int|
                0 <= p < state.running.len() && (#[trigger] state.running[p]).seq_id == seq.seq_id
                    && state.running[p].table == seq.table;
            lemma_finish(state, p);
            assert(next.running == state.running.remove(p));
        }
    }
    assert forall|j: int| 0 <= j < grown.len() implies follows(
        next,
        #[trigger] grown[j],
        k + 1,
    ) by {
        assert(follows(state, seqs[j], k));
        if j != i {
            let other = seqs[j];
            assert(grown[j] == other);
            assert(other.seq_id != seq.seq_id) by {
                assert(scheduler::ids(seqs)[j] == other.seq_id);
                assert(scheduler::ids(seqs)[i] == seq.seq_id);
            }
            if other.table.len() > 0 {
                let q = choose|q: int|
                    0 <= q < state.running.len() && (#[trigger] state.running[q]).seq_id
                        == other.seq_id && state.running[q].table == other.table;
                if stops && seq.table.len() > 0 {
                    let p = choose|p: int|
                        0 <= p < state.running.len() && (#[trigger] state.running[p]).seq_id
                            == seq.seq_id && state.running[p].table == seq.table;
                    lemma_finish(state, p);
                    let m = if q < p {
                        q
                    } else {
                        q - 1
                    };
                    assert(next.running[m] == state.running[q]);
                }
            } else {
                assert forall|q: int| 0 <= q < next.running.len() implies (
                #[trigger] next.running[q]).seq_id != other.seq_id by {
                    if stops && seq.table.len() > 0 {
                        let p = choose|p: int|
                            0 <= p < state.running.len() && (#[trigger] state.running[p]).seq_id
                                == seq.seq_id && state.running[p].table == seq.table;
                        lemma_finish(state, p);
                        let m = if q < p {
                            q
                        } else {
                            q + 1
                        };
                        assert(next.running[q] == state.running[m]);
                    }
                }
            }
        }
    }
}

/// What has become of sequence `orig` of a step, which is `now`. Until it has taken its
/// token it is as it was; then it is finished and runs no longer, or it is longer by a token.
pub open spec fn tracks(state: SchedView, orig: SeqView, now: SeqView, taken: bool) -> bool {
    if !taken {
        now == orig && state.running.contains(orig)
    } else if now.status == SequenceStatus::Finished {
        !has_id(state.running, orig.seq_id) && now.within_limit()
    } else {
        &&& state.running.contains(orig)
        &&& now == orig.appended(now.last_token)
        &&& now.num_tokens < state.max_len
        &&& now.wants_more()
    }
}

/// Every running sequence with tokens to compute is one of `seqs`.
pub open spec fn covers(seqs: Seq<SeqView>, running: Seq<SeqView>) -> bool {
    forall|p: int|
        0 <= p < running.len() && (#[trigger] running[p]).num_new > 0 ==> seqs.contains(running[p])
}

/// The sequences of a step take their tokens, each at most one.
proof fn lemma_take_tokens(
    state: SchedView,
    orig: Seq<SeqView>,
    seqs: Seq<SeqView>,
    tokens: Seq<u32>,
    at: Seq<usize>,
    k: int,
)
    requires
        state.wf(),
        scheduler::ids(orig).no_duplicates(),
        scheduler::ids(seqs) == scheduler::ids(orig),
        0 <= k <= at.len(),
        at.no_duplicates(),
        forall|i: int| 0 <= i < at.len() ==> (#[trigger] at[i]) < orig.len(),
        forall|j: int| 0 <= j < seqs.len() ==> follows(state, #[trigger] seqs[j], k),
        forall|j: int|
            0 <= j < seqs.len() ==> tracks(
                state,
                orig[j],
                #[trigger] seqs[j],
                at.take(k).contains(j as usize),
            ),
        orig.len() <= usize::MAX,
        covers(orig, state.running),
    ensures
        ({
            let (next, grown) = state.take_tokens(seqs, tokens, at, k);
            &&& next.wf()
            &&& next.chunked == state.chunked
            &&& scheduler::ids(grown) == scheduler::ids(orig)
            &&& forall|j: int|
                0 <= j < grown.len() ==> tracks(
                    next,
                    orig[j],
                    #[trigger] grown[j],
                    at.contains(j as usize),
                )
            &&& covers(orig, next.running)
            &&& same_contents(state.bm, next.bm)
        }),
    decreases at.len() - k,
{
    assert(seqs.len() == scheduler::ids(orig).len());
    if k < at.len() {
        let i = at[k] as int;
        let token = tokens[k];
        let seq = seqs[i];
        let (next, grown) = state.take_token(seqs, i, token);
        lemma_take_token(state, seqs, i, token, k);
        assert(!at.take(k).contains(at[k])) by {
            if at.take(k).contains(at[k]) {
                let m = choose|m: int| 0 <= m < k && at.take(k)[m] == at[k];
                assert(at[m] == at[k]);
            }
        }
        assert(tracks(state, orig[i], seqs[i], false));
        assert(follows(state, seq, k));
        let longer = seq.appended(token);
        let p = choose|p: int| 0 <= p < state.running.len() && state.running[p] == seq;
        assert(state.running[p] == seq);
        assert(state.may_run(state.running[p]));
        sequence::lemma_ceil_div(seq.context() as int, state.bm.block_size as int);
        if state.stops(longer, token) {
            lemma_finish(state, p);
            assert(next.running == state.running.remove(p));
        }
        assert forall|j: int| 0 <= j < grown.len() implies tracks(
            next,
            orig[j],
            #[trigger] grown[j],
            at.take(k + 1).contains(j as usize),
        ) by {
            assert(at.take(k + 1).contains(j as usize) <==> (at.take(k).contains(j as usize) || j
                == i)) by {
                let more = at.take(k + 1);
                assert(more =~= at.take(k).push(at[k]));
                if at.take(k).contains(j as usize) {
                    let m = choose|m: int| 0 <= m < k && at.take(k)[m] == j as usize;
                    assert(more[m] == j as usize);
                }
                if j == i {
                    assert(more[k] == j as usize);
                }
                if more.contains(j as usize) && j != i {
                    let m = choose|m: int| 0 <= m < more.len() && more[m] == j as usize;
                    assert(at.take(k)[m] == j as usize);
                }
            }
            assert(tracks(state, orig[j], seqs[j], at.take(k).contains(j as usize)));
            if j != i {
                assert(grown[j] == seqs[j]);
                assert(orig[j].seq_id != orig[i].seq_id) by {
                    assert(scheduler::ids(orig)[j] == orig[j].seq_id);
                    assert(scheduler::ids(orig)[i] == orig[i].seq_id);
                }
                if state.stops(longer, token) {
                    if state.running.contains(orig[j]) {
                        let q = choose|q: int|
                            0 <= q < state.running.len() && state.running[q] == orig[j];
                        let m = if q < p {
                            q
                        } else {
                            q - 1
                        };
                        assert(next.running[m] == orig[j]);
                    }
                    if !has_id(state.running, orig[j].seq_id) {
                        assert forall|q: int| 0 <= q < next.running.len() implies (
                        #[trigger] next.running[q]).seq_id != orig[j].seq_id by {
                            let m = if q < p {
                                q
                            } else {
                                q + 1
                            };
                            assert(next.running[q] == state.running[m]);
                        }
                    }
                }
            }
        }
        assert(covers(orig, next.running)) by {
            assert forall|q: int|
                0 <= q < next.running.len() && (#[trigger] next.running[q]).num_new
                    > 0 implies orig.contains(next.running[q]) by {
                if state.stops(longer, token) {
                    let m = if q < p {
                        q
                    } else {
                        q + 1
                    };
                    assert(next.running[q] == state.running[m]);
                }
            }
        }
        lemma_take_tokens(next, orig, grown, tokens, at, k + 1);
    } else {
        assert(at.take(k) =~= at);
    }
}

/// Sequences with another id stay where one is taken out.
proof fn lemma_without_keeps(seqs: Seq<SeqView>, id: usize, q: int)
    requires
        0 <= q < seqs.len(),
        seqs[q].seq_id != id,
    ensures
        scheduler::without(seqs, id).contains(seqs[q]),
    decreases seqs.len(),
{
    let rest = seqs.subrange(1, seqs.len() as int);
    let next = scheduler::without(seqs, id);
    if seqs[0].seq_id == id {
        assert(next[q - 1] == seqs[q]);
    } else if q == 0 {
        assert(next[0] == seqs[0]);
    } else {
        lemma_without_keeps(rest, id, q - 1);
        let less = scheduler::without(rest, id);
        let m = choose|m: int| 0 <= m < less.len() && less[m] == rest[q - 1];
        assert(next[m + 1] == seqs[q]);
    }
}

/// Taking one out adds none.
proof fn lemma_without_adds_none(seqs: Seq<SeqView>, id: usize, seq: SeqView)
    requires
        scheduler::without(seqs, id).contains(seq),
    ensures
        seqs.contains(seq),
    decreases seqs.len(),
{
    let next = scheduler::without(seqs, id);
    let m = choose|m: int| 0 <= m < next.len() && next[m] == seq;
    if seqs.len() > 0 {
        let rest = seqs.subrange(1, seqs.len() as int);
        if seqs[0].seq_id == id {
            assert(seqs[m + 1] == seq);
        } else if m == 0 {
            assert(seqs[0] == seq);
        } else {
            assert(scheduler::without(rest, id)[m - 1] == seq);
            lemma_without_adds_none(rest, id, seq);
            let k = choose|k: int| 0 <= k < rest.len() && rest[k] == seq;
            assert(seqs[k + 1] == seq);
        }
    }
}

/// What runs once the tokens of a step have been taken ran before.
proof fn lemma_take_tokens_adds_none(
    state: SchedView,
    seqs: Seq<SeqView>,
    tokens: Seq<u32>,
    at: Seq<usize>,
    k: int,
    seq: SeqView,
)
    requires
        state.take_tokens(seqs, tokens, at, k).0.running.contains(seq),
    ensures
        state.running.contains(seq),
    decreases at.len() - k,
{
    if k < at.len() {
        let (next, grown) = state.take_token(seqs, at[k] as int, tokens[k]);
        lemma_take_tokens_adds_none(next, grown, tokens, at, k + 1, seq);
        let gone = seqs[at[k] as int].appended(tokens[k]);
        if state.stops(gone, tokens[k]) {
            lemma_without_adds_none(state.running, gone.seq_id, seq);
        }
    }
}

/// Running sequences that are not in the step stay.
proof fn lemma_take_tokens_keeps(
    state: SchedView,
    seqs: Seq<SeqView>,
    tokens: Seq<u32>,
    at: Seq<usize>,
    k: int,
    q: int,
)
    requires
        0 <= k,
        forall|i: int| 0 <= i < at.len() ==> (#[trigger] at[i]) < seqs.len(),
        0 <= q < state.running.len(),
        !scheduler::ids(seqs).contains(state.running[q].seq_id),
    ensures
        state.take_tokens(seqs, tokens, at, k).0.running.contains(state.running[q]),
    decreases at.len() - k,
{
    if k < at.len() {
        let i = at[k] as int;
        let (next, grown) = state.take_token(seqs, i, tokens[k]);
        assert(scheduler::ids(grown) =~= scheduler::ids(seqs));
        assert(scheduler::ids(seqs)[i] == seqs[i].seq_id);
        lemma_without_keeps(state.running, seqs[i].seq_id, q);
        assert(next.running.contains(state.running[q]));
        let m = choose|m: int| 0 <= m < next.running.len() && next.running[m] == state.running[q];
        lemma_take_tokens_keeps(next, grown, tokens, at, k + 1, m);
    }
}

/// The tokens of a step leave the queue alone.
proof fn lemma_take_tokens_waiting(
    state: SchedView,
    seqs: Seq<SeqView>,
    tokens: Seq<u32>,
    at: Seq<usize>,
    k: int,
)
    ensures
        state.take_tokens(seqs, tokens, at, k).0.waiting == state.waiting,
    decreases at.len() - k,
{
    if k < at.len() {
        let (next, grown) = state.take_token(seqs, at[k] as int, tokens[k]);
        lemma_take_tokens_waiting(next, grown, tokens, at, k + 1);
    }
}

/// `now` is `orig` with what a step has added: it is in the same blocks, with the same tokens
/// in context, and its tokens go on from those of `orig`.
pub open spec fn carries_on(orig: SeqView, now: SeqView) -> bool {
    &&& now.seq_id == orig.seq_id
    &&& now.block_size == orig.block_size
    &&& now.table == orig.table
    &&& now.context() == orig.context()
    &&& orig.tokens.len() <= now.tokens.len()
    &&& now.tokens.take(orig.tokens.len() as int) == orig.tokens
}

/// `now` can take the place of the running sequence `orig`, with its tokens computed.
spec fn succeeds(state: SchedView, orig: SeqView, now: SeqView) -> bool {
    &&& now.wf()
    &&& now.wants_more()
    &&& now.status == SequenceStatus::Running
    &&& carries_on(orig, now)
    &&& now.context() < now.num_tokens < state.max_len
    &&& !state.chunked ==> now.context() + 1 == now.num_tokens
}

/// One running sequence becomes what it is after the step.
proof fn lemma_sync(state: SchedView, p: int, now: SeqView)
    requires
        state.wf(),
        0 <= p < state.running.len(),
        succeeds(state, state.running[p], now),
    ensures
        state.sync(now).wf(),
        state.sync(now).running == state.running.update(p, now.advanced()),
{
    let orig = state.running[p];
    let next = state.sync(now);
    assert forall|k: int| 0 <= k < p implies (#[trigger] state.running[k]).seq_id
        != now.seq_id by {
        if state.running[k].seq_id == now.seq_id {
            lemma_running_ids(state, k, p);
        }
    }
    lemma_replaced(state.running, p, now.advanced());
    assert(state.may_run(orig));
    assert forall|b: int| 0 <= b < next.bm.blocks.len() implies (
    #[trigger] next.bm.blocks[b]).ref_count == scheduler::holders(next.running, b) by {
        lemma_holders_update(state.running, p, now.advanced(), b);
        assert(state.bm.blocks[b].ref_count == scheduler::holders(state.running, b));
    }
    assert forall|i: int| 0 <= i < next.waiting.len() implies next.may_wait(
        #[trigger] next.waiting[i],
    ) by {
        assert(state.may_wait(state.waiting[i]));
    }
    assert forall|q: int| 0 <= q < next.running.len() implies next.may_run(
        #[trigger] next.running[q],
    ) && next.may_resume(next.running[q]) by {
        assert(state.may_run(state.running[q]));
        assert(state.may_resume(state.running[q]));
    }
    assert(scheduler::ids(next.running + next.waiting) =~= scheduler::ids(
        state.running + state.waiting,
    ));
}

/// The running sequences become what they are after the step.
proof fn lemma_sync_all(state: SchedView, orig: Seq<SeqView>, grown: Seq<SeqView>, j: int)
    requires
        state.wf(),
        scheduler::ids(orig).no_duplicates(),
        scheduler::ids(grown) == scheduler::ids(orig),
        0 <= j <= grown.len(),
        forall|i: int|
            j <= i < grown.len() && (#[trigger] grown[i]).status != SequenceStatus::Finished
                ==> state.running.contains(orig[i]) && succeeds(state, orig[i], grown[i]),
        forall|p: int|
            0 <= p < state.running.len() && (#[trigger] state.running[p]).num_new > 0 ==> exists|
                i: int,
            |
                j <= i < grown.len() && #[trigger] orig[i] == state.running[p] && grown[i].status
                    != SequenceStatus::Finished,
    ensures
        state.sync_all(grown, j).wf(),
        state.sync_all(grown, j).idle(),
        state.sync_all(grown, j).bm == state.bm,
        state.sync_all(grown, j).waiting == state.waiting,
        state.sync_all(grown, j).running.len() == state.running.len(),
        forall|p: int|
            0 <= p < state.running.len() ==> carries_on(
                state.running[p],
                #[trigger] state.sync_all(grown, j).running[p],
            ),
    decreases grown.len() - j,
{
    assert(grown.len() == scheduler::ids(orig).len());
    if j < grown.len() {
        let now = grown[j];
        let next = state.sync(now);
        if now.status != SequenceStatus::Finished {
            let p = choose|p: int| 0 <= p < state.running.len() && state.running[p] == orig[j];
            assert(state.running[p] == orig[j]);
            lemma_sync(state, p, now);
            assert forall|i: int|
                j + 1 <= i < grown.len() && (#[trigger] grown[i]).status
                    != SequenceStatus::Finished implies next.running.contains(orig[i])
                && succeeds(next, orig[i], grown[i]) by {
                let q = choose|q: int| 0 <= q < state.running.len() && state.running[q] == orig[i];
                assert(orig[i].seq_id != orig[j].seq_id) by {
                    assert(scheduler::ids(orig)[j] == orig[j].seq_id);
                    assert(scheduler::ids(orig)[i] == orig[i].seq_id);
                }
                assert(q != p);
                assert(next.running[q] == orig[i]);
            }
        }
        assert forall|q: int|
            0 <= q < next.running.len() && (#[trigger] next.running[q]).num_new
                > 0 implies exists|i: int|
            j + 1 <= i < grown.len() && #[trigger] orig[i] == next.running[q] && grown[i].status
                != SequenceStatus::Finished by {
            assert(next.running[q] == state.running[q]);
            let i = choose|i: int|
                j <= i < grown.len() && #[trigger] orig[i] == state.running[q] && grown[i].status
                    != SequenceStatus::Finished;
            if i == j {
                let p = choose|p: int| 0 <= p < state.running.len() && state.running[p] == orig[j];
                lemma_running_ids(state, p, q);
            }
            assert(orig[i] == next.running[q]);
        }
        lemma_sync_all(next, orig, grown, j + 1);
        let end = next.sync_all(grown, j + 1);
        assert forall|p: int| 0 <= p < state.running.len() implies carries_on(
            state.running[p],
            #[trigger] end.running[p],
        ) by {
            assert(carries_on(next.running[p], end.running[p]));
            let a = state.running[p].tokens;
            let b = next.running[p].tokens;
            let c = end.running[p].tokens;
            assert(carries_on(state.running[p], next.running[p])) by {
                assert(a.take(a.len() as int) =~= a);
            }
            assert(c.take(a.len() as int) =~= c.take(b.len() as int).take(a.len() as int));
        }
    } else {
        assert forall|p: int| 0 <= p < state.running.len() implies carries_on(
            state.running[p],
            #[trigger] state.sync_all(grown, j).running[p],
        ) by {
            let a = state.running[p].tokens;
            assert(a.take(a.len() as int) =~= a);
        }
    }
}

/// The sequences of a step have taken their tokens, and the running ones are yet to be told.
proof fn lemma_step_taken(state: SchedView, seqs: Seq<SeqView>, tokens: Seq<u32>, at: Seq<usize>)
    requires
        state.wf(),
        state.runs(seqs),
        state.is_step(seqs, at),
        seqs.len() <= usize::MAX,
        forall|i: int| 0 <= i < at.len() ==> (#[trigger] at[i]) < seqs.len(),
    ensures
        ({
            let (mid, grown) = state.take_tokens(seqs, tokens, at, 0);
            &&& mid.wf()
            &&& mid.chunked == state.chunked
            &&& mid.waiting == state.waiting
            &&& grown.len() == seqs.len()
            &&& scheduler::ids(grown) == scheduler::ids(seqs)
            &&& forall|j: int|
                0 <= j < grown.len() ==> tracks(
                    mid,
                    seqs[j],
                    #[trigger] grown[j],
                    at.contains(j as usize),
                )
            &&& covers(seqs, mid.running)
            &&& same_contents(state.bm, mid.bm)
            &&& forall|i: int|
                0 <= i < grown.len() && (#[trigger] grown[i]).status != SequenceStatus::Finished
                    ==> mid.running.contains(seqs[i]) && succeeds(mid, seqs[i], grown[i])
            &&& forall|p: int|
                0 <= p < mid.running.len() && (#[trigger] mid.running[p]).num_new > 0 ==> exists|
                    i: int,
                |
                    0 <= i < grown.len() && #[trigger] seqs[i] == mid.running[p] && grown[i].status
                        != SequenceStatus::Finished
        }),
{
    assert forall|j: int| 0 <= j < seqs.len() implies follows(state, #[trigger] seqs[j], 0) by {
        lemma_follows_start(state, seqs, j);
    }
    assert forall|j: int| 0 <= j < seqs.len() implies tracks(
        state,
        seqs[j],
        #[trigger] seqs[j],
        at.take(0).contains(j as usize),
    ) by {
        assert(state.running.contains(seqs[j]));
        assert(at.take(0).len() == 0);
    }
    lemma_active(state.running);
    lemma_take_tokens(state, seqs, seqs, tokens, at, 0);
    lemma_take_tokens_waiting(state, seqs, tokens, at, 0);
    let (mid, grown) = state.take_tokens(seqs, tokens, at, 0);
    assert(grown.len() == scheduler::ids(seqs).len());
    assert forall|i: int|
        0 <= i < grown.len() && (#[trigger] grown[i]).status
            != SequenceStatus::Finished implies mid.running.contains(seqs[i]) && succeeds(
        mid,
        seqs[i],
        grown[i],
    ) by {
        assert(tracks(mid, seqs[i], grown[i], at.contains(i as usize)));
        let q = choose|q: int| 0 <= q < mid.running.len() && mid.running[q] == seqs[i];
        assert(mid.running[q] == seqs[i]);
        assert(mid.may_run(mid.running[q]));
        assert(seqs[i].num_new > 0);
        assert(at.contains(i as usize) <==> seqs[i].context() == seqs[i].num_tokens);
        let a = seqs[i].tokens;
        assert(grown[i].tokens.take(a.len() as int) =~= a);
    }
    assert forall|p: int|
        0 <= p < mid.running.len() && (#[trigger] mid.running[p]).num_new > 0 implies exists|
        i: int,
    |
        0 <= i < grown.len() && #[trigger] seqs[i] == mid.running[p] && grown[i].status
            != SequenceStatus::Finished by {
        assert(seqs.contains(mid.running[p]));
        let i = choose|i: int| 0 <= i < seqs.len() && seqs[i] == mid.running[p];
        assert(tracks(mid, seqs[i], grown[i], at.contains(i as usize)));
        assert(mid.may_run(mid.running[p]));
        if grown[i].status == SequenceStatus::Finished {
            assert(has_id(mid.running, seqs[i].seq_id));
        }
        assert(seqs[i] == mid.running[p]);
    }
}

/// A step that has been run to its end leaves the scheduler ready for the next one.
pub proof fn lemma_step_ends(
    state: SchedView,
    seqs: Seq<SeqView>,
    tokens: Seq<u32>,
    at: Seq<usize>,
)
    requires
        state.wf(),
        state.runs(seqs),
        state.is_step(seqs, at),
        seqs.len() <= usize::MAX,
        forall|i: int| 0 <= i < at.len() ==> (#[trigger] at[i]) < seqs.len(),
    ensures
        state.postprocessed(seqs, tokens, at).0.wf(),
        state.postprocessed(seqs, tokens, at).0.idle(),
        same_contents(state.bm, state.postprocessed(seqs, tokens, at).0.bm),
        forall|p: int|
            0 <= p < state.postprocessed(seqs, tokens, at).0.running.len() ==> exists|q: int|
                0 <= q < state.running.len() && carries_on(
                    #[trigger] state.running[q],
                    #[trigger] state.postprocessed(seqs, tokens, at).0.running[p],
                ),
        state.postprocessed(seqs, tokens, at).0.waiting == state.waiting,
        scheduler::ids(state.postprocessed(seqs, tokens, at).1) == scheduler::ids(seqs),
        state.postprocessed(seqs, tokens, at).0.running.len() == state.take_tokens(
            seqs,
            tokens,
            at,
            0,
        ).0.running.len(),
        forall|p: int|
            0 <= p < state.postprocessed(seqs, tokens, at).0.running.len() ==> carries_on(
                state.take_tokens(seqs, tokens, at, 0).0.running[p],
                #[trigger] state.postprocessed(seqs, tokens, at).0.running[p],
            ),
{
    lemma_step_taken(state, seqs, tokens, at);
    let (mid, grown) = state.take_tokens(seqs, tokens, at, 0);
    lemma_sync_all(mid, seqs, grown, 0);
    let end = mid.sync_all(grown, 0);
    assert forall|p: int| 0 <= p < end.running.len() implies exists|q: int|
        0 <= q < state.running.len() && carries_on(
            #[trigger] state.running[q],
            #[trigger] end.running[p],
        ) by {
        lemma_take_tokens_adds_none(state, seqs, tokens, at, 0, mid.running[p]);
        let q = choose|q: int| 0 <= q < state.running.len() && state.running[q]
            == mid.running[p];
        assert(carries_on(state.running[q], end.running[p]));
    }
}

/// No sequence comes out of a step with more tokens than its request allows.
pub proof fn lemma_step_limits(
    state: SchedView,
    seqs: Seq<SeqView>,
    tokens: Seq<u32>,
    at: Seq<usize>,
)
    requires
        state.wf(),
        state.runs(seqs),
        state.is_step(seqs, at),
        seqs.len() <= usize::MAX,
        forall|i: int| 0 <= i < at.len() ==> (#[trigger] at[i]) < seqs.len(),
    ensures
        forall|j: int|
            0 <= j < seqs.len() ==> (
            #[trigger] state.postprocessed(seqs, tokens, at).1[j]).within_limit(),
{
    lemma_step_taken(state, seqs, tokens, at);
    let (mid, grown) = state.take_tokens(seqs, tokens, at, 0);
    assert forall|j: int| 0 <= j < seqs.len() implies (#[trigger] grown[j]).within_limit() by {
        assert(tracks(mid, seqs[j], grown[j], at.contains(j as usize)));
        let q = choose|q: int| 0 <= q < state.running.len() && state.running[q] == seqs[j];
        assert(state.running.contains(seqs[j]));
        assert(state.may_run(state.running[q]));
    }
}

/// Of the running sequences a step finishes those that run no longer.
pub proof fn lemma_step_answers(
    state: SchedView,
    seqs: Seq<SeqView>,
    tokens: Seq<u32>,
    at: Seq<usize>,
)
    requires
        state.wf(),
        state.runs(seqs),
        state.is_step(seqs, at),
        seqs.len() <= usize::MAX,
        forall|i: int| 0 <= i < at.len() ==> (#[trigger] at[i]) < seqs.len(),
    ensures
        forall|q: int|
            0 <= q < state.running.len() ==> has_finished(
                state.postprocessed(seqs, tokens, at).1,
                (#[trigger] state.running[q]).seq_id,
            ) != has_id(
                state.postprocessed(seqs, tokens, at).0.running,
                state.running[q].seq_id,
            ),
{
    lemma_step_taken(state, seqs, tokens, at);
    lemma_step_ends(state, seqs, tokens, at);
    let (mid, grown) = state.take_tokens(seqs, tokens, at, 0);
    let end = mid.sync_all(grown, 0);
    assert forall|q: int| 0 <= q < state.running.len() implies has_finished(
        grown,
        (#[trigger] state.running[q]).seq_id,
    ) != has_id(end.running, state.running[q].seq_id) by {
        let id = state.running[q].seq_id;
        if scheduler::ids(seqs).contains(id) {
            let j = choose|j: int| 0 <= j < seqs.len() && scheduler::ids(seqs)[j] == id;
            assert(scheduler::ids(grown)[j] == grown[j].seq_id);
            assert(tracks(mid, seqs[j], grown[j], at.contains(j as usize)));
            if grown[j].status == SequenceStatus::Finished {
                assert(has_finished(grown, id));
                if at.contains(j as usize) {
                    assert(!has_id(mid.running, id));
                } else {
                    let m = choose|m: int| 0 <= m < mid.running.len() && mid.running[m] == seqs[j];
                    assert(mid.may_run(mid.running[m]));
                }
            } else {
                assert(mid.running.contains(seqs[j]));
                let m = choose|m: int| 0 <= m < mid.running.len() && mid.running[m] == seqs[j];
                assert(end.running[m].seq_id == id) by {
                    assert(carries_on(mid.running[m], end.running[m]));
                }
                if has_finished(grown, id) {
                    let k = choose|k: int|
                        0 <= k < grown.len() && (#[trigger] grown[k]).seq_id == id
                            && grown[k].status == SequenceStatus::Finished;
                    assert(scheduler::ids(grown)[k] == id);
                }
            }
        } else {
            lemma_take_tokens_keeps(state, seqs, tokens, at, 0, q);
            let m = choose|m: int| 0 <= m < mid.running.len() && mid.running[m]
                == state.running[q];
            assert(end.running[m].seq_id == id) by {
                assert(carries_on(mid.running[m], end.running[m]));
            }
            if has_finished(grown, id) {
                let k = choose|k: int|
                    0 <= k < grown.len() && (#[trigger] grown[k]).seq_id == id
                        && grown[k].status == SequenceStatus::Finished;
                assert(scheduler::ids(grown)[k] == id);
            }
        }
        if has_id(end.running, id) {
            let m = choose|m: int| 0 <= m < end.running.len() && (#[trigger] end.running[m]).seq_id
                == id;
            assert(carries_on(mid.running[m], end.running[m]));
            assert(has_id(mid.running, id));
        }
    }
}

/// A sequence that is finished stays so while others take their tokens.
proof fn lemma_stays_finished(
    state: SchedView,
    seqs: Seq<SeqView>,
    tokens: Seq<u32>,
    at: Seq<usize>,
    k: int,
    j: int,
)
    requires
        0 <= k,
        0 <= j < seqs.len(),
        forall|i: int| 0 <= i < at.len() ==> (#[trigger] at[i]) < seqs.len(),
        seqs[j].status == SequenceStatus::Finished,
    ensures
        state.take_tokens(seqs, tokens, at, k).1[j].status == SequenceStatus::Finished,
    decreases at.len() - k,
{
    if k < at.len() {
        let (next, grown) = state.take_token(seqs, at[k] as int, tokens[k]);
        lemma_stays_finished(next, grown, tokens, at, k + 1, j);
    }
}

/// The first running sequence, if it is the first of the step, stays where it is while the
/// tokens are taken, unless it is finished.
proof fn lemma_first_stays_first(
    state: SchedView,
    seqs: Seq<SeqView>,
    tokens: Seq<u32>,
    at: Seq<usize>,
    k: int,
)
    requires
        0 <= k,
        seqs.len() > 0,
        state.running.len() > 0,
        state.running[0].seq_id == seqs[0].seq_id,
        scheduler::ids(seqs).no_duplicates(),
        forall|i: int| 0 <= i < at.len() ==> (#[trigger] at[i]) < seqs.len(),
    ensures
        ({
            let (next, grown) = state.take_tokens(seqs, tokens, at, k);
            grown[0].status != SequenceStatus::Finished ==> next.running.len() > 0
                && next.running[0] == state.running[0]
        }),
    decreases at.len() - k,
{
    if k < at.len() {
        let i = at[k] as int;
        let (next, grown) = state.take_token(seqs, i, tokens[k]);
        assert(scheduler::ids(grown) =~= scheduler::ids(seqs));
        assert(scheduler::ids(seqs)[i] == seqs[i].seq_id);
        assert(scheduler::ids(seqs)[0] == seqs[0].seq_id);
        if state.stops(seqs[i].appended(tokens[k]), tokens[k]) && i == 0 {
            lemma_stays_finished(next, grown, tokens, at, k + 1, 0);
        } else {
            assert(next.running.len() > 0 && next.running[0] == state.running[0]);
            lemma_first_stays_first(next, grown, tokens, at, k + 1);
        }
    }
}

/// The first running sequence stays as it is while others become what they are after a step.
proof fn lemma_sync_all_first(state: SchedView, seqs: Seq<SeqView>, j: int)
    requires
        0 <= j,
        state.running.len() > 0,
        forall|i: int|
            j <= i < seqs.len() ==> (#[trigger] seqs[i]).seq_id != state.running[0].seq_id,
    ensures
        state.sync_all(seqs, j).running.len() > 0,
        state.sync_all(seqs, j).running[0] == state.running[0],
    decreases seqs.len() - j,
{
    if j < seqs.len() {
        let next = state.sync(seqs[j]);
        assert(next.running.len() > 0 && next.running[0] == state.running[0]);
        lemma_sync_all_first(next, seqs, j + 1);
    }
}

/// The first running sequence, if it is the first of the step, goes on in the first place,
/// with the token that it takes, if any, unless it is finished.
pub proof fn lemma_first_goes_on(
    state: SchedView,
    seqs: Seq<SeqView>,
    tokens: Seq<u32>,
    at: Seq<usize>,
)
    requires
        state.wf(),
        state.runs(seqs),
        state.is_step(seqs, at),
        0 < seqs.len() <= usize::MAX,
        forall|i: int| 0 <= i < at.len() ==> (#[trigger] at[i]) < seqs.len(),
        state.running.len() > 0,
        seqs[0] == state.running[0],
    ensures
        ({
            let (next, grown) = state.postprocessed(seqs, tokens, at);
            has_finished(grown, seqs[0].seq_id) || (next.running.len() > 0 && next.running[0]
                == if at.contains(0) {
                seqs[0].appended(next.running[0].last_token).advanced()
            } else {
                seqs[0].advanced()
            })
        }),
{
    assert forall|j: int| 0 <= j < seqs.len() implies follows(state, #[trigger] seqs[j], 0) by {
        lemma_follows_start(state, seqs, j);
    }
    assert forall|j: int| 0 <= j < seqs.len() implies tracks(
        state,
        seqs[j],
        #[trigger] seqs[j],
        at.take(0).contains(j as usize),
    ) by {
        assert(state.running.contains(seqs[j]));
        assert(at.take(0).len() == 0);
    }
    lemma_active(state.running);
    lemma_take_tokens(state, seqs, seqs, tokens, at, 0);
    lemma_first_stays_first(state, seqs, tokens, at, 0);
    let (mid, grown) = state.take_tokens(seqs, tokens, at, 0);
    assert(grown.len() == scheduler::ids(seqs).len());
    assert(tracks(mid, seqs[0], grown[0], at.contains(0)));
    assert(scheduler::ids(grown)[0] == grown[0].seq_id);
    assert(scheduler::ids(seqs)[0] == seqs[0].seq_id);
    if grown[0].status == SequenceStatus::Finished {
        assert(has_finished(grown, seqs[0].seq_id));
    } else {
        let next = mid.sync(grown[0]);
        assert(next.running[0] == grown[0].advanced());
        assert forall|i: int| 1 <= i < grown.len() implies (#[trigger] grown[i]).seq_id
            != next.running[0].seq_id by {
            assert(scheduler::ids(grown)[i] == grown[i].seq_id);
        }
        lemma_sync_all_first(next, grown, 1);
    }
}

/// The active sequences are the running ones with tokens to compute.
pub proof fn lemma_active(running: Seq<SeqView>)
    ensures
        forall|i: int|
            0 <= i < scheduler::active(running).len() ==> (#[trigger] scheduler::active(
                running,
            )[i]).num_new > 0 && running.contains(scheduler::active(running)[i]),
        covers(scheduler::active(running), running),
    decreases running.len(),
{
    reveal(Seq::filter);
    let now = scheduler::active(running);
    if running.len() > 0 {
        let rest = running.drop_last();
        let less = scheduler::active(rest);
        lemma_active(rest);
        let last = running.last();
        assert(running[running.len() - 1] == last);
        assert(now == if last.num_new > 0 {
            less.push(last)
        } else {
            less
        });
        assert forall|i: int| 0 <= i < now.len() implies (#[trigger] now[i]).num_new > 0
            && running.contains(now[i]) by {
            if i < less.len() {
                assert(now[i] == less[i]);
                assert(rest.contains(less[i]));
                let k = choose|k: int| 0 <= k < rest.len() && rest[k] == less[i];
                assert(running[k] == less[i]);
            }
        }
        assert forall|p: int|
            0 <= p < running.len() && (#[trigger] running[p]).num_new > 0 implies now.contains(
            running[p],
        ) by {
            if p < rest.len() {
                assert(rest[p] == running[p]);
                assert(less.contains(rest[p]));
                let k = choose|k: int| 0 <= k < less.len() && less[k] == rest[p];
                assert(now[k] == running[p]);
            } else {
                assert(now[less.len() as int] == last);
            }
        }
    }
}

} // verus!
