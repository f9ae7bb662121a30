//! What the model is given to run a step, and what is made of its answer.
use crate::config::{Config, EngineConfig};
use crate::engine::scheduler;
use crate::engine::sequence;
use crate::engine::sequence::{SeqCounter, SeqView, Sequence};
use crate::sampling_params::SamplingParams;
use crate::utils::context::{BlockTables, Context, ContextView, TablesView};
use crate::utils::text;
use vstd::prelude::*;

verus! {

/// The slot of the cache that token `p` of `seq` is in: its place in the block that its
/// table gives it.
pub open spec fn slot(seq: SeqView, p: int) -> int {
    let size = seq.block_size as int;
    seq.table[p / size] * size + p % size
}

/// The tokens of `seq` that this step computes.
pub open spec fn new_ids(seq: SeqView) -> Seq<i64> {
    Seq::new(seq.num_new, |i: int| seq.tokens[seq.num_cached + i] as i64)
}

/// Their places in the sequence.
pub open spec fn new_positions(seq: SeqView) -> Seq<i64> {
    Seq::new(seq.num_new, |i: int| (seq.num_cached + i) as i64)
}

/// The slots that they are written to. A sequence without blocks writes to none.
pub open spec fn new_slots(seq: SeqView) -> Seq<i64> {
    if seq.table.len() == 0 {
        Seq::empty()
    } else {
        Seq::new(seq.num_new, |i: int| slot(seq, seq.num_cached + i) as i64)
    }
}

/// The block table of `seq`, padded with `-1` to `width`.
pub open spec fn padded_row(seq: SeqView, width: int) -> Seq<i64> {
    Seq::new(
        width as nat,
        |i: int|
            if i < seq.table.len() {
                seq.table[i] as i64
            } else {
                -1i64
            },
    )
}

pub open spec fn all_ids(seqs: Seq<SeqView>) -> Seq<i64>
    decreases seqs.len(),
{
    if seqs.len() == 0 {
        Seq::empty()
    } else {
        all_ids(seqs.drop_last()) + new_ids(seqs.last())
    }
}

pub open spec fn all_positions(seqs: Seq<SeqView>) -> Seq<i64>
    decreases seqs.len(),
{
    if seqs.len() == 0 {
        Seq::empty()
    } else {
        all_positions(seqs.drop_last()) + new_positions(seqs.last())
    }
}

pub open spec fn all_slots(seqs: Seq<SeqView>) -> Seq<i64>
    decreases seqs.len(),
{
    if seqs.len() == 0 {
        Seq::empty()
    } else {
        all_slots(seqs.drop_last()) + new_slots(seqs.last())
    }
}

pub open spec fn all_rows(seqs: Seq<SeqView>, width: int) -> Seq<i64>
    decreases seqs.len(),
{
    if seqs.len() == 0 {
        Seq::empty()
    } else {
        all_rows(seqs.drop_last(), width) + padded_row(seqs.last(), width)
    }
}

/// The new tokens of all the sequences.
pub open spec fn sum_new(seqs: Seq<SeqView>) -> nat
    decreases seqs.len(),
{
    if seqs.len() == 0 {
        0
    } else {
        sum_new(seqs.drop_last()) + seqs.last().num_new
    }
}

/// The tokens in context of all the sequences.
pub open spec fn sum_context(seqs: Seq<SeqView>) -> nat
    decreases seqs.len(),
{
    if seqs.len() == 0 {
        0
    } else {
        sum_context(seqs.drop_last()) + seqs.last().context()
    }
}

pub open spec fn max_new(seqs: Seq<SeqView>) -> nat
    decreases seqs.len(),
{
    if seqs.len() == 0 {
        0
    } else {
        let rest = max_new(seqs.drop_last());
        if rest < seqs.last().num_new {
            seqs.last().num_new
        } else {
            rest
        }
    }
}

pub open spec fn max_context(seqs: Seq<SeqView>) -> nat
    decreases seqs.len(),
{
    if seqs.len() == 0 {
        0
    } else {
        let rest = max_context(seqs.drop_last());
        if rest < seqs.last().context() {
            seqs.last().context()
        } else {
            rest
        }
    }
}

pub open spec fn max_table(seqs: Seq<SeqView>) -> nat
    decreases seqs.len(),
{
    if seqs.len() == 0 {
        0
    } else {
        let rest = max_table(seqs.drop_last());
        if rest < seqs.last().table.len() {
            seqs.last().table.len()
        } else {
            rest
        }
    }
}

/// A next token is drawn for a sequence whose tokens are all in context. A sequence without
/// blocks only warms the model up.
pub open spec fn needs_logits(seq: SeqView) -> bool {
    seq.num_tokens == seq.context() && seq.table.len() > 0
}

/// The sequences that a next token is drawn for, by number.
pub open spec fn logit_rows(seqs: Seq<SeqView>) -> Seq<i64>
    decreases seqs.len(),
{
    if seqs.len() == 0 {
        Seq::empty()
    } else {
        let rest = logit_rows(seqs.drop_last());
        if needs_logits(seqs.last()) {
            rest.push((seqs.len() - 1) as i64)
        } else {
            rest
        }
    }
}

/// Where the new tokens of each sequence begin, and where the last ones end.
pub open spec fn new_bounds(seqs: Seq<SeqView>) -> Seq<i64> {
    Seq::new(seqs.len() + 1, |i: int| sum_new(seqs.take(i)) as i64)
}

/// Where the tokens in context of each sequence begin, and where the last ones end.
pub open spec fn context_bounds(seqs: Seq<SeqView>) -> Seq<i64> {
    Seq::new(seqs.len() + 1, |i: int| sum_context(seqs.take(i)) as i64)
}

/// The block tables are needed when some token in context was computed before this step.
pub open spec fn step_tables(seqs: Seq<SeqView>) -> Option<TablesView> {
    if sum_context(seqs) > sum_new(seqs) {
        Some(
            TablesView {
                rows: seqs.len(),
                width: max_table(seqs),
                data: all_rows(seqs, max_table(seqs) as int),
            },
        )
    } else {
        None
    }
}

/// The layout of a step that runs `seqs`.
pub open spec fn step_context(seqs: Seq<SeqView>) -> ContextView {
    ContextView {
        cu_seqlens_q: Some(new_bounds(seqs)),
        cu_seqlens_k: Some(context_bounds(seqs)),
        max_seqlen_q: max_new(seqs),
        max_seqlen_k: max_context(seqs),
        slot_mapping: Some(all_slots(seqs)),
        context_lens: Some(Seq::new(seqs.len(), |i: int| seqs[i].context() as i64)),
        block_tables: step_tables(seqs),
        seq_need_compute_logits: Some(logit_rows(seqs)),
    }
}

/// `seq` can be run: its new tokens are there, and it has no blocks or those that its tokens
/// in context need, at places that can be counted.
pub open spec fn can_run(seq: SeqView, size: nat) -> bool {
    &&& seq.block_size == size
    &&& seq.context() <= seq.tokens.len()
    &&& seq.context() + size <= usize::MAX
    &&& seq.table.len() > 0 ==> seq.table.len() == seq.context_blocks()
    &&& forall|i: int| 0 <= i < seq.table.len() ==> ((#[trigger] seq.table[i]) + 1) * size
        <= i64::MAX && (seq.table[i] + 1) * size <= usize::MAX
}

/// Every sequence can be run, and their tokens can be counted.
pub open spec fn can_run_all(seqs: Seq<SeqView>, size: nat) -> bool {
    &&& size > 0
    &&& forall|i: int| 0 <= i < seqs.len() ==> can_run(#[trigger] seqs[i], size)
    &&& sum_context(seqs) <= i64::MAX
    &&& seqs.len() <= i64::MAX
}

/// The tokens of a step and their places.
pub struct ModelInput {
    pub input_ids: Vec<i64>,
    pub positions: Vec<i64>,
    pub context: Context,
}

/// The part of a worker that prepares its steps. `rank` is its place among the workers that
/// share the model.
pub struct ModelRunner {
    pub config: Config,
    pub engine_config: EngineConfig,
    pub rank: usize,
    pub num_kvcache_blocks: usize,
}

/// A token in context has a slot in the block table.
pub proof fn lemma_slot(seq: SeqView, size: nat, p: int)
    requires
        size > 0,
        can_run(seq, size),
        seq.table.len() > 0,
        0 <= p < seq.context(),
    ensures
        0 <= p / size as int,
        p / (size as int) < seq.table.len(),
        0 <= seq.table[p / size as int] * size <= slot(seq, p),
        slot(seq, p) < (seq.table[p / size as int] + 1) * size,
        slot(seq, p) <= i64::MAX,
        slot(seq, p) <= usize::MAX,
{
    let len = seq.context() as int;
    let n = size as int;
    let i = p / n;
    sequence::lemma_floor_div(p, n);
    sequence::lemma_ceil_div(len, n);
    let m = seq.context_blocks();
    assert(i < m) by (nonlinear_arith)
        requires
            i * n <= p,
            p < len,
            m * n >= len,
            n > 0,
    ;
    let b = seq.table[i] as int;
    assert((b + 1) * n == b * n + n) by (nonlinear_arith);
    assert(0 <= b * n) by (nonlinear_arith)
        requires
            b >= 0,
            n > 0,
    ;
}

/// Adds the new tokens of `seq`, their places and their slots.
fn push_tokens(
    seq: &Sequence,
    input_ids: &mut Vec<i64>,
    positions: &mut Vec<i64>,
    slot_mapping: &mut Vec<i64>,
)
    requires
        seq@.block_size > 0,
        can_run(seq@, seq@.block_size),
        seq@.context() <= i64::MAX,
    ensures
        final(input_ids)@ == old(input_ids)@ + new_ids(seq@),
        final(positions)@ == old(positions)@ + new_positions(seq@),
        final(slot_mapping)@ == old(slot_mapping)@ + new_slots(seq@),
{
    let ghost ids = input_ids@;
    let ghost places = positions@;
    let ghost slots = slot_mapping@;
    let size = seq.block_size;
    let end = seq.num_cached_tokens + seq.num_new_tokens;
    let placed = seq.block_table.len() > 0;
    let mut p: usize = seq.num_cached_tokens;
    assert(input_ids@ =~= ids + new_ids(seq@).take(0));
    assert(positions@ =~= places + new_positions(seq@).take(0));
    assert(slot_mapping@ =~= slots + new_slots(seq@).take(0));
    while p < end
        invariant
            seq@.num_cached <= p <= end,
            end == seq@.context(),
            end <= i64::MAX,
            size == seq@.block_size,
            size > 0,
            can_run(seq@, seq@.block_size),
            placed == (seq@.table.len() > 0),
            input_ids@ == ids + new_ids(seq@).take(p - seq@.num_cached),
            positions@ == places + new_positions(seq@).take(p - seq@.num_cached),
            placed ==> slot_mapping@ == slots + new_slots(seq@).take(p - seq@.num_cached),
            !placed ==> slot_mapping@ == slots,
        decreases end - p,
    {
        let ghost k = p - seq@.num_cached;
        input_ids.push(seq.token_ids[p] as i64);
        positions.push(p as i64);
        assert(input_ids@ =~= ids + new_ids(seq@).take(k + 1));
        assert(positions@ =~= places + new_positions(seq@).take(k + 1));
        if placed {
            proof {
                lemma_slot(seq@, seq@.block_size, p as int);
            }
            let slot = seq.block_table[p / size] * size + p % size;
            slot_mapping.push(slot as i64);
            assert(slot_mapping@ =~= slots + new_slots(seq@).take(k + 1));
        }
        p = p + 1;
    }
    assert(new_ids(seq@).take(seq@.num_new as int) =~= new_ids(seq@));
    assert(new_positions(seq@).take(seq@.num_new as int) =~= new_positions(seq@));
    if placed {
        assert(new_slots(seq@).take(seq@.num_new as int) =~= new_slots(seq@));
    } else {
        assert(slots + new_slots(seq@) =~= slots);
    }
}

/// The tokens of some of the sequences are no more than those of all.
proof fn lemma_sums(seqs: Seq<SeqView>, i: int)
    requires
        0 <= i <= seqs.len(),
    ensures
        sum_context(seqs.take(i)) <= sum_context(seqs),
        sum_new(seqs.take(i)) <= sum_context(seqs.take(i)),
        i < seqs.len() ==> sum_context(seqs.take(i + 1)) == sum_context(seqs.take(i))
            + seqs[i].context(),
        i < seqs.len() ==> sum_new(seqs.take(i + 1)) == sum_new(seqs.take(i)) + seqs[i].num_new,
        i < seqs.len() ==> sum_context(seqs.take(i + 1)) <= sum_context(seqs),
    decreases seqs.len() - i,
{
    lemma_new_in_context(seqs.take(i));
    if i < seqs.len() {
        assert(seqs.take(i + 1).drop_last() =~= seqs.take(i));
        assert(seqs.take(i + 1).last() == seqs[i]);
        lemma_sums(seqs, i + 1);
    } else {
        assert(seqs.take(i) =~= seqs);
    }
}

proof fn lemma_new_in_context(seqs: Seq<SeqView>)
    ensures
        sum_new(seqs) <= sum_context(seqs),
    decreases seqs.len(),
{
    if seqs.len() > 0 {
        lemma_new_in_context(seqs.drop_last());
    }
}

impl ModelRunner {
    /// A runner that has no cache yet.
    pub fn new(config: Config, engine_config: EngineConfig, rank: usize) -> (runner: Self)
        ensures
            runner.config == config,
            runner.engine_config == engine_config,
            runner.rank == rank,
            runner.num_kvcache_blocks == 0,
    {
        ModelRunner { config, engine_config, rank, num_kvcache_blocks: 0 }
    }

    pub fn num_kvcache_blocks(&self) -> (n: usize)
        ensures
            n == self.num_kvcache_blocks,
    {
        self.num_kvcache_blocks
    }

    /// The block tables of `seqs`, one row for each, as wide as the widest.
    pub fn prepare_block_tables(&self, seqs: &[Sequence]) -> (tables: BlockTables)
        requires
            seqs@.len() > 0,
            forall|i: int, j: int|
                0 <= i < seqs@.len() && 0 <= j < seqs@[i]@.table.len()
                    ==> #[trigger] seqs@[i]@.table[j] <= i64::MAX,
        ensures
            tables@ == (TablesView {
                rows: seqs@.len(),
                width: max_table(scheduler::views(seqs@)),
                data: all_rows(
                    scheduler::views(seqs@),
                    max_table(scheduler::views(seqs@)) as int,
                ),
            }),
    {
        let ghost all = scheduler::views(seqs@);
        let mut width: usize = 0;
        let mut i: usize = 0;
        while i < seqs.len()
            invariant
                i <= seqs@.len(),
                all == scheduler::views(seqs@),
                width == max_table(all.take(i as int)),
            decreases seqs@.len() - i,
        {
            proof {
                assert(all.take(i + 1).drop_last() =~= all.take(i as int));
                assert(all.take(i + 1).last() == seqs@[i as int]@);
            }
            if width < seqs[i].block_table.len() {
                width = seqs[i].block_table.len();
            }
            i = i + 1;
        }
        assert(all.take(i as int) =~= all);
        let mut data: Vec<i64> = Vec::new();
        let mut i: usize = 0;
        while i < seqs.len()
            invariant
                i <= seqs@.len(),
                all == scheduler::views(seqs@),
                width == max_table(all),
                forall|i: int, j: int|
                    0 <= i < seqs@.len() && 0 <= j < seqs@[i]@.table.len()
                        ==> #[trigger] seqs@[i]@.table[j] <= i64::MAX,
                data@ == all_rows(all.take(i as int), width as int),
            decreases seqs@.len() - i,
        {
            let ghost before = data@;
            let ghost seq = seqs@[i as int]@;
            proof {
                lemma_max_table(all, i as int);
                assert(all[i as int] == seq);
            }
            let mut j: usize = 0;
            while j < width
                invariant
                    j <= width,
                    i < seqs@.len(),
                    seq == seqs@[i as int]@,
                    forall|j: int|
                        0 <= j < seq.table.len() ==> #[trigger] seq.table[j] <= i64::MAX,
                    data@ == before + padded_row(seq, width as int).take(j as int),
                decreases width - j,
            {
                let ghost row = padded_row(seq, width as int);
                if j < seqs[i].block_table.len() {
                    data.push(seqs[i].block_table[j] as i64);
                } else {
                    data.push(-1);
                }
                assert(data@ =~= before + row.take(j + 1));
                j = j + 1;
            }
            proof {
                let row = padded_row(seq, width as int);
                assert(row.take(width as int) =~= row);
                assert(all.take(i + 1).drop_last() =~= all.take(i as int));
                assert(all.take(i + 1).last() == seq);
            }
            i = i + 1;
        }
        assert(all.take(i as int) =~= all);
        BlockTables { rows: seqs.len(), width, data }
    }

    /// What the model is given to run a step with `seqs`: their new tokens one after the
    /// other, with the place of each in its sequence, and the layout of the step.
    pub fn prepare_model_input(&self, seqs: &[Sequence]) -> (input: ModelInput)
        requires
            can_run_all(
                scheduler::views(seqs@),
                self.engine_config.kvcache_block_size as nat,
            ),
        ensures
            input.input_ids@ == all_ids(scheduler::views(seqs@)),
            input.positions@ == all_positions(scheduler::views(seqs@)),
            input.context@ == step_context(scheduler::views(seqs@)),
    {
        let ghost all = scheduler::views(seqs@);
        let ghost size = self.engine_config.kvcache_block_size as nat;
        let mut input_ids: Vec<i64> = Vec::new();
        let mut positions: Vec<i64> = Vec::new();
        let mut cu_seqlens_q: Vec<i64> = Vec::new();
        let mut cu_seqlens_k: Vec<i64> = Vec::new();
        let mut max_seqlen_q: usize = 0;
        let mut max_seqlen_k: usize = 0;
        let mut slot_mapping: Vec<i64> = Vec::new();
        let mut context_lens: Vec<i64> = Vec::new();
        let mut seq_need_compute_logits: Vec<i64> = Vec::new();
        let mut end_q: i64 = 0;
        let mut end_k: i64 = 0;
        cu_seqlens_q.push(0);
        cu_seqlens_k.push(0);
        let mut i: usize = 0;
        while i < seqs.len()
            invariant
                i <= seqs@.len(),
                all == scheduler::views(seqs@),
                can_run_all(all, size),
                input_ids@ == all_ids(all.take(i as int)),
                positions@ == all_positions(all.take(i as int)),
                slot_mapping@ == all_slots(all.take(i as int)),
                seq_need_compute_logits@ == logit_rows(all.take(i as int)),
                max_seqlen_q == max_new(all.take(i as int)),
                max_seqlen_k == max_context(all.take(i as int)),
                context_lens@ == Seq::new(i as nat, |j: int| all[j].context() as i64),
                end_q == sum_new(all.take(i as int)),
                end_k == sum_context(all.take(i as int)),
                cu_seqlens_q@ == Seq::new((i + 1) as nat, |j: int| sum_new(all.take(j)) as i64),
                cu_seqlens_k@ == Seq::new(
                    (i + 1) as nat,
                    |j: int| sum_context(all.take(j)) as i64,
                ),
            decreases seqs@.len() - i,
        {
            let seq = &seqs[i];
            proof {
                assert(all[i as int] == seq@);
                assert(can_run(all[i as int], size));
                lemma_sums(all, i as int);
                assert(all.take(i + 1).drop_last() =~= all.take(i as int));
                assert(all.take(i + 1).last() == seq@);
            }
            let num_context_tokens = seq.num_context_tokens();
            if seq.len() == num_context_tokens && seq.block_table.len() > 0 {
                seq_need_compute_logits.push(i as i64);
            }
            context_lens.push(num_context_tokens as i64);
            push_tokens(seq, &mut input_ids, &mut positions, &mut slot_mapping);
            end_q = end_q + seq.num_new_tokens as i64;
            end_k = end_k + num_context_tokens as i64;
            cu_seqlens_q.push(end_q);
            cu_seqlens_k.push(end_k);
            if max_seqlen_q < seq.num_new_tokens {
                max_seqlen_q = seq.num_new_tokens;
            }
            if max_seqlen_k < num_context_tokens {
                max_seqlen_k = num_context_tokens;
            }
            i = i + 1;
            assert(context_lens@ =~= Seq::new(i as nat, |j: int| all[j].context() as i64));
            assert(cu_seqlens_q@ =~= Seq::new(
                (i + 1) as nat,
                |j: int| sum_new(all.take(j)) as i64,
            ));
            assert(cu_seqlens_k@ =~= Seq::new(
                (i + 1) as nat,
                |j: int| sum_context(all.take(j)) as i64,
            ));
        }
        assert(all.take(i as int) =~= all);
        let block_tables = if end_k > end_q {
            proof {
                assert forall|i: int, j: int|
                    0 <= i < seqs@.len() && 0 <= j
                        < seqs@[i]@.table.len() implies #[trigger] seqs@[i]@.table[j]
                    <= i64::MAX by {
                    assert(can_run(all[i], size));
                    let b = seqs@[i]@.table[j] as int;
                    assert(b <= (b + 1) * size) by (nonlinear_arith)
                        requires
                            size > 0,
                            b >= 0,
                    ;
                }
            }
            Some(self.prepare_block_tables(seqs))
        } else {
            None
        };
        let context = Context {
            cu_seqlens_q: Some(cu_seqlens_q),
            cu_seqlens_k: Some(cu_seqlens_k),
            max_seqlen_q,
            max_seqlen_k,
            slot_mapping: Some(slot_mapping),
            context_lens: Some(context_lens),
            block_tables,
            seq_need_compute_logits: Some(seq_need_compute_logits),
        };
        ModelInput { input_ids, positions, context }
    }

    /// The temperatures that the rows of logits are sampled with, by their bits: those of
    /// the sequences that a next token is drawn for, or of all where there are none.
    pub fn prepare_sample(&self, seqs: &[Sequence], context: &Context) -> (temperatures: Vec<u64>)
        requires
            rows_below(context@.seq_need_compute_logits, seqs@.len() as int),
        ensures
            temperatures@ == sample_temperatures(
                scheduler::views(seqs@),
                context@.seq_need_compute_logits,
            ),
    {
        let ghost all = scheduler::views(seqs@);
        let mut temperatures: Vec<u64> = Vec::new();
        if let Some(rows) = &context.seq_need_compute_logits {
            assert(context@.seq_need_compute_logits->0 == rows@);
            assert(rows_below(Some(rows@), seqs@.len() as int));
            if rows.len() > 0 {
                let mut i: usize = 0;
                while i < rows.len()
                    invariant
                        i <= rows@.len(),
                        all == scheduler::views(seqs@),
                        forall|j: int|
                            0 <= j < rows@.len() ==> 0 <= (#[trigger] rows@[j]) < seqs@.len(),
                        temperatures@ == Seq::new(
                            i as nat,
                            |j: int| all[rows@[j] as int].temperature,
                        ),
                    decreases rows@.len() - i,
                {
                    assert(0 <= rows@[i as int] < seqs@.len());
                    temperatures.push(seqs[rows[i] as usize].temperature);
                    i = i + 1;
                    assert(temperatures@ =~= Seq::new(
                        i as nat,
                        |j: int| all[rows@[j] as int].temperature,
                    ));
                }
                return temperatures;
            }
        }
        let mut i: usize = 0;
        while i < seqs.len()
            invariant
                i <= seqs@.len(),
                all == scheduler::views(seqs@),
                temperatures@ == Seq::new(i as nat, |j: int| all[j].temperature),
            decreases seqs@.len() - i,
        {
            temperatures.push(seqs[i].temperature);
            i = i + 1;
            assert(temperatures@ =~= Seq::new(i as nat, |j: int| all[j].temperature));
        }
        temperatures
    }

    /// The sequences that got a token in the step laid out in `context`, by number.
    pub fn sampled_rows(context: &Context) -> (rows: Vec<usize>)
        requires
            rows_below(context@.seq_need_compute_logits, u32::MAX + 1),
        ensures
            rows@ == row_numbers(context@.seq_need_compute_logits),
    {
        let mut numbers: Vec<usize> = Vec::new();
        if let Some(rows) = &context.seq_need_compute_logits {
            assert(context@.seq_need_compute_logits->0 == rows@);
            assert(rows_below(Some(rows@), u32::MAX + 1));
            let mut i: usize = 0;
            while i < rows.len()
                invariant
                    i <= rows@.len(),
                    forall|j: int|
                        0 <= j < rows@.len() ==> 0 <= (#[trigger] rows@[j]) <= u32::MAX,
                    numbers@ == Seq::new(i as nat, |j: int| rows@[j] as usize),
                decreases rows@.len() - i,
            {
                numbers.push(rows[i] as usize);
                i = i + 1;
                assert(numbers@ =~= Seq::new(i as nat, |j: int| rows@[j] as usize));
            }
        }
        assert(numbers@ =~= row_numbers(context@.seq_need_compute_logits));
        numbers
    }

    /// Whether a step with `num_tokens` new tokens is run directly, and not replayed from a
    /// recorded one.
    pub fn runs_eagerly(&self, num_tokens: usize) -> (eager: bool)
        ensures
            eager == (self.engine_config.enforce_eager || num_tokens > 512),
    {
        self.engine_config.enforce_eager || num_tokens > 512
    }

    /// The sequences that the model is warmed up with: as many of the longest length as fit
    /// in the token budget, at least one, none of them longer than the budget.
    pub fn warmup_sequences(
        &self,
        sampling_params: SamplingParams,
        counter: &mut SeqCounter,
    ) -> (seqs: Vec<Sequence>)
        requires
            self.config.max_model_len > 0,
            self.engine_config.max_num_batched_tokens > 0,
        ensures
            seqs@.len() == warmup_count(
                self.engine_config.max_num_batched_tokens,
                self.config.max_model_len,
                self.engine_config.max_num_seqs,
            ),
            forall|i: int|
                0 <= i < seqs@.len() ==> (#[trigger] seqs@[i])@ == warmup_sequence(
                    warmup_len(
                        self.engine_config.max_num_batched_tokens,
                        self.config.max_model_len,
                    ),
                    sampling_params,
                    self.engine_config.kvcache_block_size,
                    sequence::nth_id(old(counter).next, i as nat),
                ),
            final(counter).next == sequence::nth_id(old(counter).next, seqs@.len()),
    {
        let max_num_batched_tokens = self.engine_config.max_num_batched_tokens;
        let max_model_len = self.config.max_model_len;
        let mut num_seqs = max_num_batched_tokens / max_model_len;
        if num_seqs > self.engine_config.max_num_seqs {
            num_seqs = self.engine_config.max_num_seqs;
        }
        if num_seqs < 1 {
            num_seqs = 1;
        }
        let seq_len = if max_model_len < max_num_batched_tokens {
            max_model_len
        } else {
            max_num_batched_tokens
        };
        let ghost len = seq_len as nat;
        let mut seqs: Vec<Sequence> = Vec::new();
        while seqs.len() < num_seqs
            invariant
                seqs@.len() <= num_seqs,
                seq_len > 0,
                len == seq_len,
                counter.next == sequence::nth_id(old(counter).next, seqs@.len()),
                forall|i: int|
                    0 <= i < seqs@.len() ==> (#[trigger] seqs@[i])@ == warmup_sequence(
                        len,
                        sampling_params,
                        self.engine_config.kvcache_block_size,
                        sequence::nth_id(old(counter).next, i as nat),
                    ),
            decreases num_seqs - seqs@.len(),
        {
            let mut tokens: Vec<u32> = Vec::new();
            let mut i: usize = 0;
            while i < seq_len
                invariant
                    i <= seq_len,
                    tokens@ == Seq::new(i as nat, |j: int| 0u32),
                decreases seq_len - i,
            {
                tokens.push(0);
                i = i + 1;
                assert(tokens@ =~= Seq::new(i as nat, |j: int| 0u32));
            }
            let mut seq = Sequence::with_block_size(
                tokens,
                sampling_params,
                self.engine_config.kvcache_block_size,
                counter,
            );
            seq.num_new_tokens = seq_len;
            seqs.push(seq);
        }
        seqs
    }

    pub fn num_kv_heads_per_rank(&self) -> (n: usize)
        requires
            self.engine_config.tensor_parallel_size > 0,
        ensures
            n == self.config.num_key_value_heads / self.engine_config.tensor_parallel_size,
    {
        self.config.num_key_value_heads / self.engine_config.tensor_parallel_size
    }

    /// The bytes of one block of the cache: its keys and its values, in every layer.
    pub fn block_bytes(&self, dtype_bytes: usize) -> (bytes: usize)
        requires
            self.engine_config.tensor_parallel_size > 0,
            self.spec_block_bytes(dtype_bytes) <= usize::MAX,
            2 * self.config.num_hidden_layers <= usize::MAX,
            2 * self.config.num_hidden_layers * self.engine_config.kvcache_block_size
                <= usize::MAX,
            2 * self.config.num_hidden_layers * self.engine_config.kvcache_block_size
                * self.spec_kv_heads() <= usize::MAX,
            2 * self.config.num_hidden_layers * self.engine_config.kvcache_block_size
                * self.spec_kv_heads() * self.config.head_dim <= usize::MAX,
        ensures
            bytes == self.spec_block_bytes(dtype_bytes),
    {
        2 * self.config.num_hidden_layers * self.engine_config.kvcache_block_size
            * self.num_kv_heads_per_rank() * self.config.head_dim * dtype_bytes
    }

    pub open spec fn spec_kv_heads(&self) -> int {
        self.config.num_key_value_heads as int / self.engine_config.tensor_parallel_size as int
    }

    pub open spec fn spec_block_bytes(&self, dtype_bytes: usize) -> int {
        2 * self.config.num_hidden_layers * self.engine_config.kvcache_block_size
            * self.spec_kv_heads() * self.config.head_dim * dtype_bytes
    }

    /// How many blocks of `block_bytes` bytes the cache can have. `share` bytes of the memory
    /// of the device may be used, of which `used` are taken; of these `current` are the
    /// engine's own, which come to `peak` while a step runs. Without room for one block the
    /// answer is `None`: there can be no cache, and whoever asks has to give up.
    pub fn probe_num_kvcache_blocks(
        share: i64,
        used: i64,
        peak: i64,
        current: i64,
        block_bytes: usize,
    ) -> (blocks: Option<usize>)
        requires
            0 < block_bytes <= i64::MAX,
            i64::MIN <= share - used <= i64::MAX,
            i64::MIN <= share - used - peak <= i64::MAX,
            i64::MIN <= share - used - peak + current <= i64::MAX,
            (share - used - peak + current) / block_bytes as int <= usize::MAX,
        ensures
            ({
                let budget = share - used - peak + current;
                blocks == if budget >= block_bytes {
                    Some((budget / block_bytes as int) as usize)
                } else {
                    None
                }
            }),
            blocks matches Some(n) ==> n > 0 && n * block_bytes <= share - used - peak + current
                && share - used - peak + current < (n + 1) * block_bytes,
    {
        let budget = share - used - peak + current;
        if budget < block_bytes as i64 {
            return None;
        }
        proof {
            let n = budget as int / block_bytes as int;
            assert(n * block_bytes <= budget && budget < (n + 1) * block_bytes) by (nonlinear_arith)
                requires
                    n == budget as int / block_bytes as int,
                    block_bytes > 0,
            ;
            assert(budget as int / block_bytes as int >= 1) by (nonlinear_arith)
                requires
                    budget >= block_bytes,
                    block_bytes > 0,
            ;
            assert(budget as int / block_bytes as int <= budget) by (nonlinear_arith)
                requires
                    budget >= 0,
                    block_bytes > 0,
            ;
        }
        Some((budget as u64 / block_bytes as u64) as usize)
    }

    /// Takes the number of blocks that all ranks agreed on. The result tells whether steps
    /// are to be recorded.
    pub fn finish_setup(&mut self, num_blocks: usize) -> (record: bool)
        ensures
            record == !old(self).engine_config.enforce_eager,
            *final(self) == (ModelRunner { num_kvcache_blocks: num_blocks, ..*old(self) }),
    {
        self.num_kvcache_blocks = num_blocks;
        !self.engine_config.enforce_eager
    }
}

/// Every row is a number below `n`.
pub open spec fn rows_below(rows: Option<Seq<i64>>, n: int) -> bool {
    match rows {
        Some(rows) => forall|i: int| 0 <= i < rows.len() ==> 0 <= (#[trigger] rows[i]) < n,
        None => true,
    }
}

/// The temperatures of the sequences in `rows`, or of all where there are none.
pub open spec fn sample_temperatures(seqs: Seq<SeqView>, rows: Option<Seq<i64>>) -> Seq<u64> {
    if rows is Some && rows->0.len() > 0 {
        Seq::new(rows->0.len(), |i: int| seqs[rows->0[i] as int].temperature)
    } else {
        Seq::new(seqs.len(), |i: int| seqs[i].temperature)
    }
}

pub open spec fn row_numbers(rows: Option<Seq<i64>>) -> Seq<usize> {
    match rows {
        Some(rows) => Seq::new(rows.len(), |i: int| rows[i] as usize),
        None => Seq::empty(),
    }
}

/// How many sequences the model is warmed up with.
pub open spec fn warmup_count(batched: usize, max_len: usize, max_seqs: usize) -> int {
    let fit = batched as int / max_len as int;
    let most = if fit < max_seqs {
        fit
    } else {
        max_seqs as int
    };
    if most < 1 {
        1
    } else {
        most
    }
}

/// How long they are.
pub open spec fn warmup_len(batched: usize, max_len: usize) -> nat {
    if max_len < batched {
        max_len as nat
    } else {
        batched as nat
    }
}

/// What they are: tokens to compute, and no blocks.
pub open spec fn warmup_sequence(
    len: nat,
    params: SamplingParams,
    block_size: usize,
    seq_id: usize,
) -> SeqView {
    SeqView {
        num_new: len,
        ..sequence::fresh_sequence(Seq::new(len, |j: int| 0u32), params, block_size, seq_id)
    }
}

/// The bytes of one number of the type that a checkpoint names `dtype`.
pub open spec fn itemsize_of(dtype: Seq<char>) -> Option<usize> {
    if dtype == "float64"@ || dtype == "int64"@ {
        Some(8)
    } else if dtype == "float32"@ || dtype == "int32"@ {
        Some(4)
    } else if dtype == "float16"@ || dtype == "bfloat16"@ {
        Some(2)
    } else if dtype == "uint8"@ || dtype == "int8"@ {
        Some(1)
    } else {
        None
    }
}

/// The bytes of one number of the type that a checkpoint names `dtype`, if it is known.
pub fn dtype_itemsize(dtype: &str) -> (size: Option<usize>)
    ensures
        size == itemsize_of(dtype@),
{
    if text::same_text(dtype, "float64") || text::same_text(dtype, "int64") {
        Some(8)
    } else if text::same_text(dtype, "float32") || text::same_text(dtype, "int32") {
        Some(4)
    } else if text::same_text(dtype, "float16") || text::same_text(dtype, "bfloat16") {
        Some(2)
    } else if text::same_text(dtype, "uint8") || text::same_text(dtype, "int8") {
        Some(1)
    } else {
        None
    }
}

/// No table is wider than the widest.
proof fn lemma_max_table(seqs: Seq<SeqView>, i: int)
    requires
        0 <= i < seqs.len(),
    ensures
        seqs[i].table.len() <= max_table(seqs),
    decreases seqs.len(),
{
    if i < seqs.len() - 1 {
        assert(seqs.drop_last()[i] == seqs[i]);
        lemma_max_table(seqs.drop_last(), i);
    }
}

} // verus!
