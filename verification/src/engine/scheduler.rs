//! Which sequences run in the next step, and with how many tokens.
use crate::config::{Config, EngineConfig};
use crate::engine::block_laws;
use crate::engine::block_manager::{BlockManager, BmView};
use crate::engine::scheduler_laws;
use crate::engine::scheduler_proofs;
use crate::engine::sequence;
use crate::engine::sequence::{SeqView, Sequence, SequenceStatus};
use crate::engine::step_laws;
use std::collections::VecDeque;
use vstd::prelude::*;

verus! {

broadcast use vstd::std_specs::vecdeque::group_vec_dequeue_axioms;

pub struct Scheduler {
    pub enable_chunked: bool,
    pub max_model_len: usize,
    pub max_num_seqs: usize,
    pub max_num_batched_tokens: usize,
    pub eos: u32,
    pub block_manager: BlockManager,
    pub waiting: VecDeque<Sequence>,
    pub running: VecDeque<Sequence>,
}

/// What a [`Scheduler`] holds.
#[verifier::ext_equal]
pub struct SchedView {
    pub chunked: bool,
    pub max_len: nat,
    pub max_seqs: nat,
    pub max_batched: nat,
    pub eos: u32,
    pub bm: BmView,
    pub waiting: Seq<SeqView>,
    pub running: Seq<SeqView>,
}

/// What the sequences of `seqs` hold.
pub open spec fn views(seqs: Seq<Sequence>) -> Seq<SeqView> {
    Seq::new(seqs.len(), |i: int| seqs[i]@)
}

impl View for Scheduler {
    type V = SchedView;

    open spec fn view(&self) -> SchedView {
        SchedView {
            chunked: self.enable_chunked,
            max_len: self.max_model_len as nat,
            max_seqs: self.max_num_seqs as nat,
            max_batched: self.max_num_batched_tokens as nat,
            eos: self.eos,
            bm: self.block_manager@,
            waiting: views(self.waiting@),
            running: views(self.running@),
        }
    }
}

/// How often the sequences of `running` hold block `b`, all together.
pub open spec fn holders(running: Seq<SeqView>, b: int) -> nat
    decreases running.len(),
{
    if running.len() == 0 {
        0
    } else {
        holders(running.drop_last(), b) + crate::engine::block_manager::count_of(
            running.last().table,
            b,
        )
    }
}

/// The sequences that have tokens to compute in this step.
pub open spec fn active(running: Seq<SeqView>) -> Seq<SeqView> {
    running.filter(|seq: SeqView| seq.num_new > 0)
}

/// The ids of `seqs`, in order.
pub open spec fn ids(seqs: Seq<SeqView>) -> Seq<usize> {
    Seq::new(seqs.len(), |i: int| seqs[i].seq_id)
}

impl SeqView {
    /// The sequence as it goes back to the queue: without blocks, with nothing computed.
    pub open spec fn cleared(self) -> SeqView {
        SeqView { num_cached: 0, num_new: 0, table: Seq::empty(), ..self }
    }

    /// The sequence once the tokens of this step have been computed.
    pub open spec fn advanced(self) -> SeqView {
        SeqView { num_cached: self.context(), num_new: 0, ..self }
    }
}

/// The outcome of scheduling: the scheduler after it, what is left of the token budget, and
/// the sequences to run.
#[verifier::ext_equal]
pub struct Plan {
    pub state: SchedView,
    pub budget: nat,
    pub picked: Seq<SeqView>,
}

impl SeqView {
    /// More tokens may be drawn, as far as the request limits them. A limit below one is none.
    pub open spec fn wants_more(self) -> bool {
        self.max_tokens >= 1 ==> self.num_tokens - self.num_prompt < self.max_tokens
    }

    /// No more tokens have been drawn than the request allows. A limit below one is none.
    pub open spec fn within_limit(self) -> bool {
        self.max_tokens >= 1 ==> self.num_tokens - self.num_prompt <= self.max_tokens
    }
}

impl SchedView {
    /// A sequence that waits holds no block and has nothing computed.
    pub open spec fn may_wait(self, seq: SeqView) -> bool {
        &&& seq.wf()
        &&& seq.wants_more()
        &&& seq.block_size == self.bm.block_size
        &&& seq.num_tokens < self.max_len
        &&& seq.status == SequenceStatus::Waiting
        &&& seq.num_cached == 0
        &&& seq.num_new == 0
        &&& seq.table.len() == 0
    }

    /// A running sequence has tokens still to compute, and is in the blocks that its tokens
    /// in context need. Without chunked prefill a step computes all that is left.
    pub open spec fn may_run(self, seq: SeqView) -> bool {
        &&& seq.wf()
        &&& seq.wants_more()
        &&& seq.block_size == self.bm.block_size
        &&& seq.num_tokens < self.max_len
        &&& seq.status == SequenceStatus::Running
        &&& seq.num_cached < seq.num_tokens
        &&& 0 < seq.context() <= seq.num_tokens
        &&& seq.table.len() == seq.context_blocks()
        &&& forall|i: int|
            0 <= i < seq.table.len() ==> (#[trigger] seq.table[i]) < self.bm.blocks.len()
        &&& !self.chunked ==> (if seq.num_new == 0 {
            seq.num_cached + 1 == seq.num_tokens
        } else {
            seq.context() == seq.num_tokens
        })
    }

    /// The block of `seq` that is not full, if there is one, is open, and held by it alone.
    pub open spec fn may_resume(self, seq: SeqView) -> bool {
        seq.context() as int % self.bm.block_size as int != 0 ==> {
            &&& self.bm.is_open(seq.table.last())
            &&& self.bm.blocks[seq.table.last() as int].ref_count == 1
        }
    }

    /// The queues agree with the blocks: each block is held as often as it stands in the
    /// tables of the running sequences. No two sequences have the same id.
    pub open spec fn wf(self) -> bool {
        &&& self.bm.wf()
        &&& self.bm.block_size > 0
        &&& self.max_len + self.bm.block_size <= usize::MAX
        &&& self.running.len() <= self.max_seqs
        &&& forall|i: int| 0 <= i < self.waiting.len() ==> self.may_wait(#[trigger] self.waiting[i])
        &&& forall|i: int| 0 <= i < self.running.len() ==> self.may_run(#[trigger] self.running[i])
        &&& forall|b: int|
            0 <= b < self.bm.blocks.len() ==> (#[trigger] self.bm.blocks[b]).ref_count == holders(
                self.running,
                b,
            )
        &&& self.resumable()
        &&& ids(self.running + self.waiting).no_duplicates()
    }

    /// Every running sequence can go on.
    pub open spec fn resumable(self) -> bool {
        forall|i: int| 0 <= i < self.running.len() ==> self.may_resume(#[trigger] self.running[i])
    }

    /// No step is under way.
    pub open spec fn idle(self) -> bool {
        forall|i: int| 0 <= i < self.running.len() ==> (#[trigger] self.running[i]).num_new == 0
    }

    /// The sequences of `running`, with all their tokens, can be counted in a machine word.
    pub open spec fn fits(self) -> bool {
        (self.running.len() + self.waiting.len()) * self.max_len <= usize::MAX
    }

    /// `seq` gives up its blocks and goes to the front of the queue.
    pub open spec fn preempt(self, seq: SeqView) -> SchedView {
        SchedView {
            bm: self.bm.release(seq.table),
            waiting: seq![(SeqView { status: SequenceStatus::Waiting, ..seq }).cleared()]
                + self.waiting,
            ..self
        }
    }

    /// The running sequence that came last goes back to the queue.
    pub open spec fn preempt_last(self) -> SchedView {
        (SchedView { running: self.running.drop_last(), ..self }).preempt(self.running.last())
    }

    /// How many tokens of `seq` the next step computes: all that are left, as far as the
    /// budget goes where prefill may be cut, and never up to the longest length.
    pub open spec fn grant(self, seq: SeqView, budget: nat) -> nat {
        let left = (seq.num_tokens - seq.num_cached) as nat;
        let within = if self.chunked && budget < left {
            budget
        } else {
            left
        };
        let most = (self.max_len - 1 - seq.num_cached) as nat;
        if most < within {
            most
        } else {
            within
        }
    }

    /// Running sequences are preempted, from the last one on, until there are blocks for
    /// `new` more tokens of `seq`, which is running sequence `i`, or until it is itself
    /// preempted.
    pub open spec fn make_room(self, seq: SeqView, new: nat, i: int) -> SchedView
        decreases self.running.len(),
    {
        if self.running.len() <= i || self.running.len() == 0 || self.bm.can_append(
            seq.num_cached,
            new,
        ) {
            self
        } else {
            self.preempt_last().make_room(seq, new, i)
        }
    }

    /// The first sequence of the queue starts to run, with `new` tokens to compute.
    pub open spec fn start_first(self, new: nat) -> (SchedView, SeqView) {
        let (bm, placed) = self.bm.allocated(SeqView { num_new: new, ..self.waiting[0] });
        let seq = SeqView { status: SequenceStatus::Running, ..placed };
        (
            SchedView {
                bm,
                waiting: self.waiting.subrange(1, self.waiting.len() as int),
                running: self.running.push(seq),
                ..self
            },
            seq,
        )
    }
}

impl Plan {
    /// Running sequence `i` and those behind it are granted their tokens.
    pub open spec fn run_from(self, i: int) -> Plan
        decreases self.state.running.len() - i,
    {
        proof {
            scheduler_proofs::lemma_make_room_len(
                self.state,
                self.state.running[i],
                self.state.grant(self.state.running[i], self.budget),
                i,
            );
        }
        if i < 0 || i >= self.state.running.len() || self.budget == 0 {
            self
        } else {
            let seq = self.state.running[i];
            let new = self.state.grant(seq, self.budget);
            let room = self.state.make_room(seq, new, i);
            if room.running.len() <= i {
                Plan { state: room, ..self }
            } else {
                let (bm, grown) = room.bm.appended(SeqView { num_new: new, ..seq });
                (Plan {
                    state: SchedView { bm, running: room.running.update(i, grown), ..room },
                    budget: (self.budget - new) as nat,
                    picked: self.picked.push(grown),
                }).run_from(i + 1)
            }
        }
    }

    /// Sequences are taken from the front of the queue while the budget, the blocks and the
    /// number of running sequences allow it.
    pub open spec fn let_in(self) -> Plan
        decreases self.state.waiting.len(),
    {
        let state = self.state;
        if state.waiting.len() == 0 || self.budget == 0 || state.running.len()
            >= state.max_seqs {
            self
        } else {
            let seq = state.waiting[0];
            let layout = state.bm.token_layout(seq);
            let new = if state.chunked && self.budget < layout.2 {
                self.budget as int
            } else {
                layout.2
            };
            if new > self.budget || state.bm.free.len() < sequence::ceil_div(
                layout.1 + new,
                state.bm.block_size as int,
            ) {
                self
            } else {
                let (next, started) = state.start_first(new as nat);
                (Plan {
                    state: next,
                    budget: (self.budget - new) as nat,
                    picked: self.picked.push(started),
                }).let_in()
            }
        }
    }
}

impl SchedView {
    /// Nothing planned yet, and the whole budget left.
    pub open spec fn start(self) -> Plan {
        Plan { state: self, budget: self.max_batched, picked: Seq::empty() }
    }

    /// The next step: first the running sequences are granted their tokens; then, if none
    /// had to be preempted for that, sequences that wait are admitted.
    pub open spec fn scheduled(self) -> Plan {
        let ran = self.start().run_from(0);
        if ran.state.running.len() < self.running.len() {
            ran
        } else {
            ran.let_in()
        }
    }
}

/// `seqs` without the first sequence that has this id.
pub open spec fn without(seqs: Seq<SeqView>, id: usize) -> Seq<SeqView>
    decreases seqs.len(),
{
    if seqs.len() == 0 {
        seqs
    } else if seqs[0].seq_id == id {
        seqs.subrange(1, seqs.len() as int)
    } else {
        seq![seqs[0]] + without(seqs.subrange(1, seqs.len() as int), id)
    }
}

/// `seqs` with `seq` in place of the first sequence that has the same id.
pub open spec fn replaced(seqs: Seq<SeqView>, seq: SeqView) -> Seq<SeqView>
    decreases seqs.len(),
{
    if seqs.len() == 0 {
        seqs
    } else if seqs[0].seq_id == seq.seq_id {
        seqs.update(0, seq)
    } else {
        seq![seqs[0]] + replaced(seqs.subrange(1, seqs.len() as int), seq)
    }
}

impl SchedView {
    /// Whether `seq`, which ends in `token`, is complete: it has reached the end of the text,
    /// the number of tokens asked for, or the longest length.
    pub open spec fn stops(self, seq: SeqView, token: u32) -> bool {
        ||| !seq.ignore_eos && token == self.eos
        ||| seq.num_tokens - seq.num_prompt == seq.max_tokens
        ||| seq.num_tokens >= self.max_len
    }

    /// Sequence `i` of the step gets its next token. If that completes it, it gives up its
    /// blocks and runs no longer.
    pub open spec fn take_token(self, seqs: Seq<SeqView>, i: int, token: u32) -> (
        SchedView,
        Seq<SeqView>,
    ) {
        let grown = seqs[i].appended(token);
        if self.stops(grown, token) {
            (
                SchedView {
                    bm: self.bm.release(grown.table),
                    running: without(self.running, grown.seq_id),
                    ..self
                },
                seqs.update(i, (SeqView { status: SequenceStatus::Finished, ..grown }).cleared()),
            )
        } else {
            (self, seqs.update(i, grown))
        }
    }

    /// The sequences of the step that are numbered in `at` get the tokens, from entry `k` on.
    pub open spec fn take_tokens(
        self,
        seqs: Seq<SeqView>,
        tokens: Seq<u32>,
        at: Seq<usize>,
        k: int,
    ) -> (SchedView, Seq<SeqView>)
        decreases at.len() - k,
    {
        if k >= at.len() {
            (self, seqs)
        } else {
            let (next, grown) = self.take_token(seqs, at[k] as int, tokens[k]);
            next.take_tokens(grown, tokens, at, k + 1)
        }
    }

    /// The running sequence with the id of `seq` becomes `seq`, with the tokens of this step
    /// computed, unless it is finished.
    pub open spec fn sync(self, seq: SeqView) -> SchedView {
        if seq.status == SequenceStatus::Finished {
            self
        } else {
            SchedView { running: replaced(self.running, seq.advanced()), ..self }
        }
    }

    pub open spec fn sync_all(self, seqs: Seq<SeqView>, j: int) -> SchedView
        decreases seqs.len() - j,
    {
        if j >= seqs.len() {
            self
        } else {
            self.sync(seqs[j]).sync_all(seqs, j + 1)
        }
    }

    /// The end of a step: the sequences numbered in `at` get the tokens, and the running
    /// sequences become what the sequences of the step are now.
    pub open spec fn postprocessed(
        self,
        seqs: Seq<SeqView>,
        tokens: Seq<u32>,
        at: Seq<usize>,
    ) -> (SchedView, Seq<SeqView>) {
        let (state, grown) = self.take_tokens(seqs, tokens, at, 0);
        (state.sync_all(grown, 0), grown)
    }

    /// The sequences of `seqs` are running ones, each of them once.
    pub open spec fn runs(self, seqs: Seq<SeqView>) -> bool {
        &&& forall|j: int| 0 <= j < seqs.len() ==> self.running.contains(#[trigger] seqs[j])
        &&& ids(seqs).no_duplicates()
    }

    /// `seqs` are all the sequences of the step under way, and `at` numbers those that have
    /// all their tokens in context, each of them once.
    pub open spec fn is_step(self, seqs: Seq<SeqView>, at: Seq<usize>) -> bool {
        &&& seqs == active(self.running)
        &&& at.no_duplicates()
        &&& forall|j: int|
            0 <= j < seqs.len() ==> (at.contains(j as usize) <==> (
            #[trigger] seqs[j]).context() == seqs[j].num_tokens)
    }
}

impl Scheduler {
    pub fn new(config: &Config, engine_config: &EngineConfig) -> (scheduler: Self)
        ensures
            scheduler@.chunked == engine_config.chunked_prefill,
            scheduler@.max_len == config.max_model_len,
            scheduler@.max_seqs == engine_config.max_num_seqs,
            scheduler@.max_batched == engine_config.max_num_batched_tokens,
            scheduler@.eos == config.eos_token_id,
            scheduler@.bm.block_size == engine_config.kvcache_block_size,
            scheduler@.bm.blocks.len() == engine_config.num_kvcache_blocks,
            scheduler@.bm.is_new(),
            scheduler@.waiting.len() == 0,
            scheduler@.running.len() == 0,
            engine_config.kvcache_block_size > 0 && config.max_model_len
                + engine_config.kvcache_block_size <= usize::MAX ==> scheduler@.wf(),
            scheduler@.idle(),
    {
        Scheduler {
            enable_chunked: engine_config.chunked_prefill,
            max_model_len: config.max_model_len,
            max_num_seqs: engine_config.max_num_seqs,
            max_num_batched_tokens: engine_config.max_num_batched_tokens,
            eos: config.eos_token_id,
            block_manager: BlockManager::new(
                engine_config.num_kvcache_blocks,
                engine_config.kvcache_block_size,
            ),
            waiting: VecDeque::new(),
            running: VecDeque::new(),
        }
    }

    pub fn is_finished(&self) -> (finished: bool)
        ensures
            finished == (self@.waiting.len() == 0 && self@.running.len() == 0),
    {
        self.waiting.len() == 0 && self.running.len() == 0
    }

    /// Puts `seq` at the end of the queue.
    pub fn add(&mut self, seq: Sequence)
        requires
            old(self)@.max_len >= 1,
            seq@.num_tokens <= old(self)@.max_len - 1,
        ensures
            final(self)@ == (SchedView { waiting: old(self)@.waiting.push(seq@), ..old(self)@ }),
            old(self)@.wf() && old(self)@.may_wait(seq@) && !ids(
                old(self)@.running + old(self)@.waiting,
            ).contains(seq@.seq_id) ==> final(self)@.wf(),
    {
        let ghost before = self@;
        self.waiting.push_back(seq);
        assert(self@.waiting =~= before.waiting.push(seq@));
        proof {
            if before.wf() && before.may_wait(seq@) && !ids(
                before.running + before.waiting,
            ).contains(seq@.seq_id) {
                scheduler_proofs::lemma_add(before, seq@);
            }
        }
    }

    /// Takes the blocks of `seq` away and puts it at the front of the queue.
    pub fn preempt(&mut self, seq: Sequence)
        requires
            old(self)@.bm.wf(),
            old(self)@.bm.can_release(seq@.table),
        ensures
            final(self)@ == old(self)@.preempt(seq@),
            final(self)@.bm.wf(),
    {
        let ghost before = self@;
        let ghost given = seq@;
        let mut seq = seq;
        seq.status = SequenceStatus::Waiting;
        self.block_manager.deallocate(&mut seq);
        self.waiting.push_front(seq);
        assert(self@.waiting =~= before.preempt(given).waiting);
    }

    /// Preempts running sequences, from the last one on, until there are blocks for
    /// `num_new_tokens` more tokens of `seq`, which is running sequence `req_index`, or until
    /// it is itself preempted.
    fn make_room(&mut self, seq: &Sequence, num_new_tokens: usize, req_index: usize)
        requires
            old(self)@.wf(),
            req_index < old(self)@.running.len(),
        ensures
            final(self)@ == old(self)@.make_room(
                seq@,
                num_new_tokens as nat,
                req_index as int,
            ),
            final(self)@.wf(),
            req_index <= final(self)@.running.len() <= old(self)@.running.len(),
            final(self)@.running == old(self)@.running.take(
                final(self)@.running.len() as int,
            ),
            final(self)@.running.len() + final(self)@.waiting.len()
                == old(self)@.running.len() + old(self)@.waiting.len(),
            final(self)@.running.len() > req_index ==> final(self)@.bm.can_append(
                seq@.num_cached,
                num_new_tokens as nat,
            ),
            final(self)@.chunked == old(self)@.chunked,
            final(self)@.max_len == old(self)@.max_len,
            final(self)@.max_seqs == old(self)@.max_seqs,
    {
        let ghost start = self@;
        assert(start.running.take(start.running.len() as int) =~= start.running);
        while self.running.len() > req_index && !self.block_manager.can_append(
            seq,
            num_new_tokens,
        )
            invariant
                self@.wf(),
                req_index <= self@.running.len() <= start.running.len(),
                self@.running == start.running.take(self@.running.len() as int),
                self@.running.len() + self@.waiting.len() == start.running.len()
                    + start.waiting.len(),
                self@.chunked == start.chunked,
                self@.max_len == start.max_len,
                self@.max_seqs == start.max_seqs,
                self@.make_room(seq@, num_new_tokens as nat, req_index as int)
                    == start.make_room(seq@, num_new_tokens as nat, req_index as int),
            decreases self.running@.len(),
        {
            let ghost before = self@;
            proof {
                scheduler_proofs::lemma_preempt_last(before);
            }
            let last = self.running.pop_back();
            match last {
                Some(preempted) => {
                    assert(self@.running =~= before.running.drop_last());
                    assert(preempted@ == before.running.last());
                    self.preempt(preempted);
                    assert(self@ == before.preempt_last());
                    assert(self@.running =~= start.running.take(self@.running.len() as int));
                },
                None => {},
            }
        }
    }

    /// Grants the running sequences their tokens, in order, while the budget lasts. The
    /// result is the sequences granted, what is left of the budget, and whether a sequence
    /// had to be preempted.
    fn grant_running(&mut self) -> (granted: (Vec<Sequence>, usize, bool))
        requires
            old(self)@.wf(),
            old(self)@.idle(),
        ensures
            (Plan { state: final(self)@, budget: granted.1 as nat, picked: views(granted.0@) })
                == old(self)@.start().run_from(0),
            granted.2 == (final(self)@.running.len() < old(self)@.running.len()),
            final(self)@.wf(),
            final(self)@.running.len() + final(self)@.waiting.len()
                == old(self)@.running.len() + old(self)@.waiting.len(),
            final(self)@.max_len == old(self)@.max_len,
            final(self)@.chunked == old(self)@.chunked,
    {
        let ghost start = self@.start();
        let mut scheduled: Vec<Sequence> = Vec::new();
        let mut any_preempted = false;
        let mut token_budget = self.max_num_batched_tokens;
        let mut req_index: usize = 0;
        assert(views(scheduled@) =~= Seq::<SeqView>::empty());
        while req_index < self.running.len() && token_budget > 0
            invariant_except_break
                (Plan {
                    state: self@,
                    budget: token_budget as nat,
                    picked: views(scheduled@),
                }).run_from(req_index as int) == start.run_from(0),
            invariant
                self@.wf(),
                req_index <= self@.running.len() <= start.state.running.len(),
                forall|k: int|
                    req_index <= k < self@.running.len() ==> (
                    #[trigger] self@.running[k]).num_new == 0,
                self@.running.len() + self@.waiting.len() == start.state.running.len()
                    + start.state.waiting.len(),
                any_preempted == (self@.running.len() < start.state.running.len()),
                self@.max_len == start.state.max_len,
                self@.chunked == start.state.chunked,
            ensures
                (Plan { state: self@, budget: token_budget as nat, picked: views(scheduled@) })
                    == start.run_from(0),
            decreases self.running@.len() - req_index,
        {
            let ghost before = self@;
            let ghost picked = views(scheduled@);
            let ghost i = req_index as int;
            let mut seq: Sequence = self.running[req_index].clone();
            assert(seq@ == before.running[i]);
            assert(before.may_run(before.running[i]));
            let mut num_new_tokens = seq.len() - seq.num_cached_tokens;
            if self.enable_chunked && token_budget < num_new_tokens {
                num_new_tokens = token_budget;
            }
            let most = self.max_model_len - 1 - seq.num_cached_tokens;
            if most < num_new_tokens {
                num_new_tokens = most;
            }
            let ghost new = num_new_tokens as nat;
            proof {
                assert(new == before.grant(seq@, token_budget as nat));
                scheduler_proofs::lemma_grant(before, i, token_budget as nat);
            }
            let num_running = self.running.len();
            self.make_room(&seq, num_new_tokens, req_index);
            let ghost room = self@;
            if self.running.len() < num_running {
                any_preempted = true;
            }
            if self.running.len() == req_index {
                break;
            }
            proof {
                assert(room.running[i] == before.running[i]);
                scheduler_proofs::lemma_append_running(room, i, new);
            }
            seq.num_new_tokens = num_new_tokens;
            assert(seq@ == (SeqView { num_new: new, ..room.running[i] }));
            assert(room.may_run(room.running[i]));
            self.block_manager.may_append(&mut seq);
            token_budget = token_budget - seq.num_new_tokens;
            let kept = seq.clone();
            self.running.remove(req_index);
            self.running.insert(req_index, kept);
            assert(self@.running =~= room.running.update(i, seq@));
            scheduled.push(seq);
            assert(views(scheduled@) =~= picked.push(seq@));
            req_index = req_index + 1;
            proof {
                let next = SchedView {
                    bm: self@.bm,
                    running: room.running.update(i, seq@),
                    ..room
                };
                assert(self@ == next);
                assert forall|k: int| req_index <= k < self@.running.len() implies (
                #[trigger] self@.running[k]).num_new == 0 by {
                    assert(self@.running[k] == before.running[k]);
                }
            }
        }
        (scheduled, token_budget, any_preempted)
    }

    /// Starts sequences from the front of the queue while the budget, the blocks and the
    /// number of running sequences allow it.
    fn start_waiting(&mut self, budget: usize, picked: Vec<Sequence>) -> (scheduled: Vec<
        Sequence,
    >)
        requires
            old(self)@.wf(),
            old(self)@.fits(),
        ensures
            ({
                let plan = (Plan {
                    state: old(self)@,
                    budget: budget as nat,
                    picked: views(picked@),
                }).let_in();
                final(self)@ == plan.state && views(scheduled@) == plan.picked
            }),
            final(self)@.wf(),
    {
        let ghost start = Plan { state: self@, budget: budget as nat, picked: views(picked@) };
        let mut scheduled = picked;
        let mut token_budget = budget;
        while self.waiting.len() > 0 && token_budget > 0 && self.running.len()
            < self.max_num_seqs
            invariant_except_break
                (Plan {
                    state: self@,
                    budget: token_budget as nat,
                    picked: views(scheduled@),
                }).let_in() == start.let_in(),
            invariant
                self@.wf(),
                self@.fits(),
                self@.chunked == start.state.chunked,
            ensures
                self@ == start.let_in().state,
                views(scheduled@) == start.let_in().picked,
            decreases self.waiting@.len(),
        {
            let ghost before = self@;
            let ghost picked = views(scheduled@);
            let mut seq = self.waiting[0].clone();
            assert(seq@ == before.waiting[0]);
            assert(before.may_wait(before.waiting[0]));
            proof {
                block_laws::layout_accounts_for_every_token(before.bm, seq@);
            }
            let layout = self.block_manager.get_token_layout(&seq);
            let mut num_new_tokens = layout.2;
            if self.enable_chunked && token_budget < num_new_tokens {
                num_new_tokens = token_budget;
            }
            if num_new_tokens > token_budget || !self.block_manager.can_allocate(
                layout.1 + num_new_tokens,
            ) {
                break;
            }
            let ghost new = num_new_tokens as nat;
            proof {
                scheduler_proofs::lemma_can_start(before, new);
                scheduler_proofs::lemma_start(before, new);
            }
            seq.num_new_tokens = num_new_tokens;
            assert(seq@ == (SeqView { num_new: new, ..before.waiting[0] }));
            self.block_manager.allocate(&mut seq);
            token_budget = token_budget - num_new_tokens;
            seq.status = SequenceStatus::Running;
            self.waiting.pop_front();
            let kept = seq.clone();
            self.running.push_back(kept);
            scheduled.push(seq);
            proof {
                let (next, started) = before.start_first(new);
                assert(seq@ == started);
                assert(self@.waiting =~= next.waiting);
                assert(self@.running =~= next.running);
                assert(self@ == next);
                assert(views(scheduled@) =~= picked.push(started));
            }
        }
        scheduled
    }

    /// The sequences of the next step, each with the number of tokens to compute and the
    /// blocks that these need: the running ones first, then, if none had to be preempted,
    /// those that start with this step. They are the front of the running ones. Where no
    /// sequence can run there is no step, and the answer is `None`.
    pub fn schedule(&mut self) -> (scheduled: Option<Vec<Sequence>>)
        requires
            old(self)@.wf(),
            old(self)@.idle(),
            old(self)@.fits(),
        ensures
            final(self)@ == old(self)@.scheduled().state,
            scheduled is Some == (old(self)@.scheduled().picked.len() > 0),
            scheduled matches Some(seqs) ==> {
                &&& views(seqs@) == old(self)@.scheduled().picked
                &&& 0 < seqs@.len() <= final(self)@.running.len()
                &&& views(seqs@) == final(self)@.running.take(seqs@.len() as int)
            },
            final(self)@.wf(),
    {
        proof {
            scheduler_laws::a_step_is_the_front_of_what_runs(self@);
        }
        let (granted, token_budget, any_preempted) = self.grant_running();
        let scheduled = if any_preempted {
            granted
        } else {
            self.start_waiting(token_budget, granted)
        };
        if scheduled.len() == 0 {
            None
        } else {
            Some(scheduled)
        }
    }

    /// The place of the running sequence with this id.
    fn position(&self, seq_id: usize) -> (place: Option<usize>)
        ensures
            match place {
                Some(i) => i < self@.running.len() && self@.running[i as int].seq_id == seq_id
                    && forall|k: int|
                    0 <= k < i ==> (#[trigger] self@.running[k]).seq_id != seq_id,
                None => forall|k: int|
                    0 <= k < self@.running.len() ==> (#[trigger] self@.running[k]).seq_id
                        != seq_id,
            },
    {
        let mut i: usize = 0;
        while i < self.running.len()
            invariant
                i <= self@.running.len(),
                forall|k: int| 0 <= k < i ==> (#[trigger] self@.running[k]).seq_id != seq_id,
            decreases self.running@.len() - i,
        {
            assert(self@.running[i as int] == self.running@[i as int]@);
            if self.running[i].seq_id == seq_id {
                return Some(i);
            }
            i = i + 1;
        }
        None
    }

    /// Whether `seq`, which ends in `token_id`, is complete.
    fn stops(&self, seq: &Sequence, token_id: u32) -> (stops: bool)
        requires
            seq@.num_prompt <= seq@.num_tokens,
        ensures
            stops == self@.stops(seq@, token_id),
    {
        (!seq.ignore_eos && token_id == self.eos) || (seq.max_tokens >= 0
            && seq.num_completion_tokens() == seq.max_tokens as usize) || seq.len()
            >= self.max_model_len
    }

    /// Ends a step. The sequences of the step that are numbered in `seq_need_compute_logits`
    /// get the tokens of `token_ids`; those that are complete give up their blocks; the
    /// others go on running, with the tokens of this step computed.
    pub fn postprocess(
        &mut self,
        seqs: &mut [Sequence],
        token_ids: &[u32],
        seq_need_compute_logits: &[usize],
    )
        requires
            token_ids@.len() == seq_need_compute_logits@.len(),
            old(self)@.wf(),
            old(self)@.runs(views(old(seqs)@)),
            forall|k: int|
                0 <= k < seq_need_compute_logits@.len() ==> (
                #[trigger] seq_need_compute_logits@[k]) < old(seqs)@.len(),
            old(self)@.max_len + token_ids@.len() <= usize::MAX,
        ensures
            ({
                let (state, grown) = old(self)@.postprocessed(
                    views(old(seqs)@),
                    token_ids@,
                    seq_need_compute_logits@,
                );
                final(self)@ == state && views(final(seqs)@) == grown
            }),
            old(self)@.is_step(views(old(seqs)@), seq_need_compute_logits@) ==> final(self)@.wf()
                && final(self)@.idle(),
    {
        let ghost start = self@;
        let ghost given = views(seqs@);
        let ghost at = seq_need_compute_logits@;
        let mut k: usize = 0;
        proof {
            assert forall|j: int| 0 <= j < given.len() implies scheduler_proofs::follows(
                start,
                #[trigger] given[j],
                0,
            ) by {
                scheduler_proofs::lemma_follows_start(start, given, j);
            }
        }
        while k < seq_need_compute_logits.len()
            invariant
                token_ids@.len() == seq_need_compute_logits@.len(),
                at == seq_need_compute_logits@,
                k <= at.len(),
                forall|i: int| 0 <= i < at.len() ==> (#[trigger] at[i]) < given.len(),
                seqs@.len() == given.len(),
                start.max_len + at.len() <= usize::MAX,
                self@.max_len == start.max_len,
                self@.wf(),
                ids(views(seqs@)).no_duplicates(),
                forall|j: int|
                    0 <= j < given.len() ==> scheduler_proofs::follows(
                        self@,
                        #[trigger] views(seqs@)[j],
                        k as int,
                    ),
                self@.take_tokens(views(seqs@), token_ids@, at, k as int) == start.take_tokens(
                    given,
                    token_ids@,
                    at,
                    0,
                ),
            decreases at.len() - k,
        {
            let ghost before = self@;
            let ghost old_seqs = views(seqs@);
            let i = seq_need_compute_logits[k];
            let token_id = token_ids[k];
            proof {
                assert(old_seqs[i as int] == seqs@[i as int]@);
                assert(scheduler_proofs::follows(before, old_seqs[i as int], k as int));
                scheduler_proofs::lemma_take_token(
                    before,
                    old_seqs,
                    i as int,
                    token_id,
                    k as int,
                );
            }
            let ghost grown = old_seqs[i as int].appended(token_id);
            seqs[i].append_token(token_id);
            assert(views(seqs@) =~= old_seqs.update(i as int, grown));
            if self.stops(&seqs[i], token_id) {
                seqs[i].status = SequenceStatus::Finished;
                let seq_id = seqs[i].seq_id;
                self.block_manager.deallocate(&mut seqs[i]);
                match self.position(seq_id) {
                    Some(pos) => {
                        proof {
                            scheduler_proofs::lemma_without(self@.running, pos as int);
                        }
                        self.running.remove(pos);
                        assert(self@.running =~= before.running.remove(pos as int));
                    },
                    None => {
                        proof {
                            scheduler_proofs::lemma_without_none(self@.running, seq_id);
                        }
                    },
                }
                assert(views(seqs@) =~= old_seqs.update(
                    i as int,
                    (SeqView { status: SequenceStatus::Finished, ..grown }).cleared(),
                ));
            }
            assert((self@, views(seqs@)) == before.take_token(old_seqs, i as int, token_id));
            k = k + 1;
        }
        let ghost mid = self@;
        let ghost grown = views(seqs@);
        let mut j: usize = 0;
        while j < seqs.len()
            invariant
                j <= seqs@.len(),
                grown == views(seqs@),
                forall|i: int|
                    0 <= i < grown.len() ==> (#[trigger] grown[i]).context() <= usize::MAX,
                self@.sync_all(grown, j as int) == mid.sync_all(grown, 0),
            decreases seqs@.len() - j,
        {
            let ghost before = self@;
            assert(grown[j as int] == seqs@[j as int]@);
            if seqs[j].status != SequenceStatus::Finished {
                let mut seq = seqs[j].clone();
                let seq_id = seq.seq_id;
                seq.num_cached_tokens = seq.num_cached_tokens + seq.num_new_tokens;
                seq.num_new_tokens = 0;
                assert(seq@ == grown[j as int].advanced());
                match self.position(seq_id) {
                    Some(pos) => {
                        proof {
                            scheduler_proofs::lemma_replaced(before.running, pos as int, seq@);
                        }
                        self.running.remove(pos);
                        self.running.insert(pos, seq);
                        assert(self@.running =~= before.running.update(pos as int, seq@));
                    },
                    None => {
                        proof {
                            scheduler_proofs::lemma_replaced_none(before.running, seq@);
                        }
                    },
                }
            }
            assert(self@ == before.sync(grown[j as int]));
            j = j + 1;
        }
        proof {
            if start.is_step(given, at) {
                scheduler_proofs::lemma_step_ends(start, given, token_ids@, at);
            }
        }
    }

    /// Whether the next step can be scheduled: no step is under way, and the tokens of all the
    /// sequences, and the slots of all the blocks, can be counted.
    pub fn can_step(&self) -> (can: bool)
        requires
            self@.wf(),
        ensures
            can == (scheduler_laws::is_ready(self@) && step_laws::can_be_counted(self@)),
    {
        let num_running = self.running.len();
        let num_waiting = self.waiting.len();
        let num_seqs = match num_running.checked_add(num_waiting) {
            Some(n) => n,
            None => {
                proof {
                    let n = self@.running.len() + self@.waiting.len();
                    let m = self@.max_len + 1;
                    assert(n * m >= n) by (nonlinear_arith)
                        requires
                            m >= 1,
                    ;
                }
                return false;
            },
        };
        if num_seqs as u64 > u32::MAX as u64 || self.max_model_len == usize::MAX {
            proof {
                if self.max_model_len == usize::MAX {
                    assert(self@.max_len + self@.bm.block_size > usize::MAX);
                }
            }
            return false;
        }
        let tokens = match num_seqs.checked_mul(self.max_model_len + 1) {
            Some(n) => n,
            None => {
                return false;
            },
        };
        let slots = match self.block_manager.blocks.len().checked_mul(
            self.block_manager.block_size,
        ) {
            Some(n) => n,
            None => {
                return false;
            },
        };
        if tokens as u64 > i64::MAX as u64 || slots as u64 > i64::MAX as u64 {
            return false;
        }
        proof {
            let n = num_seqs as int;
            let m = self@.max_len as int;
            assert(n * m <= n * (m + 1)) by (nonlinear_arith)
                requires
                    n >= 0,
            ;
        }
        let mut i: usize = 0;
        while i < num_running
            invariant
                self@.wf(),
                num_running == self@.running.len(),
                i <= num_running,
                forall|k: int|
                    0 <= k < i ==> (#[trigger] self@.running[k]).num_new == 0,
            decreases num_running - i,
        {
            assert(self@.running[i as int] == self.running@[i as int]@);
            if self.running[i].num_new_tokens != 0 {
                return false;
            }
            i = i + 1;
        }
        true
    }
}

} // verus!
