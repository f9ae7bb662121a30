//! Requests in, generated text out.
use crate::config::{Config, EngineConfig};
use crate::engine::model_runner;
use crate::engine::model_runner::{ModelInput, ModelRunner};
use crate::engine::outputs::Outputs;
use crate::engine::scheduler;
use crate::engine::scheduler::{SchedView, Scheduler};
use crate::engine::scheduler_laws;
use crate::engine::scheduler_proofs;
use crate::engine::sequence;
use crate::engine::sequence::{SeqCounter, SeqView, Sequence, SequenceStatus};
use crate::engine::step_laws;
use crate::engine::tokenizer;
use crate::sampling_params::SamplingParams;
use crate::utils::text;
use tokenizers::Tokenizer;
use vstd::prelude::*;
use vstd::slice::slice_to_vec;

verus! {

/// What was generated for one request.
pub struct GeneratedOutput {
    pub text: String,
    pub token_ids: Vec<u32>,
}

/// Why a request was not taken.
#[derive(Debug, Clone, Copy, PartialEq, Eq, Structural)]
pub enum RequestError {
    /// The text could not be turned into tokens.
    Tokenizer,
    /// There is no token in it.
    Empty,
    /// It is as long as the longest sequence or longer.
    TooLong,
    /// All ids have been given out.
    OutOfIds,
}

/// The requests of the engine: those that run and those that wait. The model itself is run
/// from outside, step by step.
pub struct LLMEngine {
    pub scheduler: Scheduler,
    pub counter: SeqCounter,
    pub block_size: usize,
    pub tokenizer: Tokenizer,
}

/// A step that has been laid out for the model.
pub struct Step {
    pub seqs: Vec<Sequence>,
    pub input: ModelInput,
}

impl Step {
    /// The layout is that of the sequences.
    pub open spec fn is_laid_out(&self) -> bool {
        let seqs = scheduler::views(self.seqs@);
        &&& self.input.input_ids@ == model_runner::all_ids(seqs)
        &&& self.input.positions@ == model_runner::all_positions(seqs)
        &&& self.input.context@ == model_runner::step_context(seqs)
    }
}

/// What a finished sequence hands back: its id and the tokens behind the prompt.
pub open spec fn output_of(seq: SeqView) -> (usize, Seq<u32>) {
    (seq.seq_id, seq.tokens.subrange(seq.num_prompt as int, seq.tokens.len() as int))
}

/// What the finished ones of `seqs` hand back, in order.
pub open spec fn finished_outputs(seqs: Seq<SeqView>) -> Seq<(usize, Seq<u32>)>
    decreases seqs.len(),
{
    if seqs.len() == 0 {
        Seq::empty()
    } else if seqs.last().status == SequenceStatus::Finished {
        finished_outputs(seqs.drop_last()).push(output_of(seqs.last()))
    } else {
        finished_outputs(seqs.drop_last())
    }
}

/// The tokens of the finished ones of `seqs`, prompts and all.
pub open spec fn finished_tokens(seqs: Seq<SeqView>) -> nat
    decreases seqs.len(),
{
    if seqs.len() == 0 {
        0
    } else if seqs.last().status == SequenceStatus::Finished {
        finished_tokens(seqs.drop_last()) + seqs.last().num_tokens
    } else {
        finished_tokens(seqs.drop_last())
    }
}

/// What is in a list of outputs.
pub open spec fn output_views(outputs: Seq<(usize, Vec<u32>)>) -> Seq<(usize, Seq<u32>)> {
    Seq::new(outputs.len(), |i: int| (outputs[i].0, outputs[i].1@))
}

/// `outputs` noted in `map`, one after the other.
pub open spec fn noted(
    map: Map<usize, Seq<u32>>,
    outputs: Seq<(usize, Seq<u32>)>,
) -> Map<usize, Seq<u32>>
    decreases outputs.len(),
{
    if outputs.len() == 0 {
        map
    } else {
        noted(map, outputs.drop_last()).insert(outputs.last().0, outputs.last().1)
    }
}

impl LLMEngine {
    /// The scheduler is well formed, works with blocks of the engine's size, and every id in
    /// its queues has been given out already; and the tokenizer can be used.
    pub open spec fn wf(&self) -> bool {
        &&& tokenizer::is_usable(self.tokenizer)
        &&& self.scheduler@.wf()
        &&& self.block_size == self.scheduler@.bm.block_size
        &&& below(
            scheduler::ids(self.scheduler@.running + self.scheduler@.waiting),
            self.counter.next,
        )
    }

    /// The engine as it is made: without requests.
    pub open spec fn is_new(
        &self,
        config: Config,
        engine_config: EngineConfig,
        tokenizer: Tokenizer,
    ) -> bool {
        &&& self.wf()
        &&& self.scheduler@.idle()
        &&& self.scheduler@.waiting.len() == 0
        &&& self.scheduler@.running.len() == 0
        &&& self.scheduler@.max_len == config.max_model_len
        &&& self.scheduler@.max_seqs == engine_config.max_num_seqs
        &&& self.scheduler@.max_batched == engine_config.max_num_batched_tokens
        &&& self.scheduler@.chunked == engine_config.chunked_prefill
        &&& self.scheduler@.eos == config.eos_token_id
        &&& self.scheduler@.bm.blocks.len() == engine_config.num_kvcache_blocks
        &&& self.scheduler@.bm.is_new()
        &&& self.block_size == engine_config.kvcache_block_size
        &&& self.counter.next == 0
        &&& self.tokenizer == tokenizer
    }

    /// An engine without requests, or none where the limits cannot be worked with or the
    /// tokenizer cannot be used.
    pub fn checked_new(config: &Config, engine_config: &EngineConfig, tokenizer: Tokenizer) -> (
        engine: Option<Self>)
        ensures
            engine is Some == (engine_config.kvcache_block_size > 0 && config.max_model_len
                + engine_config.kvcache_block_size <= usize::MAX && tokenizer::is_usable(
                tokenizer,
            )),
            engine matches Some(e) ==> e.is_new(*config, *engine_config, tokenizer),
    {
        if engine_config.kvcache_block_size == 0 || config.max_model_len > usize::MAX
            - engine_config.kvcache_block_size || !tokenizer::check(&tokenizer) {
            None
        } else {
            Some(LLMEngine::new(config, engine_config, tokenizer))
        }
    }

    /// An engine without requests.
    pub fn new(config: &Config, engine_config: &EngineConfig, tokenizer: Tokenizer) -> (engine:
        Self)
        requires
            engine_config.kvcache_block_size > 0,
            config.max_model_len + engine_config.kvcache_block_size <= usize::MAX,
            tokenizer::is_usable(tokenizer),
        ensures
            engine.is_new(*config, *engine_config, tokenizer),
    {
        LLMEngine {
            scheduler: Scheduler::new(config, engine_config),
            counter: SeqCounter::new(),
            block_size: engine_config.kvcache_block_size,
            tokenizer,
        }
    }

    /// Puts a request for `prompt` at the end of the queue. The result is its id.
    pub fn add_request(&mut self, prompt: Vec<u32>, sampling_params: SamplingParams) -> (id: usize)
        requires
            old(self).wf(),
            0 < prompt@.len() < old(self).scheduler@.max_len,
            old(self).counter.next < usize::MAX,
        ensures
            id == old(self).counter.next,
            final(self).requested(*old(self), prompt@, sampling_params),
            final(self).wf(),
    {
        let ghost before = self.scheduler@;
        let ghost next = self.counter.next;
        let id = self.counter.next;
        let seq = Sequence::with_block_size(
            prompt,
            sampling_params,
            self.block_size,
            &mut self.counter,
        );
        proof {
            let queued = scheduler::ids(before.running + before.waiting);
            if queued.contains(next) {
                let i = choose|i: int| 0 <= i < queued.len() && queued[i] == next;
                assert(queued[i] < next);
            }
            assert(before.may_wait(seq@));
        }
        self.scheduler.add(seq);
        proof {
            let after = scheduler::ids(self.scheduler@.running + self.scheduler@.waiting);
            let queued = scheduler::ids(before.running + before.waiting);
            assert(after =~= queued.push(next));
        }
        id
    }

    /// The engine is `before` with one request more.
    pub open spec fn requested(
        &self,
        before: LLMEngine,
        prompt: Seq<u32>,
        params: SamplingParams,
    ) -> bool {
        &&& self.scheduler@ == (SchedView {
            waiting: before.scheduler@.waiting.push(
                sequence::fresh_sequence(
                    prompt,
                    params,
                    before.block_size,
                    before.counter.next,
                ),
            ),
            ..before.scheduler@
        })
        &&& self.counter.next == sequence::next_id(before.counter.next)
        &&& self.block_size == before.block_size
        &&& self.tokenizer == before.tokenizer
    }

    /// Why a prompt of `num_tokens` tokens is not taken, if it is not.
    pub fn refusal(&self, num_tokens: usize) -> (error: Option<RequestError>)
        ensures
            error == self.spec_refusal(num_tokens as nat),
    {
        if num_tokens == 0 {
            Some(RequestError::Empty)
        } else if num_tokens >= self.scheduler.max_model_len {
            Some(RequestError::TooLong)
        } else if self.counter.next == usize::MAX {
            Some(RequestError::OutOfIds)
        } else {
            None
        }
    }

    pub open spec fn spec_refusal(&self, num_tokens: nat) -> Option<RequestError> {
        if num_tokens == 0 {
            Some(RequestError::Empty)
        } else if num_tokens >= self.scheduler@.max_len {
            Some(RequestError::TooLong)
        } else if self.counter.next == usize::MAX {
            Some(RequestError::OutOfIds)
        } else {
            None
        }
    }

    /// Takes a request for tokens that may be too many or none.
    pub fn try_add_request(&mut self, prompt: Vec<u32>, sampling_params: SamplingParams) -> (
        taken: Result<usize, RequestError>)
        requires
            old(self).wf(),
        ensures
            final(self).wf(),
            match old(self).spec_refusal(prompt@.len()) {
                Some(error) => taken == Err::<usize, RequestError>(error) && *final(self)
                    == *old(self),
                None => taken == Ok::<usize, RequestError>(old(self).counter.next)
                    && final(self).requested(*old(self), prompt@, sampling_params),
            },
    {
        match self.refusal(prompt.len()) {
            Some(error) => Err(error),
            None => Ok(self.add_request(prompt, sampling_params)),
        }
    }

    /// Takes a request for the text `prompt`, as whatever tokens the tokenizer makes of it.
    pub fn add_request_text(&mut self, prompt: &str, sampling_params: SamplingParams) -> (taken:
        Result<usize, RequestError>)
        requires
            old(self).wf(),
        ensures
            final(self).wf(),
            exists|ids: Option<Seq<u32>>|
                #[trigger] tokenizer::may_encode(old(self).tokenizer, prompt@, ids) && final(self).answers(
                    *old(self),
                    ids,
                    sampling_params,
                    taken,
                ),
    {
        match tokenizer::encode(&self.tokenizer, prompt) {
            Some(ids) => {
                let ghost made = Some(ids@);
                let taken = self.try_add_request(ids, sampling_params);
                assert(tokenizer::may_encode(old(self).tokenizer, prompt@, made));
                taken
            },
            None => {
                assert(tokenizer::may_encode(old(self).tokenizer, prompt@, None));
                Err(RequestError::Tokenizer)
            },
        }
    }

    /// What a request is answered whose text the tokenizer turned into `ids`, or into nothing:
    /// it is taken, or it is refused and the engine stays as it was.
    pub open spec fn answers(
        &self,
        before: LLMEngine,
        ids: Option<Seq<u32>>,
        params: SamplingParams,
        taken: Result<usize, RequestError>,
    ) -> bool {
        match ids {
            None => taken == Err::<usize, RequestError>(RequestError::Tokenizer) && *self
                == before,
            Some(prompt) => match before.spec_refusal(prompt.len()) {
                Some(error) => taken == Err::<usize, RequestError>(error) && *self == before,
                None => taken == Ok::<usize, RequestError>(before.counter.next)
                    && self.requested(before, prompt, params),
            },
        }
    }

    /// Each of `texts` is one that the tokenizer may make of the prompt at the same place.
    pub open spec fn encodes(&self, prompts: Seq<String>, texts: Seq<Seq<u32>>) -> bool {
        &&& texts.len() <= prompts.len()
        &&& forall|k: int|
            0 <= k < texts.len() ==> tokenizer::may_encode(
                self.tokenizer,
                prompts[k]@,
                Some(#[trigger] texts[k]),
            )
    }

    /// The engine refuses a prompt with this error, for what the tokenizer may make of it.
    pub open spec fn refuses(&self, prompt: Seq<char>, error: RequestError) -> bool {
        exists|ids: Option<Seq<u32>>| #[trigger]
            tokenizer::may_encode(self.tokenizer, prompt, ids) && match ids {
                None => error == RequestError::Tokenizer,
                Some(ids) => self.spec_refusal(ids.len()) == Some(error),
            }
    }

    /// The engine is `before` with a request more for each of `prompts`.
    pub open spec fn enqueued(
        &self,
        before: LLMEngine,
        prompts: Seq<Seq<u32>>,
        params: Seq<SamplingParams>,
    ) -> bool {
        &&& self.scheduler@ == (SchedView {
            waiting: before.scheduler@.waiting + Seq::new(
                prompts.len(),
                |i: int|
                    sequence::fresh_sequence(
                        prompts[i],
                        params[i],
                        before.block_size,
                        (before.counter.next + i) as usize,
                    ),
            ),
            ..before.scheduler@
        })
        &&& self.counter.next == before.counter.next + prompts.len()
        &&& self.block_size == before.block_size
        &&& self.tokenizer == before.tokenizer
    }

    /// Takes a request for each of `prompts`, in order, with the parameters at the same place.
    /// It stops at the first one that is not taken.
    pub fn add_requests(
        &mut self,
        prompts: &Vec<String>,
        sampling_params: &Vec<SamplingParams>,
    ) -> (taken: Result<(), RequestError>)
        requires
            old(self).wf(),
            prompts@.len() == sampling_params@.len(),
        ensures
            final(self).wf(),
            exists|texts: Seq<Seq<u32>>|
                {
                    &&& #[trigger] final(self).enqueued(*old(self), texts, sampling_params@)
                    &&& old(self).encodes(prompts@, texts)
                    &&& match taken {
                        Ok(()) => texts.len() == prompts@.len(),
                        Err(error) => texts.len() < prompts@.len() && final(self).refuses(
                            prompts@[texts.len() as int]@,
                            error,
                        ),
                    }
                },
    {
        let ghost mut texts: Seq<Seq<u32>> = Seq::empty();
        let ghost before = *self;
        let mut i: usize = 0;
        assert(self.scheduler@.waiting + Seq::new(
            texts.len(),
            |i: int|
                sequence::fresh_sequence(
                    texts[i],
                    sampling_params@[i],
                    before.block_size,
                    (before.counter.next + i) as usize,
                ),
        ) =~= self.scheduler@.waiting);
        while i < prompts.len()
            invariant
                i <= prompts@.len(),
                prompts@.len() == sampling_params@.len(),
                texts.len() == i,
                self.wf(),
                before == *old(self),
                self.enqueued(before, texts, sampling_params@),
                before.encodes(prompts@, texts),
            decreases prompts@.len() - i,
        {
            let ghost now = *self;
            match self.add_request_text(prompts[i].as_str(), sampling_params[i]) {
                Ok(_id) => {
                    proof {
                        let params = sampling_params@[i as int];
                        let made = choose|made: Option<Seq<u32>>|
                            #[trigger] tokenizer::may_encode(now.tokenizer, prompts@[i as int]@, made)
                                && self.answers(now, made, params, Ok(_id));
                        let ids = made->0;
                        let longer = texts.push(ids);
                        assert(self.scheduler@.waiting =~= before.scheduler@.waiting + Seq::new(
                            longer.len(),
                            |i: int|
                                sequence::fresh_sequence(
                                    longer[i],
                                    sampling_params@[i],
                                    before.block_size,
                                    (before.counter.next + i) as usize,
                                ),
                        ));
                        texts = longer;
                    }
                },
                Err(error) => {
                    return Err(error);
                },
            }
            i = i + 1;
        }
        Ok(())
    }

    pub fn is_finished(&self) -> (finished: bool)
        ensures
            finished == (self.scheduler@.waiting.len() == 0 && self.scheduler@.running.len()
                == 0),
    {
        self.scheduler.is_finished()
    }

    /// Begins a step: the sequences to run, with their new tokens and their blocks. Without an
    /// answer where no sequence can run.
    pub fn begin_step(&mut self) -> (begun: Option<Vec<Sequence>>)
        requires
            old(self).wf(),
            scheduler_laws::is_ready(old(self).scheduler@),
        ensures
            final(self).scheduler@ == old(self).scheduler@.scheduled().state,
            final(self).wf(),
            begun is Some == (old(self).scheduler@.scheduled().picked.len() > 0),
            begun matches Some(seqs) ==> {
                &&& seqs@.len() > 0
                &&& scheduler::views(seqs@) == old(self).scheduler@.scheduled().picked
                &&& final(self).scheduler@.runs(scheduler::views(seqs@))
                &&& scheduler::views(seqs@) == scheduler::active(final(self).scheduler@.running)
            },
            final(self).counter == old(self).counter,
            final(self).tokenizer == old(self).tokenizer,
            final(self).block_size == old(self).block_size,
    {
        proof {
            scheduler_laws::scheduling_keeps_the_order(self.scheduler@);
            scheduler_laws::scheduling_keeps_the_limits(self.scheduler@);
            scheduler_laws::a_step_runs_the_active_sequences(self.scheduler@);
        }
        self.scheduler.schedule()
    }

    /// Ends a step, with the tokens drawn for the sequences that are numbered in
    /// `seq_need_compute_logits`. The result is what the finished sequences hand back, and
    /// how many tokens they have, all together.
    pub fn end_step(
        &mut self,
        seqs: &mut Vec<Sequence>,
        token_ids: &[u32],
        seq_need_compute_logits: &[usize],
    ) -> (ended: (Vec<(usize, Vec<u32>)>, usize))
        requires
            token_ids@.len() == seq_need_compute_logits@.len(),
            old(self).wf(),
            old(self).scheduler@.is_step(
                scheduler::views(old(seqs)@),
                seq_need_compute_logits@,
            ),
            old(self).scheduler@.runs(scheduler::views(old(seqs)@)),
            forall|k: int|
                0 <= k < seq_need_compute_logits@.len() ==> (
                #[trigger] seq_need_compute_logits@[k]) < old(seqs)@.len(),
            old(self).scheduler@.max_len + token_ids@.len() <= usize::MAX,
            (old(self).scheduler@.max_len + 1) * old(seqs)@.len() <= usize::MAX,
        ensures
            ({
                let (state, grown) = old(self).scheduler@.postprocessed(
                    scheduler::views(old(seqs)@),
                    token_ids@,
                    seq_need_compute_logits@,
                );
                &&& final(self).scheduler@ == state
                &&& scheduler::views(final(seqs)@) == grown
                &&& output_views(ended.0@) == finished_outputs(grown)
                &&& ended.1 == finished_tokens(grown)
            }),
            final(self).wf(),
            final(self).scheduler@.idle(),
            final(self).counter == old(self).counter,
            final(self).tokenizer == old(self).tokenizer,
            final(self).block_size == old(self).block_size,
    {
        let ghost before = self.scheduler@;
        let ghost given = scheduler::views(seqs@);
        self.scheduler.postprocess(
            seqs.as_mut_slice(),
            token_ids,
            seq_need_compute_logits,
        );
        let ghost grown = scheduler::views(seqs@);
        proof {
            lemma_step_keeps_ids(before, given, token_ids@, seq_need_compute_logits@);
            lemma_grown(before, given, token_ids@, seq_need_compute_logits@);
        }
        let mut outputs: Vec<(usize, Vec<u32>)> = Vec::new();
        let mut num_total_tokens: usize = 0;
        let mut i: usize = 0;
        let ghost most = before.max_len + 1;
        assert(output_views(outputs@) =~= finished_outputs(grown.take(0)));
        while i < seqs.len()
            invariant
                i <= seqs@.len(),
                grown == scheduler::views(seqs@),
                forall|j: int|
                    0 <= j < grown.len() ==> (#[trigger] grown[j]).num_prompt
                        <= grown[j].tokens.len() && grown[j].num_tokens <= most,
                most * grown.len() <= usize::MAX,
                output_views(outputs@) == finished_outputs(grown.take(i as int)),
                num_total_tokens == finished_tokens(grown.take(i as int)),
                num_total_tokens <= most * i,
            decreases seqs@.len() - i,
        {
            let ghost done = outputs@;
            proof {
                assert(grown[i as int] == seqs@[i as int]@);
                assert(grown.take(i + 1).drop_last() =~= grown.take(i as int));
                assert(grown.take(i + 1).last() == grown[i as int]);
                let n = grown.len() as int;
                assert(most * (i + 1) == most * i + most && most * (i + 1) <= most * n)
                    by (nonlinear_arith)
                    requires
                        i + 1 <= n,
                        most >= 0,
                ;
            }
            if seqs[i].is_finished() {
                let ids = slice_to_vec(seqs[i].completion_token_ids());
                outputs.push((seqs[i].seq_id, ids));
                num_total_tokens = num_total_tokens + seqs[i].len();
                assert(output_views(outputs@) =~= output_views(done).push(
                    output_of(grown[i as int]),
                ));
            }
            i = i + 1;
        }
        assert(grown.take(i as int) =~= grown);
        (outputs, num_total_tokens)
    }

    /// Plans a step: begins it, and lays out what the model is given. Without an answer where no
    /// sequence can run.
    pub fn plan_step(&mut self, runner: &ModelRunner) -> (planned: Option<Step>)
        requires
            old(self).wf(),
            scheduler_laws::is_ready(old(self).scheduler@),
            step_laws::can_be_counted(old(self).scheduler@),
            runner.engine_config.kvcache_block_size == old(self).block_size,
        ensures
            final(self).scheduler@ == old(self).scheduler@.scheduled().state,
            final(self).wf(),
            planned is Some == (old(self).scheduler@.scheduled().picked.len() > 0),
            planned matches Some(step) ==> {
                &&& step.seqs@.len() > 0
                &&& scheduler::views(step.seqs@) == old(self).scheduler@.scheduled().picked
                &&& step.is_laid_out()
                &&& final(self).awaits(step)
            },
            final(self).counter == old(self).counter,
            final(self).tokenizer == old(self).tokenizer,
            final(self).block_size == old(self).block_size,
    {
        let ghost before = self.scheduler@;
        proof {
            step_laws::what_is_scheduled_can_be_run(before);
            step_laws::the_runner_reports_the_complete_sequences(before);
            step_laws::no_more_is_scheduled_than_there_is(before);
            scheduler_laws::scheduling_keeps_the_limits(before);
        }
        let seqs = match self.begin_step() {
            Some(seqs) => seqs,
            None => {
                return None;
            },
        };
        let input = runner.prepare_model_input(seqs.as_slice());
        proof {
            let n = seqs@.len();
            let m = before.max_len + 1;
            let k = before.running.len() + before.waiting.len();
            assert(m * n <= k * m) by (nonlinear_arith)
                requires
                    n <= k,
                    m >= 1,
            ;
        }
        Some(Step { seqs, input })
    }

    /// `step` is the one under way, and what is reported of it can be counted.
    pub open spec fn awaits(&self, step: Step) -> bool {
        let seqs = scheduler::views(step.seqs@);
        let rows = model_runner::logit_rows(seqs);
        let at = model_runner::row_numbers(Some(rows));
        &&& self.wf()
        &&& self.scheduler@.runs(seqs)
        &&& self.scheduler@.is_step(seqs, at)
        &&& model_runner::rows_below(Some(rows), seqs.len() as int)
        &&& seqs.len() <= u32::MAX
        &&& (self.scheduler@.max_len + 1) * seqs.len() <= usize::MAX
    }

    /// How many tokens are to be drawn for a step.
    pub fn num_tokens_to_draw(step: &Step) -> (n: usize)
        requires
            step.is_laid_out(),
        ensures
            n == model_runner::logit_rows(scheduler::views(step.seqs@)).len(),
    {
        match &step.input.context.seq_need_compute_logits {
            Some(rows) => {
                assert(step.input.context@.seq_need_compute_logits->0 == rows@);
                rows.len()
            },
            None => 0,
        }
    }

    /// Ends a step with the tokens that were drawn, one for each sequence whose tokens are all
    /// in context. The result is what the finished sequences hand back, and how many tokens
    /// they have, all together.
    pub fn finish_step(&mut self, step: Step, token_ids: &[u32]) -> (ended: (
        Vec<(usize, Vec<u32>)>,
        usize,
    ))
        requires
            old(self).awaits(step),
            step.is_laid_out(),
            token_ids@.len() == model_runner::logit_rows(scheduler::views(step.seqs@)).len(),
        ensures
            ({
                let seqs = scheduler::views(step.seqs@);
                let at = model_runner::row_numbers(Some(model_runner::logit_rows(seqs)));
                let (state, grown) = old(self).scheduler@.postprocessed(seqs, token_ids@, at);
                &&& final(self).scheduler@ == state
                &&& output_views(ended.0@) == finished_outputs(grown)
                &&& ended.1 == finished_tokens(grown)
            }),
            final(self).wf(),
            final(self).scheduler@.idle(),
            final(self).counter == old(self).counter,
            final(self).tokenizer == old(self).tokenizer,
            final(self).block_size == old(self).block_size,
    {
        let ghost all = scheduler::views(step.seqs@);
        let ghost drawn = model_runner::logit_rows(all);
        let rows = ModelRunner::sampled_rows(&step.input.context);
        proof {
            assert(rows@ == model_runner::row_numbers(Some(drawn)));
            assert forall|k: int| 0 <= k < rows@.len() implies (#[trigger] rows@[k])
                < all.len() by {
                assert(0 <= drawn[k] < all.len());
            }
            let n = all.len() as int;
            let m = self.scheduler@.max_len as int;
            if rows@.len() > 0 {
                assert(rows@[0] < all.len());
                assert(m + n <= (m + 1) * n) by (nonlinear_arith)
                    requires
                        n >= 1,
                        m >= 0,
                ;
                lemma_rows_are_few(all);
            }
        }
        let mut seqs = step.seqs;
        self.end_step(&mut seqs, token_ids, rows.as_slice())
    }

    /// The text of `token_ids`, if they have one.
    pub fn decode(&self, token_ids: &[u32]) -> (text: Option<String>)
        requires
            self.wf(),
        ensures
            text::text_of(text) == tokenizer::decoded_text(self.tokenizer, token_ids@),
    {
        tokenizer::decode(&self.tokenizer, token_ids)
    }

    /// The outputs as text, in ascending order of the sequence ids. Without an answer where
    /// the tokens of some sequence cannot be turned into text.
    pub fn decode_outputs(&self, outputs: Outputs) -> (results: Option<Vec<GeneratedOutput>>)
        requires
            self.wf(),
            outputs.wf(),
        ensures
            match results {
                Some(list) => list@.len() == outputs.entries@.len() && forall|i: int|
                    0 <= i < list@.len() ==> (#[trigger] list@[i]).token_ids@
                        == outputs.entries@[i].1@ && tokenizer::decoded_text(
                        self.tokenizer,
                        outputs.entries@[i].1@,
                    ) == Some(list@[i].text@),
                None => exists|i: int|
                    0 <= i < outputs.entries@.len() && tokenizer::decoded_text(
                        self.tokenizer,
                        (#[trigger] outputs.entries@[i]).1@,
                    ) is None,
            },
    {
        let mut results: Vec<GeneratedOutput> = Vec::new();
        let mut i: usize = 0;
        while i < outputs.entries.len()
            invariant
                self.wf(),
                i <= outputs.entries@.len(),
                results@.len() == i,
                forall|j: int|
                    0 <= j < i ==> (#[trigger] results@[j]).token_ids@
                        == outputs.entries@[j].1@ && tokenizer::decoded_text(
                        self.tokenizer,
                        outputs.entries@[j].1@,
                    ) == Some(results@[j].text@),
            decreases outputs.entries@.len() - i,
        {
            let token_ids = slice_to_vec(outputs.entries[i].1.as_slice());
            assert(token_ids@ == outputs.entries@[i as int].1@);
            match tokenizer::decode(&self.tokenizer, token_ids.as_slice()) {
                Some(text) => {
                    results.push(GeneratedOutput { text, token_ids });
                },
                None => {
                    return None;
                },
            }
            i = i + 1;
        }
        Some(results)
    }
}

/// Notes the outputs of a step.
pub fn note_outputs(outputs: &mut Outputs, ended: Vec<(usize, Vec<u32>)>)
    requires
        old(outputs).wf(),
    ensures
        final(outputs).wf(),
        final(outputs).map() == noted(old(outputs).map(), output_views(ended@)),
{
    let ghost start = outputs.map();
    let ghost all = output_views(ended@);
    let mut i: usize = 0;
    assert(all.take(0) =~= Seq::empty());
    while i < ended.len()
        invariant
            i <= ended@.len(),
            all == output_views(ended@),
            outputs.wf(),
            outputs.map() == noted(start, all.take(i as int)),
        decreases ended@.len() - i,
    {
        proof {
            assert(all.take(i + 1).drop_last() =~= all.take(i as int));
            assert(all.take(i + 1).last() == all[i as int]);
        }
        outputs.insert(ended[i].0, slice_to_vec(ended[i].1.as_slice()));
        i = i + 1;
    }
    assert(all.take(i as int) =~= all);
}

/// There are no more rows than sequences.
proof fn lemma_rows_are_few(seqs: Seq<SeqView>)
    ensures
        model_runner::logit_rows(seqs).len() <= seqs.len(),
    decreases seqs.len(),
{
    if seqs.len() > 0 {
        lemma_rows_are_few(seqs.drop_last());
    }
}

/// Every id is below `next`.
pub open spec fn below(ids: Seq<usize>, next: usize) -> bool {
    forall|i: int| 0 <= i < ids.len() ==> (#[trigger] ids[i]) < next
}

/// Every id of `some` is one of `all`.
spec fn among(some: Seq<SeqView>, all: Seq<SeqView>) -> bool {
    forall|i: int| 0 <= i < some.len() ==> scheduler_proofs::has_id(all, (#[trigger] some[i]).seq_id)
}

proof fn lemma_without_among(seqs: Seq<SeqView>, id: usize)
    ensures
        among(scheduler::without(seqs, id), seqs),
    decreases seqs.len(),
{
    if seqs.len() > 0 {
        let rest = seqs.subrange(1, seqs.len() as int);
        lemma_without_among(rest, id);
        let less = scheduler::without(seqs, id);
        assert forall|i: int| 0 <= i < less.len() implies scheduler_proofs::has_id(
            seqs,
            (#[trigger] less[i]).seq_id,
        ) by {
            if seqs[0].seq_id == id {
                assert(less[i] == seqs[i + 1]);
            } else if i == 0 {
                assert(less[0] == seqs[0]);
            } else {
                let w = scheduler::without(rest, id);
                assert(less[i] == w[i - 1]);
                assert(scheduler_proofs::has_id(rest, w[i - 1].seq_id));
                let k = choose|k: int|
                    0 <= k < rest.len() && (#[trigger] rest[k]).seq_id == w[i - 1].seq_id;
                assert(seqs[k + 1].seq_id == less[i].seq_id);
            }
        }
    }
}

proof fn lemma_replaced_among(seqs: Seq<SeqView>, seq: SeqView)
    ensures
        among(scheduler::replaced(seqs, seq), seqs),
    decreases seqs.len(),
{
    if seqs.len() > 0 {
        let rest = seqs.subrange(1, seqs.len() as int);
        lemma_replaced_among(rest, seq);
        let now = scheduler::replaced(seqs, seq);
        assert forall|i: int| 0 <= i < now.len() implies scheduler_proofs::has_id(
            seqs,
            (#[trigger] now[i]).seq_id,
        ) by {
            if seqs[0].seq_id == seq.seq_id {
                assert(seqs[i].seq_id == now[i].seq_id);
            } else if i == 0 {
                assert(now[0] == seqs[0]);
            } else {
                let w = scheduler::replaced(rest, seq);
                assert(now[i] == w[i - 1]);
                assert(scheduler_proofs::has_id(rest, w[i - 1].seq_id));
                let k = choose|k: int|
                    0 <= k < rest.len() && (#[trigger] rest[k]).seq_id == w[i - 1].seq_id;
                assert(seqs[k + 1].seq_id == now[i].seq_id);
            }
        }
    }
}

proof fn lemma_among_trans(a: Seq<SeqView>, b: Seq<SeqView>, c: Seq<SeqView>)
    requires
        among(a, b),
        among(b, c),
    ensures
        among(a, c),
{
    assert forall|i: int| 0 <= i < a.len() implies scheduler_proofs::has_id(
        c,
        (#[trigger] a[i]).seq_id,
    ) by {
        assert(scheduler_proofs::has_id(b, a[i].seq_id));
        let k = choose|k: int| 0 <= k < b.len() && (#[trigger] b[k]).seq_id == a[i].seq_id;
        assert(scheduler_proofs::has_id(c, b[k].seq_id));
    }
}

proof fn lemma_among_self(a: Seq<SeqView>)
    ensures
        among(a, a),
{
    assert forall|i: int| 0 <= i < a.len() implies scheduler_proofs::has_id(
        a,
        (#[trigger] a[i]).seq_id,
    ) by {
    }
}

proof fn lemma_take_tokens_among(
    state: SchedView,
    seqs: Seq<SeqView>,
    tokens: Seq<u32>,
    at: Seq<usize>,
    k: int,
)
    ensures
        among(state.take_tokens(seqs, tokens, at, k).0.running, state.running),
        state.take_tokens(seqs, tokens, at, k).0.waiting == state.waiting,
        state.take_tokens(seqs, tokens, at, k).0.max_len == state.max_len,
    decreases at.len() - k,
{
    lemma_among_self(state.running);
    if k < at.len() {
        let (next, grown) = state.take_token(seqs, at[k] as int, tokens[k]);
        lemma_without_among(state.running, seqs[at[k] as int].seq_id);
        lemma_take_tokens_among(next, grown, tokens, at, k + 1);
        lemma_among_trans(
            next.take_tokens(grown, tokens, at, k + 1).0.running,
            next.running,
            state.running,
        );
    }
}

proof fn lemma_sync_all_among(state: SchedView, seqs: Seq<SeqView>, j: int)
    ensures
        among(state.sync_all(seqs, j).running, state.running),
        state.sync_all(seqs, j).waiting == state.waiting,
        state.sync_all(seqs, j).bm == state.bm,
    decreases seqs.len() - j,
{
    lemma_among_self(state.running);
    if j < seqs.len() {
        let next = state.sync(seqs[j]);
        lemma_replaced_among(state.running, seqs[j].advanced());
        lemma_sync_all_among(next, seqs, j + 1);
        lemma_among_trans(next.sync_all(seqs, j + 1).running, next.running, state.running);
    }
}

/// A step brings no new ids into the queues.
proof fn lemma_step_keeps_ids(
    state: SchedView,
    seqs: Seq<SeqView>,
    tokens: Seq<u32>,
    at: Seq<usize>,
)
    ensures
        ({
            let next = state.postprocessed(seqs, tokens, at).0;
            &&& next.waiting == state.waiting
            &&& next.bm.block_size == state.bm.block_size
            &&& forall|bound: usize|
                below(scheduler::ids(state.running + state.waiting), bound) ==> #[trigger] below(
                    scheduler::ids(next.running + next.waiting),
                    bound,
                )
        }),
{
    let (mid, grown) = state.take_tokens(seqs, tokens, at, 0);
    let next = mid.sync_all(grown, 0);
    lemma_take_tokens_among(state, seqs, tokens, at, 0);
    lemma_take_tokens_size(state, seqs, tokens, at, 0);
    lemma_sync_all_among(mid, grown, 0);
    lemma_among_trans(next.running, mid.running, state.running);
    let before = scheduler::ids(state.running + state.waiting);
    let after = scheduler::ids(next.running + next.waiting);
    assert forall|bound: usize| below(before, bound) implies #[trigger] below(after, bound) by {
        assert forall|i: int| 0 <= i < after.len() implies (#[trigger] after[i]) < bound by {
            if i < next.running.len() {
                assert(after[i] == next.running[i].seq_id);
                assert(scheduler_proofs::has_id(state.running, next.running[i].seq_id));
                let k = choose|k: int|
                    0 <= k < state.running.len() && (#[trigger] state.running[k]).seq_id
                        == next.running[i].seq_id;
                assert(before[k] == state.running[k].seq_id);
            } else {
                let k = i - next.running.len() + state.running.len();
                assert(before[k] == after[i]);
            }
        }
    }
}

proof fn lemma_take_tokens_size(
    state: SchedView,
    seqs: Seq<SeqView>,
    tokens: Seq<u32>,
    at: Seq<usize>,
    k: int,
)
    ensures
        state.take_tokens(seqs, tokens, at, k).0.bm.block_size == state.bm.block_size,
    decreases at.len() - k,
{
    if k < at.len() {
        let (next, grown) = state.take_token(seqs, at[k] as int, tokens[k]);
        lemma_release_size(state.bm, seqs[at[k] as int].table);
        lemma_take_tokens_size(next, grown, tokens, at, k + 1);
    }
}

proof fn lemma_release_size(bm: crate::engine::block_manager::BmView, table: Seq<usize>)
    ensures
        bm.release(table).block_size == bm.block_size,
    decreases table.len(),
{
    if table.len() > 0 {
        lemma_release_size(bm.drop_one(table.last()), table.drop_last());
    }
}

/// No sequence of a step comes out longer than one more than the longest that may run.
pub proof fn lemma_grown(state: SchedView, seqs: Seq<SeqView>, tokens: Seq<u32>, at: Seq<usize>)
    requires
        state.wf(),
        state.runs(seqs),
        at.no_duplicates(),
        forall|i: int| 0 <= i < at.len() ==> (#[trigger] at[i]) < seqs.len(),
    ensures
        ({
            let grown = state.postprocessed(seqs, tokens, at).1;
            &&& grown.len() == seqs.len()
            &&& forall|j: int|
                0 <= j < grown.len() ==> (#[trigger] grown[j]).num_prompt <= grown[j].tokens.len()
                    && grown[j].num_tokens == grown[j].tokens.len() && grown[j].num_tokens
                    <= state.max_len + 1
        }),
{
    assert forall|j: int| 0 <= j < seqs.len() implies (#[trigger] seqs[j]).wf()
        && seqs[j].num_tokens < state.max_len by {
        assert(state.running.contains(seqs[j]));
        let p = choose|p: int| 0 <= p < state.running.len() && state.running[p] == seqs[j];
        assert(state.may_run(state.running[p]));
    }
    lemma_take_tokens_grow(state, seqs, seqs, tokens, at, 0);
}

proof fn lemma_take_tokens_grow(
    state: SchedView,
    orig: Seq<SeqView>,
    seqs: Seq<SeqView>,
    tokens: Seq<u32>,
    at: Seq<usize>,
    k: int,
)
    requires
        0 <= k <= at.len(),
        at.no_duplicates(),
        seqs.len() == orig.len(),
        forall|i: int| 0 <= i < at.len() ==> (#[trigger] at[i]) < seqs.len(),
        forall|j: int| 0 <= j < orig.len() ==> (#[trigger] orig[j]).wf(),
        forall|j: int|
            0 <= j < seqs.len() ==> {
                let seq = #[trigger] seqs[j];
                &&& seq.num_prompt == orig[j].num_prompt
                &&& seq.tokens.len() >= orig[j].tokens.len()
                &&& seq.num_tokens == seq.tokens.len()
                &&& seq.num_tokens <= orig[j].num_tokens + 1
                &&& !at.take(k).contains(j as usize) ==> seq.num_tokens == orig[j].num_tokens
            },
    ensures
        ({
            let grown = state.take_tokens(seqs, tokens, at, k).1;
            &&& grown.len() == orig.len()
            &&& forall|j: int|
                0 <= j < grown.len() ==> (#[trigger] grown[j]).num_prompt
                    <= grown[j].tokens.len() && grown[j].num_tokens == grown[j].tokens.len()
                    && grown[j].num_tokens <= orig[j].num_tokens + 1
        }),
    decreases at.len() - k,
{
    if k < at.len() {
        let i = at[k] as int;
        let (next, grown) = state.take_token(seqs, i, tokens[k]);
        assert(!at.take(k).contains(at[k])) by {
            if at.take(k).contains(at[k]) {
                let m = choose|m: int| 0 <= m < k && at.take(k)[m] == at[k];
                assert(at[m] == at[k]);
            }
        }
        assert forall|j: int| 0 <= j < grown.len() implies {
            let seq = #[trigger] grown[j];
            &&& seq.num_prompt == orig[j].num_prompt
            &&& seq.tokens.len() >= orig[j].tokens.len()
            &&& seq.num_tokens == seq.tokens.len()
            &&& seq.num_tokens <= orig[j].num_tokens + 1
            &&& !at.take(k + 1).contains(j as usize) ==> seq.num_tokens == orig[j].num_tokens
        } by {
            let more = at.take(k + 1);
            assert(seqs[j].num_prompt == orig[j].num_prompt);
            if j == i {
                assert(more[k] == j as usize);
                assert(more.contains(j as usize));
            } else {
                assert(grown[j] == seqs[j]);
                if at.take(k).contains(j as usize) {
                    let m = choose|m: int| 0 <= m < k && at.take(k)[m] == j as usize;
                    assert(more[m] == j as usize);
                }
            }
        }
        lemma_take_tokens_grow(next, orig, grown, tokens, at, k + 1);
    } else {
        assert forall|j: int| 0 <= j < seqs.len() implies (#[trigger] seqs[j]).num_prompt
            <= seqs[j].tokens.len() by {
            assert(orig[j].wf());
        }
    }
}

} // verus!
