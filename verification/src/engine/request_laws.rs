//! What becomes of a request: it is refused for cause or waits in its turn, and what it is answered
//! is kept under its id.
use crate::config::{Config, EngineConfig};
use crate::engine::llm_engine;
use crate::engine::llm_engine::{LLMEngine, RequestError};
use crate::engine::sequence::{SeqView, SequenceStatus};
use crate::sampling_params::SamplingParams;
use tokenizers::Tokenizer;
use vstd::prelude::*;

verus! {

/// A sequence that holds the tokens of `prompt` and what was asked for, and of which nothing has
/// been computed or generated.
pub open spec fn is_untouched(seq: SeqView, prompt: Seq<u32>, params: SamplingParams) -> bool {
    &&& seq.tokens == prompt
    &&& seq.num_tokens == prompt.len()
    &&& seq.num_prompt == prompt.len()
    &&& seq.last_token == prompt[prompt.len() - 1]
    &&& seq.status == SequenceStatus::Waiting
    &&& seq.num_cached == 0
    &&& seq.num_new == 0
    &&& seq.table.len() == 0
    &&& seq.temperature == params.temperature
    &&& seq.max_tokens == params.max_tokens
    &&& seq.ignore_eos == params.ignore_eos
}

/// A request that is taken waits behind all others, with its own prompt and parameters and an id
/// that none has had; whatever else is in the engine stays.
pub proof fn a_request_waits_as_it_was_made(
    after: LLMEngine,
    before: LLMEngine,
    prompt: Seq<u32>,
    params: SamplingParams,
)
    requires
        after.requested(before, prompt, params),
        prompt.len() > 0,
    ensures
        after.scheduler@.waiting.len() == before.scheduler@.waiting.len() + 1,
        after.scheduler@.waiting.drop_last() == before.scheduler@.waiting,
        is_untouched(after.scheduler@.waiting.last(), prompt, params),
        after.scheduler@.waiting.last().seq_id == before.counter.next,
        after.scheduler@.waiting.last().block_size == before.block_size,
        after.scheduler@.running == before.scheduler@.running,
        after.scheduler@.bm == before.scheduler@.bm,
        after.scheduler@.eos == before.scheduler@.eos,
        after.scheduler@.max_len == before.scheduler@.max_len,
        after.scheduler@.max_seqs == before.scheduler@.max_seqs,
        after.scheduler@.max_batched == before.scheduler@.max_batched,
        after.scheduler@.chunked == before.scheduler@.chunked,
        before.counter.next < usize::MAX ==> after.counter.next == before.counter.next + 1,
{
    assert(after.scheduler@.waiting.drop_last() =~= before.scheduler@.waiting);
}

/// A new engine works under the limits that it was given: it takes prompts that are shorter than
/// the longest sequence, runs as many sequences and computes as many tokens at once as it may, cuts
/// prompts only where that is wanted, and has all its blocks to give away.
pub proof fn a_new_engine_works_under_its_limits(
    engine: LLMEngine,
    config: Config,
    engine_config: EngineConfig,
    tokenizer: Tokenizer,
    num_tokens: nat,
)
    requires
        engine.is_new(config, engine_config, tokenizer),
    ensures
        engine.spec_refusal(num_tokens) is None <==> 0 < num_tokens < config.max_model_len,
        engine.scheduler@.max_len == config.max_model_len,
        engine.scheduler@.max_seqs == engine_config.max_num_seqs,
        engine.scheduler@.start().budget == engine_config.max_num_batched_tokens,
        engine.scheduler@.chunked == engine_config.chunked_prefill,
        engine.scheduler@.eos == config.eos_token_id,
        engine.scheduler@.bm.free.len() == engine_config.num_kvcache_blocks,
        engine.scheduler@.bm.block_size == engine_config.kvcache_block_size,
        engine.scheduler@.running.len() == 0,
        engine.scheduler@.waiting.len() == 0,
        engine.counter.next == 0,
{
    requests_are_refused_for_cause(engine, num_tokens);
}

/// Requests that are taken together wait in their order behind all others, each with its own
/// prompt and parameters, and with ids that follow each other.
pub proof fn requests_wait_in_their_order(
    after: LLMEngine,
    before: LLMEngine,
    prompts: Seq<Seq<u32>>,
    params: Seq<SamplingParams>,
    i: int,
)
    requires
        after.enqueued(before, prompts, params),
        0 <= i < prompts.len(),
        prompts[i].len() > 0,
    ensures
        after.scheduler@.waiting.len() == before.scheduler@.waiting.len() + prompts.len(),
        after.scheduler@.waiting.take(before.scheduler@.waiting.len() as int)
            == before.scheduler@.waiting,
        is_untouched(
            after.scheduler@.waiting[before.scheduler@.waiting.len() + i],
            prompts[i],
            params[i],
        ),
        after.scheduler@.waiting[before.scheduler@.waiting.len() + i].seq_id
            == before.counter.next + i,
        after.scheduler@.running == before.scheduler@.running,
        after.scheduler@.bm == before.scheduler@.bm,
{
    assert(after.scheduler@.waiting.take(before.scheduler@.waiting.len() as int)
        =~= before.scheduler@.waiting);
    assert(before.counter.next + i < after.counter.next);
}

/// A request is taken where it has a token, room is left behind it, and there is an id for it; and
/// the answer tells which of these it lacks.
pub proof fn requests_are_refused_for_cause(engine: LLMEngine, num_tokens: nat)
    ensures
        engine.spec_refusal(num_tokens) is None <==> 0 < num_tokens < engine.scheduler@.max_len
            && engine.counter.next != usize::MAX,
        engine.spec_refusal(num_tokens) == Some(RequestError::Empty) <==> num_tokens == 0,
        engine.spec_refusal(num_tokens) == Some(RequestError::TooLong) <==> num_tokens > 0
            && num_tokens >= engine.scheduler@.max_len,
        engine.spec_refusal(num_tokens) == Some(RequestError::OutOfIds) <==> 0 < num_tokens
            < engine.scheduler@.max_len && engine.counter.next == usize::MAX,
{
}

/// A refused request leaves the engine as it was; one that is taken is known by the id it gets.
pub proof fn an_answer_tells_what_became_of_the_request(
    after: LLMEngine,
    before: LLMEngine,
    ids: Option<Seq<u32>>,
    params: SamplingParams,
    taken: Result<usize, RequestError>,
)
    requires
        after.answers(before, ids, params, taken),
    ensures
        taken is Err ==> after == before,
        ids is None <==> taken == Err::<usize, RequestError>(RequestError::Tokenizer),
        taken is Ok <==> (ids matches Some(prompt) && 0 < prompt.len()
            < before.scheduler@.max_len && before.counter.next != usize::MAX),
        taken matches Ok(id) ==> {
            &&& after.scheduler@.waiting.len() == before.scheduler@.waiting.len() + 1
            &&& after.scheduler@.waiting.last().seq_id == id
            &&& is_untouched(after.scheduler@.waiting.last(), ids->0, params)
        },
{
    if let Some(prompt) = ids {
        requests_are_refused_for_cause(before, prompt.len());
        if taken is Ok {
            a_request_waits_as_it_was_made(after, before, prompt, params);
        }
    }
}

/// The tokens of finished sequences are counted one by one: those of two lists are counted
/// together, and a single sequence counts with all its tokens where it is finished, and else not.
pub proof fn finished_tokens_add_up(some: Seq<SeqView>, others: Seq<SeqView>, seq: SeqView)
    ensures
        llm_engine::finished_tokens(some + others) == llm_engine::finished_tokens(some)
            + llm_engine::finished_tokens(others),
        seq.status == SequenceStatus::Finished ==> llm_engine::finished_tokens(seq![seq])
            == seq.num_tokens,
        seq.status != SequenceStatus::Finished ==> llm_engine::finished_tokens(seq![seq]) == 0,
    decreases others.len(),
{
    assert(seq![seq].drop_last() =~= Seq::empty());
    assert(llm_engine::finished_tokens(seq![seq].drop_last()) == 0);
    if others.len() == 0 {
        assert(some + others =~= some);
    } else {
        finished_tokens_add_up(some, others.drop_last(), seq);
        assert((some + others).drop_last() =~= some + others.drop_last());
        assert((some + others).last() == others.last());
    }
}

/// What was noted last for an id is what it maps to; an id that nothing was noted for keeps what it
/// had.
pub proof fn the_last_output_of_an_id_is_kept(
    map: Map<usize, Seq<u32>>,
    outputs: Seq<(usize, Seq<u32>)>,
    id: usize,
    k: int,
)
    requires
        forall|j: int| k < j < outputs.len() ==> (#[trigger] outputs[j]).0 != id,
        -1 <= k < outputs.len(),
        k >= 0 ==> outputs[k].0 == id,
    ensures
        k >= 0 ==> llm_engine::noted(map, outputs).contains_key(id) && llm_engine::noted(
            map,
            outputs,
        )[id] == outputs[k].1,
        k < 0 ==> llm_engine::noted(map, outputs).contains_key(id) == map.contains_key(id),
        k < 0 && map.contains_key(id) ==> llm_engine::noted(map, outputs)[id] == map[id],
    decreases outputs.len(),
{
    if outputs.len() > 0 && k < outputs.len() - 1 {
        let rest = outputs.drop_last();
        assert forall|j: int| k < j < rest.len() implies (#[trigger] rest[j]).0 != id by {
            assert(rest[j] == outputs[j]);
        }
        assert(outputs[outputs.len() - 1].0 != id);
        the_last_output_of_an_id_is_kept(map, rest, id, k);
    }
}

} // verus!
