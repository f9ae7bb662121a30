# nanovllm

The engine of an LLM inference server, with its decisions verified in
[Verus](https://github.com/verus-lang/verus): requests are cut into fixed-size blocks of tokens,
blocks are shared between requests through a prefix cache, and a scheduler batches requests step
by step under a token budget.

## Layout

- `src/engine/`: sequences, the block manager, the scheduler, what a step hands to the model, and
  the engine that ties them together. Files that end in `_laws` state what holds of every step or
  of every sequence of operations; files that end in `_proofs` hold the lemmas behind them.
- `src/layers/`, `src/models/`: the weights of the model, how they are cut for several ranks, and
  how a checkpoint is loaded into them; the shapes and indices that the forward pass needs.
- `src/utils/`, `src/config.rs`, `src/serve.rs`, `src/client.rs`: configuration, names of
  parameters, the layout of a step, and the command lines.
- `src/chat.rs`, `src/template.rs`: the prompt that the chat template of a model makes of messages,
  and which templates are plain enough to be rendered.
- `app/`: what is left: the HTTP server, the forward pass on candle, CUDA and NCCL, and the bridge
  to torch.
- `tests/`: the library on concrete values.

## What is proved

Every function of the library has a contract over a mathematical model of its data, and the laws
say what follows from them:

- a block is free or in use, never both, and is held as often as the running sequences name it;
- a sequence finds in the cache just the blocks that hold its tokens, behind the same prefix;
- no two tokens of a step are written to the same slot of the cache, and what was stored in a slot
  is what attention reads from it;
- a step is the front of what runs, stays within its budget, keeps the requests in turn, and changes
  none of them;
- no request is lost, and no completion is longer than was asked for;
- the request that is first in turn comes closer to its end with every step, where the blocks of the
  cache suffice for the longest sequence alone and, unless prompts are cut, the budget of a step for
  its prompt: it gets a token, or, where its prompt is cut, more of the prompt is computed;
- the parts of a fused weight give the same weight in whatever order they are loaded.

Floating-point numbers are held by their bits: the library carries them and never computes with
them.

## What is trusted

The digest of `xxhash-rust`, the tokenizer of `tokenizers`, the JSON of `serde_json`, the templates
of `minijinja`, and a handful of operations on the tensors of `candle-core` and `candle-nn` that move
elements and compute none. Each is called in one small function, marked `external_body`, whose doc
comment says what is claimed of it. `src/engine/tokenizer.rs` says which tokenizers are taken: those
that no text and no tokens can break. `src/template.rs` says which templates are: short ones, of
conditions, loops and assignments, that no messages can break.
