//! One request: its tokens, how many of them have been computed, and the blocks they are in.
use crate::sampling_params::SamplingParams;
use vstd::prelude::*;
use vstd::slice::{slice_subrange, slice_to_vec};

verus! {

pub const BLOCK_SIZE: usize = 256;

/// The quotient of `a` by `b`, rounded up.
pub open spec fn ceil_div(a: int, b: int) -> int {
    (a + b - 1) / b
}

/// The id after `id`. After the largest one the ids start again from zero.
pub open spec fn next_id(id: usize) -> usize {
    if id == usize::MAX {
        0
    } else {
        (id + 1) as usize
    }
}

/// The id that comes `n` places after `id`.
pub open spec fn nth_id(id: usize, n: nat) -> usize
    decreases n,
{
    if n == 0 {
        id
    } else {
        next_id(nth_id(id, (n - 1) as nat))
    }
}

/// The ids go round after as many as a machine word can tell apart.
proof fn lemma_nth_id(id: usize, n: nat)
    ensures
        nth_id(id, n) == (id + n) % (usize::MAX + 1),
    decreases n,
{
    let m = usize::MAX + 1;
    if n > 0 {
        lemma_nth_id(id, (n - 1) as nat);
        let x = id + n - 1;
        assert((x + 1) % m == if x % m == m - 1 {
            0
        } else {
            x % m + 1
        }) by (nonlinear_arith)
            requires
                m > 1,
                x >= 0,
        ;
    } else {
        assert(id as int % m == id) by (nonlinear_arith)
            requires
                0 <= id < m,
        ;
    }
}

/// Ids that are drawn one after the other are distinct, as long as no more are drawn than a
/// machine word can tell apart.
pub proof fn drawn_ids_are_distinct(start: usize, i: nat, j: nat)
    requires
        i < j <= i + usize::MAX,
    ensures
        nth_id(start, i) != nth_id(start, j),
{
    lemma_nth_id(start, i);
    lemma_nth_id(start, j);
    let m = usize::MAX + 1;
    let a = start + i;
    let b = start + j;
    assert(a % m != b % m) by (nonlinear_arith)
        requires
            0 <= a < b < a + m,
            m > 0,
    ;
}

/// A source of sequence ids, advanced once for each sequence made.
pub struct SeqCounter {
    pub next: usize,
}

impl SeqCounter {
    pub fn new() -> (counter: Self)
        ensures
            counter.next == 0,
    {
        SeqCounter { next: 0 }
    }

    /// The next id. After `usize::MAX` the ids start again from zero.
    pub fn next_seq_id(&mut self) -> (id: usize)
        ensures
            id == old(self).next,
            final(self).next == next_id(old(self).next),
    {
        let id = self.next;
        self.next = id.wrapping_add(1);
        id
    }
}

#[derive(Debug, Clone, Copy, PartialEq, Eq, Structural)]
pub enum SequenceStatus {
    Waiting,
    Running,
    Finished,
}

pub struct Sequence {
    pub block_size: usize,
    pub seq_id: usize,
    pub status: SequenceStatus,
    pub token_ids: Vec<u32>,
    pub last_token: u32,
    pub num_tokens: usize,
    pub num_prompt_tokens: usize,
    pub num_cached_tokens: usize,
    pub num_new_tokens: usize,
    pub block_table: Vec<usize>,
    /// The bits of the sampling temperature.
    pub temperature: u64,
    pub max_tokens: i32,
    pub ignore_eos: bool,
}

/// What a [`Sequence`] holds.
#[verifier::ext_equal]
pub struct SeqView {
    pub block_size: nat,
    pub seq_id: usize,
    pub status: SequenceStatus,
    pub tokens: Seq<u32>,
    pub last_token: u32,
    pub num_tokens: nat,
    pub num_prompt: nat,
    pub num_cached: nat,
    pub num_new: nat,
    pub table: Seq<usize>,
    pub temperature: u64,
    pub max_tokens: i32,
    pub ignore_eos: bool,
}

impl View for Sequence {
    type V = SeqView;

    open spec fn view(&self) -> SeqView {
        SeqView {
            block_size: self.block_size as nat,
            seq_id: self.seq_id,
            status: self.status,
            tokens: self.token_ids@,
            last_token: self.last_token,
            num_tokens: self.num_tokens as nat,
            num_prompt: self.num_prompt_tokens as nat,
            num_cached: self.num_cached_tokens as nat,
            num_new: self.num_new_tokens as nat,
            table: self.block_table@,
            temperature: self.temperature,
            max_tokens: self.max_tokens,
            ignore_eos: self.ignore_eos,
        }
    }
}

impl SeqView {
    /// The counts agree with the tokens: there is at least one, the prompt is a prefix of
    /// them, and the last one is the last token.
    pub open spec fn wf(self) -> bool {
        &&& self.tokens.len() >= 1
        &&& self.num_tokens == self.tokens.len()
        &&& 1 <= self.num_prompt <= self.num_tokens
        &&& self.last_token == self.tokens.last()
    }

    /// The tokens that are in context once the current step has run.
    pub open spec fn context(self) -> nat {
        self.num_cached + self.num_new
    }

    /// The blocks that the whole sequence needs.
    pub open spec fn num_blocks(self) -> int {
        ceil_div(self.num_tokens as int, self.block_size as int)
    }

    /// The tokens of block `i`: `block_size` of them, fewer in the last block.
    pub open spec fn block(self, i: int) -> Seq<u32> {
        block_of(self.tokens, self.block_size as int, i)
    }

    /// The blocks that the tokens in context need.
    pub open spec fn context_blocks(self) -> int {
        ceil_div(self.context() as int, self.block_size as int)
    }

    /// The tokens of block `i` as far as they are in context.
    pub open spec fn piece(self, i: int) -> Seq<u32> {
        block_of(self.tokens.take(self.context() as int), self.block_size as int, i)
    }

    /// The sequence with one more token.
    pub open spec fn appended(self, token: u32) -> SeqView {
        SeqView {
            tokens: self.tokens.push(token),
            last_token: token,
            num_tokens: self.num_tokens + 1,
            ..self
        }
    }
}

/// Piece `i` of `tokens` cut into pieces of `size`, the last of which may be shorter.
pub open spec fn block_of(tokens: Seq<u32>, size: int, i: int) -> Seq<u32> {
    tokens.subrange(
        i * size,
        if (i + 1) * size <= tokens.len() {
            (i + 1) * size
        } else {
            tokens.len() as int
        },
    )
}

/// The number of blocks for `len` tokens is the least that holds them.
pub proof fn lemma_ceil_div(len: int, size: int)
    requires
        len >= 0,
        size > 0,
    ensures
        0 <= ceil_div(len, size) <= len,
        len > 0 ==> ceil_div(len, size) >= 1,
        ceil_div(len, size) * size >= len,
        ceil_div(len, size) * size < len + size,
{
    let n = ceil_div(len, size);
    assert(0 <= n <= len && (len > 0 ==> n >= 1) && n * size >= len && n * size < len + size)
        by (nonlinear_arith)
        requires
            n == (len + size - 1) / size,
            len >= 0,
            size > 0,
    ;
}

/// Of `len` tokens in blocks of `size`, block `i` starts before the end when it is one of
/// the blocks needed, and ends there when it is the last one.
pub proof fn lemma_block_bounds(len: int, size: int, i: int)
    requires
        len >= 0,
        size > 0,
        0 <= i < ceil_div(len, size),
    ensures
        0 <= i * size < len,
        i < ceil_div(len, size) - 1 ==> (i + 1) * size < len,
        i == ceil_div(len, size) - 1 ==> len <= (i + 1) * size,
        (i + 1) * size == i * size + size,
{
    let n = ceil_div(len, size);
    assert((i + 1) * size == i * size + size) by (nonlinear_arith);
    assert(i * size < len && (i < n - 1 ==> i * size + size < len) && (i == n - 1 ==> len <= i
        * size + size) && 0 <= i * size) by (nonlinear_arith)
        requires
            len >= 0,
            size > 0,
            n == (len + size - 1) / size,
            0 <= i < n,
    ;
}

/// The full blocks of `len` tokens, and the block that is not full, if there is one.
pub proof fn lemma_floor_div(len: int, size: int)
    requires
        len >= 0,
        size > 0,
    ensures
        0 <= len / size,
        (len / size) * size <= len < (len / size) * size + size,
        len % size == len - (len / size) * size,
        ceil_div(len, size) == len / size + if len % size == 0 {
            0int
        } else {
            1
        },
{
    let q = len / size;
    let r = len % size;
    let n = ceil_div(len, size);
    assert(len == q * size + r && 0 <= r < size && 0 <= q) by (nonlinear_arith)
        requires
            size > 0,
            len >= 0,
            q == len / size,
            r == len % size,
    ;
    let extra = if r == 0 {
        0int
    } else {
        1
    };
    assert(n == q + extra) by (nonlinear_arith)
        requires
            len == q * size + r,
            0 <= r < size,
            n == (len + size - 1) / size,
            extra == if r == 0 {
                0int
            } else {
                1
            },
    ;
}

/// More tokens need no fewer blocks.
pub proof fn lemma_ceil_monotone(a: int, b: int, size: int)
    requires
        0 <= a <= b,
        size > 0,
    ensures
        ceil_div(a, size) <= ceil_div(b, size),
        a / size <= ceil_div(b, size),
{
    lemma_ceil_div(a, size);
    lemma_ceil_div(b, size);
    lemma_floor_div(a, size);
    let n = ceil_div(a, size);
    let m = ceil_div(b, size);
    assert(n <= m) by (nonlinear_arith)
        requires
            n * size < a + size,
            m * size >= b,
            a <= b,
            size > 0,
    ;
}

/// The blocks that `new` more tokens need behind `cached` ones: those for what does not fit
/// in the room left in the last block.
pub proof fn lemma_needed_blocks(cached: int, new: int, size: int)
    requires
        cached >= 0,
        new >= 0,
        size > 0,
    ensures
        ({
            let room = if cached % size == 0 {
                0
            } else {
                size - cached % size
            };
            ceil_div(cached + new, size) - ceil_div(cached, size) == if new <= room {
                0
            } else {
                (new - room - 1) / size + 1
            }
        }),
{
    let q = cached / size;
    let r = cached % size;
    let room = if r == 0 {
        0
    } else {
        size - r
    };
    let n = ceil_div(cached, size);
    let m = ceil_div(cached + new, size);
    assert(cached == q * size + r && 0 <= r < size) by (nonlinear_arith)
        requires
            size > 0,
            q == cached / size,
            r == cached % size,
    ;
    assert(n * size == cached + room) by (nonlinear_arith)
        requires
            cached == q * size + r,
            0 <= r < size,
            size > 0,
            n == (cached + size - 1) / size,
            r == 0 ==> room == 0,
            r != 0 ==> room == size - r,
    ;
    let k = (new - room - 1) / size;
    if new <= room {
        assert(m == n) by (nonlinear_arith)
            requires
                n * size == cached + room,
                0 <= new <= room < size,
                m == (cached + new + size - 1) / size,
                n == (cached + size - 1) / size,
                size > 0,
        ;
    } else {
        assert(m == n + k + 1) by (nonlinear_arith)
            requires
                n * size == cached + room,
                new > room,
                m == (cached + new + size - 1) / size,
                k == (new - room - 1) / size,
                size > 0,
        ;
    }
}

/// Tokens behind `first` full blocks need as many blocks as they would by themselves.
pub proof fn lemma_shifted_blocks(len: int, size: int, first: int)
    requires
        len >= 0,
        size > 0,
    ensures
        ceil_div(first * size + len, size) == first + ceil_div(len, size),
{
    let n = ceil_div(len, size);
    let m = ceil_div(first * size + len, size);
    assert(m == first + n) by (nonlinear_arith)
        requires
            n == (len + size - 1) / size,
            m == (first * size + len + size - 1) / size,
            size > 0,
    ;
}

/// The tokens in context of block `n`, by their places in the sequence.
pub proof fn lemma_piece(seq: SeqView, n: int)
    requires
        seq.block_size > 0,
        seq.context() <= seq.tokens.len(),
        0 <= n,
        n * seq.block_size < seq.context(),
    ensures
        n < seq.context_blocks(),
        n * seq.block_size + seq.block_size < seq.context() ==> n + 1 < seq.context_blocks(),
        n * seq.block_size + seq.block_size >= seq.context() ==> n + 1 == seq.context_blocks(),
        n * seq.block_size + seq.block_size <= seq.context() ==> seq.piece(n)
            == seq.tokens.subrange(
            n * seq.block_size,
            n * seq.block_size + seq.block_size,
        ) && seq.piece(n) == seq.block(n) && seq.piece(n).len() == seq.block_size,
        n * seq.block_size + seq.block_size >= seq.context() ==> seq.piece(n)
            == seq.tokens.subrange(n * seq.block_size, seq.context() as int),
        1 <= seq.piece(n).len() <= seq.block_size,
        seq.piece(n).len() == seq.block_size <==> n * seq.block_size + seq.block_size
            <= seq.context(),
{
    let size = seq.block_size as int;
    let len = seq.context() as int;
    let m = seq.context_blocks();
    assert((n + 1) * size == n * size + size) by (nonlinear_arith);
    assert(n < m && (n * size + size < len ==> n + 1 < m) && (n * size + size >= len ==> n + 1
        == m)) by (nonlinear_arith)
        requires
            size > 0,
            len > 0,
            0 <= n,
            n * size < len,
            m == (len + size - 1) / size,
    ;
    assert(0 <= n * size) by (nonlinear_arith)
        requires
            size > 0,
            0 <= n,
    ;
    if n * size + size <= len {
        assert(seq.piece(n) =~= seq.tokens.subrange(n * size, n * size + size));
        assert(seq.piece(n) =~= seq.block(n));
    }
    if n * size + size >= len {
        assert(seq.piece(n) =~= seq.tokens.subrange(n * size, len));
    }
}

impl Clone for Sequence {
    fn clone(&self) -> (copy: Self)
        ensures
            copy@ == self@,
    {
        Sequence {
            block_size: self.block_size,
            seq_id: self.seq_id,
            status: self.status,
            token_ids: slice_to_vec(self.token_ids.as_slice()),
            last_token: self.last_token,
            num_tokens: self.num_tokens,
            num_prompt_tokens: self.num_prompt_tokens,
            num_cached_tokens: self.num_cached_tokens,
            num_new_tokens: self.num_new_tokens,
            block_table: slice_to_vec(self.block_table.as_slice()),
            temperature: self.temperature,
            max_tokens: self.max_tokens,
            ignore_eos: self.ignore_eos,
        }
    }
}

/// The sequence that a request for `tokens` starts as.
pub open spec fn fresh_sequence(
    tokens: Seq<u32>,
    params: SamplingParams,
    block_size: usize,
    seq_id: usize,
) -> SeqView {
    SeqView {
        block_size: block_size as nat,
        seq_id,
        status: SequenceStatus::Waiting,
        tokens,
        last_token: tokens.last(),
        num_tokens: tokens.len(),
        num_prompt: tokens.len(),
        num_cached: 0,
        num_new: 0,
        table: Seq::empty(),
        temperature: params.temperature,
        max_tokens: params.max_tokens,
        ignore_eos: params.ignore_eos,
    }
}

impl Sequence {
    /// A sequence cut into blocks of [`BLOCK_SIZE`] tokens.
    pub fn new(
        token_ids: Vec<u32>,
        sampling_params: SamplingParams,
        counter: &mut SeqCounter,
    ) -> (seq: Self)
        requires
            token_ids@.len() > 0,
        ensures
            seq@ == fresh_sequence(token_ids@, sampling_params, BLOCK_SIZE, old(counter).next),
            final(counter).next == next_id(old(counter).next),
    {
        Self::with_block_size(token_ids, sampling_params, BLOCK_SIZE, counter)
    }

    pub fn with_block_size(
        token_ids: Vec<u32>,
        sampling_params: SamplingParams,
        block_size: usize,
        counter: &mut SeqCounter,
    ) -> (seq: Self)
        requires
            token_ids@.len() > 0,
        ensures
            seq@ == fresh_sequence(token_ids@, sampling_params, block_size, old(counter).next),
            seq@.wf(),
            final(counter).next == next_id(old(counter).next),
    {
        let last_token = token_ids[token_ids.len() - 1];
        let num_tokens = token_ids.len();
        let num_prompt_tokens = token_ids.len();
        Sequence {
            block_size,
            seq_id: counter.next_seq_id(),
            status: SequenceStatus::Waiting,
            token_ids,
            last_token,
            num_tokens,
            num_prompt_tokens,
            num_cached_tokens: 0,
            num_new_tokens: 0,
            block_table: Vec::new(),
            temperature: sampling_params.temperature,
            max_tokens: sampling_params.max_tokens,
            ignore_eos: sampling_params.ignore_eos,
        }
    }

    pub fn len(&self) -> (n: usize)
        ensures
            n == self@.num_tokens,
    {
        self.num_tokens
    }

    pub fn is_empty(&self) -> (empty: bool)
        ensures
            empty == (self@.num_tokens == 0),
    {
        self.num_tokens == 0
    }

    pub fn is_finished(&self) -> (finished: bool)
        ensures
            finished == (self@.status == SequenceStatus::Finished),
    {
        self.status == SequenceStatus::Finished
    }

    pub fn num_completion_tokens(&self) -> (n: usize)
        requires
            self@.num_prompt <= self@.num_tokens,
        ensures
            n == self@.num_tokens - self@.num_prompt,
    {
        self.num_tokens - self.num_prompt_tokens
    }

    pub fn num_context_tokens(&self) -> (n: usize)
        requires
            self@.context() <= usize::MAX,
        ensures
            n == self@.context(),
    {
        self.num_cached_tokens + self.num_new_tokens
    }

    pub fn prompt_token_ids(&self) -> (ids: &[u32])
        requires
            self@.num_prompt <= self@.tokens.len(),
        ensures
            ids@ == self@.tokens.subrange(0, self@.num_prompt as int),
    {
        slice_subrange(self.token_ids.as_slice(), 0, self.num_prompt_tokens)
    }

    pub fn completion_token_ids(&self) -> (ids: &[u32])
        requires
            self@.num_prompt <= self@.tokens.len(),
        ensures
            ids@ == self@.tokens.subrange(self@.num_prompt as int, self@.tokens.len() as int),
    {
        slice_subrange(self.token_ids.as_slice(), self.num_prompt_tokens, self.token_ids.len())
    }

    pub fn slice_tokens(&self, start: usize, end: usize) -> (ids: &[u32])
        requires
            start <= end <= self@.tokens.len(),
        ensures
            ids@ == self@.tokens.subrange(start as int, end as int),
    {
        slice_subrange(self.token_ids.as_slice(), start, end)
    }

    pub fn num_cached_blocks(&self) -> (n: usize)
        requires
            self@.block_size > 0,
        ensures
            n == self@.num_cached / self@.block_size,
    {
        self.num_cached_tokens / self.block_size
    }

    /// The number of blocks in the block table, which must be the number that the tokens
    /// in context need.
    pub fn num_current_blocks(&self) -> (n: usize)
        requires
            self@.block_size > 0,
            self@.context() + self@.block_size <= usize::MAX,
            self@.table.len() == ceil_div(self@.context() as int, self@.block_size as int),
        ensures
            n == self@.table.len(),
            n == ceil_div(self@.context() as int, self@.block_size as int),
    {
        self.block_table.len()
    }

    /// The number of blocks that the whole sequence needs, however many it has been given.
    pub fn num_blocks(&self) -> (n: usize)
        requires
            self@.block_size > 0,
            self@.num_tokens + self@.block_size <= usize::MAX,
        ensures
            n == self@.num_blocks(),
    {
        (self.num_tokens + self.block_size - 1) / self.block_size
    }

    pub fn last_block_num_tokens(&self) -> (n: usize)
        requires
            self@.block_size > 0,
            self@.num_tokens > 0,
            self@.num_tokens + self@.block_size <= usize::MAX,
        ensures
            n == self@.num_tokens - (self@.num_blocks() - 1) * self@.block_size,
            1 <= n <= self@.block_size,
    {
        let ghost last = self@.num_blocks() - 1;
        proof {
            assert(last >= 0) by (nonlinear_arith)
                requires
                    last == (self.num_tokens + self.block_size - 1) / (self.block_size as int) - 1,
                    self.num_tokens > 0,
                    self.block_size > 0,
            ;
            lemma_block_bounds(self.num_tokens as int, self.block_size as int, last);
        }
        self.num_tokens - (self.num_blocks() - 1) * self.block_size
    }

    pub fn block(&self, i: usize) -> (ids: &[u32])
        requires
            self@.num_tokens == self@.tokens.len(),
            self@.block_size > 0,
            self@.num_tokens + self@.block_size <= usize::MAX,
            i < self@.num_blocks(),
        ensures
            ids@ == self@.block(i as int),
    {
        proof {
            lemma_block_bounds(self.num_tokens as int, self.block_size as int, i as int);
        }
        let start = i * self.block_size;
        let full_end = (i + 1) * self.block_size;
        let end = if full_end <= self.token_ids.len() {
            full_end
        } else {
            self.token_ids.len()
        };
        slice_subrange(self.token_ids.as_slice(), start, end)
    }

    pub fn append_token(&mut self, token_id: u32)
        requires
            old(self)@.num_tokens == old(self)@.tokens.len(),
            old(self)@.num_tokens < usize::MAX,
        ensures
            final(self)@ == old(self)@.appended(token_id),
    {
        self.token_ids.push(token_id);
        self.last_token = token_id;
        self.num_tokens = self.num_tokens + 1;
    }

    /// What a worker needs to go on generating: all but the block size, the id, the status,
    /// and the limits on generation.
    pub fn get_state(&self) -> (state: SequenceState)
        ensures
            state.describes(self@),
    {
        SequenceState {
            token_ids: slice_to_vec(self.token_ids.as_slice()),
            last_token: self.last_token,
            num_tokens: self.num_tokens,
            num_prompt_tokens: self.num_prompt_tokens,
            num_cached_tokens: self.num_cached_tokens,
            num_new_tokens: self.num_new_tokens,
            block_table: slice_to_vec(self.block_table.as_slice()),
            temperature: self.temperature,
        }
    }

    pub fn set_state(&mut self, state: SequenceState)
        ensures
            final(self)@ == state.applied_to(old(self)@),
    {
        self.token_ids = state.token_ids;
        self.last_token = state.last_token;
        self.num_tokens = state.num_tokens;
        self.num_prompt_tokens = state.num_prompt_tokens;
        self.num_cached_tokens = state.num_cached_tokens;
        self.num_new_tokens = state.num_new_tokens;
        self.block_table = state.block_table;
        self.temperature = state.temperature;
    }

    /// Token `key` of the sequence.
    pub fn index(&self, key: usize) -> (token: &u32)
        requires
            key < self@.tokens.len(),
        ensures
            *token == self@.tokens[key as int],
    {
        &self.token_ids[key]
    }
}

pub struct SequenceState {
    pub token_ids: Vec<u32>,
    pub last_token: u32,
    pub num_tokens: usize,
    pub num_prompt_tokens: usize,
    pub num_cached_tokens: usize,
    pub num_new_tokens: usize,
    pub block_table: Vec<usize>,
    pub temperature: u64,
}

impl SequenceState {
    /// The state is that of `seq`.
    pub open spec fn describes(&self, seq: SeqView) -> bool {
        &&& self.token_ids@ == seq.tokens
        &&& self.last_token == seq.last_token
        &&& self.num_tokens == seq.num_tokens
        &&& self.num_prompt_tokens == seq.num_prompt
        &&& self.num_cached_tokens == seq.num_cached
        &&& self.num_new_tokens == seq.num_new
        &&& self.block_table@ == seq.table
        &&& self.temperature == seq.temperature
    }

    /// `seq` with this state in place of its own.
    pub open spec fn applied_to(&self, seq: SeqView) -> SeqView {
        SeqView {
            tokens: self.token_ids@,
            last_token: self.last_token,
            num_tokens: self.num_tokens as nat,
            num_prompt: self.num_prompt_tokens as nat,
            num_cached: self.num_cached_tokens as nat,
            num_new: self.num_new_tokens as nat,
            table: self.block_table@,
            temperature: self.temperature,
            ..seq
        }
    }
}

/// A sequence given the state of another becomes it, up to the block size, the id, the
/// status and the limits on generation, which it keeps.
pub proof fn state_round_trip(state: SequenceState, from: SeqView, to: SeqView)
    requires
        state.describes(from),
    ensures
        state.describes(state.applied_to(to)),
        state.applied_to(to) == (SeqView {
            block_size: to.block_size,
            seq_id: to.seq_id,
            status: to.status,
            max_tokens: to.max_tokens,
            ignore_eos: to.ignore_eos,
            ..from
        }),
        state.applied_to(from) == from,
{
}

/// The blocks of a sequence hold its tokens in order: token `p` is in block `p / block_size`,
/// at place `p % block_size`.
pub proof fn blocks_hold_the_tokens(seq: SeqView, p: int)
    requires
        seq.block_size > 0,
        seq.num_tokens == seq.tokens.len(),
        0 <= p < seq.num_tokens,
    ensures
        0 <= p / (seq.block_size as int) < seq.num_blocks(),
        p % (seq.block_size as int) < seq.block(p / (seq.block_size as int)).len(),
        seq.block(p / (seq.block_size as int))[p % (seq.block_size as int)] == seq.tokens[p],
{
    let size = seq.block_size as int;
    let i = p / size;
    let n = seq.num_blocks();
    assert(0 <= i && i * size <= p < i * size + size && p == i * size + p % size) by (nonlinear_arith)
        requires
            size > 0,
            p >= 0,
            i == p / size,
    ;
    assert(i < n) by (nonlinear_arith)
        requires
            size > 0,
            n == (seq.num_tokens + size - 1) / size,
            i * size <= p < seq.num_tokens,
    ;
    lemma_block_bounds(seq.num_tokens as int, size, i);
}

} // verus!
