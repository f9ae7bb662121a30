//! The blocks of the KV cache: which are free, who shares them, and which hold tokens that
//! a later sequence with the same prefix can reuse.
use crate::engine::block_proofs;
use crate::engine::sequence;
use crate::engine::sequence::{SeqView, Sequence};
use std::collections::HashMap;
use std::collections::HashSet;
use std::collections::VecDeque;
use vstd::bytes::{spec_u64_to_le_bytes, u64_to_le_bytes};
use vstd::prelude::*;
use vstd::slice::slice_to_vec;

verus! {

broadcast use {vstd::std_specs::hash::group_hash_axioms, vstd::std_specs::vecdeque::group_vec_dequeue_axioms};

/// The hash of a block that has none.
pub const NO_HASH: i64 = -1;

/// What `xxhash_rust::xxh64::xxh64` returns for these bytes and this seed.
pub uninterp spec fn xxh64_digest(input: Seq<u8>, seed: u64) -> u64;

/// Calls `xxhash_rust::xxh64::xxh64`. The digest is a function of the bytes and the seed.
#[verifier::external_body]
fn xxh64(input: &[u8], seed: u64) -> (digest: u64)
    ensures
        digest == xxh64_digest(input@, seed),
{
    xxhash_rust::xxh64::xxh64(input, seed)
}

/// The eight bytes of `x` in two's complement, least significant first.
pub open spec fn le_bytes(x: i64) -> Seq<u8> {
    spec_u64_to_le_bytes(x as u64)
}

/// The bytes of `tokens`, one after the other.
pub open spec fn token_bytes(tokens: Seq<i64>) -> Seq<u8>
    decreases tokens.len(),
{
    if tokens.len() == 0 {
        Seq::empty()
    } else {
        token_bytes(tokens.drop_last()) + le_bytes(tokens.last())
    }
}

/// The hash of `tokens` behind a block whose own hash is `prefix`; `-1` stands for no block.
pub open spec fn hash_after(tokens: Seq<i64>, prefix: i64) -> i64 {
    let head = if prefix != NO_HASH {
        le_bytes(prefix)
    } else {
        Seq::empty()
    };
    xxh64_digest(head + token_bytes(tokens), 0) as i64
}

/// The tokens as the hash takes them.
pub open spec fn widen(tokens: Seq<u32>) -> Seq<i64> {
    Seq::new(tokens.len(), |i: int| tokens[i] as i64)
}

/// The hash that a block of `tokens` gets behind `prefix`: a block that is not full has none.
pub open spec fn block_hash(tokens: Seq<u32>, size: nat, prefix: i64) -> i64 {
    if tokens.len() == size {
        hash_after(widen(tokens), prefix)
    } else {
        NO_HASH
    }
}

/// The hash of block `i` of `tokens`, which goes over all the blocks up to it.
pub open spec fn chain_hash(tokens: Seq<u32>, size: nat, i: int) -> i64
    decreases i + 1,
{
    if i < 0 {
        NO_HASH
    } else {
        block_hash(sequence::block_of(tokens, size as int, i), size, chain_hash(tokens, size, i - 1))
    }
}

pub struct Block {
    pub block_id: usize,
    pub ref_count: usize,
    pub hash: i64,
    pub token_ids: Vec<u32>,
}

#[verifier::ext_equal]
pub struct BlockView {
    pub block_id: usize,
    pub ref_count: nat,
    pub hash: i64,
    pub tokens: Seq<u32>,
}

impl View for Block {
    type V = BlockView;

    open spec fn view(&self) -> BlockView {
        BlockView {
            block_id: self.block_id,
            ref_count: self.ref_count as nat,
            hash: self.hash,
            tokens: self.token_ids@,
        }
    }
}

impl Block {
    /// A block that nobody holds and that has no hash.
    pub fn new(block_id: usize) -> (block: Self)
        ensures
            block@ == (BlockView { block_id, ref_count: 0, hash: NO_HASH, tokens: Seq::empty() }),
    {
        Block { block_id, ref_count: 0, hash: NO_HASH, token_ids: Vec::new() }
    }

    pub fn update(&mut self, hash: i64, token_ids: Vec<u32>)
        ensures
            final(self)@ == (BlockView { hash, tokens: token_ids@, ..old(self)@ }),
    {
        self.hash = hash;
        self.token_ids = token_ids;
    }

    /// The block as its first holder gets it.
    pub fn reset(&mut self)
        ensures
            final(self)@ == old(self)@.taken(),
    {
        self.ref_count = 1;
        self.hash = NO_HASH;
        self.token_ids = Vec::new();
    }
}

impl BlockView {
    pub open spec fn taken(self) -> BlockView {
        BlockView { ref_count: 1, hash: NO_HASH, tokens: Seq::empty(), ..self }
    }
}

pub struct BlockManager {
    pub block_size: usize,
    pub blocks: Vec<Block>,
    pub hash_to_block_id: HashMap<i64, usize>,
    pub free_block_ids: VecDeque<usize>,
    pub used_block_ids: HashSet<usize>,
}

/// What a [`BlockManager`] holds: the blocks, for each known hash the block that has it, the
/// free blocks in the order in which they will be given out, and the blocks in use.
#[verifier::ext_equal]
pub struct BmView {
    pub block_size: nat,
    pub blocks: Seq<BlockView>,
    pub cached: Map<i64, usize>,
    pub free: Seq<usize>,
    pub used: Set<usize>,
}

impl View for BlockManager {
    type V = BmView;

    open spec fn view(&self) -> BmView {
        BmView {
            block_size: self.block_size as nat,
            blocks: Seq::new(self.blocks@.len(), |i: int| self.blocks@[i]@),
            cached: self.hash_to_block_id@,
            free: self.free_block_ids@,
            used: self.used_block_ids@,
        }
    }
}

impl BmView {
    /// Every block is either free or in use, never both; it is free when nobody holds it;
    /// and a known hash leads to the block that has it.
    pub open spec fn wf(self) -> bool {
        &&& forall|i: int| 0 <= i < self.blocks.len() ==> (#[trigger] self.blocks[i]).block_id == i
        &&& self.free.no_duplicates()
        &&& forall|b: usize| #[trigger]
            self.free.contains(b) <==> (b < self.blocks.len() && self.blocks[b as int].ref_count
                == 0)
        &&& forall|b: usize| #[trigger]
            self.used.contains(b) <==> (b < self.blocks.len() && self.blocks[b as int].ref_count
                > 0)
        &&& forall|h: i64| #[trigger]
            self.cached.contains_key(h) ==> self.cached[h] < self.blocks.len()
                && self.blocks[self.cached[h] as int].hash == h
    }

    /// All blocks are free, in order, and nothing is in the cache.
    pub open spec fn is_new(self) -> bool {
        &&& self.blocks =~= Seq::new(
            self.blocks.len(),
            |i: int|
                BlockView {
                    block_id: i as usize,
                    ref_count: 0,
                    hash: NO_HASH,
                    tokens: Seq::empty(),
                },
        )
        &&& self.cached =~= Map::<i64, usize>::empty()
        &&& self.free =~= Seq::new(self.blocks.len(), |i: int| i as usize)
        &&& self.used =~= Set::<usize>::empty()
    }

    /// Block `b` has not been filled: it has no hash and no hash leads to it.
    pub open spec fn is_open(self, b: usize) -> bool {
        &&& self.blocks[b as int].hash == NO_HASH
        &&& !(self.cached.contains_key(NO_HASH) && self.cached[NO_HASH] == b)
    }

    /// The block that can stand for `tokens` with hash `h`, where there is one.
    pub open spec fn lookup(self, h: i64, tokens: Seq<u32>) -> Option<usize> {
        if self.cached.contains_key(h) && self.blocks[self.cached[h] as int].tokens == tokens {
            Some(self.cached[h])
        } else {
            None
        }
    }

    /// Free block `b` goes to its first holder; the hash that it may have is forgotten.
    pub open spec fn take(self, b: usize) -> BmView {
        let block = self.blocks[b as int];
        BmView {
            blocks: self.blocks.update(b as int, block.taken()),
            cached: if self.cached.contains_key(block.hash) && self.cached[block.hash] == b {
                self.cached.remove(block.hash)
            } else {
                self.cached
            },
            free: self.free.remove_value(b),
            used: self.used.insert(b),
            ..self
        }
    }

    /// One more sequence holds block `b`, which is taken out of the free blocks when it is
    /// the first. The hash and the tokens of the block stay.
    pub open spec fn hold(self, b: usize) -> BmView {
        let block = self.blocks[b as int];
        let blocks = self.blocks.update(
            b as int,
            BlockView { ref_count: block.ref_count + 1, ..block },
        );
        if block.ref_count == 0 {
            BmView { blocks, used: self.used.insert(b), free: self.free.remove_value(b), ..self }
        } else {
            BmView { blocks, ..self }
        }
    }

    /// The blocks of `table` are held once more, the first one first.
    pub open spec fn hold_all(self, table: Seq<usize>) -> BmView
        decreases table.len(),
    {
        if table.len() == 0 {
            self
        } else {
            self.hold_all(table.drop_last()).hold(table.last())
        }
    }

    /// Block `b` now holds `tokens`, under hash `h`.
    pub open spec fn record(self, b: usize, h: i64, tokens: Seq<u32>) -> BmView {
        BmView {
            blocks: self.blocks.update(
                b as int,
                BlockView { hash: h, tokens, ..self.blocks[b as int] },
            ),
            cached: self.cached.insert(h, b),
            ..self
        }
    }

    /// One sequence less holds block `b`, which becomes free when it was the last. Its hash
    /// and tokens stay, so that it can still be found.
    pub open spec fn drop_one(self, b: usize) -> BmView {
        let block = self.blocks[b as int];
        let count = (block.ref_count - 1) as nat;
        let blocks = self.blocks.update(b as int, BlockView { ref_count: count, ..block });
        if count == 0 {
            BmView { blocks, used: self.used.remove(b), free: self.free.push(b), ..self }
        } else {
            BmView { blocks, ..self }
        }
    }

    /// The blocks of `table` are given up, the last one first.
    pub open spec fn release(self, table: Seq<usize>) -> BmView
        decreases table.len(),
    {
        if table.len() == 0 {
            self
        } else {
            self.drop_one(table.last()).release(table.drop_last())
        }
    }

    /// Every block of `table` is held at least as often as it stands there.
    pub open spec fn can_release(self, table: Seq<usize>) -> bool {
        &&& forall|i: int| 0 <= i < table.len() ==> (#[trigger] table[i]) < self.blocks.len()
        &&& forall|b: int|
            0 <= b < self.blocks.len() ==> count_of(table, b) <= (
            #[trigger] self.blocks[b]).ref_count
    }

    /// Whether the free blocks suffice for `new` more tokens behind `cached` tokens that are
    /// in blocks already.
    pub open spec fn can_append(self, cached: nat, new: nat) -> bool {
        let size = self.block_size as int;
        sequence::ceil_div((cached + new) as int, size) - sequence::ceil_div(cached as int, size)
            <= self.free.len()
    }

    /// The block that already holds block `i` of `seq`. The last block of a sequence is
    /// always computed anew.
    pub open spec fn hit(self, seq: SeqView, i: int) -> Option<usize> {
        if 0 <= i < seq.num_blocks() - 1 {
            self.lookup(chain_hash(seq.tokens, self.block_size, i), seq.block(i))
        } else {
            None
        }
    }

    /// How many blocks of `seq`, from block `i` on, are there without a gap.
    pub open spec fn hits_from(self, seq: SeqView, i: int) -> nat
        decreases seq.num_blocks() - i,
    {
        if self.hit(seq, i) is Some {
            1 + self.hits_from(seq, i + 1)
        } else {
            0
        }
    }

    /// How many leading blocks of `seq` are there already.
    pub open spec fn hits(self, seq: SeqView) -> nat {
        self.hits_from(seq, 0)
    }

    /// The blocks that hold the leading blocks of `seq` already.
    pub open spec fn hit_table(self, seq: SeqView) -> Seq<usize> {
        Seq::new(self.hits(seq), |i: int| self.hit(seq, i)->0)
    }

    /// The tokens of `seq` that are there in blocks in use, those that are there in free
    /// blocks, and those still to be computed.
    pub open spec fn token_layout(self, seq: SeqView) -> (int, int, int) {
        let table = self.hit_table(seq);
        let in_used = members(table, self.used) as int;
        (
            in_used * self.block_size,
            (table.len() - in_used) * self.block_size,
            seq.num_tokens - table.len() * self.block_size,
        )
    }

    /// The first free block is taken, and filled with `tokens` if they have a hash.
    pub open spec fn fresh_block(self, h: i64, tokens: Seq<u32>) -> BmView {
        let b = self.free[0];
        if h != NO_HASH {
            self.take(b).record(b, h, tokens)
        } else {
            self.take(b)
        }
    }

    /// Fresh blocks for the tokens in context, from block `i` on, behind those of `table`.
    /// A block is filled when it is full; one that the context ends in stays open.
    pub open spec fn fill(self, seq: SeqView, i: int, table: Seq<usize>) -> (
        BmView,
        Seq<usize>,
    )
        decreases seq.context_blocks() - i,
    {
        if i >= seq.context_blocks() {
            (self, table)
        } else {
            let piece = seq.piece(i);
            let h = if piece.len() == self.block_size {
                chain_hash(seq.tokens, self.block_size, i)
            } else {
                NO_HASH
            };
            self.fresh_block(h, piece).fill(seq, i + 1, table.push(self.free[0]))
        }
    }

    /// `seq` with blocks for its cached and its new tokens, and the blocks after that.
    pub open spec fn allocated(self, seq: SeqView) -> (BmView, SeqView) {
        let table = self.hit_table(seq);
        let cached = SeqView { num_cached: table.len() * self.block_size, table, ..seq };
        let (bm, table) = self.hold_all(table).fill(cached, table.len() as int, table);
        (bm, SeqView { table, ..cached })
    }

    /// Whether the free blocks suffice for the new tokens of `seq` once it holds the blocks
    /// that it finds in the cache.
    pub open spec fn can_hold(self, seq: SeqView) -> bool {
        self.hold_all(self.hit_table(seq)).free.len() >= sequence::ceil_div(
            seq.num_new as int,
            self.block_size as int,
        )
    }

    /// Block `i` of the tokens in context, in the block that `table` gives it or in a fresh
    /// one. It is filled when it is full.
    pub open spec fn append_block(self, seq: SeqView, i: int, table: Seq<usize>) -> (
        BmView,
        Seq<usize>,
    ) {
        let piece = seq.piece(i);
        let (bm, next) = if i < table.len() {
            (self, table)
        } else {
            (self.take(self.free[0]), table.push(self.free[0]))
        };
        let prefix = if i > 0 {
            self.blocks[table[i - 1] as int].hash
        } else {
            NO_HASH
        };
        if piece.len() == self.block_size {
            (bm.record(next[i], hash_after(widen(piece), prefix), piece), next)
        } else {
            (bm, next)
        }
    }

    /// The blocks of the tokens in context, from block `i` on.
    pub open spec fn append_from(self, seq: SeqView, i: int, table: Seq<usize>) -> (
        BmView,
        Seq<usize>,
    )
        decreases seq.context_blocks() - i,
    {
        if i >= seq.context_blocks() {
            (self, table)
        } else {
            let (bm, next) = self.append_block(seq, i, table);
            bm.append_from(seq, i + 1, next)
        }
    }

    /// `seq` with blocks for its new tokens, and the blocks after that.
    pub open spec fn appended(self, seq: SeqView) -> (BmView, SeqView) {
        let (bm, table) = self.append_from(
            seq,
            seq.num_cached as int / self.block_size as int,
            seq.table,
        );
        (bm, SeqView { table, ..seq })
    }

    /// `seq` is in the blocks that its cached tokens need, and the block that is not full,
    /// if there is one, is open.
    pub open spec fn can_extend(self, seq: SeqView) -> bool {
        let size = self.block_size as int;
        &&& seq.table.len() == sequence::ceil_div(seq.num_cached as int, size)
        &&& forall|i: int|
            0 <= i < seq.table.len() ==> (#[trigger] seq.table[i]) < self.blocks.len()
        &&& seq.num_cached as int % size != 0 ==> self.is_open(seq.table.last())
    }
}

/// How many entries of `table` are in `set`.
pub open spec fn members(table: Seq<usize>, set: Set<usize>) -> nat
    decreases table.len(),
{
    if table.len() == 0 {
        0
    } else {
        members(table.drop_last(), set) + if set.contains(table.last()) {
            1nat
        } else {
            0
        }
    }
}

/// How many times `b` stands in `table`.
pub open spec fn count_of(table: Seq<usize>, b: int) -> nat
    decreases table.len(),
{
    if table.len() == 0 {
        0
    } else {
        count_of(table.drop_last(), b) + if table.last() == b {
            1nat
        } else {
            0
        }
    }
}

/// Whether two runs of tokens are the same.
pub fn same_tokens(a: &[u32], b: &[u32]) -> (same: bool)
    ensures
        same == (a@ == b@),
{
    if a.len() != b.len() {
        return false;
    }
    let mut i: usize = 0;
    while i < a.len()
        invariant
            a@.len() == b@.len(),
            i <= a@.len(),
            forall|j: int| 0 <= j < i ==> a@[j] == b@[j],
        decreases a@.len() - i,
    {
        if a[i] != b[i] {
            return false;
        }
        i = i + 1;
    }
    assert(a@ =~= b@);
    true
}

/// The tokens as the hash takes them.
fn widen_tokens(tokens: &[u32]) -> (wide: Vec<i64>)
    ensures
        wide@ == widen(tokens@),
{
    let mut wide: Vec<i64> = Vec::new();
    let mut i: usize = 0;
    while i < tokens.len()
        invariant
            i <= tokens@.len(),
            wide@ == widen(tokens@).take(i as int),
        decreases tokens@.len() - i,
    {
        wide.push(tokens[i] as i64);
        i = i + 1;
    }
    wide
}

impl BlockManager {
    /// A manager of `num_blocks` blocks, all free, in order.
    pub fn new(num_blocks: usize, block_size: usize) -> (manager: Self)
        ensures
            manager@.wf(),
            manager@.is_new(),
            manager@.block_size == block_size,
            manager@.blocks.len() == num_blocks,
    {
        let mut blocks: Vec<Block> = Vec::new();
        let mut free_block_ids: VecDeque<usize> = VecDeque::new();
        let mut i: usize = 0;
        while i < num_blocks
            invariant
                i <= num_blocks,
                blocks@.len() == i,
                forall|j: int|
                    0 <= j < i ==> (#[trigger] blocks@[j])@ == (BlockView {
                        block_id: j as usize,
                        ref_count: 0,
                        hash: NO_HASH,
                        tokens: Seq::empty(),
                    }),
                free_block_ids@ == Seq::new(i as nat, |j: int| j as usize),
            decreases num_blocks - i,
        {
            blocks.push(Block::new(i));
            free_block_ids.push_back(i);
            i = i + 1;
        }
        let manager = BlockManager {
            block_size,
            blocks,
            hash_to_block_id: HashMap::new(),
            free_block_ids,
            used_block_ids: HashSet::new(),
        };
        proof {
            assert forall|b: usize| b < num_blocks implies #[trigger] manager@.free.contains(b) by {
                assert(manager@.free[b as int] == b);
            }
        }
        manager
    }

    /// The hash of `token_ids` behind a block with hash `prefix`; `-1` stands for no block.
    pub fn compute_hash(token_ids: &[i64], prefix: i64) -> (hash: i64)
        ensures
            hash == hash_after(token_ids@, prefix),
    {
        let mut bytes: Vec<u8> = Vec::new();
        if prefix != NO_HASH {
            let mut head = u64_to_le_bytes(prefix as u64);
            bytes.append(&mut head);
        }
        let ghost head = bytes@;
        let mut i: usize = 0;
        while i < token_ids.len()
            invariant
                i <= token_ids@.len(),
                bytes@ == head + token_bytes(token_ids@.take(i as int)),
            decreases token_ids@.len() - i,
        {
            let mut word = u64_to_le_bytes(token_ids[i] as u64);
            bytes.append(&mut word);
            proof {
                let next = token_ids@.take(i + 1);
                assert(next.drop_last() =~= token_ids@.take(i as int));
                assert(next.last() == token_ids@[i as int]);
            }
            i = i + 1;
        }
        assert(token_ids@.take(i as int) =~= token_ids@);
        xxh64(bytes.as_slice(), 0) as i64
    }

    /// The hash of a block of `tokens` behind `prefix`: a block that is not full has none.
    fn hash_of_block(&self, tokens: &[u32], prefix: i64) -> (hash: i64)
        ensures
            hash == block_hash(tokens@, self@.block_size, prefix),
    {
        if tokens.len() == self.block_size {
            let wide = widen_tokens(tokens);
            Self::compute_hash(wide.as_slice(), prefix)
        } else {
            NO_HASH
        }
    }

    /// The block that can stand for `token_ids` with hash `hash`, where there is one: the
    /// block that the hash leads to, if it holds the same tokens.
    pub fn cached_block(&self, hash: i64, token_ids: &[u32]) -> (block: Option<usize>)
        requires
            self@.wf(),
        ensures
            block == self@.lookup(hash, token_ids@),
    {
        match self.hash_to_block_id.get(&hash) {
            Some(id) => {
                assert(self@.cached.contains_key(hash));
                assert(self@.blocks[*id as int] == self.blocks@[*id as int]@);
                if same_tokens(self.blocks[*id].token_ids.as_slice(), token_ids) {
                    Some(*id)
                } else {
                    None
                }
            },
            None => None,
        }
    }

    /// Fills block `block_id` with `token_ids`, to be found under `hash`.
    pub fn record_block(&mut self, block_id: usize, hash: i64, token_ids: Vec<u32>)
        requires
            block_id < old(self)@.blocks.len(),
        ensures
            final(self)@ == old(self)@.record(block_id, hash, token_ids@),
    {
        let ghost before = self@;
        self.blocks[block_id].update(hash, token_ids);
        self.hash_to_block_id.insert(hash, block_id);
        assert(self@.blocks =~= before.record(block_id, hash, token_ids@).blocks);
    }

    /// Takes free block `block_id` for its first holder.
    fn allocate_block(&mut self, block_id: usize)
        requires
            old(self)@.wf(),
            old(self)@.free.contains(block_id),
        ensures
            final(self)@ == old(self)@.take(block_id),
            final(self)@.wf(),
    {
        proof {
            block_proofs::lemma_take(self@, block_id);
            block_proofs::lemma_remove_value(self@.free, block_id);
        }
        let ghost before = self@;
        let hash = self.blocks[block_id].hash;
        let mapped = match self.hash_to_block_id.get(&hash) {
            Some(id) => *id == block_id,
            None => false,
        };
        if mapped {
            self.hash_to_block_id.remove(&hash);
        }
        self.blocks[block_id].reset();
        let num_free = self.free_block_ids.len();
        let mut pos: usize = 0;
        while self.free_block_ids[pos] != block_id
            invariant
                pos < num_free,
                num_free == self.free_block_ids@.len(),
                self.free_block_ids@ == before.free,
                before.free.contains(block_id),
                forall|i: int| 0 <= i < pos ==> before.free[i] != block_id,
            decreases num_free - pos,
        {
            proof {
                let i = choose|i: int| 0 <= i < before.free.len() && before.free[i] == block_id;
                assert(pos < i);
            }
            pos = pos + 1;
        }
        self.free_block_ids.remove(pos);
        self.used_block_ids.insert(block_id);
        assert(self@.blocks =~= before.take(block_id).blocks);
        assert(self@.free == before.free.remove(pos as int));
    }

    /// Puts block `block_id`, which nobody holds any longer, behind the free blocks.
    fn deallocate_block(&mut self, block_id: usize)
        requires
            block_id < old(self)@.blocks.len(),
            old(self)@.blocks[block_id as int].ref_count == 0,
        ensures
            final(self)@ == (BmView {
                used: old(self)@.used.remove(block_id),
                free: old(self)@.free.push(block_id),
                ..old(self)@
            }),
    {
        self.used_block_ids.remove(&block_id);
        self.free_block_ids.push_back(block_id);
    }

    /// Whether there are free blocks for `num_tokens` tokens of a sequence that waits.
    pub fn can_allocate(&self, num_tokens: usize) -> (enough: bool)
        requires
            self@.block_size > 0,
            num_tokens + self@.block_size <= usize::MAX,
        ensures
            enough == (self@.free.len() >= sequence::ceil_div(
                num_tokens as int,
                self@.block_size as int,
            )),
    {
        self.free_block_ids.len() >= (num_tokens + self.block_size - 1) / self.block_size
    }

    /// How the tokens of a sequence that waits would be laid out: those already computed in
    /// blocks in use, those already computed in free blocks, and those to be computed.
    pub fn get_token_layout(&self, seq: &Sequence) -> (layout: (usize, usize, usize))
        requires
            self@.wf(),
            self@.block_size > 0,
            seq@.block_size == self@.block_size,
            seq@.wf(),
            seq@.num_tokens + seq@.block_size <= usize::MAX,
            seq@.table.len() == 0,
        ensures
            layout.0 == self@.token_layout(seq@).0,
            layout.1 == self@.token_layout(seq@).1,
            layout.2 == self@.token_layout(seq@).2,
    {
        let num_blocks = seq.num_blocks();
        let mut in_used: usize = 0;
        let mut in_free: usize = 0;
        let mut h: i64 = NO_HASH;
        let mut i: usize = 0;
        let ghost table = self@.hit_table(seq@);
        let ghost size = self@.block_size as int;
        let ghost mut used_blocks: nat = 0;
        proof {
            sequence::lemma_ceil_div(seq@.num_tokens as int, size);
            assert(table.take(0).len() == 0);
        }
        while i < num_blocks
            invariant_except_break
                h == chain_hash(seq@.tokens, self@.block_size, i - 1),
            invariant
                self@.wf(),
                self@.block_size > 0,
                size == self@.block_size,
                seq@.block_size == self@.block_size,
                seq@.wf(),
                seq@.num_tokens + seq@.block_size <= usize::MAX,
                num_blocks == seq@.num_blocks(),
                i < num_blocks,
                self@.hits(seq@) == i + self@.hits_from(seq@, i as int),
                table == self@.hit_table(seq@),
                used_blocks == members(table.take(i as int), self@.used),
                used_blocks <= i,
                in_used == used_blocks * size,
                in_free == (i - used_blocks) * size,
                in_used + in_free == i * size,
            ensures
                self@.hits(seq@) == i,
                i < num_blocks,
            decreases num_blocks - i,
        {
            let token_ids = seq.block(i);
            h = self.hash_of_block(token_ids, h);
            proof {
                sequence::lemma_block_bounds(seq@.num_tokens as int, size, i as int);
            }
            let found = self.cached_block(h, token_ids);
            if i == num_blocks - 1 {
                break;
            }
            match found {
                None => {
                    break;
                },
                Some(block_id) => {
                    proof {
                        assert(self@.hit(seq@, i as int) == Some(block_id));
                        assert(table[i as int] == block_id);
                        assert(table.take(i + 1).drop_last() =~= table.take(i as int));
                        assert((used_blocks + 1) * size == used_blocks * size + size)
                            by (nonlinear_arith);
                        assert((i + 1 - used_blocks) * size == (i - used_blocks) * size + size)
                            by (nonlinear_arith);
                    }
                    if self.used_block_ids.contains(&block_id) {
                        in_used = in_used + self.block_size;
                        proof {
                            used_blocks = used_blocks + 1;
                        }
                    } else {
                        in_free = in_free + self.block_size;
                    }
                    i = i + 1;
                },
            }
        }
        proof {
            sequence::lemma_block_bounds(seq@.num_tokens as int, size, i as int);
            assert(table.take(i as int) =~= table);
        }
        (in_used, in_free, seq.num_tokens - i * self.block_size)
    }

    /// Gives `seq` the blocks that already hold its leading blocks. The result is the hash
    /// of the first block that is not there.
    fn attach(&mut self, seq: &mut Sequence) -> (hash: i64)
        requires
            old(self)@.wf(),
            old(self)@.block_size > 0,
            old(seq)@.block_size == old(self)@.block_size,
            old(seq)@.wf(),
            old(seq)@.num_tokens + old(seq)@.block_size <= usize::MAX,
            old(seq)@.table.len() == 0,
            old(seq)@.num_cached == 0,
            forall|b: int|
                0 <= b < old(self)@.blocks.len() ==> (#[trigger] old(self)@.blocks[b]).ref_count
                    + old(self)@.hits(old(seq)@) <= usize::MAX,
        ensures
            final(self)@ == old(self)@.hold_all(old(self)@.hit_table(old(seq)@)),
            final(self)@.wf(),
            final(seq)@ == (SeqView {
                num_cached: old(self)@.hits(old(seq)@) * old(self)@.block_size,
                table: old(self)@.hit_table(old(seq)@),
                ..old(seq)@
            }),
            hash == chain_hash(
                old(seq)@.tokens,
                old(self)@.block_size,
                old(self)@.hits(old(seq)@) as int,
            ),
            old(self)@.hits(old(seq)@) < old(seq)@.num_blocks(),
    {
        let num_blocks = seq.num_blocks();
        let mut h: i64 = NO_HASH;
        let mut i: usize = 0;
        let ghost bm = self@;
        let ghost seq0 = seq@;
        let ghost table = bm.hit_table(seq0);
        let ghost size = bm.block_size as int;
        proof {
            sequence::lemma_ceil_div(seq0.num_tokens as int, size);
            assert(table.take(0) =~= Seq::<usize>::empty());
            assert(seq0.table =~= table.take(0));
            block_proofs::lemma_hit_table(bm, seq0);
        }
        while i < num_blocks
            invariant_except_break
                h == chain_hash(seq0.tokens, bm.block_size, i - 1),
            invariant
                bm.wf(),
                bm.block_size > 0,
                size == bm.block_size,
                seq0.block_size == bm.block_size,
                seq0.wf(),
                seq0.num_tokens + seq0.block_size <= usize::MAX,
                num_blocks == seq0.num_blocks(),
                table == bm.hit_table(seq0),
                forall|j: int| 0 <= j < table.len() ==> (#[trigger] table[j]) < bm.blocks.len(),
                forall|b: int|
                    0 <= b < bm.blocks.len() ==> (#[trigger] bm.blocks[b]).ref_count + table.len()
                        <= usize::MAX,
                i < num_blocks,
                bm.hits(seq0) == i + bm.hits_from(seq0, i as int),
                self@ == bm.hold_all(table.take(i as int)),
                self@.wf(),
                seq@ == (SeqView {
                    num_cached: (i * size) as nat,
                    table: table.take(i as int),
                    ..seq0
                }),
            ensures
                bm.hits(seq0) == i,
                h == chain_hash(seq0.tokens, bm.block_size, i as int),
            decreases num_blocks - i,
        {
            let token_ids = slice_to_vec(seq.block(i));
            h = self.hash_of_block(token_ids.as_slice(), h);
            proof {
                sequence::lemma_block_bounds(seq0.num_tokens as int, size, i as int);
                block_proofs::lemma_hold_all(bm, table.take(i as int));
                assert(self@.lookup(h, token_ids@) == bm.lookup(h, token_ids@));
            }
            let found = self.cached_block(h, token_ids.as_slice());
            if i == num_blocks - 1 {
                break;
            }
            match found {
                None => {
                    break;
                },
                Some(block_id) => {
                    let ghost before = self@;
                    proof {
                        assert(bm.hit(seq0, i as int) == Some(block_id));
                        assert(table[i as int] == block_id);
                        assert(table.take(i + 1).drop_last() =~= table.take(i as int));
                        assert(table.take(i + 1).last() == block_id);
                        assert(table.take(i as int).push(block_id) =~= table.take(i + 1));
                        block_proofs::lemma_hold_is_record(before, block_id, h, token_ids@);
                        block_proofs::lemma_hold(before, block_id);
                        block_proofs::lemma_hold_all_counts(
                            bm,
                            table.take(i as int),
                            block_id as int,
                        );
                        assert(bm.blocks[block_id as int].ref_count + table.len() <= usize::MAX);
                        assert((i + 1) * size == i * size + size) by (nonlinear_arith);
                    }
                    seq.num_cached_tokens = seq.num_cached_tokens + self.block_size;
                    if self.used_block_ids.contains(&block_id) {
                        self.blocks[block_id].ref_count = self.blocks[block_id].ref_count + 1;
                        assert(self@.blocks =~= before.hold(block_id).blocks);
                    } else {
                        assert(before.free.contains(block_id));
                        self.allocate_block(block_id);
                    }
                    self.record_block(block_id, h, token_ids);
                    seq.block_table.push(block_id);
                    assert(self@ == before.hold(block_id));
                    i = i + 1;
                },
            }
        }
        proof {
            assert(table.take(i as int) =~= table);
        }
        h
    }

    /// Gives `seq` fresh blocks for its new tokens. `hash` is the hash of the first of the
    /// blocks of the sequence that it has no block for.
    fn fill(&mut self, seq: &mut Sequence, hash: i64)
        requires
            old(self)@.wf(),
            old(self)@.block_size > 0,
            old(seq)@.block_size == old(self)@.block_size,
            old(seq)@.wf(),
            old(seq)@.num_tokens + old(seq)@.block_size <= usize::MAX,
            old(seq)@.num_cached == old(seq)@.table.len() * old(self)@.block_size,
            old(seq)@.context() <= old(seq)@.num_tokens,
            old(self)@.free.len() >= sequence::ceil_div(
                old(seq)@.num_new as int,
                old(self)@.block_size as int,
            ),
            hash == chain_hash(
                old(seq)@.tokens,
                old(self)@.block_size,
                old(seq)@.table.len() as int,
            ),
        ensures
            final(self)@.wf(),
            ({
                let first = old(seq)@.table.len() as int;
                let (bm, table) = old(self)@.fill(old(seq)@, first, old(seq)@.table);
                final(self)@ == bm && final(seq)@ == (SeqView { table, ..old(seq)@ })
            }),
    {
        let ghost bm = self@;
        let ghost seq0 = seq@;
        let ghost first = seq@.table.len() as int;
        let ghost size = bm.block_size as int;
        let ghost mut n: int = first;
        let mut h = hash;
        let start = seq.num_cached_tokens;
        let end = seq.num_cached_tokens + seq.num_new_tokens;
        let mut i: usize = start;
        proof {
            sequence::lemma_shifted_blocks(seq0.num_new as int, size, first);
            sequence::lemma_ceil_div(seq0.num_new as int, size);
        }
        while i < end
            invariant
                self@.wf(),
                bm.block_size > 0,
                size == bm.block_size,
                self@.block_size == size,
                seq0.block_size == size,
                seq0.wf(),
                seq0.num_tokens + seq0.block_size <= usize::MAX,
                seq0.num_cached == first * size,
                seq0.context() <= seq0.num_tokens,
                start == seq0.num_cached,
                end == seq0.context(),
                0 <= first <= n,
                i == n * size,
                n <= seq0.context_blocks(),
                seq@ == (SeqView { table: seq@.table, ..seq0 }),
                self@.free.len() >= seq0.context_blocks() - n,
                n == first ==> h == chain_hash(seq0.tokens, bm.block_size, n),
                first < n && n < seq0.context_blocks() ==> h == chain_hash(
                    seq0.tokens,
                    bm.block_size,
                    n - 1,
                ),
                self@.fill(seq0, n, seq@.table) == bm.fill(seq0, first, seq0.table),
            decreases seq0.context_blocks() - n,
        {
            let chunk_end = if i + self.block_size <= end {
                i + self.block_size
            } else {
                end
            };
            let token_ids = slice_to_vec(seq.slice_tokens(i, chunk_end));
            proof {
                sequence::lemma_piece(seq0, n);
                assert(token_ids@ =~= seq0.piece(n));
            }
            if i != start {
                h = self.hash_of_block(token_ids.as_slice(), h);
            } else if token_ids.len() != self.block_size {
                h = NO_HASH;
            }
            let ghost before = self@;
            let block_id = self.free_block_ids[0];
            proof {
                assert(before.free.contains(block_id));
                block_proofs::lemma_take(before, block_id);
                if i == start {
                    assert(n == first) by (nonlinear_arith)
                        requires
                            n * size == first * size,
                            size > 0,
                    ;
                } else {
                    assert(n != first);
                }
                if h != NO_HASH {
                    block_proofs::lemma_record(before.take(block_id), block_id, h, token_ids@);
                }
            }
            self.allocate_block(block_id);
            if h != NO_HASH {
                self.record_block(block_id, h, token_ids);
            }
            assert(self@ == before.fresh_block(h, seq0.piece(n)));
            seq.block_table.push(block_id);
            proof {
                n = n + 1;
                assert(n * size == (n - 1) * size + size) by (nonlinear_arith);
            }
            i = i + self.block_size;
        }
        proof {
            if n < seq0.context_blocks() {
                sequence::lemma_block_bounds(seq0.context() as int, size, n);
            }
        }
    }

    /// Gives a sequence that waits its blocks: those that already hold its leading blocks,
    /// and fresh ones for its new tokens.
    pub fn allocate(&mut self, seq: &mut Sequence)
        requires
            old(self)@.wf(),
            old(self)@.block_size > 0,
            old(seq)@.block_size == old(self)@.block_size,
            old(seq)@.wf(),
            old(seq)@.num_tokens + old(seq)@.block_size <= usize::MAX,
            old(seq)@.table.len() == 0,
            old(seq)@.num_cached == 0,
            old(self)@.hits(old(seq)@) * old(self)@.block_size + old(seq)@.num_new
                <= old(seq)@.num_tokens,
            old(self)@.can_hold(old(seq)@),
            forall|b: int|
                0 <= b < old(self)@.blocks.len() ==> (#[trigger] old(self)@.blocks[b]).ref_count
                    + old(self)@.hits(old(seq)@) <= usize::MAX,
        ensures
            final(self)@.wf(),
            final(self)@ == old(self)@.allocated(old(seq)@).0,
            final(seq)@ == old(self)@.allocated(old(seq)@).1,
    {
        proof {
            block_proofs::lemma_hit_table(self@, seq@);
            block_proofs::lemma_hold_all(self@, self@.hit_table(seq@));
        }
        let hash = self.attach(seq);
        self.fill(seq, hash);
    }

    /// Gives up the blocks of a sequence that has finished or must wait again.
    pub fn deallocate(&mut self, seq: &mut Sequence)
        requires
            old(self)@.wf(),
            old(self)@.can_release(old(seq)@.table),
        ensures
            final(self)@.wf(),
            final(self)@ == old(self)@.release(old(seq)@.table),
            final(seq)@ == (SeqView {
                num_cached: 0,
                num_new: 0,
                table: Seq::empty(),
                ..old(seq)@
            }),
    {
        let ghost bm = self@;
        let ghost table = seq@.table;
        let mut i: usize = seq.block_table.len();
        assert(table.take(i as int) =~= table);
        while i > 0
            invariant
                i <= table.len(),
                seq@.table == table,
                self@.wf(),
                self@.can_release(table.take(i as int)),
                self@.release(table.take(i as int)) == bm.release(table),
            decreases i,
        {
            let ghost before = self@;
            let ghost rest = table.take(i as int);
            i = i - 1;
            let block_id = seq.block_table[i];
            proof {
                assert(rest.drop_last() =~= table.take(i as int));
                assert(rest.last() == block_id);
                block_proofs::lemma_release_step(before, rest);
            }
            self.blocks[block_id].ref_count = self.blocks[block_id].ref_count - 1;
            let ghost mid = self@;
            if self.blocks[block_id].ref_count == 0 {
                self.deallocate_block(block_id);
            }
            assert(self@.blocks =~= before.drop_one(block_id).blocks);
            assert(self@ == before.drop_one(block_id));
        }
        seq.num_cached_tokens = 0;
        seq.num_new_tokens = 0;
        seq.block_table.clear();
    }

    /// Whether there are free blocks for `num_new_tokens` more tokens of a running sequence,
    /// beyond those that still fit in its last block.
    pub fn can_append(&self, seq: &Sequence, num_new_tokens: usize) -> (enough: bool)
        requires
            self@.block_size > 0,
        ensures
            enough == self@.can_append(seq@.num_cached, num_new_tokens as nat),
    {
        let used = seq.num_cached_tokens % self.block_size;
        let capacity = if used == 0 {
            0
        } else {
            self.block_size - used
        };
        let needed = if num_new_tokens <= capacity {
            0
        } else {
            (num_new_tokens - capacity - 1) / self.block_size + 1
        };
        proof {
            sequence::lemma_needed_blocks(
                seq@.num_cached as int,
                num_new_tokens as int,
                self@.block_size as int,
            );
        }
        needed <= self.free_block_ids.len()
    }

    /// Gives a running sequence the blocks that its new tokens need, and fills those that
    /// become full.
    pub fn may_append(&mut self, seq: &mut Sequence)
        requires
            old(self)@.wf(),
            old(self)@.block_size > 0,
            old(seq)@.block_size == old(self)@.block_size,
            old(seq)@.wf(),
            old(seq)@.context() <= old(seq)@.num_tokens,
            old(seq)@.num_tokens + old(seq)@.block_size <= usize::MAX,
            old(self)@.can_extend(old(seq)@),
            old(self)@.can_append(old(seq)@.num_cached, old(seq)@.num_new),
        ensures
            final(self)@.wf(),
            final(self)@ == old(self)@.appended(old(seq)@).0,
            final(seq)@ == old(self)@.appended(old(seq)@).1,
    {
        let ghost bm = self@;
        let ghost seq0 = seq@;
        let ghost size = bm.block_size as int;
        let ghost first = seq0.num_cached as int / size;
        proof {
            sequence::lemma_floor_div(seq0.num_cached as int, size);
            sequence::lemma_ceil_monotone(seq0.num_cached as int, seq0.context() as int, size);
        }
        let range_start = seq.num_cached_blocks() * self.block_size;
        let range_end = seq.num_cached_tokens + seq.num_new_tokens;
        let ghost mut n: int = first;
        let mut i: usize = range_start;
        while i < range_end
            invariant
                self@.wf(),
                size == self@.block_size,
                size > 0,
                seq0.block_size == size,
                seq0.wf(),
                seq0.context() <= seq0.num_tokens,
                seq0.num_tokens + seq0.block_size <= usize::MAX,
                range_end == seq0.context(),
                first <= n,
                0 <= n,
                i == n * size,
                n <= seq0.context_blocks(),
                seq@ == (SeqView { table: seq@.table, ..seq0 }),
                self@.blocks.len() == bm.blocks.len(),
                forall|j: int|
                    0 <= j < seq@.table.len() ==> (#[trigger] seq@.table[j]) < bm.blocks.len(),
                self@.free.len() >= seq0.context_blocks() - seq@.table.len(),
                n <= seq@.table.len() <= n + 1,
                n < seq@.table.len() ==> n == first && self@.is_open(seq@.table[n]),
                self@.append_from(seq0, n, seq@.table) == bm.append_from(
                    seq0,
                    first,
                    seq0.table,
                ),
            decreases seq0.context_blocks() - n,
        {
            let chunk_end = if i + self.block_size <= range_end {
                i + self.block_size
            } else {
                range_end
            };
            let token_ids = slice_to_vec(seq.slice_tokens(i, chunk_end));
            proof {
                sequence::lemma_piece(seq0, n);
                assert(token_ids@ =~= seq0.piece(n));
                assert(n == i as int / size) by (nonlinear_arith)
                    requires
                        i == n * size,
                        size > 0,
                ;
                assert((n >= 1) == (i >= size)) by (nonlinear_arith)
                    requires
                        i == n * size,
                        size > 0,
                        n >= 0,
                ;
                block_proofs::lemma_append_block(self@, seq0, n, seq@.table);
            }
            let ghost before = self@;
            let ghost table = seq@.table;
            let ghost next = before.append_block(seq0, n, table);
            let block_idx = i / self.block_size;
            let prefix = if i >= self.block_size {
                self.blocks[seq.block_table[block_idx - 1]].hash
            } else {
                NO_HASH
            };
            if block_idx >= seq.block_table.len() {
                let block_id = self.free_block_ids[0];
                assert(before.free.contains(block_id));
                self.allocate_block(block_id);
                seq.block_table.push(block_id);
            }
            if token_ids.len() == self.block_size {
                let wide = widen_tokens(token_ids.as_slice());
                let h = Self::compute_hash(wide.as_slice(), prefix);
                self.record_block(seq.block_table[block_idx], h, token_ids);
            }
            assert(self@ == next.0 && seq@.table == next.1);
            proof {
                n = n + 1;
                assert(n * size == (n - 1) * size + size) by (nonlinear_arith);
            }
            i = i + self.block_size;
        }
        proof {
            if n < seq0.context_blocks() {
                sequence::lemma_block_bounds(seq0.context() as int, size, n);
            }
        }
    }
}

} // verus!
