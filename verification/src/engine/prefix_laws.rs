//! What the hashes of blocks say, and what a sequence finds in the cache.
use crate::engine::block_manager;
use crate::engine::block_manager::{BmView, NO_HASH};
use crate::engine::block_proofs;
use crate::engine::sequence;
use crate::engine::sequence::SeqView;
use vstd::bytes::{spec_u64_from_le_bytes, spec_u64_to_le_bytes};
use vstd::prelude::*;

verus! {

/// The words that stand for `tokens` behind a block with hash `prefix`, if there is one: the hash
/// comes first, and every token is a word of its own.
pub open spec fn words_of(tokens: Seq<i64>, prefix: i64) -> Seq<u64> {
    if prefix == -1 {
        Seq::new(tokens.len(), |i: int| tokens[i] as u64)
    } else {
        Seq::new(
            tokens.len() + 1,
            |i: int|
                if i == 0 {
                    prefix as u64
                } else {
                    tokens[i - 1] as u64
                },
        )
    }
}

/// `bytes` are the words, eight bytes each, the least significant first.
pub open spec fn spells(bytes: Seq<u8>, words: Seq<u64>) -> bool {
    &&& bytes.len() == 8 * words.len()
    &&& forall|i: int|
        0 <= i < words.len() ==> spec_u64_from_le_bytes(bytes.subrange(8 * i, 8 * i + 8))
            == #[trigger] words[i]
}

/// The digest tells apart what is hashed for two blocks: it differs where the bytes do.
pub open spec fn are_told_apart(
    tokens: Seq<i64>,
    prefix: i64,
    others: Seq<i64>,
    other_prefix: i64,
) -> bool {
    forall|a: Seq<u8>, b: Seq<u8>| #[trigger]
        spells(a, words_of(tokens, prefix)) && #[trigger] spells(
            b,
            words_of(others, other_prefix),
        ) && block_manager::xxh64_digest(a, 0) == block_manager::xxh64_digest(b, 0) ==> a == b
}

/// The words of `tokens` alone.
spec fn plain_words(tokens: Seq<i64>) -> Seq<u64> {
    Seq::new(tokens.len(), |i: int| tokens[i] as u64)
}

proof fn lemma_token_bytes(tokens: Seq<i64>)
    ensures
        spells(block_manager::token_bytes(tokens), plain_words(tokens)),
    decreases tokens.len(),
{
    vstd::bytes::lemma_auto_spec_u64_to_from_le_bytes();
    if tokens.len() > 0 {
        let rest = tokens.drop_last();
        lemma_token_bytes(rest);
        let less = block_manager::token_bytes(rest);
        let bytes = block_manager::token_bytes(tokens);
        let words = plain_words(tokens);
        let last = tokens.len() - 1;
        assert forall|i: int| 0 <= i < words.len() implies spec_u64_from_le_bytes(
            bytes.subrange(8 * i, 8 * i + 8),
        ) == #[trigger] words[i] by {
            if i < last {
                assert(bytes.subrange(8 * i, 8 * i + 8) =~= less.subrange(8 * i, 8 * i + 8));
                assert(plain_words(rest)[i] == words[i]);
            } else {
                assert(bytes.subrange(8 * i, 8 * i + 8) =~= spec_u64_to_le_bytes(
                    tokens.last() as u64,
                ));
            }
        }
    }
}

proof fn lemma_spelled_once(a: Seq<u8>, b: Seq<u8>, words: Seq<u64>)
    requires
        spells(a, words),
        spells(b, words),
    ensures
        a == b,
{
    vstd::bytes::lemma_auto_spec_u64_to_from_le_bytes();
    assert forall|j: int| 0 <= j < a.len() implies a[j] == b[j] by {
        let i = j / 8;
        let x = a.subrange(8 * i, 8 * i + 8);
        let y = b.subrange(8 * i, 8 * i + 8);
        assert(spec_u64_from_le_bytes(x) == words[i]);
        assert(spec_u64_from_le_bytes(y) == words[i]);
        assert(x == spec_u64_to_le_bytes(spec_u64_from_le_bytes(x)));
        assert(y == spec_u64_to_le_bytes(spec_u64_from_le_bytes(y)));
        assert(x[j - 8 * i] == y[j - 8 * i]);
    }
    assert(a =~= b);
}

/// The hash of a block is the digest of its tokens, behind the hash of the block before it where
/// there is one.
pub proof fn a_hash_is_the_digest_of_prefix_and_tokens(
    tokens: Seq<i64>,
    prefix: i64,
    bytes: Seq<u8>,
)
    requires
        spells(bytes, words_of(tokens, prefix)),
    ensures
        block_manager::hash_after(tokens, prefix) == block_manager::xxh64_digest(bytes, 0) as i64,
{
    let own = hashed_bytes(tokens, prefix);
    lemma_hashed_bytes(tokens, prefix);
    lemma_spelled_once(own, bytes, words_of(tokens, prefix));
}

spec fn hashed_bytes(tokens: Seq<i64>, prefix: i64) -> Seq<u8> {
    if prefix == -1 {
        block_manager::token_bytes(tokens)
    } else {
        spec_u64_to_le_bytes(prefix as u64) + block_manager::token_bytes(tokens)
    }
}

proof fn lemma_hashed_bytes(tokens: Seq<i64>, prefix: i64)
    ensures
        spells(hashed_bytes(tokens, prefix), words_of(tokens, prefix)),
        block_manager::hash_after(tokens, prefix) == block_manager::xxh64_digest(
            hashed_bytes(tokens, prefix),
            0,
        ) as i64,
{
    vstd::bytes::lemma_auto_spec_u64_to_from_le_bytes();
    lemma_token_bytes(tokens);
    let tail = block_manager::token_bytes(tokens);
    let words = words_of(tokens, prefix);
    let bytes = hashed_bytes(tokens, prefix);
    if prefix == -1 {
        assert(words =~= plain_words(tokens));
        assert(Seq::<u8>::empty() + tail =~= tail);
    } else {
        assert forall|i: int| 0 <= i < words.len() implies spec_u64_from_le_bytes(
            bytes.subrange(8 * i, 8 * i + 8),
        ) == #[trigger] words[i] by {
            if i == 0 {
                assert(bytes.subrange(0, 8) =~= spec_u64_to_le_bytes(prefix as u64));
            } else {
                assert(bytes.subrange(8 * i, 8 * i + 8) =~= tail.subrange(
                    8 * (i - 1),
                    8 * (i - 1) + 8,
                ));
                assert(plain_words(tokens)[i - 1] == words[i]);
            }
        }
    }
}

proof fn lemma_cast_back(a: u64, b: u64)
    requires
        a as i64 == b as i64,
    ensures
        a == b,
{
    assert(a as i64 == b as i64 ==> a == b) by (bit_vector);
}

proof fn lemma_cast(a: i64, b: i64)
    requires
        a as u64 == b as u64,
    ensures
        a == b,
{
    assert(a as u64 == b as u64 ==> a == b) by (bit_vector);
}

/// Blocks of as many tokens have the same hash only if they hold the same tokens and stand behind
/// the same hash, where the digest tells apart what it is taken of.
pub proof fn equal_hashes_mean_equal_tokens_and_prefixes(
    tokens: Seq<i64>,
    prefix: i64,
    others: Seq<i64>,
    other_prefix: i64,
)
    requires
        tokens.len() == others.len(),
        block_manager::hash_after(tokens, prefix) == block_manager::hash_after(
            others,
            other_prefix,
        ),
        are_told_apart(tokens, prefix, others, other_prefix),
    ensures
        tokens == others,
        prefix == other_prefix,
{
    lemma_hashed_bytes(tokens, prefix);
    lemma_hashed_bytes(others, other_prefix);
    let a = hashed_bytes(tokens, prefix);
    let b = hashed_bytes(others, other_prefix);
    lemma_cast_back(block_manager::xxh64_digest(a, 0), block_manager::xxh64_digest(b, 0));
    assert(a == b);
    let x = words_of(tokens, prefix);
    let y = words_of(others, other_prefix);
    assert(x.len() == y.len());
    assert forall|i: int| 0 <= i < x.len() implies x[i] == y[i] by {
        assert(spec_u64_from_le_bytes(a.subrange(8 * i, 8 * i + 8)) == x[i]);
        assert(spec_u64_from_le_bytes(b.subrange(8 * i, 8 * i + 8)) == y[i]);
    }
    let skip = x.len() - tokens.len();
    assert forall|i: int| 0 <= i < tokens.len() implies tokens[i] == others[i] by {
        assert(x[i + skip] == y[i + skip]);
        lemma_cast(tokens[i], others[i]);
    }
    assert(tokens =~= others);
    if prefix != -1 {
        assert(x[0] == y[0]);
        lemma_cast(prefix, other_prefix);
    }
}

/// Block `i` of `tokens`, as the hash takes it.
pub open spec fn wide_block(tokens: Seq<u32>, size: nat, i: int) -> Seq<i64> {
    Seq::new(size, |j: int| tokens[i * size + j] as i64)
}

/// The digest tells apart what is hashed for block `i` of two token lists.
pub open spec fn blocks_are_told_apart(a: Seq<u32>, b: Seq<u32>, size: nat, i: int) -> bool {
    are_told_apart(
        wide_block(a, size, i),
        block_manager::chain_hash(a, size, i - 1),
        wide_block(b, size, i),
        block_manager::chain_hash(b, size, i - 1),
    )
}

proof fn lemma_chain_step(tokens: Seq<u32>, size: nat, i: int)
    requires
        size > 0,
        0 <= i,
        (i + 1) * size <= tokens.len(),
    ensures
        i * size + size == (i + 1) * size,
        0 <= i * size,
        block_manager::chain_hash(tokens, size, i) == block_manager::hash_after(
            wide_block(tokens, size, i),
            block_manager::chain_hash(tokens, size, i - 1),
        ),
{
    assert(i * size + size == (i + 1) * size && 0 <= i * size) by (nonlinear_arith)
        requires
            0 <= i,
            size > 0,
    ;
    let piece = sequence::block_of(tokens, size as int, i);
    assert(block_manager::widen(piece) =~= wide_block(tokens, size, i));
}

/// The first block stands behind none, and every other one behind the block before it.
pub proof fn each_full_block_is_hashed_behind_the_one_before(tokens: Seq<u32>, size: nat, i: int)
    requires
        size > 0,
        0 <= i,
        (i + 1) * size <= tokens.len(),
    ensures
        i == 0 ==> block_manager::chain_hash(tokens, size, i) == block_manager::hash_after(
            wide_block(tokens, size, 0),
            -1i64,
        ),
        i > 0 ==> block_manager::chain_hash(tokens, size, i) == block_manager::hash_after(
            wide_block(tokens, size, i),
            block_manager::chain_hash(tokens, size, i - 1),
        ),
{
    lemma_chain_step(tokens, size, i);
    assert(block_manager::chain_hash(tokens, size, -1) == NO_HASH);
}

/// Two token lists have the same hash for a block only if they are the same up to the end of that
/// block, where the digest tells apart what it is taken of.
pub proof fn equal_chains_mean_equal_prefixes(a: Seq<u32>, b: Seq<u32>, size: nat, i: int)
    requires
        size > 0,
        0 <= i,
        (i + 1) * size <= a.len(),
        (i + 1) * size <= b.len(),
        block_manager::chain_hash(a, size, i) == block_manager::chain_hash(b, size, i),
        forall|j: int| 0 <= j <= i ==> #[trigger] blocks_are_told_apart(a, b, size, j),
    ensures
        a.take((i + 1) * size) == b.take((i + 1) * size),
    decreases i,
{
    lemma_chain_step(a, size, i);
    lemma_chain_step(b, size, i);
    let x = wide_block(a, size, i);
    let y = wide_block(b, size, i);
    assert(blocks_are_told_apart(a, b, size, i));
    equal_hashes_mean_equal_tokens_and_prefixes(
        x,
        block_manager::chain_hash(a, size, i - 1),
        y,
        block_manager::chain_hash(b, size, i - 1),
    );
    if i > 0 {
        equal_chains_mean_equal_prefixes(a, b, size, i - 1);
    }
    let n = (i + 1) * size;
    assert forall|k: int| 0 <= k < n implies a[k] == b[k] by {
        if k < i * size {
            assert(a.take(i * size)[k] == b.take(i * size)[k]);
        } else {
            assert(x[k - i * size] == y[k - i * size]);
        }
    }
    assert(a.take(n) =~= b.take(n));
}

/// Block `i` of `seq` is in the cache: it is full and not the last one, and a block is known under
/// its hash that holds its tokens.
pub open spec fn is_there(bm: BmView, seq: SeqView, i: int) -> bool {
    let size = bm.block_size;
    let h = block_manager::chain_hash(seq.tokens, size, i);
    &&& 0 <= i
    &&& (i + 1) * size < seq.tokens.len()
    &&& bm.cached.contains_key(h)
    &&& bm.blocks[bm.cached[h] as int].tokens == seq.tokens.subrange(i * size, (i + 1) * size)
}

/// The first `n` blocks of `seq` are in the cache, and the one behind them is not.
pub open spec fn are_there(bm: BmView, seq: SeqView, n: int) -> bool {
    &&& 0 <= n
    &&& forall|i: int| 0 <= i < n ==> #[trigger] is_there(bm, seq, i)
    &&& !is_there(bm, seq, n)
}

/// The blocks that the first `n` blocks of `seq` are in.
pub open spec fn places(bm: BmView, seq: SeqView, n: nat) -> Seq<usize> {
    Seq::new(
        n,
        |i: int| bm.cached[block_manager::chain_hash(seq.tokens, bm.block_size, i)],
    )
}

/// How many of the first `n` blocks of `seq` are in blocks that somebody holds.
pub open spec fn held_places(bm: BmView, seq: SeqView, n: nat) -> nat {
    places(bm, seq, n).filter(|b: usize| bm.blocks[b as int].ref_count > 0).len()
}

proof fn lemma_is_there(bm: BmView, seq: SeqView, i: int)
    requires
        bm.block_size > 0,
        seq.block_size == bm.block_size,
        seq.wf(),
        0 <= i,
    ensures
        bm.hit(seq, i) is Some <==> is_there(bm, seq, i),
        bm.hit(seq, i) matches Some(b) ==> b == bm.cached[block_manager::chain_hash(
            seq.tokens,
            bm.block_size,
            i,
        )],
{
    let size = bm.block_size as int;
    let len = seq.num_tokens as int;
    sequence::lemma_ceil_div(len, size);
    let n = sequence::ceil_div(len, size);
    assert((i + 1) * size == i * size + size) by (nonlinear_arith);
    if i < n - 1 {
        sequence::lemma_block_bounds(len, size, i);
        assert(seq.block(i) == seq.tokens.subrange(i * size, (i + 1) * size));
    } else {
        assert((i + 1) * size >= len) by (nonlinear_arith)
            requires
                i + 1 >= n,
                n * size >= len,
                size > 0,
        ;
    }
}

proof fn lemma_members_filter(bm: BmView, table: Seq<usize>)
    requires
        bm.wf(),
        forall|i: int| 0 <= i < table.len() ==> (#[trigger] table[i]) < bm.blocks.len(),
    ensures
        block_manager::members(table, bm.used) == table.filter(
            |b: usize| bm.blocks[b as int].ref_count > 0,
        ).len(),
    decreases table.len(),
{
    reveal(Seq::filter);
    if table.len() > 0 {
        let rest = table.drop_last();
        assert forall|i: int| 0 <= i < rest.len() implies (#[trigger] rest[i])
            < bm.blocks.len() by {
            assert(rest[i] == table[i]);
        }
        lemma_members_filter(bm, rest);
        let last = table.last();
        assert(table[table.len() - 1] == last);
        assert(bm.used.contains(last) <==> (last < bm.blocks.len()
            && bm.blocks[last as int].ref_count > 0));
    }
}

/// The layout of a sequence counts every leading block that is in the cache: those that somebody
/// holds, those that are free, and the tokens behind them, which are to be computed.
pub proof fn the_layout_counts_what_is_there(bm: BmView, seq: SeqView, n: nat)
    requires
        bm.wf(),
        bm.block_size > 0,
        seq.block_size == bm.block_size,
        seq.wf(),
        are_there(bm, seq, n as int),
    ensures
        bm.token_layout(seq).0 == held_places(bm, seq, n) * bm.block_size,
        bm.token_layout(seq).1 == (n - held_places(bm, seq, n)) * bm.block_size,
        bm.token_layout(seq).2 == seq.tokens.len() - n * bm.block_size,
        held_places(bm, seq, n) <= n,
{
    lemma_places(bm, seq, n);
    lemma_members_filter(bm, bm.hit_table(seq));
    block_proofs::lemma_hold_all_free(bm, bm.hit_table(seq));
}

/// Of every sequence just one number of leading blocks is in the cache.
pub proof fn so_many_are_there(bm: BmView, seq: SeqView) -> (n: nat)
    requires
        bm.wf(),
        bm.block_size > 0,
        seq.block_size == bm.block_size,
        seq.wf(),
    ensures
        are_there(bm, seq, n as int),
        n * bm.block_size < seq.tokens.len(),
        forall|m: int| #[trigger] are_there(bm, seq, m) ==> m == n,
{
    let n = bm.hits(seq);
    block_proofs::lemma_hits(bm, seq, 0);
    assert forall|i: int| 0 <= i < n implies #[trigger] is_there(bm, seq, i) by {
        lemma_is_there(bm, seq, i);
        assert(bm.hit(seq, i) is Some);
    }
    lemma_is_there(bm, seq, n as int);
    if n > 0 {
        assert(is_there(bm, seq, n - 1));
    }
    assert forall|m: int| #[trigger] are_there(bm, seq, m) implies m == n by {
        if m < n {
            assert(is_there(bm, seq, m));
        }
        if n < m {
            assert(is_there(bm, seq, n as int));
        }
    }
    n
}

proof fn lemma_places(bm: BmView, seq: SeqView, n: nat)
    requires
        bm.wf(),
        bm.block_size > 0,
        seq.block_size == bm.block_size,
        seq.wf(),
        are_there(bm, seq, n as int),
    ensures
        bm.hits(seq) == n,
        bm.hit_table(seq) == places(bm, seq, n),
        forall|i: int| 0 <= i < n ==> (#[trigger] places(bm, seq, n)[i]) < bm.blocks.len(),
{
    let m = so_many_are_there(bm, seq);
    block_proofs::lemma_hits(bm, seq, 0);
    let k = bm.hits(seq);
    assert(are_there(bm, seq, k as int)) by {
        assert forall|i: int| 0 <= i < k implies #[trigger] is_there(bm, seq, i) by {
            lemma_is_there(bm, seq, i);
            assert(bm.hit(seq, i) is Some);
        }
        lemma_is_there(bm, seq, k as int);
    }
    block_proofs::lemma_hit_table(bm, seq);
    assert forall|i: int| 0 <= i < n implies bm.hit_table(seq)[i] == #[trigger] places(
        bm,
        seq,
        n,
    )[i] by {
        lemma_is_there(bm, seq, i);
        assert(is_there(bm, seq, i));
        assert(bm.hit(seq, i) == Some(bm.hit_table(seq)[i]));
    }
    assert(bm.hit_table(seq) =~= places(bm, seq, n));
    assert forall|i: int| 0 <= i < n implies (#[trigger] places(bm, seq, n)[i])
        < bm.blocks.len() by {
        assert(bm.hit_table(seq)[i] < bm.blocks.len());
    }
}

/// A sequence is placed in the blocks that are there for it, all of them and in order, and as many
/// of its tokens count as computed.
pub proof fn allocation_reuses_what_is_there(bm: BmView, seq: SeqView, n: nat)
    requires
        bm.wf(),
        bm.block_size > 0,
        seq.block_size == bm.block_size,
        seq.wf(),
        are_there(bm, seq, n as int),
        n * bm.block_size + seq.num_new <= seq.num_tokens,
        bm.can_hold(seq),
    ensures
        bm.allocated(seq).1.num_cached == n * bm.block_size,
        bm.allocated(seq).1.table.take(n as int) == places(bm, seq, n),
        bm.allocated(seq).1.tokens == seq.tokens,
{
    lemma_places(bm, seq, n);
    block_proofs::lemma_allocated(bm, seq);
}

/// What is in the cache was computed for one of the token lists of `seen`: every known hash is that
/// of a full block of one of them, and leads to a block that holds its tokens.
pub open spec fn cache_is_of(bm: BmView, seen: Set<Seq<u32>>) -> bool {
    forall|h: i64| #[trigger] bm.cached.contains_key(h) ==> comes_from(bm, seen, h)
}

/// Hash `h` is that of a full block of one of the token lists of `seen`.
pub open spec fn comes_from(bm: BmView, seen: Set<Seq<u32>>, h: i64) -> bool {
    exists|t: Seq<u32>, i: int| #[trigger]
        is_block_of(bm, t, i, h) && seen.contains(t)
}

/// Hash `h` is that of block `i` of `tokens`, and leads to a block that holds it.
pub open spec fn is_block_of(bm: BmView, tokens: Seq<u32>, i: int, h: i64) -> bool {
    let size = bm.block_size;
    &&& 0 <= i
    &&& (i + 1) * size <= tokens.len()
    &&& h == block_manager::chain_hash(tokens, size, i)
    &&& bm.blocks[bm.cached[h] as int].tokens == tokens.subrange(i * size, (i + 1) * size)
}

/// What a sequence finds for its block `i` was computed for tokens that are the same up to the end
/// of that block, so that the keys and values in it are its own, where the digest tells apart what
/// it is taken of.
pub proof fn what_is_found_was_computed_for_the_same_tokens(
    bm: BmView,
    seq: SeqView,
    seen: Set<Seq<u32>>,
    i: int,
)
    requires
        bm.block_size > 0,
        cache_is_of(bm, seen),
        is_there(bm, seq, i),
        forall|t: Seq<u32>, k: int, j: int|
            seen.contains(t) && 0 <= k && 0 <= j ==> #[trigger] chains_are_told_apart(
                seq.tokens,
                i,
                t,
                k,
                bm.block_size,
                j,
            ),
    ensures
        exists|t: Seq<u32>|
            seen.contains(t) && (i + 1) * bm.block_size <= t.len() && #[trigger] t.take(
                (i + 1) * bm.block_size,
            ) == seq.tokens.take((i + 1) * bm.block_size),
{
    let size = bm.block_size;
    let h = block_manager::chain_hash(seq.tokens, size, i);
    assert(comes_from(bm, seen, h));
    let (t, k) = choose|t: Seq<u32>, k: int| #[trigger]
        is_block_of(bm, t, k, h) && seen.contains(t);
    lemma_same_depth(seq.tokens, i, t, k, size);
    assert(k == i);
    assert(t.take((i + 1) * size) == seq.tokens.take((i + 1) * size));
}

/// The digest tells apart what is hashed for the blocks `j` before block `i` of `a` and before
/// block `k` of `b`, and gives no block the hash that stands for none.
pub open spec fn chains_are_told_apart(
    a: Seq<u32>,
    i: int,
    b: Seq<u32>,
    k: int,
    size: nat,
    j: int,
) -> bool {
    &&& block_manager::chain_hash(a, size, i - j) != -1 || i < j
    &&& block_manager::chain_hash(b, size, k - j) != -1 || k < j
    &&& j <= i && j <= k ==> are_told_apart(
        wide_block(a, size, i - j),
        block_manager::chain_hash(a, size, i - j - 1),
        wide_block(b, size, k - j),
        block_manager::chain_hash(b, size, k - j - 1),
    )
}

proof fn lemma_same_depth(a: Seq<u32>, i: int, b: Seq<u32>, k: int, size: nat)
    requires
        size > 0,
        0 <= i,
        0 <= k,
        (i + 1) * size <= a.len(),
        (k + 1) * size <= b.len(),
        block_manager::chain_hash(a, size, i) == block_manager::chain_hash(b, size, k),
        forall|j: int| 0 <= j ==> #[trigger] chains_are_told_apart(a, i, b, k, size, j),
    ensures
        i == k,
        a.take((i + 1) * size) == b.take((i + 1) * size),
    decreases i,
{
    lemma_chain_step(a, size, i);
    lemma_chain_step(b, size, k);
    let x = wide_block(a, size, i);
    let y = wide_block(b, size, k);
    assert(chains_are_told_apart(a, i, b, k, size, 0));
    equal_hashes_mean_equal_tokens_and_prefixes(
        x,
        block_manager::chain_hash(a, size, i - 1),
        y,
        block_manager::chain_hash(b, size, k - 1),
    );
    assert(chains_are_told_apart(a, i, b, k, size, 1));
    assert(block_manager::chain_hash(a, size, -1) == NO_HASH);
    assert(block_manager::chain_hash(b, size, -1) == NO_HASH);
    if i > 0 && k > 0 {
        assert forall|j: int| 0 <= j implies #[trigger] chains_are_told_apart(
            a,
            i - 1,
            b,
            k - 1,
            size,
            j,
        ) by {
            assert(chains_are_told_apart(a, i, b, k, size, j + 1));
        }
        lemma_same_depth(a, i - 1, b, k - 1, size);
        assert((i - 1 + 1) * size == i * size);
    } else {
        assert(i == 0 && k == 0);
        assert(i * size == 0) by (nonlinear_arith)
            requires
                i == 0,
        ;
    }
    let n = (i + 1) * size;
    assert forall|p: int| 0 <= p < n implies a[p] == b[p] by {
        if p < i * size {
            assert(a.take(i * size)[p] == b.take(i * size)[p]);
        } else {
            assert(x[p - i * size] == y[p - i * size]);
        }
    }
    assert(a.take(n) =~= b.take(n));
}

} // verus!
