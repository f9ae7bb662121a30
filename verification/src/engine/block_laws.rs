//! What holds of the blocks over several operations.
use crate::engine::block_manager;
use crate::engine::block_manager::{BmView, NO_HASH};
use crate::engine::block_proofs;
use crate::engine::sequence;
use crate::engine::sequence::SeqView;
use vstd::prelude::*;

verus! {

/// The blocks below `n` that are free, and those that are in use, make up `n`.
proof fn lemma_blocks_below(bm: BmView, n: int)
    requires
        bm.wf(),
        0 <= n <= bm.blocks.len(),
        bm.blocks.len() <= usize::MAX,
    ensures
        bm.free.to_set().filter(|b: usize| b < n).finite(),
        bm.used.filter(|b: usize| b < n).finite(),
        bm.free.to_set().filter(|b: usize| b < n).len() + bm.used.filter(|b: usize| b < n).len()
            == n,
    decreases n,
{
    let free = bm.free.to_set().filter(|b: usize| b < n);
    let used = bm.used.filter(|b: usize| b < n);
    if n == 0 {
        assert(free =~= Set::empty());
        assert(used =~= Set::empty());
    } else {
        lemma_blocks_below(bm, n - 1);
        let b = (n - 1) as usize;
        let free0 = bm.free.to_set().filter(|b: usize| b < n - 1);
        let used0 = bm.used.filter(|b: usize| b < n - 1);
        if bm.blocks[b as int].ref_count == 0 {
            assert(bm.free.contains(b));
            assert(!bm.used.contains(b));
            assert(free =~= free0.insert(b));
            assert(used =~= used0);
        } else {
            assert(!bm.free.contains(b));
            assert(bm.used.contains(b));
            assert(free =~= free0);
            assert(used =~= used0.insert(b));
        }
    }
}

/// No block is lost: the free blocks and those in use make up all the blocks, and no block
/// is both.
pub proof fn free_and_used_make_up_all(bm: BmView)
    requires
        bm.wf(),
        bm.blocks.len() <= usize::MAX,
    ensures
        bm.used.finite(),
        bm.free.len() + bm.used.len() == bm.blocks.len(),
        forall|b: usize| !(#[trigger] bm.free.contains(b) && bm.used.contains(b)),
{
    let n = bm.blocks.len() as int;
    lemma_blocks_below(bm, n);
    assert(bm.free.to_set().filter(|b: usize| b < n) =~= bm.free.to_set()) by {
        assert forall|b: usize| bm.free.to_set().contains(b) implies b < n by {
            assert(bm.free.contains(b));
        }
    }
    assert(bm.used.filter(|b: usize| b < n) =~= bm.used);
    bm.free.unique_seq_to_set();
}

/// The layout of a sequence accounts for each of its tokens once, and always leaves at
/// least one to be computed.
pub proof fn layout_accounts_for_every_token(bm: BmView, seq: SeqView)
    requires
        bm.wf(),
        bm.block_size > 0,
        seq.block_size == bm.block_size,
        seq.wf(),
    ensures
        bm.token_layout(seq).0 >= 0,
        bm.token_layout(seq).1 >= 0,
        bm.token_layout(seq).2 >= 1,
        bm.token_layout(seq).0 + bm.token_layout(seq).1 + bm.token_layout(seq).2
            == seq.num_tokens,
        bm.token_layout(seq).0 + bm.token_layout(seq).1 == bm.hits(seq) * bm.block_size,
{
    let size = bm.block_size as int;
    let table = bm.hit_table(seq);
    let hits = table.len() as int;
    let in_used = block_manager::members(table, bm.used) as int;
    block_proofs::lemma_hit_table(bm, seq);
    block_proofs::lemma_hold_all_free(bm, table);
    sequence::lemma_ceil_div(seq.num_tokens as int, size);
    sequence::lemma_block_bounds(seq.num_tokens as int, size, hits);
    assert(in_used * size >= 0 && (hits - in_used) * size >= 0 && in_used * size + (hits - in_used)
        * size == hits * size) by (nonlinear_arith)
        requires
            0 <= in_used <= hits,
            size > 0,
    ;
}

/// The layout foretells the allocation: as many tokens are found in the cache.
pub proof fn layout_foretells_allocation(bm: BmView, seq: SeqView)
    requires
        bm.wf(),
        bm.block_size > 0,
        seq.block_size == bm.block_size,
        seq.wf(),
    ensures
        bm.allocated(seq).1.num_cached == bm.token_layout(seq).0 + bm.token_layout(seq).1,
{
    layout_accounts_for_every_token(bm, seq);
}

/// Where there are free blocks for the tokens found in free blocks and for the new tokens
/// together, there are enough for the allocation.
pub proof fn enough_free_blocks_for_allocation(bm: BmView, seq: SeqView)
    requires
        bm.wf(),
        bm.block_size > 0,
        seq.block_size == bm.block_size,
        seq.wf(),
        bm.free.len() >= sequence::ceil_div(
            bm.token_layout(seq).1 + seq.num_new,
            bm.block_size as int,
        ),
    ensures
        bm.can_hold(seq),
{
    let size = bm.block_size as int;
    let table = bm.hit_table(seq);
    let in_free = table.len() - block_manager::members(table, bm.used);
    block_proofs::lemma_hit_table(bm, seq);
    block_proofs::lemma_hold_all_free(bm, table);
    sequence::lemma_shifted_blocks(seq.num_new as int, size, in_free);
}

/// A sequence that has been given its blocks can give them up again, and then every block
/// is held as often as before, by no one if it was free. What the blocks hold may differ:
/// fresh blocks have been filled.
pub proof fn deallocation_undoes_allocation(bm: BmView, seq: SeqView)
    requires
        bm.wf(),
        bm.block_size > 0,
        seq.block_size == bm.block_size,
        seq.wf(),
        bm.hits(seq) * bm.block_size + seq.num_new <= seq.num_tokens,
        bm.can_hold(seq),
    ensures
        ({
            let (next, placed) = bm.allocated(seq);
            let back = next.release(placed.table);
            &&& next.can_release(placed.table)
            &&& back.wf()
            &&& back.blocks.len() == bm.blocks.len()
            &&& forall|x: int|
                0 <= x < bm.blocks.len() ==> (#[trigger] back.blocks[x]).ref_count
                    == bm.blocks[x].ref_count
            &&& back.used == bm.used
            &&& back.free.to_set() == bm.free.to_set()
        }),
{
    block_proofs::lemma_allocated(bm, seq);
    let (next, placed) = bm.allocated(seq);
    assert(next.can_release(placed.table));
    block_proofs::lemma_release(next, placed.table);
    let back = next.release(placed.table);
    assert forall|x: int| 0 <= x < bm.blocks.len() implies (#[trigger] back.blocks[x]).ref_count
        == bm.blocks[x].ref_count by {
        assert(next.blocks[x].ref_count == bm.blocks[x].ref_count + block_manager::count_of(
            placed.table,
            x,
        ));
    }
    lemma_same_counts(bm, back);
}

/// Which blocks are free and which are in use is decided by how many hold them.
proof fn lemma_same_counts(a: BmView, b: BmView)
    requires
        a.wf(),
        b.wf(),
        a.blocks.len() == b.blocks.len(),
        forall|x: int|
            0 <= x < a.blocks.len() ==> (#[trigger] b.blocks[x]).ref_count
                == a.blocks[x].ref_count,
    ensures
        b.used == a.used,
        b.free.to_set() == a.free.to_set(),
{
    assert forall|x: usize| b.used.contains(x) <==> a.used.contains(x) by {
        if x < a.blocks.len() {
            assert(b.blocks[x as int].ref_count == a.blocks[x as int].ref_count);
        }
    }
    assert forall|x: usize| b.free.to_set().contains(x) <==> a.free.to_set().contains(x) by {
        assert(b.free.contains(x) <==> a.free.contains(x)) by {
            if x < a.blocks.len() {
                assert(b.blocks[x as int].ref_count == a.blocks[x as int].ref_count);
            }
        }
    }
    assert(b.used =~= a.used);
    assert(b.free.to_set() =~= a.free.to_set());
}

/// A sequence never reads another one's tokens: each block that it was given from the cache
/// holds exactly the tokens of its own block.
pub proof fn cached_blocks_hold_the_tokens(bm: BmView, seq: SeqView, i: int)
    requires
        bm.wf(),
        bm.block_size > 0,
        seq.block_size == bm.block_size,
        seq.wf(),
        bm.hits(seq) * bm.block_size + seq.num_new <= seq.num_tokens,
        bm.can_hold(seq),
        0 <= i < bm.hits(seq),
    ensures
        ({
            let (next, placed) = bm.allocated(seq);
            next.blocks[placed.table[i] as int].tokens == seq.block(i)
        }),
{
    block_proofs::lemma_allocated(bm, seq);
    block_proofs::lemma_hit_table(bm, seq);
    let (next, placed) = bm.allocated(seq);
    let b = placed.table[i];
    assert(b == placed.table.take(bm.hits(seq) as int)[i]);
    assert(bm.hit_table(seq)[i] == b);
    assert(bm.hit_table(seq).contains(b));
}

/// An entry of the cache that nothing overwrites survives the handing out of fresh blocks.
proof fn lemma_fill_keeps_entry(
    bm: BmView,
    seq: SeqView,
    i: int,
    table: Seq<usize>,
    h: i64,
)
    requires
        bm.wf(),
        bm.block_size > 0,
        seq.block_size == bm.block_size,
        0 <= i <= seq.context_blocks(),
        table.len() == i,
        forall|j: int| 0 <= j < table.len() ==> (#[trigger] table[j]) < bm.blocks.len(),
        bm.free.len() >= seq.context_blocks() - i,
        bm.cached.contains_key(h),
        bm.blocks[bm.cached[h] as int].ref_count > 0,
        forall|j: int|
            i <= j < seq.context_blocks() ==> #[trigger] block_manager::chain_hash(
                seq.tokens,
                bm.block_size,
                j,
            ) != h,
    ensures
        bm.fill(seq, i, table).0.cached.contains_key(h),
        bm.fill(seq, i, table).0.cached[h] == bm.cached[h],
    decreases seq.context_blocks() - i,
{
    if i < seq.context_blocks() {
        let piece = seq.piece(i);
        let own = block_manager::chain_hash(seq.tokens, bm.block_size, i);
        let g = if piece.len() == bm.block_size {
            own
        } else {
            NO_HASH
        };
        let b = bm.free[0];
        block_proofs::lemma_fresh_block(bm, g, piece);
        let mid = bm.fresh_block(g, piece);
        assert(bm.cached[h] != b);
        if g == h {
            assert(g == NO_HASH);
            block_proofs::lemma_take(bm, b);
        }
        assert(mid.cached.contains_key(h) && mid.cached[h] == bm.cached[h]);
        let pushed = table.push(b);
        assert forall|j: int| 0 <= j < pushed.len() implies (#[trigger] pushed[j])
            < mid.blocks.len() by {
            if j < table.len() {
                assert(pushed[j] == table[j]);
            }
        }
        lemma_fill_keeps_entry(mid, seq, i + 1, pushed, h);
    }
}

/// The hashes of the blocks of `seq` before the last are told apart, from each other and
/// from that of the last, and none of them is the hash of a block without one.
pub open spec fn hashes_are_distinct(seq: SeqView) -> bool {
    &&& forall|i: int|
        0 <= i < seq.num_blocks() - 1 ==> #[trigger] block_manager::chain_hash(
            seq.tokens,
            seq.block_size,
            i,
        ) != NO_HASH
    &&& forall|i: int, j: int|
        0 <= i < j < seq.num_blocks() ==> #[trigger] block_manager::chain_hash(
            seq.tokens,
            seq.block_size,
            i,
        ) != #[trigger] block_manager::chain_hash(seq.tokens, seq.block_size, j)
}

/// Block `j` of a sequence whose blocks have been handed out is in the cache.
proof fn lemma_fill_enters(
    bm: BmView,
    seq: SeqView,
    i: int,
    table: Seq<usize>,
    j: int,
)
    requires
        bm.wf(),
        bm.block_size > 0,
        seq.block_size == bm.block_size,
        seq.wf(),
        seq.context() == seq.num_tokens,
        0 <= i <= j < seq.num_blocks() - 1,
        table.len() == i,
        forall|k: int| 0 <= k < table.len() ==> (#[trigger] table[k]) < bm.blocks.len(),
        bm.free.len() >= seq.context_blocks() - i,
        hashes_are_distinct(seq),
    ensures
        bm.fill(seq, i, table).0.lookup(
            block_manager::chain_hash(seq.tokens, bm.block_size, j),
            seq.block(j),
        ) == Some(bm.fill(seq, i, table).1[j]),
    decreases j - i,
{
    let size = bm.block_size as int;
    sequence::lemma_block_bounds(seq.num_tokens as int, size, i);
    sequence::lemma_piece(seq, i);
    let piece = seq.piece(i);
    let h = block_manager::chain_hash(seq.tokens, bm.block_size, i);
    let b = bm.free[0];
    block_proofs::lemma_fresh_block(bm, h, piece);
    let mid = bm.fresh_block(h, piece);
    let pushed = table.push(b);
    assert forall|k: int| 0 <= k < pushed.len() implies (#[trigger] pushed[k])
        < mid.blocks.len() by {
        if k < table.len() {
            assert(pushed[k] == table[k]);
        }
    }
    if i < j {
        lemma_fill_enters(mid, seq, i + 1, pushed, j);
    } else {
        lemma_fill_keeps_entry(mid, seq, i + 1, pushed, h);
        block_proofs::lemma_fill(mid, seq, i + 1, pushed);
        let (next, longer) = mid.fill(seq, i + 1, pushed);
        assert(longer[i] == longer.take(i + 1)[i]);
        assert(next.blocks[b as int] == mid.blocks[b as int]);
    }
}

/// What has been computed is found again: once a sequence has been given blocks for all its
/// tokens, all its blocks but the last are in the cache, for the same sequence or for any
/// other that starts with the same tokens. This rests on the hashes being told apart.
pub proof fn computed_blocks_are_found_again(bm: BmView, seq: SeqView)
    requires
        bm.wf(),
        bm.block_size > 0,
        seq.block_size == bm.block_size,
        seq.wf(),
        bm.hits(seq) * bm.block_size + seq.num_new == seq.num_tokens,
        bm.can_hold(seq),
        hashes_are_distinct(seq),
    ensures
        bm.allocated(seq).0.hits(seq) == seq.num_blocks() - 1,
        bm.allocated(seq).0.hit_table(seq) == bm.allocated(seq).1.table.take(
            seq.num_blocks() - 1,
        ),
{
    let size = bm.block_size as int;
    let hits = bm.hits(seq) as int;
    let table = bm.hit_table(seq);
    let held = bm.hold_all(table);
    let cached = SeqView { num_cached: (hits * size) as nat, table, ..seq };
    let (next, placed) = bm.allocated(seq);
    block_proofs::lemma_hit_table(bm, seq);
    block_proofs::lemma_hold_all(bm, table);
    block_proofs::lemma_allocated(bm, seq);
    sequence::lemma_shifted_blocks(seq.num_new as int, size, hits);
    sequence::lemma_ceil_div(seq.num_tokens as int, size);
    assert(0 <= hits * size) by (nonlinear_arith)
        requires
            hits >= 0,
            size >= 0,
    ;
    assert(cached.context() == seq.num_tokens);
    assert(hashes_are_distinct(cached)) by {
        assert(cached.tokens == seq.tokens);
        assert(cached.num_blocks() == seq.num_blocks());
    }
    assert forall|j: int| 0 <= j < seq.num_blocks() - 1 implies #[trigger] next.hit(seq, j) == Some(
        placed.table[j],
    ) by {
        let h = block_manager::chain_hash(seq.tokens, bm.block_size, j);
        if j < hits {
            assert(bm.hit(seq, j) == Some(table[j]));
            assert(placed.table[j] == placed.table.take(hits)[j]);
            assert(held.lookup(h, seq.block(j)) == bm.lookup(h, seq.block(j)));
            block_proofs::lemma_hold_all_counts(bm, table, table[j] as int);
            block_proofs::lemma_count_contains(table, table[j]);
            assert(table.contains(table[j]));
            assert forall|k: int| hits <= k < cached.context_blocks() implies
                #[trigger] block_manager::chain_hash(cached.tokens, held.block_size, k) != h by {
            }
            lemma_fill_keeps_entry(held, cached, hits, table, h);
            assert(next.blocks[table[j] as int].tokens == bm.blocks[table[j] as int].tokens);
        } else {
            lemma_fill_enters(held, cached, hits, table, j);
            assert(cached.block(j) == seq.block(j));
        }
    }
    lemma_all_hits(next, seq, 0);
    assert(next.hit_table(seq) =~= placed.table.take(seq.num_blocks() - 1)) by {
        assert forall|j: int| 0 <= j < seq.num_blocks() - 1 implies next.hit_table(seq)[j]
            == placed.table.take(seq.num_blocks() - 1)[j] by {
            assert(next.hit(seq, j) == Some(placed.table[j]));
        }
    }
}

proof fn lemma_all_hits(bm: BmView, seq: SeqView, i: int)
    requires
        0 <= i <= seq.num_blocks() - 1,
        forall|j: int| i <= j < seq.num_blocks() - 1 ==> (#[trigger] bm.hit(seq, j)) is Some,
    ensures
        bm.hits_from(seq, i) == seq.num_blocks() - 1 - i,
    decreases seq.num_blocks() - i,
{
    if i < seq.num_blocks() - 1 {
        assert(bm.hit(seq, i) is Some);
        lemma_all_hits(bm, seq, i + 1);
    }
}

/// Two sequences that start with the same `n` full blocks share the cache: what is found
/// for a leading block of one is found for it of the other.
pub proof fn common_prefix_is_shared(bm: BmView, a: SeqView, b: SeqView, n: int, i: int)
    requires
        bm.block_size > 0,
        a.block_size == bm.block_size,
        b.block_size == bm.block_size,
        0 <= i < n,
        n < a.num_blocks(),
        n < b.num_blocks(),
        a.num_tokens == a.tokens.len(),
        b.num_tokens == b.tokens.len(),
        a.tokens.take(n * a.block_size) == b.tokens.take(n * a.block_size),
    ensures
        block_manager::chain_hash(a.tokens, bm.block_size, i) == block_manager::chain_hash(
            b.tokens,
            bm.block_size,
            i,
        ),
        bm.hit(a, i) == bm.hit(b, i),
    decreases i,
{
    let size = bm.block_size as int;
    if i > 0 {
        common_prefix_is_shared(bm, a, b, n, i - 1);
    } else {
        assert(block_manager::chain_hash(a.tokens, bm.block_size, i - 1) == NO_HASH);
        assert(block_manager::chain_hash(b.tokens, bm.block_size, i - 1) == NO_HASH);
    }
    sequence::lemma_block_bounds(a.num_tokens as int, size, i);
    sequence::lemma_block_bounds(b.num_tokens as int, size, i);
    sequence::lemma_block_bounds(a.num_tokens as int, size, n);
    sequence::lemma_block_bounds(b.num_tokens as int, size, n);
    assert((i + 1) * size <= n * size) by (nonlinear_arith)
        requires
            i + 1 <= n,
            size > 0,
    ;
    let common = a.tokens.take(n * size);
    assert(a.block(i) =~= common.subrange(i * size, (i + 1) * size));
    assert(b.block(i) =~= common.subrange(i * size, (i + 1) * size));
}

/// While a block is held, what it holds does not change under a sequence: allocating for
/// another sequence leaves hash and tokens of every held block as they are.
pub proof fn allocation_keeps_held_blocks(bm: BmView, seq: SeqView, b: int)
    requires
        bm.wf(),
        bm.block_size > 0,
        seq.block_size == bm.block_size,
        seq.wf(),
        bm.hits(seq) * bm.block_size + seq.num_new <= seq.num_tokens,
        bm.can_hold(seq),
        0 <= b < bm.blocks.len(),
        bm.blocks[b].ref_count > 0,
    ensures
        bm.allocated(seq).0.blocks[b].hash == bm.blocks[b].hash,
        bm.allocated(seq).0.blocks[b].tokens == bm.blocks[b].tokens,
        bm.allocated(seq).0.blocks[b].ref_count >= bm.blocks[b].ref_count,
{
    block_proofs::lemma_allocated(bm, seq);
}

/// Giving up blocks changes nothing in what any block holds, so that it can be found again
/// until the block is handed out anew.
pub proof fn release_keeps_the_cache(bm: BmView, table: Seq<usize>, h: i64, tokens: Seq<u32>)
    requires
        bm.wf(),
        bm.can_release(table),
    ensures
        bm.release(table).lookup(h, tokens) == bm.lookup(h, tokens),
{
    block_proofs::lemma_release(bm, table);
    if bm.cached.contains_key(h) {
        let b = bm.cached[h] as int;
        assert(bm.release(table).blocks[b].tokens == bm.blocks[b].tokens);
    }
}

/// A running sequence keeps the blocks that it has and gets as many more as its tokens in
/// context need, all of them from the free ones.
pub proof fn append_extends_the_table(bm: BmView, seq: SeqView)
    requires
        bm.wf(),
        bm.block_size > 0,
        seq.block_size == bm.block_size,
        seq.wf(),
        seq.context() <= seq.num_tokens,
        bm.can_extend(seq),
        bm.can_append(seq.num_cached, seq.num_new),
    ensures
        ({
            let (next, longer) = bm.appended(seq);
            &&& longer.table.len() == longer.context_blocks()
            &&& longer.table.take(seq.table.len() as int) == seq.table
            &&& forall|j: int|
                seq.table.len() <= j < longer.table.len() ==> bm.free.contains(
                    #[trigger] longer.table[j],
                )
            &&& next.free.len() == bm.free.len() - (longer.table.len() - seq.table.len())
        }),
{
    append_takes_the_first_free_blocks(bm, seq);
    let (next, longer) = bm.appended(seq);
    let k = seq.context_blocks() - seq.table.len();
    assert(longer.table.take(seq.table.len() as int) =~= seq.table);
    assert forall|j: int| seq.table.len() <= j < longer.table.len() implies bm.free.contains(
        #[trigger] longer.table[j],
    ) by {
        assert(longer.table[j] == bm.free[j - seq.table.len()]);
    }
}

/// Of the blocks of `table` that are free, none stands there twice.
pub open spec fn free_ones_are_distinct(bm: BmView, table: Seq<usize>) -> bool {
    forall|i: int, j: int|
        0 <= i < j < table.len() && #[trigger] table[i] == #[trigger] table[j] ==> bm.used.contains(
            table[i],
        )
}

/// Holding blocks takes those that are free out of the free ones.
proof fn lemma_hold_all_takes(bm: BmView, table: Seq<usize>)
    requires
        bm.wf(),
        forall|i: int| 0 <= i < table.len() ==> (#[trigger] table[i]) < bm.blocks.len(),
        free_ones_are_distinct(bm, table),
    ensures
        bm.hold_all(table).free.len() == bm.free.len() - (table.len() - block_manager::members(
            table,
            bm.used,
        )),
    decreases table.len(),
{
    if table.len() > 0 {
        let rest = table.drop_last();
        let last = table.last();
        let mid = bm.hold_all(rest);
        assert forall|i: int| 0 <= i < rest.len() implies (#[trigger] rest[i])
            < bm.blocks.len() by {
            assert(rest[i] == table[i]);
        }
        assert(last == table[table.len() - 1]);
        assert(free_ones_are_distinct(bm, rest)) by {
            assert forall|i: int, j: int|
                0 <= i < j < rest.len() && #[trigger] rest[i]
                    == #[trigger] rest[j] implies bm.used.contains(rest[i]) by {
                assert(table[i] == table[j]);
            }
        }
        lemma_hold_all_takes(bm, rest);
        block_proofs::lemma_hold_all(bm, rest);
        block_proofs::lemma_hold_all_counts(bm, rest, last as int);
        block_proofs::lemma_count_contains(rest, last);
        block_proofs::lemma_hold(mid, last);
        if !bm.used.contains(last) {
            if rest.contains(last) {
                let k = choose|k: int| 0 <= k < rest.len() && rest[k] == last;
                assert(table[k] == table[table.len() - 1]);
            }
            assert(bm.blocks[last as int].ref_count == 0);
            assert(mid.free.contains(last));
            block_proofs::lemma_remove_value(mid.free, last);
        }
    }
}

/// Fresh blocks are the first free ones, in their order, and no others leave the free ones.
proof fn lemma_fill_order(bm: BmView, seq: SeqView, i: int, table: Seq<usize>)
    requires
        bm.wf(),
        bm.block_size > 0,
        seq.block_size == bm.block_size,
        0 <= i <= seq.context_blocks(),
        bm.free.len() >= seq.context_blocks() - i,
    ensures
        ({
            let (next, longer) = bm.fill(seq, i, table);
            let k = seq.context_blocks() - i;
            &&& longer == table + bm.free.take(k)
            &&& next.free == bm.free.skip(k)
        }),
    decreases seq.context_blocks() - i,
{
    let k = seq.context_blocks() - i;
    if i < seq.context_blocks() {
        let piece = seq.piece(i);
        let h = if piece.len() == bm.block_size {
            block_manager::chain_hash(seq.tokens, bm.block_size, i)
        } else {
            NO_HASH
        };
        let b = bm.free[0];
        let mid = bm.fresh_block(h, piece);
        block_proofs::lemma_fresh_block(bm, h, piece);
        assert(bm.free.contains(b));
        block_proofs::lemma_take(bm, b);
        assert(mid.free == bm.free.subrange(1, bm.free.len() as int));
        lemma_fill_order(mid, seq, i + 1, table.push(b));
        assert(table.push(b) + mid.free.take(k - 1) =~= table + bm.free.take(k));
        assert(mid.free.skip(k - 1) =~= bm.free.skip(k));
    } else {
        assert(table + bm.free.take(0) =~= table);
        assert(bm.free.skip(0) =~= bm.free);
    }
}

/// An allocation takes what it needs and no more: the blocks that were found in the cache, of
/// which those that were free are free no longer, and as many fresh ones as the new tokens fill,
/// from the front of the free ones. This rests on no free block being found twice, for which two
/// blocks of the sequence would need the same hash and the same tokens.
pub proof fn allocation_takes_what_it_needs(bm: BmView, seq: SeqView)
    requires
        bm.wf(),
        bm.block_size > 0,
        seq.block_size == bm.block_size,
        seq.wf(),
        seq.num_new <= bm.token_layout(seq).2,
        bm.free.len() >= sequence::ceil_div(
            bm.token_layout(seq).1 + seq.num_new,
            bm.block_size as int,
        ),
        free_ones_are_distinct(bm, bm.hit_table(seq)),
    ensures
        ({
            let (next, placed) = bm.allocated(seq);
            let (used, free, new) = bm.token_layout(seq);
            let size = bm.block_size as int;
            let fresh = sequence::ceil_div(seq.num_new as int, size);
            let held = bm.hold_all(bm.hit_table(seq));
            &&& placed.num_cached == used + free
            &&& placed.table.len() == (used + free) / size + fresh
            &&& placed.table == bm.hit_table(seq) + held.free.take(fresh)
            &&& next.free == held.free.skip(fresh)
            &&& next.free.len() == bm.free.len() - free / size - fresh
            &&& placed == (SeqView { num_cached: placed.num_cached, table: placed.table, ..seq })
        }),
{
    let size = bm.block_size as int;
    let table = bm.hit_table(seq);
    let hits = bm.hits(seq) as int;
    let held = bm.hold_all(table);
    let in_free = table.len() - block_manager::members(table, bm.used);
    let cached = SeqView { num_cached: (hits * size) as nat, table, ..seq };
    layout_accounts_for_every_token(bm, seq);
    enough_free_blocks_for_allocation(bm, seq);
    block_proofs::lemma_allocated(bm, seq);
    block_proofs::lemma_hit_table(bm, seq);
    block_proofs::lemma_hold_all(bm, table);
    lemma_hold_all_takes(bm, table);
    sequence::lemma_shifted_blocks(seq.num_new as int, size, hits);
    sequence::lemma_ceil_div(seq.num_new as int, size);
    assert(0 <= hits * size && (hits * size) / size == hits && (in_free * size) / size == in_free)
        by (nonlinear_arith)
        requires
            hits >= 0,
            size > 0,
    ;
    lemma_fill_order(held, cached, hits, table);
}

/// An allocation keeps the blocks in order: every block is free or in use and never both, the
/// known hashes lead to the blocks that have them, and each block is held once more for every
/// time that it stands in the table of the sequence.
pub proof fn allocation_counts_every_block(bm: BmView, seq: SeqView)
    requires
        bm.wf(),
        bm.block_size > 0,
        seq.block_size == bm.block_size,
        seq.wf(),
        bm.hits(seq) * bm.block_size + seq.num_new <= seq.num_tokens,
        bm.can_hold(seq),
    ensures
        ({
            let (next, placed) = bm.allocated(seq);
            &&& next.wf()
            &&& next.blocks.len() == bm.blocks.len()
            &&& next.block_size == bm.block_size
            &&& forall|x: int|
                0 <= x < bm.blocks.len() ==> (#[trigger] next.blocks[x]).ref_count
                    == bm.blocks[x].ref_count + block_manager::count_of(placed.table, x)
        }),
{
    block_proofs::lemma_allocated(bm, seq);
}

/// The blocks that a running sequence gets are the first free ones, in their order.
proof fn lemma_append_order(bm: BmView, seq: SeqView, i: int, table: Seq<usize>)
    requires
        bm.wf(),
        bm.block_size > 0,
        seq.block_size == bm.block_size,
        0 <= i <= seq.context_blocks(),
        i <= table.len() <= i + 1,
        table.len() <= seq.context_blocks(),
        forall|j: int| 0 <= j < table.len() ==> (#[trigger] table[j]) < bm.blocks.len(),
        i < table.len() ==> bm.is_open(table[i]),
        bm.free.len() >= seq.context_blocks() - table.len(),
    ensures
        ({
            let (next, longer) = bm.append_from(seq, i, table);
            let k = seq.context_blocks() - table.len();
            &&& longer == table + bm.free.take(k)
            &&& next.free == bm.free.skip(k)
        }),
    decreases seq.context_blocks() - i,
{
    let k = seq.context_blocks() - table.len();
    if i < seq.context_blocks() {
        let (mid, next) = bm.append_block(seq, i, table);
        block_proofs::lemma_append_block(bm, seq, i, table);
        if i < table.len() {
            assert(next == table);
            assert(mid.free == bm.free);
        } else {
            assert(bm.free.contains(bm.free[0]));
            block_proofs::lemma_take(bm, bm.free[0]);
            assert(mid.free == bm.free.subrange(1, bm.free.len() as int));
            assert(table.push(bm.free[0]) + mid.free.take(k - 1) =~= table + bm.free.take(k));
            assert(mid.free.skip(k - 1) =~= bm.free.skip(k));
        }
        lemma_append_order(mid, seq, i + 1, next);
    } else {
        assert(table + bm.free.take(0) =~= table);
        assert(bm.free.skip(0) =~= bm.free);
    }
}

/// The blocks that a running sequence gets are the first free ones, in their order, behind those
/// that it has, and no others leave the free ones.
pub proof fn append_takes_the_first_free_blocks(bm: BmView, seq: SeqView)
    requires
        bm.wf(),
        bm.block_size > 0,
        seq.block_size == bm.block_size,
        seq.wf(),
        seq.context() <= seq.num_tokens,
        bm.can_extend(seq),
        bm.can_append(seq.num_cached, seq.num_new),
    ensures
        ({
            let (next, longer) = bm.appended(seq);
            let k = seq.context_blocks() - seq.table.len();
            &&& 0 <= k <= bm.free.len()
            &&& longer.table == seq.table + bm.free.take(k)
            &&& next.free == bm.free.skip(k)
        }),
{
    let size = bm.block_size as int;
    let first = seq.num_cached as int / size;
    sequence::lemma_floor_div(seq.num_cached as int, size);
    sequence::lemma_ceil_monotone(seq.num_cached as int, seq.context() as int, size);
    if seq.num_cached as int % size != 0 {
        assert(seq.table[first] == seq.table.last());
    }
    lemma_append_order(bm, seq, first, seq.table);
}

} // verus!
