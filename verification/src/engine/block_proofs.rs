//! What each step on the blocks keeps.
use crate::engine::block_manager;
use crate::engine::block_manager::{BmView, NO_HASH};
use crate::engine::sequence;
use crate::engine::sequence::SeqView;
use vstd::prelude::*;

verus! {

/// A sequence without duplicates, with one of its values taken out.
pub proof fn lemma_remove_value(s: Seq<usize>, v: usize)
    requires
        s.no_duplicates(),
        s.contains(v),
    ensures
        s.remove_value(v).no_duplicates(),
        s.remove_value(v).len() == s.len() - 1,
        forall|x: usize| #[trigger]
            s.remove_value(v).contains(x) <==> (s.contains(x) && x != v),
        s[0] == v ==> s.remove_value(v) == s.subrange(1, s.len() as int),
        forall|i: int| 0 <= i < s.len() && s[i] == v ==> s.remove_value(v) == #[trigger] s.remove(
            i,
        ),
{
    s.index_of_first_ensures(v);
    let k = s.index_of_first(v)->0;
    let t = s.remove_value(v);
    assert(t == s.remove(k));
    assert forall|x: usize| #[trigger] t.contains(x) <==> (s.contains(x) && x != v) by {
        if t.contains(x) {
            let i = choose|i: int| 0 <= i < t.len() && t[i] == x;
            if i < k {
                assert(s[i] == x);
            } else {
                assert(s[i + 1] == x);
            }
        }
        if s.contains(x) && x != v {
            let i = choose|i: int| 0 <= i < s.len() && s[i] == x;
            if i < k {
                assert(t[i] == x);
            } else {
                assert(t[i - 1] == x);
            }
        }
    }
    if s[0] == v {
        assert(k == 0);
        assert(t =~= s.subrange(1, s.len() as int));
    }
}

/// One more sequence holds block `b`.
pub proof fn lemma_hold(bm: BmView, b: usize)
    requires
        bm.wf(),
        b < bm.blocks.len(),
    ensures
        bm.hold(b).wf(),
        bm.blocks[b as int].ref_count == 0 ==> bm.hold(b).free.len() + 1 == bm.free.len(),
        bm.hold(b).used == bm.used.insert(b),
{
    let next = bm.hold(b);
    if bm.blocks[b as int].ref_count == 0 {
        assert(bm.free.contains(b));
        lemma_remove_value(bm.free, b);
    } else {
        assert(bm.used.contains(b));
        assert(bm.used.insert(b) =~= bm.used);
    }
    assert forall|x: usize| #[trigger]
        next.free.contains(x) <==> (x < next.blocks.len() && next.blocks[x as int].ref_count
            == 0) by {
        assert(bm.free.contains(x) <==> (x < bm.blocks.len() && bm.blocks[x as int].ref_count
            == 0));
    }
    assert forall|x: usize| #[trigger]
        next.used.contains(x) <==> (x < next.blocks.len() && next.blocks[x as int].ref_count
            > 0) by {
        assert(bm.used.contains(x) <==> (x < bm.blocks.len() && bm.blocks[x as int].ref_count
            > 0));
    }
}

/// One sequence less holds block `b`.
pub proof fn lemma_drop_one(bm: BmView, b: usize)
    requires
        bm.wf(),
        b < bm.blocks.len(),
        bm.blocks[b as int].ref_count > 0,
    ensures
        bm.drop_one(b).wf(),
        bm.free.len() <= bm.drop_one(b).free.len(),
{
    let next = bm.drop_one(b);
    assert(bm.used.contains(b));
    assert(!bm.free.contains(b));
    assert forall|x: usize| #[trigger]
        next.free.contains(x) <==> (x < next.blocks.len() && next.blocks[x as int].ref_count
            == 0) by {
        assert(bm.free.contains(x) <==> (x < bm.blocks.len() && bm.blocks[x as int].ref_count
            == 0));
        if next.blocks[b as int].ref_count == 0 {
            assert(next.free == bm.free.push(b));
            if x == b {
                assert(next.free[bm.free.len() as int] == b);
            }
            if bm.free.contains(x) {
                let i = choose|i: int| 0 <= i < bm.free.len() && bm.free[i] == x;
                assert(next.free[i] == x);
            }
            if next.free.contains(x) && x != b {
                let i = choose|i: int| 0 <= i < next.free.len() && next.free[i] == x;
                assert(bm.free[i] == x);
            }
        }
    }
    assert forall|x: usize| #[trigger]
        next.used.contains(x) <==> (x < next.blocks.len() && next.blocks[x as int].ref_count
            > 0) by {
        assert(bm.used.contains(x) <==> (x < bm.blocks.len() && bm.blocks[x as int].ref_count
            > 0));
    }
    if next.blocks[b as int].ref_count == 0 {
        assert(next.free.no_duplicates()) by {
            assert forall|i: int, j: int|
                0 <= i < next.free.len() && 0 <= j < next.free.len() && i
                    != j implies next.free[i] != next.free[j] by {
                if i < bm.free.len() {
                    assert(bm.free.contains(next.free[i]));
                }
                if j < bm.free.len() {
                    assert(bm.free.contains(next.free[j]));
                }
            }
        }
    }
}

/// Free block `b` is taken.
pub proof fn lemma_take(bm: BmView, b: usize)
    requires
        bm.wf(),
        bm.free.contains(b),
    ensures
        b < bm.blocks.len(),
        bm.take(b).wf(),
        bm.take(b).is_open(b),
        bm.take(b).free.len() + 1 == bm.free.len(),
        bm.free[0] == b ==> bm.take(b).free == bm.free.subrange(1, bm.free.len() as int),
        forall|x: usize| #[trigger]
            bm.is_open(x) && x < bm.blocks.len() ==> bm.take(b).is_open(x),
        forall|h: i64| #[trigger]
            bm.take(b).cached.contains_key(h) ==> bm.cached.contains_key(h)
                && bm.take(b).cached[h] == bm.cached[h] && bm.cached[h] != b,
{
    let next = bm.take(b);
    lemma_remove_value(bm.free, b);
    assert forall|x: usize| #[trigger]
        next.free.contains(x) <==> (x < next.blocks.len() && next.blocks[x as int].ref_count
            == 0) by {
        assert(bm.free.contains(x) <==> (x < bm.blocks.len() && bm.blocks[x as int].ref_count
            == 0));
    }
    assert forall|x: usize| #[trigger]
        next.used.contains(x) <==> (x < next.blocks.len() && next.blocks[x as int].ref_count
            > 0) by {
        assert(bm.used.contains(x) <==> (x < bm.blocks.len() && bm.blocks[x as int].ref_count
            > 0));
    }
    assert forall|h: i64| #[trigger] next.cached.contains_key(h) implies bm.cached.contains_key(h)
        && next.cached[h] == bm.cached[h] && bm.cached[h] != b by {
        assert(bm.cached.contains_key(h));
    }
    assert(!(next.cached.contains_key(NO_HASH) && next.cached[NO_HASH] == b));
    assert forall|x: usize| #[trigger] bm.is_open(x) && x < bm.blocks.len() implies next.is_open(
        x,
    ) by {
        if next.cached.contains_key(NO_HASH) {
            assert(bm.cached.contains_key(NO_HASH));
        }
    }
}

/// Open block `b` is filled.
pub proof fn lemma_record(bm: BmView, b: usize, h: i64, tokens: Seq<u32>)
    requires
        bm.wf(),
        b < bm.blocks.len(),
        bm.is_open(b),
    ensures
        bm.record(b, h, tokens).wf(),
        forall|x: usize| #[trigger]
            bm.is_open(x) && x < bm.blocks.len() && x != b ==> bm.record(b, h, tokens).is_open(x),
{
    let next = bm.record(b, h, tokens);
    assert forall|k: i64| #[trigger] next.cached.contains_key(k) implies next.cached[k]
        < next.blocks.len() && next.blocks[next.cached[k] as int].hash == k by {
        if k != h {
            assert(bm.cached.contains_key(k));
        }
    }
    assert forall|x: usize| #[trigger]
        next.free.contains(x) <==> (x < next.blocks.len() && next.blocks[x as int].ref_count
            == 0) by {
        assert(bm.free.contains(x) <==> (x < bm.blocks.len() && bm.blocks[x as int].ref_count
            == 0));
    }
    assert forall|x: usize| #[trigger]
        next.used.contains(x) <==> (x < next.blocks.len() && next.blocks[x as int].ref_count
            > 0) by {
        assert(bm.used.contains(x) <==> (x < bm.blocks.len() && bm.blocks[x as int].ref_count
            > 0));
    }
}

/// To fill a cached block anew with what it holds is to hold it once more.
pub proof fn lemma_hold_is_record(bm: BmView, b: usize, h: i64, tokens: Seq<u32>)
    requires
        bm.wf(),
        bm.lookup(h, tokens) == Some(b),
    ensures
        b < bm.blocks.len(),
        bm.blocks[b as int].ref_count == 0 ==> bm.take(b).record(b, h, tokens) == bm.hold(b),
        bm.blocks[b as int].ref_count > 0 ==> bm.hold(b).record(b, h, tokens) == bm.hold(b),
{
    assert(bm.cached.contains_key(h));
    if bm.blocks[b as int].ref_count == 0 {
        let next = bm.take(b).record(b, h, tokens);
        assert(next.cached =~= bm.cached);
        assert(next.blocks =~= bm.hold(b).blocks);
    } else {
        let next = bm.hold(b).record(b, h, tokens);
        assert(next.cached =~= bm.cached);
        assert(next.blocks =~= bm.hold(b).blocks);
    }
}

/// To hold blocks changes nothing but how many hold them.
pub proof fn lemma_hold_all(bm: BmView, table: Seq<usize>)
    requires
        bm.wf(),
        forall|i: int| 0 <= i < table.len() ==> (#[trigger] table[i]) < bm.blocks.len(),
    ensures
        bm.hold_all(table).wf(),
        bm.hold_all(table).block_size == bm.block_size,
        bm.hold_all(table).cached == bm.cached,
        bm.hold_all(table).blocks.len() == bm.blocks.len(),
        forall|b: int|
            0 <= b < bm.blocks.len() ==> {
                &&& (#[trigger] bm.hold_all(table).blocks[b]).hash == bm.blocks[b].hash
                &&& bm.hold_all(table).blocks[b].tokens == bm.blocks[b].tokens
                &&& bm.hold_all(table).blocks[b].block_id == bm.blocks[b].block_id
            },
        forall|h: i64, tokens: Seq<u32>|
            bm.hold_all(table).lookup(h, tokens) == #[trigger] bm.lookup(h, tokens),
        forall|b: usize|
            b < bm.blocks.len() ==> bm.hold_all(table).is_open(b) == #[trigger] bm.is_open(b),
    decreases table.len(),
{
    if table.len() > 0 {
        let rest = table.drop_last();
        assert forall|i: int| 0 <= i < rest.len() implies (#[trigger] rest[i])
            < bm.blocks.len() by {
            assert(rest[i] == table[i]);
        }
        lemma_hold_all(bm, rest);
        let mid = bm.hold_all(rest);
        let last = table.last();
        assert(last == table[table.len() - 1]);
        lemma_hold(mid, last);
        let end = mid.hold(last);
        assert forall|b: int| 0 <= b < bm.blocks.len() implies {
            &&& (#[trigger] end.blocks[b]).hash == bm.blocks[b].hash
            &&& end.blocks[b].tokens == bm.blocks[b].tokens
            &&& end.blocks[b].block_id == bm.blocks[b].block_id
        } by {
            assert(mid.blocks[b].hash == bm.blocks[b].hash);
        }
    }
    let end = bm.hold_all(table);
    assert forall|h: i64, tokens: Seq<u32>| end.lookup(h, tokens) == #[trigger] bm.lookup(
        h,
        tokens,
    ) by {
        if bm.cached.contains_key(h) {
            assert(end.blocks[bm.cached[h] as int].tokens == bm.blocks[bm.cached[h] as int].tokens);
        }
    }
    assert forall|b: usize| b < bm.blocks.len() implies end.is_open(b) == #[trigger] bm.is_open(
        b,
    ) by {
        assert(end.blocks[b as int].hash == bm.blocks[b as int].hash);
    }
}

/// Every block counted by `hits_from` is there.
pub proof fn lemma_hits(bm: BmView, seq: SeqView, i: int)
    ensures
        forall|j: int|
            i <= j < i + bm.hits_from(seq, i) ==> (#[trigger] bm.hit(seq, j)) is Some,
        bm.hit(seq, i + bm.hits_from(seq, i)) is None,
    decreases seq.num_blocks() - i,
{
    if bm.hit(seq, i) is Some {
        lemma_hits(bm, seq, i + 1);
    }
}

/// The leading blocks that are there already, one by one.
pub proof fn lemma_hit_table(bm: BmView, seq: SeqView)
    requires
        bm.wf(),
    ensures
        bm.hit_table(seq).len() == bm.hits(seq),
        seq.num_blocks() >= 1 ==> bm.hits(seq) < seq.num_blocks(),
        forall|j: int|
            0 <= j < bm.hits(seq) ==> {
                &&& (#[trigger] bm.hit_table(seq)[j]) < bm.blocks.len()
                &&& bm.hit(seq, j) == Some(bm.hit_table(seq)[j])
                &&& bm.blocks[bm.hit_table(seq)[j] as int].tokens == seq.block(j)
                &&& bm.blocks[bm.hit_table(seq)[j] as int].hash == block_manager::chain_hash(
                    seq.tokens,
                    bm.block_size,
                    j,
                )
            },
{
    lemma_hits(bm, seq, 0);
    let table = bm.hit_table(seq);
    assert forall|j: int| 0 <= j < bm.hits(seq) implies {
        &&& (#[trigger] table[j]) < bm.blocks.len()
        &&& bm.hit(seq, j) == Some(table[j])
        &&& bm.blocks[table[j] as int].tokens == seq.block(j)
        &&& bm.blocks[table[j] as int].hash == block_manager::chain_hash(
            seq.tokens,
            bm.block_size,
            j,
        )
    } by {
        assert(bm.hit(seq, j) is Some);
        assert(bm.cached.contains_key(
            block_manager::chain_hash(seq.tokens, bm.block_size, j),
        ));
    }
    if seq.num_blocks() >= 1 && bm.hits(seq) >= seq.num_blocks() {
        assert(bm.hit(seq, seq.num_blocks() - 1) is Some);
    }
}

pub proof fn lemma_count_bound(table: Seq<usize>, b: int)
    ensures
        block_manager::count_of(table, b) <= table.len(),
    decreases table.len(),
{
    if table.len() > 0 {
        lemma_count_bound(table.drop_last(), b);
    }
}

/// A block is held once more for each time that it stands in the table.
pub proof fn lemma_hold_all_counts(bm: BmView, table: Seq<usize>, b: int)
    requires
        0 <= b < bm.blocks.len(),
        forall|i: int| 0 <= i < table.len() ==> (#[trigger] table[i]) < bm.blocks.len(),
    ensures
        bm.hold_all(table).blocks.len() == bm.blocks.len(),
        bm.hold_all(table).blocks[b].ref_count == bm.blocks[b].ref_count + block_manager::count_of(table, b),
        block_manager::count_of(table, b) <= table.len(),
    decreases table.len(),
{
    lemma_count_bound(table, b);
    if table.len() > 0 {
        let rest = table.drop_last();
        assert forall|i: int| 0 <= i < rest.len() implies (#[trigger] rest[i])
            < bm.blocks.len() by {
            assert(rest[i] == table[i]);
        }
        lemma_hold_all_counts(bm, rest, b);
        assert(table.last() == table[table.len() - 1]);
        lemma_hold_all_counts(bm, rest, table.last() as int);
    }
}

/// The last block of a table is given up.
pub proof fn lemma_release_step(bm: BmView, table: Seq<usize>)
    requires
        bm.wf(),
        bm.can_release(table),
        table.len() > 0,
    ensures
        table.last() < bm.blocks.len(),
        bm.blocks[table.last() as int].ref_count > 0,
        bm.drop_one(table.last()).wf(),
        bm.drop_one(table.last()).can_release(table.drop_last()),
        bm.release(table) == bm.drop_one(table.last()).release(table.drop_last()),
{
    let b = table.last();
    let rest = table.drop_last();
    assert(b == table[table.len() - 1]);
    assert(block_manager::count_of(table, b as int) <= bm.blocks[b as int].ref_count);
    lemma_drop_one(bm, b);
    let next = bm.drop_one(b);
    assert forall|i: int| 0 <= i < rest.len() implies (#[trigger] rest[i])
        < next.blocks.len() by {
        assert(rest[i] == table[i]);
    }
    assert forall|x: int| 0 <= x < next.blocks.len() implies block_manager::count_of(rest, x) <= (
    #[trigger] next.blocks[x]).ref_count by {
        assert(block_manager::count_of(table, x) <= bm.blocks[x].ref_count);
    }
}

/// One block of the tokens in context gets its place.
pub proof fn lemma_append_block(bm: BmView, seq: SeqView, i: int, table: Seq<usize>)
    requires
        bm.wf(),
        bm.block_size > 0,
        0 <= i <= table.len() <= i + 1,
        forall|j: int| 0 <= j < table.len() ==> (#[trigger] table[j]) < bm.blocks.len(),
        i < table.len() ==> bm.is_open(table[i]),
        i == table.len() ==> bm.free.len() > 0,
    ensures
        ({
            let (next, longer) = bm.append_block(seq, i, table);
            &&& next.wf()
            &&& next.block_size == bm.block_size
            &&& next.blocks.len() == bm.blocks.len()
            &&& longer.len() == i + 1
            &&& forall|j: int| 0 <= j < table.len() ==> #[trigger] longer[j] == table[j]
            &&& i == table.len() ==> longer[i] == bm.free[0]
            &&& forall|j: int| 0 <= j < longer.len() ==> (#[trigger] longer[j]) < bm.blocks.len()
            &&& next.free.len() == bm.free.len() - (longer.len() - table.len())
            &&& seq.piece(i).len() != bm.block_size ==> next.is_open(longer[i])
        }),
{
    if i == table.len() {
        assert(bm.free.contains(bm.free[0]));
        lemma_take(bm, bm.free[0]);
    }
    let (mid, longer) = if i < table.len() {
        (bm, table)
    } else {
        (bm.take(bm.free[0]), table.push(bm.free[0]))
    };
    let prefix = if i > 0 {
        bm.blocks[table[i - 1] as int].hash
    } else {
        NO_HASH
    };
    let piece = seq.piece(i);
    if piece.len() == bm.block_size {
        lemma_record(
            mid,
            longer[i],
            block_manager::hash_after(block_manager::widen(piece), prefix),
            piece,
        );
    }
}

/// The first free block is taken, and perhaps filled.
pub proof fn lemma_fresh_block(bm: BmView, h: i64, tokens: Seq<u32>)
    requires
        bm.wf(),
        bm.free.len() > 0,
    ensures
        ({
            let b = bm.free[0];
            let next = bm.fresh_block(h, tokens);
            &&& b < bm.blocks.len()
            &&& bm.blocks[b as int].ref_count == 0
            &&& next.wf()
            &&& next.block_size == bm.block_size
            &&& next.blocks.len() == bm.blocks.len()
            &&& next.free.len() + 1 == bm.free.len()
            &&& next.blocks[b as int].ref_count == 1
            &&& forall|x: int|
                0 <= x < bm.blocks.len() && x != b ==> #[trigger] next.blocks[x] == bm.blocks[x]
            &&& forall|x: usize| #[trigger]
                bm.is_open(x) && x < bm.blocks.len() && x != b ==> next.is_open(x)
            &&& h == NO_HASH ==> next.is_open(b)
            &&& h != NO_HASH ==> next.blocks[b as int].hash == h && next.blocks[b as int].tokens
                == tokens && next.cached.contains_key(h) && next.cached[h] == b
            &&& forall|k: i64|
                k != h && bm.cached.contains_key(k) && bm.cached[k] != b
                    ==> #[trigger] next.cached.contains_key(k) && next.cached[k] == bm.cached[k]
        }),
{
    let b = bm.free[0];
    assert(bm.free.contains(b));
    lemma_take(bm, b);
    if h != NO_HASH {
        lemma_record(bm.take(b), b, h, tokens);
    }
}

/// The number of times a block stands in a table that grows by one.
pub proof fn lemma_count_push(table: Seq<usize>, b: usize, x: int)
    ensures
        block_manager::count_of(table.push(b), x) == block_manager::count_of(table, x)
            + if b == x {
            1nat
        } else {
            0
        },
{
    assert(table.push(b).drop_last() =~= table);
}

/// Fresh blocks are handed out: the table grows by blocks that nobody held, one for each
/// block of the tokens in context, and nothing changes in the blocks that are held.
pub proof fn lemma_fill(bm: BmView, seq: SeqView, i: int, table: Seq<usize>)
    requires
        bm.wf(),
        bm.block_size > 0,
        seq.block_size == bm.block_size,
        0 <= i <= seq.context_blocks(),
        table.len() == i,
        forall|j: int| 0 <= j < table.len() ==> (#[trigger] table[j]) < bm.blocks.len(),
        bm.free.len() >= seq.context_blocks() - i,
    ensures
        ({
            let (next, longer) = bm.fill(seq, i, table);
            &&& next.wf()
            &&& next.block_size == bm.block_size
            &&& next.blocks.len() == bm.blocks.len()
            &&& next.free.len() == bm.free.len() - (seq.context_blocks() - i)
            &&& longer.len() == seq.context_blocks()
            &&& longer.take(i) == table
            &&& forall|j: int| 0 <= j < longer.len() ==> (#[trigger] longer[j]) < bm.blocks.len()
            &&& forall|j: int|
                i <= j < longer.len() ==> bm.blocks[(#[trigger] longer[j]) as int].ref_count == 0
                    && next.blocks[longer[j] as int].ref_count == 1
            &&& forall|x: int|
                0 <= x < bm.blocks.len() ==> (#[trigger] next.blocks[x]).ref_count
                    + block_manager::count_of(table, x) == bm.blocks[x].ref_count
                    + block_manager::count_of(longer, x)
            &&& forall|x: int|
                0 <= x < bm.blocks.len() && bm.blocks[x].ref_count > 0
                    ==> #[trigger] next.blocks[x] == bm.blocks[x]
            &&& forall|x: usize| #[trigger]
                bm.is_open(x) && x < bm.blocks.len() && bm.blocks[x as int].ref_count > 0
                    ==> next.is_open(x)
            &&& i < longer.len() && seq.piece(longer.len() - 1).len() != bm.block_size
                ==> next.is_open(longer.last())
        }),
    decreases seq.context_blocks() - i,
{
    if i < seq.context_blocks() {
        let piece = seq.piece(i);
        let h = if piece.len() == bm.block_size {
            block_manager::chain_hash(seq.tokens, bm.block_size, i)
        } else {
            NO_HASH
        };
        let b = bm.free[0];
        let mid = bm.fresh_block(h, piece);
        let pushed = table.push(b);
        lemma_fresh_block(bm, h, piece);
        assert forall|j: int| 0 <= j < pushed.len() implies (#[trigger] pushed[j])
            < mid.blocks.len() by {
            if j < table.len() {
                assert(pushed[j] == table[j]);
            }
        }
        lemma_fill(mid, seq, i + 1, pushed);
        let (next, longer) = bm.fill(seq, i, table);
        assert((next, longer) == mid.fill(seq, i + 1, pushed));
        assert(longer.take(i) =~= longer.take(i + 1).take(i));
        assert(longer.take(i) =~= table);
        assert(longer[i] == longer.take(i + 1)[i]);
        assert forall|j: int| i <= j < longer.len() implies bm.blocks[(
        #[trigger] longer[j]) as int].ref_count == 0 && next.blocks[longer[j] as int].ref_count
            == 1 by {
            if j > i {
                assert(mid.blocks[longer[j] as int].ref_count == 0);
                assert(longer[j] != b);
            } else {
                assert(next.blocks[b as int] == mid.blocks[b as int]);
            }
        }
        assert forall|x: int| 0 <= x < bm.blocks.len() implies (
        #[trigger] next.blocks[x]).ref_count + block_manager::count_of(table, x)
            == bm.blocks[x].ref_count + block_manager::count_of(longer, x) by {
            lemma_count_push(table, b, x);
        }
        assert forall|x: int|
            0 <= x < bm.blocks.len() && bm.blocks[x].ref_count > 0 implies #[trigger] next.blocks[x]
            == bm.blocks[x] by {
            assert(mid.blocks[x] == bm.blocks[x]);
        }
        assert forall|x: usize| #[trigger]
            bm.is_open(x) && x < bm.blocks.len() && bm.blocks[x as int].ref_count
                > 0 implies next.is_open(x) by {
            assert(mid.is_open(x));
            assert(mid.blocks[x as int] == bm.blocks[x as int]);
        }
        if i + 1 == seq.context_blocks() {
            assert(next == mid && longer == pushed);
        }
    } else {
        assert(table.take(i) =~= table);
    }
}

/// The blocks of a running sequence grow: the table grows by blocks that nobody held, and
/// of the blocks that are held only the open one of the sequence may be filled.
pub proof fn lemma_append_from(bm: BmView, seq: SeqView, i: int, table: Seq<usize>)
    requires
        bm.wf(),
        bm.block_size > 0,
        seq.block_size == bm.block_size,
        0 <= i <= seq.context_blocks(),
        i <= table.len() <= i + 1,
        table.len() <= seq.context_blocks(),
        forall|j: int| 0 <= j < table.len() ==> (#[trigger] table[j]) < bm.blocks.len(),
        i < table.len() ==> bm.is_open(table[i]) && bm.blocks[table[i] as int].ref_count == 1,
        bm.free.len() >= seq.context_blocks() - table.len(),
    ensures
        ({
            let (next, longer) = bm.append_from(seq, i, table);
            &&& next.wf()
            &&& next.block_size == bm.block_size
            &&& next.blocks.len() == bm.blocks.len()
            &&& next.free.len() == bm.free.len() - (seq.context_blocks() - table.len())
            &&& longer.len() == seq.context_blocks()
            &&& longer.take(table.len() as int) == table
            &&& forall|j: int| 0 <= j < longer.len() ==> (#[trigger] longer[j]) < bm.blocks.len()
            &&& forall|j: int|
                table.len() <= j < longer.len() ==> bm.blocks[(
                #[trigger] longer[j]) as int].ref_count == 0 && next.blocks[longer[j] as int].ref_count
                    == 1
            &&& forall|x: int|
                0 <= x < bm.blocks.len() ==> (#[trigger] next.blocks[x]).ref_count
                    + block_manager::count_of(table, x) == bm.blocks[x].ref_count
                    + block_manager::count_of(longer, x)
            &&& forall|x: int|
                0 <= x < bm.blocks.len() && bm.blocks[x].ref_count > 0 && (i < table.len() ==> x
                    != table[i]) ==> #[trigger] next.blocks[x] == bm.blocks[x]
            &&& forall|x: usize| #[trigger]
                bm.is_open(x) && x < bm.blocks.len() && bm.blocks[x as int].ref_count > 0 && (i
                    < table.len() ==> x != table[i]) ==> next.is_open(x)
            &&& i < longer.len() && seq.piece(longer.len() - 1).len() != bm.block_size
                ==> next.is_open(longer.last())
        }),
    decreases seq.context_blocks() - i,
{
    if i < seq.context_blocks() {
        lemma_append_block(bm, seq, i, table);
        let (mid, pushed) = bm.append_block(seq, i, table);
        let (next, longer) = bm.append_from(seq, i, table);
        lemma_append_block_frame(bm, seq, i, table);
        lemma_append_from(mid, seq, i + 1, pushed);
        assert(longer.take(table.len() as int) =~= longer.take(pushed.len() as int).take(
            table.len() as int,
        ));
        assert(pushed.take(table.len() as int) =~= table);
        assert(longer[i] == longer.take(pushed.len() as int)[i]);
        assert forall|j: int| table.len() <= j < longer.len() implies bm.blocks[(
        #[trigger] longer[j]) as int].ref_count == 0 && next.blocks[longer[j] as int].ref_count
            == 1 by {
            if j > i {
                assert(mid.blocks[longer[j] as int].ref_count == 0);
                assert(bm.blocks[longer[j] as int].ref_count == 0);
            } else {
                assert(longer[j] == pushed[i]);
                assert(next.blocks[pushed[i] as int] == mid.blocks[pushed[i] as int]);
            }
        }
        assert forall|x: int|
            0 <= x < bm.blocks.len() && bm.blocks[x].ref_count > 0 && (i < table.len() ==> x
                != table[i]) implies #[trigger] next.blocks[x] == bm.blocks[x] by {
            assert(mid.blocks[x] == bm.blocks[x]);
        }
        assert forall|x: usize| #[trigger]
            bm.is_open(x) && x < bm.blocks.len() && bm.blocks[x as int].ref_count > 0 && (i
                < table.len() ==> x != table[i]) implies next.is_open(x) by {
            assert(mid.is_open(x));
            assert(mid.blocks[x as int] == bm.blocks[x as int]);
        }
        assert forall|x: int| 0 <= x < bm.blocks.len() implies (
        #[trigger] next.blocks[x]).ref_count + block_manager::count_of(table, x)
            == bm.blocks[x].ref_count + block_manager::count_of(longer, x) by {
            assert(mid.blocks[x].ref_count + block_manager::count_of(table, x)
                == bm.blocks[x].ref_count + block_manager::count_of(pushed, x));
        }
        if i + 1 == seq.context_blocks() {
            assert(next == mid && longer == pushed);
        }
    } else {
        assert(table.take(table.len() as int) =~= table);
    }
}

/// What the placing of one block leaves alone.
pub proof fn lemma_append_block_frame(bm: BmView, seq: SeqView, i: int, table: Seq<usize>)
    requires
        bm.wf(),
        bm.block_size > 0,
        0 <= i <= table.len() <= i + 1,
        forall|j: int| 0 <= j < table.len() ==> (#[trigger] table[j]) < bm.blocks.len(),
        i < table.len() ==> bm.is_open(table[i]) && bm.blocks[table[i] as int].ref_count == 1,
        i == table.len() ==> bm.free.len() > 0,
    ensures
        ({
            let (next, longer) = bm.append_block(seq, i, table);
            &&& next.blocks[longer[i] as int].ref_count == 1
            &&& i == table.len() ==> bm.blocks[longer[i] as int].ref_count == 0
            &&& forall|x: int|
                0 <= x < bm.blocks.len() && x != longer[i] ==> #[trigger] next.blocks[x]
                    == bm.blocks[x]
            &&& forall|x: usize| #[trigger]
                bm.is_open(x) && x < bm.blocks.len() && x != longer[i] ==> next.is_open(x)
            &&& forall|x: int|
                0 <= x < bm.blocks.len() ==> (#[trigger] next.blocks[x]).ref_count
                    + block_manager::count_of(table, x) == bm.blocks[x].ref_count
                    + block_manager::count_of(longer, x)
        }),
{
    lemma_append_block(bm, seq, i, table);
    let (next, longer) = bm.append_block(seq, i, table);
    if i == table.len() {
        assert(bm.free.contains(bm.free[0]));
        lemma_take(bm, bm.free[0]);
    }
    let mid = if i < table.len() {
        bm
    } else {
        bm.take(bm.free[0])
    };
    let prefix = if i > 0 {
        bm.blocks[table[i - 1] as int].hash
    } else {
        NO_HASH
    };
    let piece = seq.piece(i);
    if piece.len() == bm.block_size {
        lemma_record(
            mid,
            longer[i],
            block_manager::hash_after(block_manager::widen(piece), prefix),
            piece,
        );
    }
    assert forall|x: int| 0 <= x < bm.blocks.len() implies (#[trigger] next.blocks[x]).ref_count
        + block_manager::count_of(table, x) == bm.blocks[x].ref_count + block_manager::count_of(
        longer,
        x,
    ) by {
        if i == table.len() {
            lemma_count_push(table, bm.free[0], x);
        }
    }
}

/// Blocks are given up: nothing changes but how many hold them.
pub proof fn lemma_release(bm: BmView, table: Seq<usize>)
    requires
        bm.wf(),
        bm.can_release(table),
    ensures
        bm.release(table).wf(),
        bm.release(table).block_size == bm.block_size,
        bm.release(table).cached == bm.cached,
        bm.release(table).blocks.len() == bm.blocks.len(),
        bm.release(table).free.len() >= bm.free.len(),
        forall|x: int|
            0 <= x < bm.blocks.len() ==> {
                &&& (#[trigger] bm.release(table).blocks[x]).hash == bm.blocks[x].hash
                &&& bm.release(table).blocks[x].tokens == bm.blocks[x].tokens
                &&& bm.release(table).blocks[x].block_id == bm.blocks[x].block_id
                &&& bm.release(table).blocks[x].ref_count + block_manager::count_of(table, x)
                    == bm.blocks[x].ref_count
            },
        forall|b: usize|
            b < bm.blocks.len() ==> bm.release(table).is_open(b) == #[trigger] bm.is_open(b),
    decreases table.len(),
{
    let end = bm.release(table);
    if table.len() > 0 {
        lemma_release_step(bm, table);
        let mid = bm.drop_one(table.last());
        lemma_drop_one(bm, table.last());
        lemma_release(mid, table.drop_last());
        assert forall|x: int| 0 <= x < bm.blocks.len() implies {
            &&& (#[trigger] end.blocks[x]).hash == bm.blocks[x].hash
            &&& end.blocks[x].tokens == bm.blocks[x].tokens
            &&& end.blocks[x].block_id == bm.blocks[x].block_id
            &&& end.blocks[x].ref_count + block_manager::count_of(table, x)
                == bm.blocks[x].ref_count
        } by {
            assert(mid.blocks[x].hash == bm.blocks[x].hash);
        }
    }
    assert forall|b: usize| b < bm.blocks.len() implies end.is_open(b) == #[trigger] bm.is_open(
        b,
    ) by {
        assert(end.blocks[b as int].hash == bm.blocks[b as int].hash);
    }
}

/// To hold blocks takes out of the free ones no more than those that were not in use.
pub proof fn lemma_hold_all_free(bm: BmView, table: Seq<usize>)
    requires
        bm.wf(),
        forall|i: int| 0 <= i < table.len() ==> (#[trigger] table[i]) < bm.blocks.len(),
    ensures
        bm.hold_all(table).free.len() + (table.len() - block_manager::members(table, bm.used))
            >= bm.free.len(),
        block_manager::members(table, bm.used) <= table.len(),
        forall|b: usize| #[trigger] bm.used.contains(b) ==> bm.hold_all(table).used.contains(b),
    decreases table.len(),
{
    if table.len() > 0 {
        let rest = table.drop_last();
        assert forall|i: int| 0 <= i < rest.len() implies (#[trigger] rest[i])
            < bm.blocks.len() by {
            assert(rest[i] == table[i]);
        }
        lemma_hold_all_free(bm, rest);
        lemma_hold_all(bm, rest);
        let mid = bm.hold_all(rest);
        assert(table.last() == table[table.len() - 1]);
        lemma_hold(mid, table.last());
        if bm.used.contains(table.last()) {
            assert(mid.used.contains(table.last()));
        }
    }
}

/// A sequence that waits has been given its blocks.
pub proof fn lemma_allocated(bm: BmView, seq: SeqView)
    requires
        bm.wf(),
        bm.block_size > 0,
        seq.block_size == bm.block_size,
        seq.wf(),
        bm.hits(seq) * bm.block_size + seq.num_new <= seq.num_tokens,
        bm.can_hold(seq),
    ensures
        ({
            let (next, placed) = bm.allocated(seq);
            let hits = bm.hits(seq) as int;
            &&& next.wf()
            &&& next.block_size == bm.block_size
            &&& next.blocks.len() == bm.blocks.len()
            &&& placed == (SeqView {
                num_cached: (hits * bm.block_size) as nat,
                table: placed.table,
                ..seq
            })
            &&& placed.table.len() == placed.context_blocks()
            &&& placed.table.len() == hits + sequence::ceil_div(
                seq.num_new as int,
                bm.block_size as int,
            )
            &&& placed.table.take(hits) == bm.hit_table(seq)
            &&& forall|j: int|
                0 <= j < placed.table.len() ==> (#[trigger] placed.table[j]) < bm.blocks.len()
            &&& forall|j: int|
                hits <= j < placed.table.len() ==> bm.blocks[(
                #[trigger] placed.table[j]) as int].ref_count == 0
                    && next.blocks[placed.table[j] as int].ref_count == 1
            &&& forall|x: int|
                0 <= x < bm.blocks.len() ==> (#[trigger] next.blocks[x]).ref_count
                    == bm.blocks[x].ref_count + block_manager::count_of(placed.table, x)
            &&& forall|x: int|
                0 <= x < bm.blocks.len() && (bm.blocks[x].ref_count > 0 || bm.hit_table(
                    seq,
                ).contains(x as usize)) ==> (#[trigger] next.blocks[x]).hash == bm.blocks[x].hash
                    && next.blocks[x].tokens == bm.blocks[x].tokens
            &&& forall|x: usize| #[trigger]
                bm.is_open(x) && x < bm.blocks.len() && bm.blocks[x as int].ref_count > 0
                    ==> next.is_open(x)
            &&& hits < placed.table.len() && placed.piece(placed.table.len() - 1).len()
                != bm.block_size ==> next.is_open(placed.table.last())
        }),
{
    let size = bm.block_size as int;
    let table = bm.hit_table(seq);
    let hits = bm.hits(seq) as int;
    let mid = bm.hold_all(table);
    let cached = SeqView { num_cached: (hits * size) as nat, table, ..seq };
    lemma_hit_table(bm, seq);
    lemma_hold_all(bm, table);
    sequence::lemma_shifted_blocks(seq.num_new as int, size, hits);
    sequence::lemma_ceil_div(seq.num_new as int, size);
    assert(0 <= hits * size) by (nonlinear_arith)
        requires
            hits >= 0,
            size >= 0,
    ;
    lemma_fill(mid, cached, hits, table);
    let (next, placed) = bm.allocated(seq);
    assert forall|x: int| 0 <= x < bm.blocks.len() implies (#[trigger] next.blocks[x]).ref_count
        == bm.blocks[x].ref_count + block_manager::count_of(placed.table, x) by {
        lemma_hold_all_counts(bm, table, x);
    }
    assert forall|j: int| hits <= j < placed.table.len() implies bm.blocks[(
    #[trigger] placed.table[j]) as int].ref_count == 0
        && next.blocks[placed.table[j] as int].ref_count == 1 by {
        lemma_hold_all_counts(bm, table, placed.table[j] as int);
    }
    assert forall|x: int|
        0 <= x < bm.blocks.len() && (bm.blocks[x].ref_count > 0 || table.contains(
            x as usize,
        )) implies (#[trigger] next.blocks[x]).hash == bm.blocks[x].hash && next.blocks[x].tokens
        == bm.blocks[x].tokens by {
        lemma_hold_all_counts(bm, table, x);
        if table.contains(x as usize) {
            assert(bm.blocks[x].block_id == x);
            lemma_count_contains(table, x as usize);
        }
        assert(mid.blocks[x].ref_count > 0);
        assert(mid.blocks[x].hash == bm.blocks[x].hash);
    }
    assert forall|x: usize| #[trigger]
        bm.is_open(x) && x < bm.blocks.len() && bm.blocks[x as int].ref_count
            > 0 implies next.is_open(x) by {
        lemma_hold_all_counts(bm, table, x as int);
        assert(mid.is_open(x));
    }
    assert(placed.piece(placed.table.len() - 1) == cached.piece(placed.table.len() - 1));
}

/// What stands in a table is counted.
pub proof fn lemma_count_contains(table: Seq<usize>, b: usize)
    ensures
        table.contains(b) <==> block_manager::count_of(table, b as int) > 0,
    decreases table.len(),
{
    if table.len() > 0 {
        let rest = table.drop_last();
        lemma_count_contains(rest, b);
        if table.contains(b) && table.last() != b {
            let i = choose|i: int| 0 <= i < table.len() && table[i] == b;
            assert(rest[i] == b);
        }
        if rest.contains(b) {
            let i = choose|i: int| 0 <= i < rest.len() && rest[i] == b;
            assert(table[i] == b);
        }
        if table.last() == b {
            assert(table[table.len() - 1] == b);
        }
    }
}

} // verus!
