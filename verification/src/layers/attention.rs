//! Where attention finds the keys and values of a sequence.
use crate::engine::model_runner;
use crate::engine::sequence;
use crate::engine::sequence::SeqView;
use crate::layers::tensor;
use crate::layers::tensor::LayerError;
use candle_core::Tensor;
use vstd::prelude::*;
use vstd::slice::slice_subrange;

verus! {

/// The lengths between consecutive bounds.
pub fn seqlens(bounds: &[u32]) -> (lens: Vec<u32>)
    requires
        bounds@.len() > 0,
        forall|i: int|
            1 <= i < bounds@.len() ==> bounds@[i - 1] <= #[trigger] bounds@[i],
    ensures
        lens@ == Seq::new(
            (bounds@.len() - 1) as nat,
            |i: int| (bounds@[i + 1] - bounds@[i]) as u32,
        ),
        forall|i: int|
            0 <= i < bounds@.len() - 1 ==> bounds@[i] + #[trigger] lens@[i] == bounds@[i + 1],
{
    let ghost all = bounds@;
    let mut lens: Vec<u32> = Vec::new();
    let mut i: usize = 0;
    while i < bounds.len() - 1
        invariant
            all == bounds@,
            all.len() > 0,
            forall|i: int| 1 <= i < all.len() ==> all[i - 1] <= #[trigger] all[i],
            i <= all.len() - 1,
            lens@ == Seq::new(i as nat, |j: int| (all[j + 1] - all[j]) as u32),
        decreases all.len() - i,
    {
        assert(all[i + 1 - 1] <= all[i + 1]);
        lens.push(bounds[i + 1] - bounds[i]);
        i = i + 1;
        assert(lens@ =~= Seq::new(i as nat, |j: int| (all[j + 1] - all[j]) as u32));
    }
    assert forall|j: int| 0 <= j < all.len() - 1 implies all[j] + #[trigger] lens@[j]
        == all[j + 1] by {
        assert(all[j + 1 - 1] <= all[j + 1]);
    }
    lens
}

/// How many of `len` tokens there are slots for in `blocks` blocks of `page` slots.
pub open spec fn slots_within(blocks: int, page: int, len: int) -> int {
    if len <= blocks * page {
        len
    } else {
        blocks * page
    }
}

/// The slots of the first `seqlen_k` tokens of a sequence, in order, from its row of the
/// block table. Entries of the row behind the last token are not looked at.
pub fn paged_slots(block_table_row: &[u32], seqlen_k: usize, page_block_size: u32) -> (slots: Vec<
    u32,
>)
    requires
        page_block_size > 0,
        forall|i: int|
            0 <= i < block_table_row@.len() && i * page_block_size < seqlen_k ==> ((
            #[trigger] block_table_row@[i]) + 1) * page_block_size <= u32::MAX + 1,
        block_table_row@.len() * page_block_size <= usize::MAX,
    ensures
        slots@ == Seq::new(
            slots_within(
                block_table_row@.len() as int,
                page_block_size as int,
                seqlen_k as int,
            ) as nat,
            |x: int|
                (block_table_row@[x / page_block_size as int] * page_block_size + x
                    % page_block_size as int) as u32,
        ),
{
    let ghost row = block_table_row@;
    let ghost page = page_block_size as int;
    let ghost want = |x: int| (row[x / page] * page + x % page) as u32;
    let mut slots: Vec<u32> = Vec::new();
    let mut i: usize = 0;
    assert(0 <= row.len() * page) by (nonlinear_arith)
        requires
            page > 0,
    ;
    while i < block_table_row.len() && slots.len() < seqlen_k
        invariant
            row == block_table_row@,
            page == page_block_size,
            page > 0,
            want == (|x: int| (row[x / page] * page + x % page) as u32),
            i <= row.len(),
            row.len() * page <= usize::MAX,
            forall|k: int|
                0 <= k < row.len() && k * page_block_size < seqlen_k ==> ((#[trigger] row[k]) + 1)
                    * page_block_size <= u32::MAX + 1,
            slots@ == Seq::new(slots_within(i as int, page, seqlen_k as int) as nat, want),
        decreases row.len() - i,
    {
        let mut s: u32 = 0;
        proof {
            assert(0 <= i * page && i * page + page <= row.len() * page) by (nonlinear_arith)
                requires
                    i + 1 <= row.len(),
                    page > 0,
            ;
            assert(slots@.len() == i * page);
            assert((row[i as int] + 1) * page_block_size <= u32::MAX + 1);
            let b = row[i as int] as int;
            assert((b + 1) * page == b * page + page && b * page >= 0) by (nonlinear_arith)
                requires
                    b >= 0,
                    page > 0,
            ;
            assert((i + 1) * page == i * page + page) by (nonlinear_arith);
        }
        while s < page_block_size && slots.len() < seqlen_k
            invariant
                row == block_table_row@,
                page == page_block_size,
                page > 0,
                want == (|x: int| (row[x / page] * page + x % page) as u32),
                i < row.len(),
                s <= page_block_size,
                0 <= i * page,
                i * page + s <= usize::MAX,
                i * page + page <= usize::MAX,
                0 <= row[i as int] * page,
                row[i as int] * page + page <= u32::MAX + 1,
                slots@.len() == i * page + s,
                slots@.len() <= seqlen_k,
                slots@ == Seq::new((i * page + s) as nat, want),
            decreases page_block_size - s,
        {
            let ghost x = i * page + s;
            proof {
                assert(x / page == i && x % page == s) by (nonlinear_arith)
                    requires
                        x == i * page + s,
                        0 <= s < page,
                ;
            }
            slots.push(block_table_row[i] * page_block_size + s);
            assert(slots@ =~= Seq::new((x + 1) as nat, want));
            s = s + 1;
        }
        i = i + 1;
    }
    proof {
        if i < row.len() {
            assert(i * page <= row.len() * page) by (nonlinear_arith)
                requires
                    i <= row.len(),
                    page > 0,
            ;
        }
    }
    slots
}

/// The block at place `i` of a sequence's row is one that holds some of its `len` tokens.
pub open spec fn is_read(row: Seq<u32>, page: int, len: int, i: int) -> bool {
    0 <= i < row.len() && i * page < len
}

/// The blocks that hold the tokens are blocks of the cache.
pub open spec fn blocks_are_there(row: Seq<u32>, cache: Tensor, len: int) -> bool {
    forall|i: int|
        #[trigger] is_read(row, tensor::dims(cache)[1] as int, len, i) ==> row[i] < tensor::dims(
            cache,
        )[0]
}

/// The slots of the blocks that hold the tokens are below the largest number.
pub open spec fn slots_are_small(row: Seq<u32>, cache: Tensor, len: int) -> bool {
    forall|i: int|
        #[trigger] is_read(row, tensor::dims(cache)[1] as int, len, i) ==> (row[i] + 1)
            * tensor::dims(cache)[1] <= u32::MAX
}

/// `part` is what the slots of the first `len` tokens of a sequence hold in `cache`, one token
/// after the other. Blocks and slots are the first two dimensions of the cache.
pub open spec fn is_gathered(part: Tensor, cache: Tensor, row: Seq<u32>, len: int) -> bool {
    let page = tensor::dims(cache)[1] as int;
    &&& tensor::dims(part) == seq![
        slots_within(row.len() as int, page, len) as usize,
        tensor::dims(cache)[2],
        tensor::dims(cache)[3],
    ]
    &&& forall|index: Seq<usize>|
        tensor::in_range(index, tensor::dims(part)) ==> #[trigger] tensor::elements(part)[index]
            == tensor::elements(cache)[seq![
            row[index[0] as int / page] as usize,
            (index[0] as int % page) as usize,
            index[1],
            index[2],
        ]]
}

/// Reads the keys and values of one sequence out of the paged caches, in token order, by its
/// row of the block table. The caches have dimensions `(num_blocks, block_size, num_kv_heads,
/// head_dim)`.
pub fn gather_paged_kv(
    k_cache: &Tensor,
    v_cache: &Tensor,
    block_table_row: &[u32],
    seqlen_k: usize,
    page_block_size: u32,
) -> (kv: Result<(Tensor, Tensor), LayerError>)
    requires
        tensor::dims(*k_cache).len() == 4,
        tensor::dims(*v_cache) == tensor::dims(*k_cache),
        tensor::dims(*k_cache)[1] == page_block_size,
        tensor::span(tensor::dims(*k_cache)) <= isize::MAX / 8,
        page_block_size > 0,
        forall|i: int| #[trigger]
            is_read(block_table_row@, page_block_size as int, seqlen_k as int, i) ==> (
            block_table_row@[i] + 1) * page_block_size <= u32::MAX + 1,
        block_table_row@.len() * page_block_size <= usize::MAX,
        tensor::span(
            seq![
                slots_within(
                    block_table_row@.len() as int,
                    page_block_size as int,
                    seqlen_k as int,
                ) as usize,
                tensor::dims(*k_cache)[2],
                tensor::dims(*k_cache)[3],
            ],
        ) <= isize::MAX / 8,
    ensures
        kv matches Ok(both) ==> {
            &&& tensor::dims(*k_cache)[2] > 0
            &&& tensor::dims(*k_cache)[3] > 0
            &&& slots_are_small(block_table_row@, *k_cache, seqlen_k as int) ==> {
                &&& tensor::on_cpu(*k_cache) || tensor::on_cpu(*v_cache) ==> blocks_are_there(
                    block_table_row@,
                    *k_cache,
                    seqlen_k as int,
                )
                &&& blocks_are_there(block_table_row@, *k_cache, seqlen_k as int) ==> {
                    &&& is_gathered(both.0, *k_cache, block_table_row@, seqlen_k as int)
                    &&& is_gathered(both.1, *v_cache, block_table_row@, seqlen_k as int)
                }
            }
            &&& tensor::dims(both.0) == seq![
                slots_within(
                    block_table_row@.len() as int,
                    page_block_size as int,
                    seqlen_k as int,
                ) as usize,
                tensor::dims(*k_cache)[2],
                tensor::dims(*k_cache)[3],
            ]
            &&& tensor::dims(both.1) == tensor::dims(both.0)
            &&& tensor::is_contiguous(both.0) && tensor::start_offset(both.0) == 0
            &&& tensor::is_contiguous(both.1) && tensor::start_offset(both.1) == 0
            &&& tensor::same_kind(both.0, *k_cache)
            &&& tensor::same_kind(both.1, *v_cache)
        },
        tensor::is_plain(*k_cache) && tensor::is_plain(*v_cache) && tensor::can_be_read(*k_cache)
            && tensor::can_be_read(*v_cache) && tensor::dims(*k_cache)[2] > 0 && tensor::dims(
            *k_cache,
        )[3] > 0 && slots_are_small(block_table_row@, *k_cache, seqlen_k as int)
            && blocks_are_there(block_table_row@, *k_cache, seqlen_k as int) ==> kv is Ok,
        kv matches Err(error) ==> error is Tensor || error is Unreadable && !(tensor::can_be_read(
            *k_cache,
        ) && tensor::can_be_read(*v_cache)),
{
    proof {
        assert forall|i: int|
            0 <= i < block_table_row@.len() && i * page_block_size < seqlen_k implies ((
        #[trigger] block_table_row@[i]) + 1) * page_block_size <= u32::MAX + 1 by {
            assert(is_read(block_table_row@, page_block_size as int, seqlen_k as int, i));
        }
    }
    let slots = paged_slots(block_table_row, seqlen_k, page_block_size);
    let heads = match tensor::dim(k_cache, 2) {
        Ok(heads) => heads,
        Err(error) => {
            return Err(LayerError::Tensor(error));
        },
    };
    let width = match tensor::dim(k_cache, 3) {
        Ok(width) => width,
        Err(error) => {
            return Err(LayerError::Tensor(error));
        },
    };
    let k_flat = match tensor::flatten_rows(k_cache, heads, width) {
        Ok(flat) => flat,
        Err(error) => {
            return Err(LayerError::Tensor(error));
        },
    };
    let v_flat = match tensor::flatten_rows(v_cache, heads, width) {
        Ok(flat) => flat,
        Err(error) => {
            return Err(LayerError::Tensor(error));
        },
    };
    proof {
        lemma_flat_span(tensor::dims(*k_cache));
        lemma_flat_is_readable(*k_cache, k_flat);
        lemma_flat_is_readable(*v_cache, v_flat);
    }
    if !tensor::is_readable(&k_flat) || !tensor::is_readable(&v_flat) {
        return Err(LayerError::Unreadable);
    }
    proof {
        let n = slots@.len() as usize;
        assert(tensor::dims(k_flat).update(0, n) =~= seq![n, heads, width]);
        assert(tensor::dims(v_flat).update(0, n) =~= seq![n, heads, width]);
        lemma_slots_are_rows(slots@, block_table_row@, *k_cache, k_flat, seqlen_k as int);
        lemma_slots_are_rows(slots@, block_table_row@, *v_cache, v_flat, seqlen_k as int);
    }
    let k = match tensor::index_select(&k_flat, slots.as_slice()) {
        Ok(k) => k,
        Err(error) => {
            return Err(LayerError::Tensor(error));
        },
    };
    let v = match tensor::index_select(&v_flat, slots.as_slice()) {
        Ok(v) => v,
        Err(error) => {
            return Err(LayerError::Tensor(error));
        },
    };
    proof {
        if slots_are_small(block_table_row@, *k_cache, seqlen_k as int) && blocks_are_there(
            block_table_row@,
            *k_cache,
            seqlen_k as int,
        ) {
            lemma_gathered(k, k_flat, *k_cache, slots@, block_table_row@, seqlen_k as int);
            lemma_gathered(v, v_flat, *v_cache, slots@, block_table_row@, seqlen_k as int);
        }
    }
    Ok((k, v))
}

/// The row of the sequence at place `i` in the block tables.
pub open spec fn table_row(tables: Seq<u32>, width: int, i: int) -> Seq<u32> {
    tables.subrange(i * width, i * width + width)
}

/// The tokens that are gathered for the first `i` sequences.
pub open spec fn tokens_before(lens: Seq<u32>, width: int, page: int, i: int) -> int
    decreases i,
{
    if i <= 0 {
        0
    } else {
        tokens_before(lens, width, page, i - 1) + slots_within(width, page, lens[i - 1] as int)
    }
}

/// [`blocks_are_there`] for every sequence.
pub open spec fn tables_are_there(
    tables: Seq<u32>,
    width: int,
    lens: Seq<u32>,
    cache: Tensor,
) -> bool {
    forall|i: int|
        0 <= i < lens.len() ==> blocks_are_there(
            table_row(tables, width, i),
            cache,
            #[trigger] lens[i] as int,
        )
}

/// [`slots_are_small`] for every sequence.
pub open spec fn tables_are_small(
    tables: Seq<u32>,
    width: int,
    lens: Seq<u32>,
    cache: Tensor,
) -> bool {
    forall|i: int|
        0 <= i < lens.len() ==> slots_are_small(
            table_row(tables, width, i),
            cache,
            #[trigger] lens[i] as int,
        )
}

/// The index of a number of the token at place `t`.
pub open spec fn token_index(t: int, a: usize, b: usize) -> Seq<usize> {
    seq![t as usize, a, b]
}

/// `all` is what the slots of the tokens of all sequences hold in `cache`: one sequence after
/// the other, and one token after the other.
pub open spec fn is_context(
    all: Tensor,
    cache: Tensor,
    tables: Seq<u32>,
    width: int,
    lens: Seq<u32>,
) -> bool {
    let page = tensor::dims(cache)[1] as int;
    let heads = tensor::dims(cache)[2];
    let head_dim = tensor::dims(cache)[3];
    &&& tensor::dims(all) == seq![
        tokens_before(lens, width, page, lens.len() as int) as usize,
        heads,
        head_dim,
    ]
    &&& forall|i: int, x: int, a: usize, b: usize|
        0 <= i < lens.len() && 0 <= x < slots_within(width, page, lens[i] as int) && a < heads && b
            < head_dim ==> tensor::elements(all)[#[trigger] token_index(
            tokens_before(lens, width, page, i) + x,
            a,
            b,
        )] == tensor::elements(cache)[seq![
            table_row(tables, width, i)[x / page] as usize,
            (x % page) as usize,
            a,
            b,
        ]]
}

/// Reads the keys and values of all sequences out of the paged caches, one sequence after the
/// other. `block_tables` has a row of `width` blocks for each.
pub fn gather_context(
    k_cache: &Tensor,
    v_cache: &Tensor,
    block_tables: &[u32],
    width: usize,
    seqlens_k: &[u32],
    page_block_size: u32,
) -> (kv: Result<(Tensor, Tensor), LayerError>)
    requires
        tensor::dims(*k_cache).len() == 4,
        tensor::dims(*v_cache) == tensor::dims(*k_cache),
        tensor::dims(*k_cache)[1] == page_block_size,
        tensor::span(tensor::dims(*k_cache)) <= isize::MAX / 8,
        page_block_size > 0,
        seqlens_k@.len() * width <= block_tables@.len(),
        forall|i: int, k: int|
            0 <= i < seqlens_k@.len() && #[trigger] is_read(
                table_row(block_tables@, width as int, i),
                page_block_size as int,
                seqlens_k@[i] as int,
                k,
            ) ==> (table_row(block_tables@, width as int, i)[k] + 1) * page_block_size <= u32::MAX
                + 1,
        width * page_block_size <= usize::MAX,
        tokens_before(
            seqlens_k@,
            width as int,
            page_block_size as int,
            seqlens_k@.len() as int,
        ) <= isize::MAX / 8,
        tensor::span(
            seq![
                tokens_before(
                    seqlens_k@,
                    width as int,
                    page_block_size as int,
                    seqlens_k@.len() as int,
                ) as usize,
                tensor::dims(*k_cache)[2],
                tensor::dims(*k_cache)[3],
            ],
        ) <= isize::MAX / 8,
    ensures
        kv matches Ok(both) ==> {
            &&& seqlens_k@.len() > 0
            &&& tensor::dims(*k_cache)[2] > 0
            &&& tensor::dims(*k_cache)[3] > 0
            &&& tables_are_small(block_tables@, width as int, seqlens_k@, *k_cache) ==> {
                &&& tensor::on_cpu(*k_cache) || tensor::on_cpu(*v_cache) ==> tables_are_there(
                    block_tables@,
                    width as int,
                    seqlens_k@,
                    *k_cache,
                )
                &&& tables_are_there(block_tables@, width as int, seqlens_k@, *k_cache) ==> {
                    &&& is_context(both.0, *k_cache, block_tables@, width as int, seqlens_k@)
                    &&& is_context(both.1, *v_cache, block_tables@, width as int, seqlens_k@)
                }
            }
            &&& tensor::same_kind(both.0, *k_cache)
            &&& tensor::same_kind(both.1, *v_cache)
        },
        tensor::is_plain(*k_cache) && tensor::is_plain(*v_cache) && tensor::can_be_read(*k_cache)
            && tensor::can_be_read(*v_cache) && seqlens_k@.len() > 0
            && tensor::dims(*k_cache)[2] > 0 && tensor::dims(*k_cache)[3] > 0 && tables_are_small(
            block_tables@,
            width as int,
            seqlens_k@,
            *k_cache,
        ) && tables_are_there(block_tables@, width as int, seqlens_k@, *k_cache) ==> kv is Ok,
        kv matches Err(error) ==> error is Tensor || error is Unreadable && !(tensor::can_be_read(
            *k_cache,
        ) && tensor::can_be_read(*v_cache)),
{
    let ghost lens = seqlens_k@;
    let ghost w = width as int;
    let ghost page = page_block_size as int;
    let ghost heads = tensor::dims(*k_cache)[2];
    let ghost head_dim = tensor::dims(*k_cache)[3];
    let end = block_tables.len();
    let mut k_parts: Vec<Tensor> = Vec::new();
    let mut v_parts: Vec<Tensor> = Vec::new();
    let mut i: usize = 0;
    while i < seqlens_k.len()
        invariant
            lens == seqlens_k@,
            w == width,
            page == page_block_size,
            heads == tensor::dims(*k_cache)[2],
            head_dim == tensor::dims(*k_cache)[3],
            tensor::dims(*k_cache).len() == 4,
            tensor::dims(*v_cache) == tensor::dims(*k_cache),
            tensor::dims(*k_cache)[1] == page_block_size,
            tensor::span(tensor::dims(*k_cache)) <= isize::MAX / 8,
            page_block_size > 0,
            lens.len() * width <= end,
            end == block_tables@.len(),
            forall|i: int, k: int|
                0 <= i < lens.len() && #[trigger] is_read(
                    table_row(block_tables@, w, i),
                    page,
                    lens[i] as int,
                    k,
                ) ==> (table_row(block_tables@, w, i)[k] + 1) * page_block_size <= u32::MAX + 1,
            width * page_block_size <= usize::MAX,
            tokens_before(lens, w, page, lens.len() as int) <= isize::MAX / 8,
            tensor::span(
                seq![tokens_before(lens, w, page, lens.len() as int) as usize, heads, head_dim],
            ) <= isize::MAX / 8,
            i <= lens.len(),
            k_parts@.len() == i,
            v_parts@.len() == i,
            i > 0 ==> heads > 0 && head_dim > 0,
            forall|j: int|
                0 <= j < i ==> is_part(#[trigger] k_parts@[j], *k_cache, block_tables@, w, lens, j),
            forall|j: int|
                0 <= j < i ==> is_part(#[trigger] v_parts@[j], *v_cache, block_tables@, w, lens, j),
            forall|j: int|
                0 <= j < i && (tensor::on_cpu(*k_cache) || tensor::on_cpu(*v_cache))
                    && slots_are_small(
                    table_row(block_tables@, w, j),
                    *k_cache,
                    lens[j] as int,
                ) ==> blocks_are_there(
                    table_row(block_tables@, w, j),
                    *k_cache,
                    #[trigger] lens[j] as int,
                ),
        decreases lens.len() - i,
    {
        proof {
            assert(i * w + w <= end && 0 <= i * w) by (nonlinear_arith)
                requires
                    i + 1 <= lens.len(),
                    lens.len() * w <= end,
                    0 <= w,
            ;
            lemma_part_span(lens, w, page, i as int, heads, head_dim);
        }
        let row = slice_subrange(block_tables, i * width, i * width + width);
        assert(row@ == table_row(block_tables@, w, i as int));
        proof {
            assert forall|k: int| #[trigger]
                is_read(row@, page_block_size as int, lens[i as int] as int, k) implies (row@[k]
                + 1) * page_block_size <= u32::MAX + 1 by {
                assert(is_read(table_row(block_tables@, w, i as int), page, lens[i as int] as int, k));
            }
        }
        match gather_paged_kv(k_cache, v_cache, row, seqlens_k[i] as usize, page_block_size) {
            Ok((k, v)) => {
                k_parts.push(k);
                v_parts.push(v);
            },
            Err(error) => {
                return Err(error);
            },
        }
        i = i + 1;
    }
    proof {
        lemma_parts(k_parts@, *k_cache, block_tables@, w, lens);
        lemma_parts(v_parts@, *v_cache, block_tables@, w, lens);
    }
    let k = match tensor::cat(&k_parts, 0) {
        Ok(k) => k,
        Err(error) => {
            return Err(LayerError::Tensor(error));
        },
    };
    let v = match tensor::cat(&v_parts, 0) {
        Ok(v) => v,
        Err(error) => {
            return Err(LayerError::Tensor(error));
        },
    };
    proof {
        if tables_are_small(block_tables@, w, lens, *k_cache) && tables_are_there(
            block_tables@,
            w,
            lens,
            *k_cache,
        ) {
            lemma_context(k, k_parts@, *k_cache, block_tables@, w, lens);
            lemma_context(v, v_parts@, *v_cache, block_tables@, w, lens);
        }
    }
    Ok((k, v))
}

/// `part` is what was gathered for the sequence at place `j`.
spec fn is_part(
    part: Tensor,
    cache: Tensor,
    tables: Seq<u32>,
    width: int,
    lens: Seq<u32>,
    j: int,
) -> bool {
    let row = table_row(tables, width, j);
    let page = tensor::dims(cache)[1] as int;
    &&& tensor::dims(part) == seq![
        slots_within(width, page, lens[j] as int) as usize,
        tensor::dims(cache)[2],
        tensor::dims(cache)[3],
    ]
    &&& tensor::is_contiguous(part)
    &&& tensor::start_offset(part) == 0
    &&& tensor::same_kind(part, cache)
    &&& slots_are_small(row, cache, lens[j] as int) && blocks_are_there(row, cache, lens[j] as int)
        ==> is_gathered(part, cache, row, lens[j] as int)
}

/// One sequence has no more tokens than all together.
proof fn lemma_tokens_before(lens: Seq<u32>, width: int, page: int, i: int, n: int)
    requires
        0 <= i < n <= lens.len(),
        0 <= width,
        0 < page,
    ensures
        0 <= tokens_before(lens, width, page, i),
        0 <= slots_within(width, page, lens[i] as int),
        tokens_before(lens, width, page, i) + slots_within(width, page, lens[i] as int)
            <= tokens_before(lens, width, page, n),
    decreases n,
{
    assert(0 <= width * page) by (nonlinear_arith)
        requires
            0 <= width,
            0 < page,
    ;
    if i > 0 {
        lemma_tokens_before(lens, width, page, i - 1, i);
    }
    if i + 1 < n {
        lemma_tokens_before(lens, width, page, i, n - 1);
    }
}

/// What is gathered for one sequence is no larger than what is gathered for all.
proof fn lemma_part_span(
    lens: Seq<u32>,
    width: int,
    page: int,
    i: int,
    heads: usize,
    head_dim: usize,
)
    requires
        0 <= i < lens.len(),
        0 <= width,
        0 < page,
        tokens_before(lens, width, page, lens.len() as int) <= isize::MAX / 8,
        tensor::span(
            seq![tokens_before(lens, width, page, lens.len() as int) as usize, heads, head_dim],
        ) <= isize::MAX / 8,
    ensures
        tensor::span(
            seq![slots_within(width, page, lens[i] as int) as usize, heads, head_dim],
        ) <= isize::MAX / 8,
{
    let all = tokens_before(lens, width, page, lens.len() as int) as usize;
    let own = slots_within(width, page, lens[i] as int) as usize;
    lemma_tokens_before(lens, width, page, i, lens.len() as int);
    lemma_span3(all, heads, head_dim);
    lemma_span3(own, heads, head_dim);
    let a = if all == 0 { 1 } else { all as int };
    let b = if own == 0 { 1 } else { own as int };
    let h = if heads == 0 { 1 } else { heads as int };
    let d = if head_dim == 0 { 1 } else { head_dim as int };
    assert(b * h * d <= a * h * d) by (nonlinear_arith)
        requires
            b <= a,
            1 <= h,
            1 <= d,
    ;
}

proof fn lemma_span3(a: usize, b: usize, c: usize)
    ensures
        tensor::span(seq![a, b, c]) == (if a == 0 {
            1
        } else {
            a as int
        }) * (if b == 0 {
            1
        } else {
            b as int
        }) * (if c == 0 {
            1
        } else {
            c as int
        }),
{
    reveal_with_fuel(tensor::span, 4);
    let all = seq![a, b, c];
    assert(all.drop_last().drop_last().drop_last().len() == 0);
    assert(tensor::span(all.drop_last().drop_last()) == (if a == 0 {
        1
    } else {
        a as int
    }));
}

/// The parts of the sequences can be put one after the other.
proof fn lemma_parts(
    parts: Seq<Tensor>,
    cache: Tensor,
    tables: Seq<u32>,
    width: int,
    lens: Seq<u32>,
)
    requires
        parts.len() == lens.len(),
        0 <= width,
        0 < tensor::dims(cache)[1],
        tokens_before(lens, width, tensor::dims(cache)[1] as int, lens.len() as int) <= isize::MAX
            / 8,
        tensor::span(
            seq![
                tokens_before(
                    lens,
                    width,
                    tensor::dims(cache)[1] as int,
                    lens.len() as int,
                ) as usize,
                tensor::dims(cache)[2],
                tensor::dims(cache)[3],
            ],
        ) <= isize::MAX / 8,
        forall|j: int|
            0 <= j < parts.len() ==> is_part(#[trigger] parts[j], cache, tables, width, lens, j),
    ensures
        forall|j: int|
            0 <= j < parts.len() ==> tensor::dims(#[trigger] parts[j]).len() == 3 && tensor::span(
                tensor::dims(parts[j]),
            ) <= isize::MAX / 8 && tensor::same_kind(parts[j], cache) && tensor::is_contiguous(
                parts[j],
            ) && tensor::start_offset(parts[j]) == 0,
        forall|j: int|
            0 <= j <= parts.len() ==> #[trigger] tensor::slices_before(parts, 0, j) == tokens_before(
                lens,
                width,
                tensor::dims(cache)[1] as int,
                j,
            ),
        parts.len() > 0 ==> tensor::dims(parts[0]).update(
            0,
            tensor::slices_before(parts, 0, parts.len() as int) as usize,
        ) == seq![
            tokens_before(lens, width, tensor::dims(cache)[1] as int, lens.len() as int) as usize,
            tensor::dims(cache)[2],
            tensor::dims(cache)[3],
        ],
        tensor::can_join(parts, 0),
{
    let page = tensor::dims(cache)[1] as int;
    assert forall|j: int| 0 <= j < parts.len() implies tensor::dims(#[trigger] parts[j]).len() == 3
        && tensor::span(tensor::dims(parts[j])) <= isize::MAX / 8 && tensor::same_kind(
        parts[j],
        cache,
    ) && tensor::is_contiguous(parts[j]) && tensor::start_offset(parts[j]) == 0 by {
        lemma_part_span(lens, width, page, j, tensor::dims(cache)[2], tensor::dims(cache)[3]);
    }
    assert forall|j: int| 0 <= j <= parts.len() implies #[trigger] tensor::slices_before(parts, 0, j)
        == tokens_before(lens, width, page, j) by {
        lemma_rows_before(parts, cache, tables, width, lens, j);
    }
    assert forall|j: int| 0 <= j < parts.len() implies tensor::dims(#[trigger] parts[j])
        == tensor::dims(parts[0]).update(0, tensor::dims(parts[j])[0]) by {
        assert(is_part(parts[0], cache, tables, width, lens, 0));
        assert(tensor::dims(parts[j]) =~= tensor::dims(parts[0]).update(
            0,
            tensor::dims(parts[j])[0],
        ));
    }
    if parts.len() > 0 {
        assert(is_part(parts[0], cache, tables, width, lens, 0));
        assert(tensor::dims(parts[0]).update(
            0,
            tensor::slices_before(parts, 0, parts.len() as int) as usize,
        ) =~= seq![
            tokens_before(lens, width, page, lens.len() as int) as usize,
            tensor::dims(cache)[2],
            tensor::dims(cache)[3],
        ]);
    }
}

proof fn lemma_rows_before(
    parts: Seq<Tensor>,
    cache: Tensor,
    tables: Seq<u32>,
    width: int,
    lens: Seq<u32>,
    j: int,
)
    requires
        parts.len() == lens.len(),
        0 <= j <= parts.len(),
        0 <= width,
        0 < tensor::dims(cache)[1],
        tokens_before(lens, width, tensor::dims(cache)[1] as int, lens.len() as int) <= isize::MAX
            / 8,
        forall|j: int|
            0 <= j < parts.len() ==> is_part(#[trigger] parts[j], cache, tables, width, lens, j),
    ensures
        tensor::slices_before(parts, 0, j) == tokens_before(
            lens,
            width,
            tensor::dims(cache)[1] as int,
            j,
        ),
    decreases j,
{
    if j > 0 {
        let page = tensor::dims(cache)[1] as int;
        lemma_rows_before(parts, cache, tables, width, lens, j - 1);
        assert(is_part(parts[j - 1], cache, tables, width, lens, j - 1));
        lemma_tokens_before(lens, width, page, j - 1, lens.len() as int);
    }
}

/// The parts one after the other are what the slots of all tokens hold.
proof fn lemma_context(
    all: Tensor,
    parts: Seq<Tensor>,
    cache: Tensor,
    tables: Seq<u32>,
    width: int,
    lens: Seq<u32>,
)
    requires
        parts.len() == lens.len(),
        parts.len() > 0,
        0 <= width,
        lens.len() * width <= tables.len(),
        0 < tensor::dims(cache)[1],
        tokens_before(lens, width, tensor::dims(cache)[1] as int, lens.len() as int) <= isize::MAX
            / 8,
        forall|j: int|
            0 <= j < parts.len() ==> is_part(#[trigger] parts[j], cache, tables, width, lens, j),
        forall|j: int|
            0 <= j <= parts.len() ==> #[trigger] tensor::slices_before(parts, 0, j) == tokens_before(
                lens,
                width,
                tensor::dims(cache)[1] as int,
                j,
            ),
        tensor::dims(parts[0]).update(
            0,
            tensor::slices_before(parts, 0, parts.len() as int) as usize,
        ) == seq![
            tokens_before(lens, width, tensor::dims(cache)[1] as int, lens.len() as int) as usize,
            tensor::dims(cache)[2],
            tensor::dims(cache)[3],
        ],
        tensor::is_joined(all, parts, 0),
        tables_are_small(tables, width, lens, cache),
        tables_are_there(tables, width, lens, cache),
    ensures
        is_context(all, cache, tables, width, lens),
{
    let page = tensor::dims(cache)[1] as int;
    let heads = tensor::dims(cache)[2];
    let head_dim = tensor::dims(cache)[3];
    assert forall|i: int, x: int, a: usize, b: usize|
        0 <= i < lens.len() && 0 <= x < slots_within(width, page, lens[i] as int) && a < heads && b
            < head_dim implies tensor::elements(all)[#[trigger] token_index(
        tokens_before(lens, width, page, i) + x,
        a,
        b,
    )] == tensor::elements(cache)[seq![
        table_row(tables, width, i)[x / page] as usize,
        (x % page) as usize,
        a,
        b,
    ]] by {
        lemma_tokens_before(lens, width, page, i, lens.len() as int);
        assert(0 <= i * width && i * width + width <= tables.len()) by (nonlinear_arith)
            requires
                0 <= i,
                i + 1 <= lens.len(),
                lens.len() * width <= tables.len(),
                0 <= width,
        ;
        let part = parts[i];
        assert(is_part(part, cache, tables, width, lens, i));
        assert(slots_are_small(table_row(tables, width, i), cache, lens[i] as int));
        let own = seq![x as usize, a, b];
        assert(tensor::in_range(own, tensor::dims(part)));
        assert(tensor::elements(part)[own] == tensor::elements(cache)[seq![
            table_row(tables, width, i)[x / page] as usize,
            (x % page) as usize,
            a,
            b,
        ]]);
        assert(tensor::slices_before(parts, 0, i) == tokens_before(lens, width, page, i));
        assert(own.update(0, (tensor::slices_before(parts, 0, i) + own[0]) as usize) =~= token_index(
            tokens_before(lens, width, page, i) + x,
            a,
            b,
        ));
        assert(tensor::elements(parts[i])[own] == tensor::elements(all)[own.update(
            0,
            (tensor::slices_before(parts, 0, i) + own[0]) as usize,
        )]);
    }
}

/// A cache that can be read can also be read with its first two dimensions made into one.
proof fn lemma_flat_is_readable(cache: Tensor, flat: Tensor)
    requires
        tensor::dims(cache).len() == 4,
        tensor::is_flattened(flat, cache),
        tensor::dims(cache)[0] * tensor::dims(cache)[1] <= usize::MAX,
        tensor::start_offset(flat) == 0 || tensor::start_offset(flat) == tensor::start_offset(
            cache,
        ),
    ensures
        tensor::can_be_read(cache) ==> tensor::can_be_read(flat),
{
    if tensor::has_elements(cache) {
        let a = tensor::dims(cache)[0] as int;
        let b = tensor::dims(cache)[1] as int;
        assert(tensor::dims(cache)[2] > 0 && tensor::dims(cache)[3] > 0);
        assert(a * b > 0) by (nonlinear_arith)
            requires
                a > 0,
                b > 0,
        ;
        assert(tensor::has_elements(flat));
    }
}

/// A cache with its first two dimensions made into one is no larger.
proof fn lemma_flat_span(dims: Seq<usize>)
    requires
        dims.len() == 4,
        dims[2] > 0,
        dims[3] > 0,
        tensor::span(dims) <= isize::MAX / 8,
    ensures
        0 <= dims[0] * dims[1] <= isize::MAX / 8,
        tensor::span(seq![(dims[0] * dims[1]) as usize, dims[2], dims[3]]) <= isize::MAX / 8,
{
    reveal_with_fuel(tensor::span, 5);
    let a = dims[0] as int;
    let b = dims[1] as int;
    let h = dims[2] as int;
    let w = dims[3] as int;
    let a1 = if a == 0 { 1 } else { a };
    let b1 = if b == 0 { 1 } else { b };
    let first = dims.drop_last();
    let second = first.drop_last();
    let third = second.drop_last();
    assert(third.drop_last().len() == 0);
    assert(tensor::span(third) == a1);
    assert(tensor::span(second) == a1 * b1);
    assert(tensor::span(first) == a1 * b1 * h);
    assert(tensor::span(dims) == a1 * b1 * h * w);
    assert(0 <= a * b <= a1 * b1 && 1 <= a1 * b1) by (nonlinear_arith)
        requires
            0 <= a <= a1,
            0 <= b <= b1,
            1 <= a1,
            1 <= b1,
    ;
    let p = a1 * b1;
    assert(p <= p * h && p * h <= p * h * w) by (nonlinear_arith)
        requires
            1 <= p,
            1 <= h,
            1 <= w,
    ;
    let n = (a * b) as usize;
    let n1 = if n == 0 { 1 } else { n as int };
    let flat = seq![n, dims[2], dims[3]];
    assert(flat.drop_last().drop_last().drop_last().len() == 0);
    assert(tensor::span(flat.drop_last().drop_last()) == n1);
    assert(tensor::span(flat.drop_last()) == n1 * h);
    assert(tensor::span(flat) == n1 * h * w);
    assert(n1 * h * w <= p * h * w) by (nonlinear_arith)
        requires
            n1 <= p,
            1 <= h,
            1 <= w,
    ;
}

/// The slots of a sequence are rows of the flat cache where its blocks are in the cache, and
/// only there.
proof fn lemma_slots_are_rows(
    slots: Seq<u32>,
    row: Seq<u32>,
    cache: Tensor,
    flat: Tensor,
    len: int,
)
    requires
        tensor::dims(cache).len() == 4,
        tensor::dims(cache)[1] > 0,
        tensor::is_flattened(flat, cache),
        tensor::dims(cache)[0] * tensor::dims(cache)[1] <= usize::MAX,
        forall|i: int| #[trigger]
            is_read(row, tensor::dims(cache)[1] as int, len, i) ==> (row[i] + 1) * tensor::dims(
                cache,
            )[1] <= u32::MAX + 1,
        0 <= len,
        slots == Seq::new(
            slots_within(row.len() as int, tensor::dims(cache)[1] as int, len) as nat,
            |x: int|
                (row[x / tensor::dims(cache)[1] as int] * tensor::dims(cache)[1] + x
                    % tensor::dims(cache)[1] as int) as u32,
        ),
    ensures
        slots_are_small(row, cache, len) ==> {
            let rows = slots.map_values(|slot: u32| slot as int);
            &&& blocks_are_there(row, cache, len) == tensor::are_rows(rows, flat, u32::MAX as int)
            &&& blocks_are_there(row, cache, len) == tensor::are_rows_or_blank(
                rows,
                flat,
                u32::MAX as int,
            )
        },
{
    let page = tensor::dims(cache)[1] as int;
    let blocks = tensor::dims(cache)[0] as int;
    let rows = slots.map_values(|slot: u32| slot as int);
    if slots_are_small(row, cache, len) {
        assert forall|x: int| 0 <= x < slots.len() implies {
            &&& is_read(row, page, len, x / page)
            &&& (#[trigger] slots[x]) == row[x / page] * page + x % page
            &&& slots[x] < u32::MAX
            &&& (slots[x] < blocks * page) == (row[x / page] < blocks)
        } by {
            lemma_slot_of(row, page, len, x, blocks);
        }
        assert forall|x: int| 0 <= x < slots.len() implies (#[trigger] rows[x]) == slots[x] by {}
        if blocks_are_there(row, cache, len) {
            assert(tensor::are_rows(rows, flat, u32::MAX as int)) by {
                assert forall|x: int| 0 <= x < rows.len() implies 0 <= (#[trigger] rows[x])
                    < tensor::dims(flat)[0] && rows[x] != u32::MAX by {
                    assert(rows[x] == slots[x]);
                    assert(is_read(row, page, len, x / page));
                }
            }
        }
        if tensor::are_rows_or_blank(rows, flat, u32::MAX as int) {
            assert forall|i: int| #[trigger] is_read(row, page, len, i) implies row[i] < blocks by {
                let x = i * page;
                assert(0 <= x && x + page <= row.len() * page && x / page == i) by (nonlinear_arith)
                    requires
                        x == i * page,
                        0 <= i,
                        i + 1 <= row.len(),
                        page > 0,
                ;
                assert(0 <= x < slots.len());
                assert(rows[x] == slots[x]);
            }
        }
    }
}

/// The slot of token `x`: it is in its block, and below the number of slots just where the
/// block is below the number of blocks.
proof fn lemma_slot_of(row: Seq<u32>, page: int, len: int, x: int, blocks: int)
    requires
        page > 0,
        0 <= blocks,
        0 <= x < slots_within(row.len() as int, page, len),
        is_read(row, page, len, x / page) ==> (row[x / page] + 1) * page <= u32::MAX,
    ensures
        is_read(row, page, len, x / page),
        0 <= row[x / page] * page + x % page < u32::MAX,
        (row[x / page] * page + x % page < blocks * page) == (row[x / page] < blocks),
        (row[x / page] * page + x % page) / page == row[x / page],
        (row[x / page] * page + x % page) % page == x % page,
{
    let n = row.len() as int;
    let i = x / page;
    let r = x % page;
    assert(0 <= i < n && i * page <= x && 0 <= r < page) by (nonlinear_arith)
        requires
            page > 0,
            0 <= x < n * page,
            i == x / page,
            r == x % page,
    ;
    assert(is_read(row, page, len, i));
    let b = row[i] as int;
    assert(b * page >= 0 && (b + 1) * page == b * page + page) by (nonlinear_arith)
        requires
            b >= 0,
            page > 0,
    ;
    assert((b * page + r < blocks * page) == (b < blocks)) by (nonlinear_arith)
        requires
            0 <= r < page,
            b >= 0,
            blocks >= 0,
    ;
    assert((b * page + r) / page == b && (b * page + r) % page == r) by (nonlinear_arith)
        requires
            0 <= r < page,
    ;
}

/// Rows that are selected from the flat cache by the slots are what the slots hold.
proof fn lemma_gathered(
    part: Tensor,
    flat: Tensor,
    cache: Tensor,
    slots: Seq<u32>,
    row: Seq<u32>,
    len: int,
)
    requires
        tensor::dims(cache).len() == 4,
        tensor::dims(cache)[1] > 0,
        tensor::is_flattened(flat, cache),
        tensor::dims(cache)[0] * tensor::dims(cache)[1] <= usize::MAX,
        0 <= len,
        slots_are_small(row, cache, len),
        blocks_are_there(row, cache, len),
        slots == Seq::new(
            slots_within(row.len() as int, tensor::dims(cache)[1] as int, len) as nat,
            |x: int|
                (row[x / tensor::dims(cache)[1] as int] * tensor::dims(cache)[1] + x
                    % tensor::dims(cache)[1] as int) as u32,
        ),
        slots.len() <= usize::MAX,
        tensor::is_selected(part, flat, slots.map_values(|slot: u32| slot as int)),
    ensures
        is_gathered(part, cache, row, len),
{
    let page = tensor::dims(cache)[1] as int;
    let blocks = tensor::dims(cache)[0] as int;
    let rows = slots.map_values(|slot: u32| slot as int);
    assert(0 <= row.len() * page) by (nonlinear_arith)
        requires
            page > 0,
    ;
    assert(tensor::dims(part) =~= seq![
        slots.len() as usize,
        tensor::dims(cache)[2],
        tensor::dims(cache)[3],
    ]);
    assert forall|index: Seq<usize>|
        tensor::in_range(index, tensor::dims(part)) implies #[trigger] tensor::elements(part)[index]
        == tensor::elements(cache)[seq![
        row[index[0] as int / page] as usize,
        (index[0] as int % page) as usize,
        index[1],
        index[2],
    ]] by {
        let x = index[0] as int;
        assert(index[0] < tensor::dims(part)[0]);
        assert(index[1] < tensor::dims(part)[1]);
        assert(index[2] < tensor::dims(part)[2]);
        assert(is_read(row, page, len, x / page) ==> (row[x / page] + 1) * page <= u32::MAX);
        lemma_slot_of(row, page, len, x, blocks);
        assert(row[x / page] < blocks);
        let slot = rows[x];
        assert(slot == slots[x]);
        let moved = index.update(0, slot as usize);
        assert(tensor::elements(part)[index] == tensor::elements(flat)[moved]);
        assert(tensor::in_range(moved, tensor::dims(flat)));
        assert(tensor::elements(flat)[moved] == tensor::elements(cache)[seq![
            (slot / page) as usize,
            (slot % page) as usize,
            index[1],
            index[2],
        ]]);
    }
}

/// Attention reads what was written: the slot that it finds for each token in context is the
/// one that the token was written to.
pub proof fn tokens_are_read_where_they_were_written(
    seq: SeqView,
    size: nat,
    row: Seq<u32>,
    x: int,
)
    requires
        size > 0,
        model_runner::can_run(seq, size),
        seq.table.len() > 0,
        row.len() >= seq.table.len(),
        forall|i: int| 0 <= i < seq.table.len() ==> (#[trigger] row[i]) == seq.table[i],
        0 <= x < seq.context(),
    ensures
        x < slots_within(row.len() as int, size as int, seq.context() as int),
        row[x / size as int] * size + x % size as int == model_runner::slot(seq, x),
{
    let n = size as int;
    model_runner::lemma_slot(seq, size, x);
    sequence::lemma_ceil_div(seq.context() as int, n);
    let m = seq.context_blocks();
    assert(m * n <= row.len() * n) by (nonlinear_arith)
        requires
            m <= row.len(),
            n > 0,
    ;
}

/// What is gathered for a sequence is what stands in the slots of its tokens: at the place of
/// token `x`, what the slot holds that the token was written to.
pub proof fn what_is_gathered_stands_in_the_slots(
    seq: SeqView,
    row: Seq<u32>,
    cache: Tensor,
    part: Tensor,
    index: Seq<usize>,
)
    requires
        tensor::dims(cache).len() == 4,
        tensor::dims(cache)[1] > 0,
        model_runner::can_run(seq, tensor::dims(cache)[1] as nat),
        seq.table.len() > 0,
        row.len() >= seq.table.len(),
        forall|i: int| 0 <= i < seq.table.len() ==> (#[trigger] row[i]) == seq.table[i],
        seq.context() <= usize::MAX,
        is_gathered(part, cache, row, seq.context() as int),
        tensor::in_range(index, tensor::dims(part)),
    ensures
        tensor::dims(part)[0] == seq.context(),
        ({
            let slot = model_runner::slot(seq, index[0] as int);
            tensor::elements(part)[index] == tensor::elements(cache)[seq![
                (slot / tensor::dims(cache)[1] as int) as usize,
                (slot % tensor::dims(cache)[1] as int) as usize,
                index[1],
                index[2],
            ]]
        }),
{
    let page = tensor::dims(cache)[1] as int;
    let x = index[0] as int;
    let len = seq.context() as int;
    assert(index[0] < tensor::dims(part)[0]);
    assert(0 <= row.len() * page) by (nonlinear_arith)
        requires
            page > 0,
    ;
    assert(slots_within(row.len() as int, page, len) == len) by {
        assert(x < len);
        tokens_are_read_where_they_were_written(seq, page as nat, row, len - 1);
    }
    tokens_are_read_where_they_were_written(seq, page as nat, row, x);
    let b = row[x / page] as int;
    let r = x % page;
    assert((b * page + r) / page == b && (b * page + r) % page == r) by (nonlinear_arith)
        requires
            0 <= r < page,
    ;
}

/// The context of every sequence of a step is what stands in the slots of its tokens, also
/// where sequences of other lengths stand before it.
pub proof fn the_context_stands_in_the_slots(
    seqs: Seq<SeqView>,
    tables: Seq<u32>,
    width: int,
    lens: Seq<u32>,
    cache: Tensor,
    all: Tensor,
    i: int,
    x: int,
    a: usize,
    b: usize,
)
    requires
        tensor::dims(cache).len() == 4,
        tensor::dims(cache)[1] > 0,
        lens.len() == seqs.len(),
        lens.len() * width <= tables.len(),
        is_context(all, cache, tables, width, lens),
        0 <= i < seqs.len(),
        model_runner::can_run(seqs[i], tensor::dims(cache)[1] as nat),
        0 < seqs[i].table.len() <= width,
        forall|k: int|
            0 <= k < seqs[i].table.len() ==> (#[trigger] table_row(tables, width, i)[k])
                == seqs[i].table[k],
        lens[i] == seqs[i].context(),
        0 <= x < seqs[i].context(),
        a < tensor::dims(cache)[2],
        b < tensor::dims(cache)[3],
    ensures
        ({
            let page = tensor::dims(cache)[1] as int;
            let slot = model_runner::slot(seqs[i], x);
            tensor::elements(all)[token_index(tokens_before(lens, width, page, i) + x, a, b)]
                == tensor::elements(cache)[seq![
                (slot / page) as usize,
                (slot % page) as usize,
                a,
                b,
            ]]
        }),
{
    let page = tensor::dims(cache)[1] as int;
    assert(0 <= i * width && i * width + width <= tables.len()) by (nonlinear_arith)
        requires
            0 <= i,
            i + 1 <= lens.len(),
            lens.len() * width <= tables.len(),
            0 <= width,
    ;
    let row = table_row(tables, width, i);
    tokens_are_read_where_they_were_written(seqs[i], page as nat, row, x);
    let own = row[x / page] as int;
    let rest = x % page;
    assert((own * page + rest) / page == own && (own * page + rest) % page == rest)
        by (nonlinear_arith)
        requires
            0 <= rest < page,
    ;
}

/// The index of a number of the cache in a slot.
pub open spec fn slot_index(slot: int, page: int, a: usize, b: usize) -> Seq<usize> {
    seq![(slot / page) as usize, (slot % page) as usize, a, b]
}

/// `after` is what the cache `before` becomes when row `t` of `rows` is written into slot
/// `slots[t]`, for each of them, and rows with a negative slot are left out. Rows for the same
/// slot are the same.
pub open spec fn is_stored(after: Tensor, before: Tensor, rows: Tensor, slots: Seq<i64>) -> bool {
    let page = tensor::dims(before)[1] as int;
    &&& tensor::dims(after) == tensor::dims(before)
    &&& forall|t: int, a: usize, b: usize|
        0 <= t < slots.len() && slots[t] >= 0 && a < tensor::dims(before)[2] && b < tensor::dims(
            before,
        )[3] ==> tensor::elements(after)[slot_index(slots[t] as int, page, a, b)]
            == tensor::elements(rows)[#[trigger] token_index(t, a, b)]
    &&& forall|index: Seq<usize>|
        tensor::in_range(index, tensor::dims(before)) && (forall|t: int|
            0 <= t < slots.len() ==> (#[trigger] slots[t]) != index[0] * page + index[1])
            ==> #[trigger] tensor::elements(after)[index] == tensor::elements(before)[index]
}

/// A slot of the cache holds what was stored into it, or what it held before.
proof fn lemma_stored(
    after: Tensor,
    before: Tensor,
    rows: Tensor,
    slots: Seq<i64>,
    block: usize,
    r: int,
    a: usize,
    b: usize,
)
    requires
        tensor::dims(before).len() == 4,
        0 <= r < tensor::dims(before)[1],
        a < tensor::dims(before)[2],
        b < tensor::dims(before)[3],
        is_stored(after, before, rows, slots),
    ensures
        ({
            let page = tensor::dims(before)[1] as int;
            let slot = block * page + r;
            let found = tensor::elements(after)[seq![block, r as usize, a, b]];
            &&& slot_index(slot, page, a, b) == seq![block, r as usize, a, b]
            &&& forall|t: int|
                0 <= t < slots.len() && #[trigger] slots[t] == slot ==> found == tensor::elements(
                    rows,
                )[token_index(t, a, b)]
            &&& (forall|t: int| 0 <= t < slots.len() ==> #[trigger] slots[t] != slot) && block
                < tensor::dims(before)[0] ==> found == tensor::elements(before)[slot_index(
                slot,
                page,
                a,
                b,
            )]
        }),
{
    let page = tensor::dims(before)[1] as int;
    let slot = block * page + r;
    let index = seq![block, r as usize, a, b];
    assert(slot / page == block && slot % page == r && slot >= 0) by (nonlinear_arith)
        requires
            slot == block * page + r,
            0 <= r < page,
            block >= 0,
    ;
    assert(slot_index(slot, page, a, b) =~= index);
    assert forall|t: int| 0 <= t < slots.len() && #[trigger] slots[t] == slot implies tensor::elements(
        after,
    )[index] == tensor::elements(rows)[token_index(t, a, b)] by {
        assert(slots[t] >= 0);
    }
    if (forall|t: int| 0 <= t < slots.len() ==> #[trigger] slots[t] != slot) && block
        < tensor::dims(before)[0] {
        assert(tensor::in_range(index, tensor::dims(before)));
        assert(tensor::elements(after)[index] == tensor::elements(before)[index]);
    }
}

/// What is stored is gathered: where a slot of the sequence was written, its row comes back, and
/// where it was not, what the slot held before.
pub proof fn what_is_stored_is_gathered(
    after: Tensor,
    before: Tensor,
    rows: Tensor,
    slots: Seq<i64>,
    row: Seq<u32>,
    len: int,
    part: Tensor,
    index: Seq<usize>,
)
    requires
        tensor::dims(before).len() == 4,
        tensor::dims(before)[1] > 0,
        is_stored(after, before, rows, slots),
        is_gathered(part, after, row, len),
        tensor::in_range(index, tensor::dims(part)),
    ensures
        ({
            let page = tensor::dims(before)[1] as int;
            let block = row[index[0] as int / page];
            let slot = block * page + index[0] as int % page;
            &&& forall|t: int|
                0 <= t < slots.len() && #[trigger] slots[t] == slot ==> tensor::elements(
                    part,
                )[index] == tensor::elements(rows)[token_index(t, index[1], index[2])]
            &&& (forall|t: int| 0 <= t < slots.len() ==> #[trigger] slots[t] != slot) && block
                < tensor::dims(before)[0] ==> tensor::elements(part)[index] == tensor::elements(
                before,
            )[slot_index(slot, page, index[1], index[2])]
        }),
{
    let page = tensor::dims(before)[1] as int;
    assert(index[1] < tensor::dims(part)[1]);
    assert(index[2] < tensor::dims(part)[2]);
    assert(0 <= index[0] as int % page < page) by (nonlinear_arith)
        requires
            page > 0,
    ;
    lemma_stored(
        after,
        before,
        rows,
        slots,
        row[index[0] as int / page] as usize,
        index[0] as int % page,
        index[1],
        index[2],
    );
    assert(tensor::elements(part)[index] == tensor::elements(part)[index]);
}

/// What a step stores is what its attention reads: at token `x` of sequence `i` stands the row
/// that the step wrote into the slot of the token, or, where it wrote none, what an earlier step
/// left there.
pub proof fn the_context_is_what_was_stored(
    after: Tensor,
    before: Tensor,
    rows: Tensor,
    slots: Seq<i64>,
    seqs: Seq<SeqView>,
    tables: Seq<u32>,
    width: int,
    lens: Seq<u32>,
    all: Tensor,
    i: int,
    x: int,
    a: usize,
    b: usize,
)
    requires
        tensor::dims(before).len() == 4,
        tensor::dims(before)[1] > 0,
        is_stored(after, before, rows, slots),
        lens.len() == seqs.len(),
        lens.len() * width <= tables.len(),
        is_context(all, after, tables, width, lens),
        0 <= i < seqs.len(),
        model_runner::can_run(seqs[i], tensor::dims(before)[1] as nat),
        0 < seqs[i].table.len() <= width,
        forall|k: int|
            0 <= k < seqs[i].table.len() ==> (#[trigger] table_row(tables, width, i)[k])
                == seqs[i].table[k],
        lens[i] == seqs[i].context(),
        0 <= x < seqs[i].context(),
        a < tensor::dims(before)[2],
        b < tensor::dims(before)[3],
    ensures
        ({
            let page = tensor::dims(before)[1] as int;
            let slot = model_runner::slot(seqs[i], x);
            let found = tensor::elements(all)[token_index(
                tokens_before(lens, width, page, i) + x,
                a,
                b,
            )];
            &&& forall|t: int|
                0 <= t < slots.len() && #[trigger] slots[t] == slot ==> found == tensor::elements(
                    rows,
                )[token_index(t, a, b)]
            &&& (forall|t: int| 0 <= t < slots.len() ==> #[trigger] slots[t] != slot) && slot / page
                < tensor::dims(before)[0] ==> found == tensor::elements(before)[slot_index(
                slot,
                page,
                a,
                b,
            )]
        }),
{
    let page = tensor::dims(before)[1] as int;
    the_context_stands_in_the_slots(seqs, tables, width, lens, after, all, i, x, a, b);
    let row = table_row(tables, width, i);
    assert(row.len() == width) by {
        assert(i * width + width <= lens.len() * width && 0 <= i * width) by (nonlinear_arith)
            requires
                0 <= i,
                i + 1 <= lens.len(),
                width >= 0,
        ;
    }
    tokens_are_read_where_they_were_written(seqs[i], page as nat, row, x);
    let block = row[x / page] as usize;
    let r = x % page;
    let slot = model_runner::slot(seqs[i], x);
    assert(0 <= r < page) by (nonlinear_arith)
        requires
            r == x % page,
            page > 0,
    ;
    lemma_stored(after, before, rows, slots, block, r, a, b);
    assert(slot / page == block) by (nonlinear_arith)
        requires
            slot == block * page + r,
            0 <= r < page,
    ;
}

} // verus!
