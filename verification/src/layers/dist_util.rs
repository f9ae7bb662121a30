//! The shapes of what the ranks exchange.
use crate::layers::tensor;
use vstd::prelude::*;
use vstd::slice::slice_to_vec;

verus! {

/// The dimensions of what the ranks have, one behind the other: the first dimension is that
/// of all of them.
pub fn stacked_dims(dims: &[usize], world_size: usize) -> (stacked: Vec<usize>)
    requires
        dims@.len() > 0,
        dims@[0] * world_size <= usize::MAX,
    ensures
        stacked@ == dims@.update(0, (dims@[0] * world_size) as usize),
{
    let mut stacked = slice_to_vec(dims);
    let first = stacked[0] * world_size;
    stacked[0] = first;
    stacked
}

/// The number of elements of a tensor with dimensions `dims`.
pub open spec fn count(dims: Seq<usize>) -> int
    decreases dims.len(),
{
    if dims.len() == 0 {
        1
    } else {
        count(dims.drop_last()) * dims.last()
    }
}

/// The place of an element among those of a tensor with dimensions `dims`, row by row.
pub open spec fn place(index: Seq<usize>, dims: Seq<usize>) -> int
    decreases dims.len(),
{
    if dims.len() == 0 {
        0
    } else {
        place(index.drop_last(), dims.drop_last()) * dims.last() + index.last()
    }
}

/// The dimensions of what the ranks have as one matrix for each rank: its columns are the last
/// dimension, and all the others are rows. There are none where the rows cannot be counted.
pub fn gathered_dims(dims: &[usize], world_size: usize) -> (gathered: Option<Vec<usize>>)
    requires
        dims@.len() > 0,
    ensures
        match gathered {
            Some(g) => g@ == seq![world_size, count(dims@.drop_last()) as usize, dims@.last()]
                && count(dims@.drop_last()) <= usize::MAX,
            None => exists|n: int|
                0 <= n < dims@.len() && #[trigger] count(dims@.take(n)) > usize::MAX,
        },
{
    let last = dims.len() - 1;
    let mut rows: usize = 1;
    let mut i: usize = 0;
    while i < last
        invariant
            last == dims@.len() - 1,
            i <= last,
            rows == count(dims@.take(i as int)),
        decreases last - i,
    {
        proof {
            let more = dims@.take(i + 1);
            assert(more.drop_last() =~= dims@.take(i as int));
            assert(more.last() == dims@[i as int]);
        }
        match rows.checked_mul(dims[i]) {
            Some(product) => {
                rows = product;
            },
            None => {
                assert(count(dims@.take(i + 1)) > usize::MAX);
                return None;
            },
        }
        i = i + 1;
    }
    assert(dims@.take(i as int) =~= dims@.drop_last());
    Some(vec![world_size, rows, dims[last]])
}

/// The dimensions once the shards stand side by side in the last one.
pub fn concat_dims(dims: &[usize], world_size: usize) -> (joined: Vec<usize>)
    requires
        dims@.len() > 0,
        dims@.last() * world_size <= usize::MAX,
    ensures
        joined@ == dims@.update(dims@.len() - 1, (dims@.last() * world_size) as usize),
{
    let mut joined = slice_to_vec(dims);
    let last = joined.len() - 1;
    let width = joined[last] * world_size;
    joined[last] = width;
    joined
}

/// Gathering puts each shard in its place, for any number of dimensions. The elements of rank `r`
/// stand behind those of the lower ranks, as a matrix of rows and columns. With the ranks behind
/// the rows, each element comes to stand where it is once the shards are side by side: its last
/// index has moved behind the columns of the lower ranks, and the others are as they were.
pub proof fn gathered_shards_stand_side_by_side(
    dims: Seq<usize>,
    ranks: int,
    r: int,
    index: Seq<usize>,
)
    requires
        dims.len() > 0,
        tensor::in_range(index, dims),
        0 <= r < ranks,
        dims.last() * ranks <= usize::MAX,
    ensures
        ({
            let columns = dims.last();
            let rows = count(dims.drop_last());
            let i = place(index.drop_last(), dims.drop_last());
            let j = index.last();
            let moved = index.update(dims.len() - 1, (r * columns + j) as usize);
            let joined = dims.update(dims.len() - 1, (columns * ranks) as usize);
            &&& 0 <= i < rows
            &&& r * count(dims) + place(index, dims) == (r * rows + i) * columns + j
            &&& tensor::in_range(moved, joined)
            &&& place(moved, joined) == (i * ranks + r) * columns + j
        }),
{
    let columns = dims.last() as int;
    let rows = count(dims.drop_last());
    let i = place(index.drop_last(), dims.drop_last());
    let j = index.last() as int;
    let last = dims.len() - 1;
    let moved = index.update(last, (r * columns + j) as usize);
    let joined = dims.update(last, (columns * ranks) as usize);
    assert(index[last] < dims[last]);
    assert forall|k: int| 0 <= k < last implies (#[trigger] index.drop_last()[k])
        < dims.drop_last()[k] by {
        assert(index[k] < dims[k]);
    }
    lemma_place(index.drop_last(), dims.drop_last());
    assert(0 <= r * columns && r * columns + columns <= columns * ranks) by (nonlinear_arith)
        requires
            0 <= r,
            r + 1 <= ranks,
            0 <= columns,
    ;
    assert(moved.drop_last() =~= index.drop_last());
    assert(joined.drop_last() =~= dims.drop_last());
    assert forall|k: int| 0 <= k < joined.len() implies (#[trigger] moved[k]) < joined[k] by {
        assert(index[k] < dims[k]);
    }
    assert(r * (rows * columns) + (i * columns + j) == (r * rows + i) * columns + j)
        by (nonlinear_arith);
    assert(i * (columns * ranks) + (r * columns + j) == (i * ranks + r) * columns + j)
        by (nonlinear_arith);
}

/// The place of an element is one of those that the tensor has.
proof fn lemma_place(index: Seq<usize>, dims: Seq<usize>)
    requires
        tensor::in_range(index, dims),
    ensures
        0 <= place(index, dims) < count(dims),
    decreases dims.len(),
{
    if dims.len() > 0 {
        let last = dims.len() - 1;
        assert(index[last] < dims[last]);
        assert forall|k: int| 0 <= k < last implies (#[trigger] index.drop_last()[k])
            < dims.drop_last()[k] by {
            assert(index[k] < dims[k]);
        }
        lemma_place(index.drop_last(), dims.drop_last());
        let i = place(index.drop_last(), dims.drop_last());
        let rows = count(dims.drop_last());
        let columns = dims.last() as int;
        let j = index.last() as int;
        assert(0 <= i * columns && i * columns + columns <= rows * columns) by (nonlinear_arith)
            requires
                0 <= i,
                i + 1 <= rows,
                0 <= columns,
        ;
    }
}

} // verus!
