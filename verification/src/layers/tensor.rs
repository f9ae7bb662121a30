//! The few operations on tensors that weights are cut and put together with.
//!
//! A tensor is known here by its dimensions and by its elements, each of which stands at one
//! index. The elements are those that the tensor has while nothing writes into its storage
//! in place. Nothing in this library does, but whoever runs the model writes new keys and values
//! into the caches between two calls: a cache that has been written to is another tensor to the
//! contracts here, as if a new one had been made.
use candle_core::{DType, Device, Error, Tensor};
use candle_nn::{Embedding, Module};
use vstd::prelude::*;

verus! {

/// `candle_core::Tensor`.
#[verifier::external_type_specification]
#[verifier::external_body]
pub struct ExTensor(candle_core::Tensor);

/// `candle_core::Device`.
#[verifier::external_type_specification]
#[verifier::external_body]
pub struct ExDevice(candle_core::Device);

/// `candle_core::Error`.
#[verifier::external_type_specification]
#[verifier::external_body]
pub struct ExError(candle_core::Error);

/// The dimensions of a tensor, as `candle_core::Tensor::dims` gives them.
pub uninterp spec fn dims(tensor: Tensor) -> Seq<usize>;

/// The elements of a tensor, by their bits, at their indices, as they are between two writes into
/// its storage.
pub uninterp spec fn elements(tensor: Tensor) -> Map<Seq<usize>, u64>;

/// The types of the elements of a tensor.
#[derive(Debug, Clone, Copy, PartialEq, Eq, Structural)]
pub enum TensorType {
    U8,
    U32,
    I16,
    I32,
    I64,
    BF16,
    F16,
    F32,
    F64,
    F8E4M3,
    /// One that elements cannot be copied or selected by.
    Other,
}

impl TensorType {
    /// Elements of this type can be copied and selected in the memory of the CPU.
    pub open spec fn is_full(self) -> bool {
        self != TensorType::Other
    }
}

/// The type of the elements of a tensor, as `candle_core::Tensor::dtype` says.
pub uninterp spec fn element_type(tensor: Tensor) -> TensorType;

/// Whether two tensors are in the same memory, as the `candle_core::Device::location` of their
/// `candle_core::Tensor::device` says.
pub uninterp spec fn are_together(a: Tensor, b: Tensor) -> bool;

/// Whether a tensor is in the memory of the CPU, as its `candle_core::Tensor::device` says.
pub uninterp spec fn on_cpu(tensor: Tensor) -> bool;

/// Whether a device is the CPU, as `candle_core::Device::is_cpu` says.
pub uninterp spec fn is_cpu(device: Device) -> bool;

/// Whether the elements of a tensor stand in storage without gaps, row by row, as
/// `candle_core::Tensor::is_contiguous` says.
pub uninterp spec fn is_contiguous(tensor: Tensor) -> bool;

/// Where in its storage a tensor begins, as `candle_core::Layout::start_offset` says of its
/// `candle_core::Tensor::layout`.
pub uninterp spec fn start_offset(tensor: Tensor) -> nat;

/// The elements are 32-bit floats.
pub open spec fn is_f32(tensor: Tensor) -> bool {
    element_type(tensor) == TensorType::F32
}

/// A tensor in the memory of the CPU, of elements that can be copied and selected there.
pub open spec fn is_plain(tensor: Tensor) -> bool {
    element_type(tensor).is_full() && on_cpu(tensor)
}

/// Two tensors have the same type of elements, and both or none are in the memory of the CPU.
pub open spec fn same_kind(a: Tensor, b: Tensor) -> bool {
    element_type(a) == element_type(b) && on_cpu(a) == on_cpu(b)
}

/// `index` is one of a tensor with dimensions `dims`.
pub open spec fn in_range(index: Seq<usize>, dims: Seq<usize>) -> bool {
    &&& index.len() == dims.len()
    &&& forall|i: int| 0 <= i < dims.len() ==> (#[trigger] index[i]) < dims[i]
}

/// `tensor` has a dimension `d`, with `end` slices or more along it.
pub open spec fn has_slices(tensor: Tensor, d: int, end: int) -> bool {
    0 <= d < dims(tensor).len() && end <= dims(tensor)[d]
}

/// `part` is the `len` slices of `whole` along dimension `d` that begin at `start`.
pub open spec fn is_slice(part: Tensor, whole: Tensor, d: int, start: int, len: int) -> bool {
    &&& 0 <= d < dims(whole).len()
    &&& start + len <= dims(whole)[d]
    &&& dims(part) == dims(whole).update(d, len as usize)
    &&& forall|index: Seq<usize>|
        in_range(index, dims(part)) ==> #[trigger] elements(part)[index] == elements(
            whole,
        )[index.update(d, (index[d] + start) as usize)]
}

/// No dimension of the tensor is empty.
pub open spec fn has_elements(tensor: Tensor) -> bool {
    forall|i: int| 0 <= i < dims(tensor).len() ==> (#[trigger] dims(tensor)[i]) > 0
}

/// The elements of the tensor can be read from its storage. A tensor without elements may begin
/// behind the end of it.
pub open spec fn can_be_read(tensor: Tensor) -> bool {
    has_elements(tensor) || start_offset(tensor) == 0
}

/// The number of elements of a tensor with dimensions `dims`, where an empty dimension counts
/// as one.
pub open spec fn span(dims: Seq<usize>) -> int
    decreases dims.len(),
{
    if dims.len() == 0 {
        1
    } else {
        span(dims.drop_last()) * (if dims.last() == 0 {
            1
        } else {
            dims.last() as int
        })
    }
}

/// All of `rows` are slices of `whole` along its first dimension, and none is `blank`.
pub open spec fn are_rows(rows: Seq<int>, whole: Tensor, blank: int) -> bool {
    forall|i: int|
        0 <= i < rows.len() ==> 0 <= (#[trigger] rows[i]) < dims(whole)[0] && rows[i] != blank
}

/// All of `rows` are slices of `whole` along its first dimension, or `blank`.
pub open spec fn are_rows_or_blank(rows: Seq<int>, whole: Tensor, blank: int) -> bool {
    forall|i: int|
        0 <= i < rows.len() ==> 0 <= (#[trigger] rows[i]) < dims(whole)[0] || rows[i] == blank
}

/// `part` is the slices `rows` of `whole` along the first dimension, one after the other.
pub open spec fn is_selected(part: Tensor, whole: Tensor, rows: Seq<int>) -> bool {
    &&& dims(part) == dims(whole).update(0, rows.len() as usize)
    &&& forall|index: Seq<usize>|
        in_range(index, dims(part)) ==> #[trigger] elements(part)[index] == elements(
            whole,
        )[index.update(0, rows[index[0] as int] as usize)]
}

/// The slices along dimension `d` that the first `j` parts have together.
pub open spec fn slices_before(parts: Seq<Tensor>, d: int, j: int) -> int
    decreases j,
{
    if j <= 0 {
        0
    } else {
        slices_before(parts, d, j - 1) + dims(parts[j - 1])[d]
    }
}

/// The parts differ in dimension `d` only.
pub open spec fn can_join(parts: Seq<Tensor>, d: int) -> bool {
    forall|j: int|
        0 <= j < parts.len() ==> dims(#[trigger] parts[j]) == dims(parts[0]).update(
            d,
            dims(parts[j])[d],
        )
}

/// `joined` is the parts one after the other along dimension `d`.
pub open spec fn is_joined(joined: Tensor, parts: Seq<Tensor>, d: int) -> bool {
    &&& can_join(parts, d)
    &&& dims(joined) == dims(parts[0]).update(
        d,
        slices_before(parts, d, parts.len() as int) as usize,
    )
    &&& forall|j: int, index: Seq<usize>|
        0 <= j < parts.len() && in_range(index, dims(parts[j])) ==> #[trigger] elements(
            parts[j],
        )[index] == elements(joined)[index.update(
            d,
            (slices_before(parts, d, j) + index[d]) as usize,
        )]
}

/// All the parts are in the memory of the CPU, of elements of one type that can be copied there.
pub open spec fn are_plain(parts: Seq<Tensor>) -> bool {
    forall|j: int|
        0 <= j < parts.len() ==> is_plain(#[trigger] parts[j]) && element_type(parts[j])
            == element_type(parts[0])
}

/// `flat` is `whole` with its first two dimensions made into one.
pub open spec fn is_flattened(flat: Tensor, whole: Tensor) -> bool {
    let each = dims(whole)[1] as int;
    &&& dims(flat) == seq![(dims(whole)[0] * each) as usize, dims(whole)[2], dims(whole)[3]]
    &&& forall|index: Seq<usize>|
        in_range(index, dims(flat)) ==> #[trigger] elements(flat)[index] == elements(whole)[seq![
            (index[0] as int / each) as usize,
            (index[0] as int % each) as usize,
            index[1],
            index[2],
        ]]
}

/// Every element of `tensor` has these bits.
pub open spec fn is_filled(tensor: Tensor, bits: u64) -> bool {
    forall|index: Seq<usize>|
        in_range(index, dims(tensor)) ==> #[trigger] elements(tensor)[index] == bits
}

/// Calls `candle_core::Tensor::rank`: the number of dimensions.
#[verifier::external_body]
pub(crate) fn rank(tensor: &Tensor) -> (rank: usize)
    ensures
        rank == dims(*tensor).len(),
{
    tensor.rank()
}

/// Calls `candle_core::Tensor::dim`: the size of dimension `d`, or an error where there is
/// no such dimension.
#[verifier::external_body]
pub(crate) fn dim(tensor: &Tensor, d: usize) -> (size: Result<usize, Error>)
    ensures
        size is Ok == (dims(*tensor).len() > d),
        size matches Ok(n) ==> n == dims(*tensor)[d as int],
{
    tensor.dim(d)
}

/// Calls `candle_core::Tensor::narrow`: `len` slices along dimension `d` from `start` on, or
/// an error where the tensor does not have them.
#[verifier::external_body]
pub(crate) fn narrow(tensor: &Tensor, d: usize, start: usize, len: usize) -> (part: Result<Tensor, Error>)
    requires
        start + len <= usize::MAX,
    ensures
        part is Ok == has_slices(*tensor, d as int, start + len),
        part matches Ok(t) ==> is_slice(t, *tensor, d as int, start as int, len as int)
            && same_kind(t, *tensor) && (d == 0 && is_contiguous(*tensor) ==> is_contiguous(t)),
{
    tensor.narrow(d, start, len)
}

/// Calls `candle_core::Layout::start_offset` on the `candle_core::Tensor::layout` of a tensor.
#[verifier::external_body]
pub(crate) fn offset(tensor: &Tensor) -> (start: usize)
    ensures
        start == start_offset(*tensor),
{
    tensor.layout().start_offset()
}

/// Calls `candle_core::Tensor::dtype`: the type of the elements.
#[verifier::external_body]
fn element_type_of(tensor: &Tensor) -> (kind: TensorType)
    ensures
        kind == element_type(*tensor),
{
    match tensor.dtype() {
        DType::U8 => TensorType::U8,
        DType::U32 => TensorType::U32,
        DType::I16 => TensorType::I16,
        DType::I32 => TensorType::I32,
        DType::I64 => TensorType::I64,
        DType::BF16 => TensorType::BF16,
        DType::F16 => TensorType::F16,
        DType::F32 => TensorType::F32,
        DType::F64 => TensorType::F64,
        DType::F8E4M3 => TensorType::F8E4M3,
        _ => TensorType::Other,
    }
}

/// Calls `candle_core::Device::location` on the `candle_core::Tensor::device` of two tensors:
/// whether they are in the same memory. Two in the memory of the CPU are, and one there and one
/// elsewhere are not.
#[verifier::external_body]
fn in_same_memory(a: &Tensor, b: &Tensor) -> (same: bool)
    ensures
        same == are_together(*a, *b),
        on_cpu(*a) && on_cpu(*b) ==> same,
        same ==> on_cpu(*a) == on_cpu(*b),
{
    a.device().location() == b.device().location()
}

/// Calls `candle_core::Tensor::cat`: the parts one after the other along dimension `d`. An error
/// comes where there is none, or where they differ in another dimension. None comes for parts in
/// the memory of the CPU, of elements of one type that can be copied there, that differ in no
/// other; of other tensors, which may differ in the type of their elements or their device, or
/// whose device may be out of memory, nothing is said. The parts have elements, or are empty ones from the beginning of their storage, to stand
/// along the first dimension.
#[verifier::external_body]
pub(crate) fn cat(parts: &Vec<Tensor>, d: usize) -> (joined: Result<Tensor, Error>)
    requires
        forall|j: int|
            0 <= j < parts@.len() ==> dims(#[trigger] parts@[j]).len() > d && span(dims(parts@[j]))
                <= isize::MAX / 8 && (has_elements(parts@[j]) || d == 0 && is_contiguous(parts@[j])
                && start_offset(parts@[j]) == 0),
        parts@.len() > 0 && can_join(parts@, d as int) ==> slices_before(
            parts@,
            d as int,
            parts@.len() as int,
        ) <= isize::MAX / 8 && span(
            dims(parts@[0]).update(
                d as int,
                slices_before(parts@, d as int, parts@.len() as int) as usize,
            ),
        ) <= isize::MAX / 8,
    ensures
        joined matches Ok(t) ==> parts@.len() > 0 && is_joined(t, parts@, d as int) && same_kind(
            t,
            parts@[0],
        ),
        joined is Ok || parts@.len() == 0 || !can_join(parts@, d as int) || !are_plain(parts@),
{
    Tensor::cat(parts, d)
}

/// Calls `candle_core::Tensor::zeros` for a matrix of 32-bit floats. On the CPU no error
/// comes; whether one comes on another device, which may be out of memory, is not said.
#[verifier::external_body]
pub(crate) fn zero_matrix(rows: usize, columns: usize, device: &Device) -> (matrix: Result<Tensor, Error>)
    requires
        rows * columns <= isize::MAX / 8,
    ensures
        matrix matches Ok(t) ==> dims(t) == seq![rows, columns] && is_filled(t, 0) && is_f32(t)
            && on_cpu(t) == is_cpu(*device) && is_contiguous(t) && start_offset(t) == 0,
        matrix is Ok || !is_cpu(*device),
{
    Tensor::zeros((rows, columns), DType::F32, device)
}

/// Calls `candle_core::Tensor::zeros` for a vector of 32-bit floats. On the CPU no error
/// comes; whether one comes on another device, which may be out of memory, is not said.
#[verifier::external_body]
pub(crate) fn zero_vector(len: usize, device: &Device) -> (vector: Result<Tensor, Error>)
    requires
        len <= isize::MAX / 8,
    ensures
        vector matches Ok(t) ==> dims(t) == seq![len] && is_filled(t, 0) && is_f32(t)
            && on_cpu(t) == is_cpu(*device),
        vector is Ok || !is_cpu(*device),
{
    Tensor::zeros(len, DType::F32, device)
}

/// The bits of the 32-bit float one.
pub const ONE_BITS: u64 = 0x3f80_0000;

/// Calls `candle_core::Tensor::ones` for a vector of 32-bit floats. On the CPU no error
/// comes; whether one comes on another device, which may be out of memory, is not said.
#[verifier::external_body]
pub(crate) fn one_vector(len: usize, device: &Device) -> (vector: Result<Tensor, Error>)
    requires
        len <= isize::MAX / 8,
    ensures
        vector matches Ok(t) ==> dims(t) == seq![len] && is_filled(t, ONE_BITS) && is_f32(t)
            && on_cpu(t) == is_cpu(*device),
        vector is Ok || !is_cpu(*device),
{
    Tensor::ones(len, DType::F32, device)
}

/// Calls `candle_core::Tensor::clone`: another handle to the same tensor.
#[verifier::external_body]
pub(crate) fn share(tensor: &Tensor) -> (same: Tensor)
    ensures
        dims(same) == dims(*tensor),
        elements(same) == elements(*tensor),
        same_kind(same, *tensor),
        is_contiguous(same) == is_contiguous(*tensor),
        start_offset(same) == start_offset(*tensor),
{
    tensor.clone()
}

/// Calls `candle_core::Tensor::reshape` to make the first two of four dimensions one. An error
/// comes where one of the last two dimensions is empty. None comes for another tensor whose
/// elements stand in storage without gaps, or can be copied in the memory of the CPU;
/// of other tensors, which are copied on their device, nothing is said.
#[verifier::external_body]
pub(crate) fn flatten_rows(tensor: &Tensor, heads: usize, width: usize) -> (flat: Result<
    Tensor,
    Error,
>)
    requires
        dims(*tensor).len() == 4,
        dims(*tensor)[2] == heads,
        dims(*tensor)[3] == width,
        dims(*tensor)[1] > 0,
        span(dims(*tensor)) <= isize::MAX / 8,
    ensures
        flat matches Ok(t) ==> is_flattened(t, *tensor) && same_kind(t, *tensor)
            && is_contiguous(t) && (start_offset(t) == 0 || start_offset(t) == start_offset(
            *tensor,
        )),
        flat is Err || (heads > 0 && width > 0),
        flat is Ok || heads == 0 || width == 0 || !(is_contiguous(*tensor) || is_plain(*tensor)),
{
    tensor.reshape(((), heads, width))
}

/// Calls `candle_core::Tensor::index_select` along the first dimension: the slices `rows`, one
/// after the other. In the memory of the CPU an error comes where there is no such slice; only
/// the largest number is none. None comes for elements there that can be selected and stand in
/// storage without gaps. What the largest number selects is not said, nor what comes of a slice that is not
/// there in the memory of another device. The tensor has elements, or begins where its storage
/// does.
#[verifier::external_body]
pub(crate) fn index_select(tensor: &Tensor, rows: &[u32]) -> (selected: Result<Tensor, Error>)
    requires
        can_be_read(*tensor),
        span(dims(*tensor)) <= isize::MAX / 8,
        span(dims(*tensor).update(0, rows@.len() as usize)) <= isize::MAX / 8,
    ensures
        selected matches Ok(t) ==> same_kind(t, *tensor) && is_contiguous(t) && start_offset(t)
            == 0 && dims(t) == dims(
            *tensor,
        ).update(0, rows@.len() as usize) && (are_rows(
            rows@.map_values(|row: u32| row as int),
            *tensor,
            u32::MAX as int,
        ) ==> is_selected(t, *tensor, rows@.map_values(|row: u32| row as int))),
        selected is Err || dims(*tensor).len() > 0,
        selected is Err || !on_cpu(*tensor) || are_rows_or_blank(
            rows@.map_values(|row: u32| row as int),
            *tensor,
            u32::MAX as int,
        ),
        selected is Ok || dims(*tensor).len() == 0 || !is_plain(*tensor) || !is_contiguous(*tensor)
            || !are_rows(rows@.map_values(|row: u32| row as int), *tensor, u32::MAX as int),
{
    let rows = Tensor::new(rows, tensor.device())?;
    tensor.index_select(&rows, 0)
}

/// Calls `candle_nn::Embedding::forward`: the rows `ids` of a weight, one below the other. In
/// the memory of the CPU an error comes where there is no such row; only the largest number is
/// none, and where addresses are shorter than 64 bits numbers beyond them are left out. None
/// comes for elements there that can be selected and stand without gaps. What the largest number
/// selects is not said, nor what comes of a row that is not there in the memory of another
/// device. The weight has elements, or begins where its storage does.
#[verifier::external_body]
pub(crate) fn embedding(weight: &Tensor, width: usize, ids: &[i64]) -> (rows: Result<Tensor, Error>)
    requires
        can_be_read(*weight),
        dims(*weight).len() == 2,
        dims(*weight)[1] == width,
        span(dims(*weight)) <= isize::MAX / 8,
        span(seq![ids@.len() as usize, width]) <= isize::MAX / 8,
    ensures
        rows matches Ok(t) ==> same_kind(t, *weight) && is_contiguous(t) && start_offset(t) == 0
            && dims(t) == dims(
            *weight,
        ).update(0, ids@.len() as usize) && (are_rows(
            ids@.map_values(|id: i64| id as int),
            *weight,
            i64::MAX as int,
        ) ==> is_selected(t, *weight, ids@.map_values(|id: i64| id as int))),
        rows is Err || !on_cpu(*weight) || !are_addresses(ids@) || are_rows_or_blank(
            ids@.map_values(|id: i64| id as int),
            *weight,
            i64::MAX as int,
        ),
        rows is Ok || !is_plain(*weight) || !is_contiguous(*weight) || !are_rows(
            ids@.map_values(|id: i64| id as int),
            *weight,
            i64::MAX as int,
        ),
{
    let ids = Tensor::new(ids, weight.device())?;
    Embedding::new(weight.clone(), width).forward(&ids)
}

/// An address can hold each of `ids`, or has as many bits as they have.
pub open spec fn are_addresses(ids: Seq<i64>) -> bool {
    usize::BITS == 64 || forall|i: int|
        0 <= i < ids.len() ==> 0 <= (#[trigger] ids[i]) <= usize::MAX
}

/// Why a layer could not be made or a weight not be loaded.
pub enum LayerError {
    /// An operation on tensors failed.
    Tensor(Error),
    /// The tensor has no dimension to cut along.
    NoDimension,
    /// There is no part of the layer by this name or number.
    UnknownShard,
    /// The layer is made of parts, and the weight does not say which it is.
    MissingShard,
    /// A tensor does not fit the one that it is to be put into.
    Shape,
    /// A tensor has elements of another type than the one that it is to be put into, or is in
    /// other memory.
    Kind,
    /// A tensor without elements does not begin where its storage does, and is not read.
    Unreadable,
}

impl LayerError {
    /// A tensor was to be put into another, and an operation on them failed or they do not fit.
    pub open spec fn is_misfit(self) -> bool {
        self is Tensor || self is Shape || self is Kind
    }
}

/// Whether the elements of a tensor can be read from its storage.
pub fn is_readable(tensor: &Tensor) -> (readable: bool)
    ensures
        readable == can_be_read(*tensor),
{
    let rank = rank(tensor);
    let mut i: usize = 0;
    while i < rank
        invariant
            rank == dims(*tensor).len(),
            i <= rank,
            forall|j: int| 0 <= j < i ==> (#[trigger] dims(*tensor)[j]) > 0,
        decreases rank - i,
    {
        let size = match dim(tensor, i) {
            Ok(size) => size,
            Err(_) => 0,
        };
        if size == 0 {
            assert(dims(*tensor)[i as int] == 0);
            return offset(tensor) == 0;
        }
        i = i + 1;
    }
    true
}

/// Cuts a tensor into halves along its last dimension. Of an odd number of slices the last
/// one is left out.
pub fn halves(x: &Tensor) -> (cut: Result<(Tensor, Tensor), LayerError>)
    ensures
        cut is Ok == (dims(*x).len() > 0),
        cut matches Err(error) ==> error is NoDimension,
        cut matches Ok(parts) ==> {
            let last = dims(*x).len() - 1;
            let half = dims(*x)[last] as int / 2;
            is_slice(parts.0, *x, last, 0, half) && is_slice(parts.1, *x, last, half, half)
        },
{
    let rank = rank(x);
    if rank == 0 {
        return Err(LayerError::NoDimension);
    }
    let last = rank - 1;
    let half = match dim(x, last) {
        Ok(size) => size / 2,
        Err(error) => {
            return Err(LayerError::Tensor(error));
        },
    };
    let first = match narrow(x, last, 0, half) {
        Ok(part) => part,
        Err(error) => {
            return Err(LayerError::Tensor(error));
        },
    };
    match narrow(x, last, half, half) {
        Ok(second) => Ok((first, second)),
        Err(error) => Err(LayerError::Tensor(error)),
    }
}

/// `next` is `weight` with `part` in place of the slices along dimension `d` from `offset` on.
pub open spec fn is_spliced(
    next: Tensor,
    weight: Tensor,
    part: Tensor,
    d: int,
    offset: int,
) -> bool {
    &&& dims(next) == dims(weight)
    &&& 0 <= offset
    &&& offset + dims(part)[d] <= dims(weight)[d]
    &&& dims(part) == dims(weight).update(d, dims(part)[d])
    &&& forall|index: Seq<usize>|
        in_range(index, dims(next)) ==> #[trigger] elements(next)[index] == (if offset
            <= index[d] < offset + dims(part)[d] {
            elements(part)[index.update(d, (index[d] - offset) as usize)]
        } else {
            elements(weight)[index]
        })
}

/// `part` is a matrix that differs from `weight` in dimension `d` only.
pub open spec fn fits_beside(weight: Tensor, part: Tensor, d: int) -> bool {
    dims(part).len() == 2 && dims(part)[1 - d] == dims(weight)[1 - d]
}

/// A matrix in the memory of the CPU can take the place of slices of another one along dimension
/// `d`: they do not differ in the other dimension, nor in the type of their elements.
pub open spec fn can_splice(weight: Tensor, part: Tensor, d: int) -> bool {
    &&& is_plain(weight) && is_plain(part)
    &&& element_type(weight) == element_type(part)
    &&& fits_beside(weight, part, d)
}

/// Puts `part` in place of the `size` slices of `weight` along dimension `d` from `offset`
/// on: what is before it and what is behind it are kept.
pub fn splice(weight: &Tensor, part: &Tensor, d: usize, offset: usize, size: usize) -> (next:
    Result<Tensor, LayerError>)
    requires
        d < 2,
        dims(*weight).len() == 2,
        dims(*weight)[0] * dims(*weight)[1] <= isize::MAX / 8,
        offset + size <= dims(*weight)[d as int],
        dims(*part).len() > d ==> dims(*part)[d as int] == size,
    ensures
        next matches Ok(t) ==> is_spliced(t, *weight, *part, d as int, offset as int)
            && same_kind(t, *weight) && same_kind(t, *part) && are_together(*weight, *part),
        can_splice(*weight, *part, d as int) ==> next is Ok,
        next matches Err(error) ==> error.is_misfit(),
        next matches Err(error) ==> {
            let fits = fits_beside(*weight, *part, d as int);
            let alike = element_type(*weight) == element_type(*part) && are_together(
                *weight,
                *part,
            );
            error is Shape == !fits && error is Kind == (fits && !alike)
        },
{
    let total = match dim(weight, d) {
        Ok(total) => total,
        Err(error) => {
            return Err(LayerError::Tensor(error));
        },
    };
    let across = match dim(weight, 1 - d) {
        Ok(across) => across,
        Err(error) => {
            return Err(LayerError::Tensor(error));
        },
    };
    if rank(part) != 2 {
        return Err(LayerError::Shape);
    }
    match dim(part, 1 - d) {
        Ok(other) => {
            if other != across {
                return Err(LayerError::Shape);
            }
        },
        Err(error) => {
            return Err(LayerError::Tensor(error));
        },
    }
    if element_type_of(weight) != element_type_of(part) || !in_same_memory(weight, part) {
        return Err(LayerError::Kind);
    }
    assert(dims(*part) =~= dims(*weight).update(d as int, size));
    if total == 0 || across == 0 {
        proof {
            assert forall|index: Seq<usize>| !in_range(index, dims(*weight)) by {
                if in_range(index, dims(*weight)) {
                    assert(index[0] < dims(*weight)[0]);
                    assert(index[1] < dims(*weight)[1]);
                }
            }
        }
        return Ok(share(weight));
    }
    let mut parts: Vec<Tensor> = Vec::new();
    let ghost mut at: (int, int) = (0, 0);
    if offset > 0 {
        match narrow(weight, d, 0, offset) {
            Ok(before) => parts.push(before),
            Err(error) => {
                return Err(LayerError::Tensor(error));
            },
        }
    }
    proof {
        at.0 = parts@.len() as int;
    }
    if size > 0 {
        parts.push(share(part));
    }
    proof {
        at.1 = parts@.len() as int;
    }
    let behind = total - offset - size;
    if behind > 0 {
        match narrow(weight, d, offset + size, behind) {
            Ok(after) => parts.push(after),
            Err(error) => {
                return Err(LayerError::Tensor(error));
            },
        }
    }
    proof {
        lemma_pieces(parts@, *weight, *part, d as int, offset as int, size as int, at);
    }
    match cat(&parts, d) {
        Ok(next) => {
            proof {
                lemma_splice(
                    next,
                    parts@,
                    *weight,
                    *part,
                    d as int,
                    offset as int,
                    size as int,
                    at,
                );
            }
            Ok(next)
        },
        Err(error) => Err(LayerError::Tensor(error)),
    }
}

/// The slices of `weight` before `offset`, `part`, and those behind it: which of them are there,
/// `part` at place `at.0` and what is behind it at place `at.1`.
spec fn are_pieces(
    parts: Seq<Tensor>,
    weight: Tensor,
    part: Tensor,
    d: int,
    offset: int,
    size: int,
    at: (int, int),
) -> bool {
    let behind = dims(weight)[d] - offset - size;
    &&& at.0 == (if offset > 0 {
        1int
    } else {
        0
    })
    &&& at.1 == at.0 + (if size > 0 {
        1int
    } else {
        0
    })
    &&& parts.len() == at.1 + (if behind > 0 {
        1int
    } else {
        0
    })
    &&& offset > 0 ==> is_slice(parts[0], weight, d, 0, offset) && same_kind(parts[0], weight)
    &&& size > 0 ==> dims(parts[at.0]) == dims(part) && elements(parts[at.0]) == elements(part)
        && same_kind(parts[at.0], part)
    &&& behind > 0 ==> is_slice(parts[at.1], weight, d, offset + size, behind) && same_kind(
        parts[at.1],
        weight,
    )
}

/// The pieces can be put together, and are then as large as the weight.
proof fn lemma_pieces(
    parts: Seq<Tensor>,
    weight: Tensor,
    part: Tensor,
    d: int,
    offset: int,
    size: int,
    at: (int, int),
)
    requires
        0 <= d < 2,
        dims(weight).len() == 2,
        dims(weight)[0] > 0,
        dims(weight)[1] > 0,
        dims(weight)[0] * dims(weight)[1] <= isize::MAX / 8,
        0 <= offset,
        0 <= size,
        offset + size <= dims(weight)[d],
        dims(part) == dims(weight).update(d, size as usize),
        are_pieces(parts, weight, part, d, offset, size, at),
    ensures
        parts.len() > 0,
        can_join(parts, d),
        slices_before(parts, d, at.0) == offset,
        slices_before(parts, d, at.1) == offset + size,
        slices_before(parts, d, parts.len() as int) == dims(weight)[d],
        dims(parts[0]).update(d, dims(weight)[d]) == dims(weight),
        span(dims(weight)) <= isize::MAX / 8,
        dims(weight)[d] <= isize::MAX / 8,
        forall|j: int|
            0 <= j < parts.len() ==> dims(#[trigger] parts[j]).len() == 2 && has_elements(parts[j])
                && span(dims(parts[j])) <= isize::MAX / 8,
        can_splice(weight, part, d) ==> are_plain(parts),
        same_kind(parts[0], weight) || same_kind(parts[0], part),
{
    reveal_with_fuel(slices_before, 4);
    let n = dims(weight)[0] as int;
    let m = dims(weight)[1] as int;
    assert(n <= n * m && m <= n * m) by (nonlinear_arith)
        requires
            n >= 1,
            m >= 1,
    ;
    lemma_span2(dims(weight));
    assert forall|j: int| 0 <= j < parts.len() implies dims(#[trigger] parts[j]).len() == 2
        && has_elements(parts[j]) && span(dims(parts[j])) <= isize::MAX / 8 && dims(parts[j])
        =~= dims(weight).update(d, dims(parts[j])[d]) by {
        let a = dims(parts[j])[0] as int;
        let b = dims(parts[j])[1] as int;
        assert(0 < a <= n && 0 < b <= m);
        assert(a * b <= n * m) by (nonlinear_arith)
            requires
                0 < a <= n,
                0 < b <= m,
        ;
        lemma_span2(dims(parts[j]));
    }
    assert(dims(parts[0]) =~= dims(weight).update(d, dims(parts[0])[d]));
    assert(dims(parts[0]).update(d, dims(weight)[d]) =~= dims(weight));
    assert forall|j: int| 0 <= j < parts.len() implies dims(#[trigger] parts[j]) == dims(
        parts[0],
    ).update(d, dims(parts[j])[d]) by {
        assert(dims(parts[j]) =~= dims(parts[0]).update(d, dims(parts[j])[d]));
    }
}

proof fn lemma_span2(dims: Seq<usize>)
    requires
        dims.len() == 2,
        dims[0] > 0,
        dims[1] > 0,
    ensures
        span(dims) == dims[0] * dims[1],
{
    reveal_with_fuel(span, 3);
    assert(dims.drop_last().drop_last().len() == 0);
    assert(span(dims.drop_last()) == dims[0]);
}

proof fn lemma_splice(
    next: Tensor,
    parts: Seq<Tensor>,
    weight: Tensor,
    part: Tensor,
    d: int,
    offset: int,
    size: int,
    at: (int, int),
)
    requires
        0 <= d < 2,
        dims(weight).len() == 2,
        dims(weight)[0] > 0,
        dims(weight)[1] > 0,
        dims(weight)[0] * dims(weight)[1] <= isize::MAX / 8,
        0 <= offset,
        0 <= size,
        offset + size <= dims(weight)[d],
        dims(part) == dims(weight).update(d, size as usize),
        are_pieces(parts, weight, part, d, offset, size, at),
        is_joined(next, parts, d),
    ensures
        is_spliced(next, weight, part, d, offset),
{
    lemma_pieces(parts, weight, part, d, offset, size, at);
    assert forall|index: Seq<usize>| in_range(index, dims(next)) implies #[trigger] elements(
        next,
    )[index] == (if offset <= index[d] < offset + size {
        elements(part)[index.update(d, (index[d] - offset) as usize)]
    } else {
        elements(weight)[index]
    }) by {
        assert(index[0] < dims(next)[0]);
        assert(index[1] < dims(next)[1]);
        let j: int = if index[d] < offset {
            0
        } else if index[d] < offset + size {
            at.0
        } else {
            at.1
        };
        let start = slices_before(parts, d, j);
        assert(start == (if index[d] < offset {
            0
        } else if index[d] < offset + size {
            offset
        } else {
            offset + size
        }));
        let own = index.update(d, (index[d] - start) as usize);
        assert(in_range(own, dims(parts[j]))) by {
            assert(own[0] < dims(parts[j])[0]);
            assert(own[1] < dims(parts[j])[1]);
        }
        assert(own.update(d, (start + own[d]) as usize) =~= index);
        assert(elements(parts[j])[own] == elements(next)[index]);
        if index[d] < offset {
            assert(own =~= index);
            assert(own.update(d, (own[d] + 0) as usize) =~= index);
        } else if index[d] >= offset + size {
            assert(own.update(d, (own[d] + (offset + size)) as usize) =~= index);
        }
    }
}

/// Loading one part of a weight leaves the other parts as they were: after a second part has
/// been put elsewhere, the first one is still there.
pub proof fn loading_one_part_keeps_the_others(
    start: Tensor,
    first: Tensor,
    second: Tensor,
    a: Tensor,
    b: Tensor,
    d: int,
    at: int,
    to: int,
    index: Seq<usize>,
)
    requires
        0 <= d < dims(start).len(),
        is_spliced(first, start, a, d, at),
        is_spliced(second, first, b, d, to),
        at + dims(a)[d] <= to || to + dims(b)[d] <= at,
        in_range(index, dims(start)),
    ensures
        at <= index[d] < at + dims(a)[d] ==> elements(second)[index] == elements(
            a,
        )[index.update(d, (index[d] - at) as usize)],
        to <= index[d] < to + dims(b)[d] ==> elements(second)[index] == elements(
            b,
        )[index.update(d, (index[d] - to) as usize)],
        !(at <= index[d] < at + dims(a)[d]) && !(to <= index[d] < to + dims(b)[d])
            ==> elements(second)[index] == elements(start)[index],
{
    assert(in_range(index, dims(first)));
    assert(in_range(index, dims(second)));
    assert(elements(first)[index] == elements(first)[index]);
    assert(elements(second)[index] == elements(second)[index]);
}

} // verus!
