//! Linear layers whose weights are cut into shards, one for each rank.
//!
//! A weight has one row for each output feature and one column for each input feature.
use crate::layers::tensor;
use crate::layers::tensor::LayerError;
use crate::utils::text;
use candle_core::{Device, Tensor};
use vstd::prelude::*;

verus! {

/// The quotient of two numbers of which the second divides the first.
pub fn divide(numerator: usize, denominator: usize) -> (quotient: usize)
    requires
        denominator > 0,
        numerator as int % denominator as int == 0,
    ensures
        quotient * denominator == numerator,
        quotient == numerator as int / denominator as int,
{
    proof {
        let n = numerator as int;
        let d = denominator as int;
        assert((n / d) * d == n) by (nonlinear_arith)
            requires
                d > 0,
                n % d == 0,
        ;
    }
    numerator / denominator
}

/// What all linear layers have: this rank's shard of the weight, and the dimension along
/// which the shards were cut, if they were.
pub struct LinearBase {
    pub input_size: usize,
    pub output_size: usize,
    pub tp_dim: Option<usize>,
    pub weight: Tensor,
    pub bias: Option<Tensor>,
    pub tp_rank: usize,
    pub tp_size: usize,
}

impl LinearBase {
    /// The layer as it is made: zeros, one row for each output and one column for each input.
    pub open spec fn is_new(
        &self,
        input_size: usize,
        output_size: usize,
        bias: bool,
        tp_dim: Option<usize>,
        tp_rank: usize,
        tp_size: usize,
        device: Device,
    ) -> bool {
        &&& self.input_size == input_size
        &&& self.output_size == output_size
        &&& self.tp_dim == tp_dim
        &&& self.tp_rank == tp_rank
        &&& self.tp_size == tp_size
        &&& tensor::dims(self.weight) == seq![output_size, input_size]
        &&& tensor::is_filled(self.weight, 0)
        &&& tensor::is_f32(self.weight)
        &&& tensor::on_cpu(self.weight) == tensor::is_cpu(device)
        &&& bias == (self.bias is Some)
        &&& self.bias matches Some(b) ==> tensor::dims(b) == seq![output_size]
            && tensor::is_filled(b, 0)
    }

    /// All but the weight is that of `other`.
    pub open spec fn same_shape(&self, other: LinearBase) -> bool {
        &&& self.input_size == other.input_size
        &&& self.output_size == other.output_size
        &&& self.tp_dim == other.tp_dim
        &&& self.bias == other.bias
        &&& self.tp_rank == other.tp_rank
        &&& self.tp_size == other.tp_size
    }

    pub fn new(
        input_size: usize,
        output_size: usize,
        bias: bool,
        tp_dim: Option<usize>,
        tp_rank: usize,
        tp_size: usize,
        device: &Device,
    ) -> (layer: Result<Self, LayerError>)
        requires
            output_size * input_size <= isize::MAX / 8,
            output_size <= isize::MAX / 8,
        ensures
            layer matches Ok(l) ==> l.is_new(
                input_size,
                output_size,
                bias,
                tp_dim,
                tp_rank,
                tp_size,
                *device,
            ),
            tensor::is_cpu(*device) ==> layer is Ok,
            layer matches Err(error) ==> error is Tensor,
    {
        let weight = match tensor::zero_matrix(output_size, input_size, device) {
            Ok(weight) => weight,
            Err(error) => {
                return Err(LayerError::Tensor(error));
            },
        };
        let bias = if bias {
            match tensor::zero_vector(output_size, device) {
                Ok(bias) => Some(bias),
                Err(error) => {
                    return Err(LayerError::Tensor(error));
                },
            }
        } else {
            None
        };
        Ok(LinearBase { input_size, output_size, tp_dim, weight, bias, tp_rank, tp_size })
    }

    /// Takes the weight as it is.
    pub fn weight_loader(&mut self, loaded_weight: Tensor)
        ensures
            final(self).weight == loaded_weight,
            final(self).same_shape(*old(self)),
    {
        self.weight = loaded_weight;
    }

    /// Takes this rank's slices of the weight along dimension `d`: as many as the layer has
    /// now, behind those of the lower ranks.
    fn load_shard(&mut self, loaded_weight: Tensor, d: usize) -> (loaded: Result<(), LayerError>)
        requires
            d < tensor::dims(old(self).weight).len(),
            (old(self).tp_rank + 1) * tensor::dims(old(self).weight)[d as int] <= usize::MAX,
        ensures
            final(self).loaded_shard(*old(self), loaded_weight, d as int, loaded is Ok),
            loaded matches Err(error) ==> error is Tensor,
    {
        let shard_size = match tensor::dim(&self.weight, d) {
            Ok(size) => size,
            Err(error) => {
                return Err(LayerError::Tensor(error));
            },
        };
        let ghost rank = self.tp_rank as int;
        proof {
            assert((rank + 1) * shard_size == rank * shard_size + shard_size)
                by (nonlinear_arith);
            assert(rank * shard_size >= 0) by (nonlinear_arith)
                requires
                    rank >= 0,
                    shard_size >= 0,
            ;
        }
        let start_idx = self.tp_rank * shard_size;
        match tensor::narrow(&loaded_weight, d, start_idx, shard_size) {
            Ok(shard) => {
                self.weight = shard;
                Ok(())
            },
            Err(error) => Err(LayerError::Tensor(error)),
        }
    }

    /// What comes of taking this rank's slices of `loaded` along dimension `d`: it succeeds
    /// where `loaded` has them, and leaves the layer as it was where not.
    pub open spec fn loaded_shard(
        &self,
        before: LinearBase,
        loaded: Tensor,
        d: int,
        success: bool,
    ) -> bool {
        let size = tensor::dims(before.weight)[d] as int;
        let start = before.tp_rank * size;
        &&& success == tensor::has_slices(loaded, d, start + size)
        &&& if success {
            &&& tensor::is_slice(self.weight, loaded, d, start, size)
            &&& tensor::same_kind(self.weight, loaded)
            &&& self.same_shape(before)
        } else {
            *self == before
        }
    }

    /// Puts this rank's slices of a part of the weight in their place: `size` slices along
    /// dimension `d` from `offset` on.
    fn load_part(&mut self, loaded_weight: Tensor, d: usize, offset: usize, size: usize) -> (loaded:
        Result<(), LayerError>)
        requires
            d < 2,
            tensor::dims(old(self).weight).len() == 2,
            tensor::dims(old(self).weight)[0] * tensor::dims(old(self).weight)[1] <= isize::MAX
                / 8,
            offset + size <= tensor::dims(old(self).weight)[d as int],
            (old(self).tp_rank + 1) * size <= usize::MAX,
        ensures
            final(self).loaded_part(
                *old(self),
                loaded_weight,
                d as int,
                offset as int,
                size as int,
                loaded is Ok,
            ),
            loaded matches Err(error) ==> error.is_misfit(),
    {
        let ghost rank = self.tp_rank as int;
        proof {
            assert((rank + 1) * size == rank * size + size) by (nonlinear_arith);
            assert(rank * size >= 0) by (nonlinear_arith)
                requires
                    rank >= 0,
                    size >= 0,
            ;
        }
        let part = match tensor::narrow(&loaded_weight, d, self.tp_rank * size, size) {
            Ok(part) => part,
            Err(error) => {
                return Err(LayerError::Tensor(error));
            },
        };
        match tensor::splice(&self.weight, &part, d, offset, size) {
            Ok(weight) => {
                self.weight = weight;
                assert(tensor::is_spliced(
                    self.weight,
                    old(self).weight,
                    part,
                    d as int,
                    offset as int,
                ));
                Ok(())
            },
            Err(error) => Err(error),
        }
    }

    /// What comes of putting this rank's slices of `loaded` in their place. It fails where
    /// `loaded` does not have them, and succeeds where it has and both are matrices in the memory
    /// of the CPU that do not differ in the other dimension nor in the type of their elements,
    /// which can be copied there. Where it
    /// fails the layer is as it was.
    pub open spec fn loaded_part(
        &self,
        before: LinearBase,
        loaded: Tensor,
        d: int,
        offset: int,
        size: int,
        success: bool,
    ) -> bool {
        let start = before.tp_rank * size;
        &&& success ==> tensor::has_slices(loaded, d, start + size)
        &&& tensor::has_slices(loaded, d, start + size) && tensor::can_splice(
            before.weight,
            loaded,
            d,
        ) ==> success
        &&& if success {
            &&& exists|part: Tensor|
                tensor::is_slice(part, loaded, d, start, size) && #[trigger] tensor::is_spliced(
                    self.weight,
                    before.weight,
                    part,
                    d,
                    offset,
                )
            &&& tensor::same_kind(self.weight, before.weight)
            &&& tensor::same_kind(self.weight, loaded)
            &&& self.same_shape(before)
        } else {
            *self == before
        }
    }
}

/// A layer of which every rank has the whole.
pub struct ReplicatedLinear {
    pub base: LinearBase,
}

impl ReplicatedLinear {
    pub fn new(
        input_size: usize,
        output_size: usize,
        bias: bool,
        tp_rank: usize,
        tp_size: usize,
        device: &Device,
    ) -> (layer: Result<Self, LayerError>)
        requires
            output_size * input_size <= isize::MAX / 8,
            output_size <= isize::MAX / 8,
        ensures
            layer matches Ok(l) ==> l.base.is_new(
                input_size,
                output_size,
                bias,
                None,
                tp_rank,
                tp_size,
                *device,
            ),
            tensor::is_cpu(*device) ==> layer is Ok,
            layer matches Err(error) ==> error is Tensor,
    {
        match LinearBase::new(input_size, output_size, bias, None, tp_rank, tp_size, device) {
            Ok(base) => Ok(ReplicatedLinear { base }),
            Err(error) => Err(error),
        }
    }

    pub fn weight_loader(&mut self, loaded_weight: Tensor)
        ensures
            final(self).base.weight == loaded_weight,
            final(self).base.same_shape(old(self).base),
    {
        self.base.weight_loader(loaded_weight);
    }
}

/// A layer cut by its outputs: each rank computes some of the features of every token.
pub struct ColumnParallelLinear {
    pub base: LinearBase,
}

impl ColumnParallelLinear {
    pub fn new(
        input_size: usize,
        output_size: usize,
        bias: bool,
        tp_rank: usize,
        tp_size: usize,
        device: &Device,
    ) -> (layer: Result<Self, LayerError>)
        requires
            tp_size > 0,
            output_size as int % tp_size as int == 0,
            output_size * input_size <= isize::MAX / 8,
            output_size <= isize::MAX / 8,
        ensures
            layer matches Ok(l) ==> l.base.is_new(
                input_size,
                (output_size as int / tp_size as int) as usize,
                bias,
                Some(0),
                tp_rank,
                tp_size,
                *device,
            ),
            tensor::is_cpu(*device) ==> layer is Ok,
            layer matches Err(error) ==> error is Tensor,
    {
        let shard = divide(output_size, tp_size);
        proof {
            assert(shard <= output_size) by (nonlinear_arith)
                requires
                    shard * tp_size == output_size,
                    tp_size >= 1,
                    shard >= 0,
            ;
            assert(shard * input_size <= output_size * input_size) by (nonlinear_arith)
                requires
                    shard <= output_size,
                    input_size >= 0,
            ;
        }
        match LinearBase::new(input_size, shard, bias, Some(0), tp_rank, tp_size, device) {
            Ok(base) => Ok(ColumnParallelLinear { base }),
            Err(error) => Err(error),
        }
    }

    /// The rows of all the ranks can be counted.
    pub open spec fn wf(&self) -> bool {
        &&& tensor::dims(self.base.weight).len() > 0
        &&& (self.base.tp_rank + 1) * tensor::dims(self.base.weight)[0] <= usize::MAX
    }

    /// Takes this rank's rows of the weight.
    pub fn weight_loader(&mut self, loaded_weight: Tensor) -> (loaded: Result<(), LayerError>)
        requires
            old(self).wf(),
        ensures
            final(self).wf(),
            final(self).base.loaded_shard(old(self).base, loaded_weight, 0, loaded is Ok),
            loaded matches Err(error) ==> error is Tensor,
    {
        self.base.load_shard(loaded_weight, 0)
    }
}

/// A layer cut by its inputs: each rank sees some of the features of every token, and the
/// results of the ranks are added up.
pub struct RowParallelLinear {
    pub base: LinearBase,
}

impl RowParallelLinear {
    pub fn new(
        input_size: usize,
        output_size: usize,
        bias: bool,
        tp_rank: usize,
        tp_size: usize,
        device: &Device,
    ) -> (layer: Result<Self, LayerError>)
        requires
            tp_size > 0,
            input_size as int % tp_size as int == 0,
            output_size * input_size <= isize::MAX / 8,
            output_size <= isize::MAX / 8,
        ensures
            layer matches Ok(l) ==> l.base.is_new(
                (input_size as int / tp_size as int) as usize,
                output_size,
                bias,
                Some(1),
                tp_rank,
                tp_size,
                *device,
            ) && (tp_rank < tp_size ==> l.wf()),
            tensor::is_cpu(*device) ==> layer is Ok,
            layer matches Err(error) ==> error is Tensor,
    {
        let shard = divide(input_size, tp_size);
        proof {
            assert(shard <= input_size) by (nonlinear_arith)
                requires
                    shard * tp_size == input_size,
                    tp_size >= 1,
                    shard >= 0,
            ;
            assert(output_size * shard <= output_size * input_size) by (nonlinear_arith)
                requires
                    shard <= input_size,
                    output_size >= 0,
            ;
        }
        proof {
            if tp_rank < tp_size {
                let rank = tp_rank as int;
                let n = tp_size as int;
                assert((rank + 1) * shard <= n * shard) by (nonlinear_arith)
                    requires
                        rank + 1 <= n,
                        shard >= 0,
                ;
                assert(n * shard == shard * n) by (nonlinear_arith);
            }
        }
        match LinearBase::new(shard, output_size, bias, Some(1), tp_rank, tp_size, device) {
            Ok(base) => Ok(RowParallelLinear { base }),
            Err(error) => Err(error),
        }
    }

    /// The columns of all the ranks can be counted.
    pub open spec fn wf(&self) -> bool {
        &&& tensor::dims(self.base.weight).len() > 1
        &&& (self.base.tp_rank + 1) * tensor::dims(self.base.weight)[1] <= usize::MAX
    }

    /// Takes this rank's columns of the weight.
    pub fn weight_loader(&mut self, loaded_weight: Tensor) -> (loaded: Result<(), LayerError>)
        requires
            old(self).wf(),
        ensures
            final(self).wf(),
            final(self).base.loaded_shard(old(self).base, loaded_weight, 1, loaded is Ok),
            loaded matches Err(error) ==> error is Tensor,
    {
        self.base.load_shard(loaded_weight, 1)
    }

    /// Whether this rank adds the bias. Since the results of the ranks are added up, only
    /// the first one does.
    pub fn adds_bias(&self) -> (adds: bool)
        ensures
            adds == (self.base.tp_rank == 0 && self.base.bias is Some),
    {
        self.base.tp_rank == 0 && self.base.bias.is_some()
    }

    /// Whether the results of several ranks have to be added up.
    pub fn needs_all_reduce(&self) -> (needs: bool)
        ensures
            needs == (self.base.tp_size > 1),
    {
        self.base.tp_size > 1
    }
}

/// The sum of the first `n` of `sizes`.
pub open spec fn sum_of(sizes: Seq<usize>, n: int) -> int
    decreases n,
{
    if n <= 0 {
        0
    } else {
        sum_of(sizes, n - 1) + sizes[n - 1]
    }
}

proof fn lemma_sum_grows(sizes: Seq<usize>, n: int, m: int)
    requires
        0 <= n <= m <= sizes.len(),
    ensures
        0 <= sum_of(sizes, n) <= sum_of(sizes, m),
    decreases m,
{
    if n < m {
        lemma_sum_grows(sizes, n, m - 1);
    } else if n > 0 {
        lemma_sum_grows(sizes, n - 1, m - 1);
    }
}

/// The sum of the first `n` of `sizes`.
fn sum_first(sizes: &[usize], n: usize) -> (sum: usize)
    requires
        n <= sizes@.len(),
        sum_of(sizes@, sizes@.len() as int) <= usize::MAX,
    ensures
        sum == sum_of(sizes@, n as int),
{
    let mut sum: usize = 0;
    let mut i: usize = 0;
    while i < n
        invariant
            i <= n <= sizes@.len(),
            sum == sum_of(sizes@, i as int),
            sum_of(sizes@, sizes@.len() as int) <= usize::MAX,
        decreases n - i,
    {
        proof {
            lemma_sum_grows(sizes@, i + 1, sizes@.len() as int);
        }
        sum = sum + sizes[i];
        i = i + 1;
    }
    sum
}

/// Two shares of a sum, each rounded down, are no more than the share of the sum.
proof fn lemma_shares(a: int, b: int, n: int)
    requires
        a >= 0,
        b >= 0,
        n > 0,
    ensures
        0 <= a / n,
        0 <= b / n,
        a / n + b / n <= (a + b) / n,
{
    let x = a / n;
    let y = b / n;
    let z = (a + b) / n;
    assert(0 <= x && 0 <= y && x + y <= z) by (nonlinear_arith)
        requires
            x == a / n,
            y == b / n,
            z == (a + b) / n,
            a >= 0,
            b >= 0,
            n > 0,
    ;
}

/// Several layers with the same inputs in one weight, one behind the other.
pub struct MergedColumnParallelLinear {
    pub base: ColumnParallelLinear,
    pub output_sizes: Vec<usize>,
}

impl MergedColumnParallelLinear {
    /// The weight has this rank's rows of all the parts.
    pub open spec fn wf(&self) -> bool {
        let dims = tensor::dims(self.base.base.weight);
        let total = sum_of(self.output_sizes@, self.output_sizes@.len() as int);
        &&& self.base.base.tp_size > 0
        &&& self.base.base.tp_rank < self.base.base.tp_size
        &&& total <= usize::MAX
        &&& dims.len() == 2
        &&& dims[0] == total / self.base.base.tp_size as int
        &&& dims[0] * dims[1] <= isize::MAX / 8
    }

    pub fn new(
        input_size: usize,
        output_sizes: Vec<usize>,
        bias: bool,
        tp_rank: usize,
        tp_size: usize,
        device: &Device,
    ) -> (layer: Result<Self, LayerError>)
        requires
            tp_rank < tp_size,
            sum_of(output_sizes@, output_sizes@.len() as int) <= isize::MAX / 8,
            sum_of(output_sizes@, output_sizes@.len() as int) % tp_size as int == 0,
            sum_of(output_sizes@, output_sizes@.len() as int) * input_size <= isize::MAX / 8,
        ensures
            layer matches Ok(l) ==> {
                &&& l.output_sizes@ == output_sizes@
                &&& l.base.base.is_new(
                    input_size,
                    (sum_of(output_sizes@, output_sizes@.len() as int)
                        / tp_size as int) as usize,
                    bias,
                    Some(0),
                    tp_rank,
                    tp_size,
                    *device,
                )
                &&& l.wf()
            },
            tensor::is_cpu(*device) ==> layer is Ok,
            layer matches Err(error) ==> error is Tensor,
    {
        let output_size = sum_first(output_sizes.as_slice(), output_sizes.len());
        proof {
            let total = output_size as int;
            let n = tp_size as int;
            let shard = total / n;
            assert(0 <= shard <= total) by (nonlinear_arith)
                requires
                    shard == total / n,
                    total >= 0,
                    n > 0,
            ;
            assert(shard * input_size <= total * input_size) by (nonlinear_arith)
                requires
                    shard <= total,
                    input_size >= 0,
            ;
        }
        match ColumnParallelLinear::new(
            input_size,
            output_size,
            bias,
            tp_rank,
            tp_size,
            device,
        ) {
            Ok(base) => Ok(MergedColumnParallelLinear { base, output_sizes }),
            Err(error) => Err(error),
        }
    }

    /// Where part `i` begins in this rank's weight.
    pub open spec fn offset_of(&self, i: int) -> int {
        sum_of(self.output_sizes@, i) / self.base.base.tp_size as int
    }

    /// How many rows of part `i` this rank has.
    pub open spec fn size_of(&self, i: int) -> int {
        self.output_sizes@[i] as int / self.base.base.tp_size as int
    }

    /// What comes of putting this rank's rows of part `i` in their place.
    pub open spec fn loaded(
        &self,
        before: MergedColumnParallelLinear,
        loaded: Tensor,
        i: usize,
        success: bool,
    ) -> bool {
        &&& self.output_sizes == before.output_sizes
        &&& self.base.base.loaded_part(
            before.base.base,
            loaded,
            0,
            before.offset_of(i as int),
            before.size_of(i as int),
            success,
        )
    }

    /// Puts this rank's rows of part `loaded_shard_id` in their place.
    pub fn weight_loader(&mut self, loaded_weight: Tensor, loaded_shard_id: usize) -> (loaded:
        Result<(), LayerError>)
        requires
            old(self).wf(),
            loaded_shard_id < old(self).output_sizes@.len(),
        ensures
            final(self).wf(),
            final(self).loaded(*old(self), loaded_weight, loaded_shard_id, loaded is Ok),
            loaded matches Err(error) ==> error.is_misfit(),
    {
        let tp_size = self.base.base.tp_size;
        let ghost sizes = self.output_sizes@;
        let ghost i = loaded_shard_id as int;
        proof {
            let n = tp_size as int;
            lemma_sum_grows(sizes, i, sizes.len() as int);
            lemma_sum_grows(sizes, i + 1, sizes.len() as int);
            lemma_shares(sum_of(sizes, i), sizes[i] as int, n);
            lemma_shares(
                sum_of(sizes, i + 1),
                sum_of(sizes, sizes.len() as int) - sum_of(sizes, i + 1),
                n,
            );
            let rank = self.base.base.tp_rank as int;
            let whole = sizes[i] as int;
            let size = whole / n;
            assert((rank + 1) * size <= whole) by (nonlinear_arith)
                requires
                    rank + 1 <= n,
                    size == whole / n,
                    whole >= 0,
                    n > 0,
                    rank >= 0,
            ;
        }
        let shard_offset = sum_first(self.output_sizes.as_slice(), loaded_shard_id) / tp_size;
        let shard_size = self.output_sizes[loaded_shard_id] / tp_size;
        self.base.base.load_part(loaded_weight, 0, shard_offset, shard_size)
    }
}

/// The queries, keys and values of attention in one weight, in this order.
pub struct QKVParallelLinear {
    pub base: ColumnParallelLinear,
    pub head_size: usize,
    /// This rank's heads, of the queries and of the keys and values.
    pub num_heads: usize,
    pub num_kv_heads: usize,
}

/// Where a part of the weight begins, and how many rows it has, by its name.
pub open spec fn qkv_part(name: Seq<char>, q_size: int, kv_size: int) -> Option<(int, int)> {
    if name == "q"@ {
        Some((0, q_size))
    } else if name == "k"@ {
        Some((q_size, kv_size))
    } else if name == "v"@ {
        Some((q_size + kv_size, kv_size))
    } else {
        None
    }
}

impl QKVParallelLinear {
    pub open spec fn q_size(&self) -> int {
        self.num_heads * self.head_size
    }

    pub open spec fn kv_size(&self) -> int {
        self.num_kv_heads * self.head_size
    }

    /// The weight has this rank's rows of the queries, the keys and the values, and those of
    /// all the ranks can be counted.
    pub open spec fn wf(&self) -> bool {
        let dims = tensor::dims(self.base.base.weight);
        let tp_size = self.base.base.tp_size;
        &&& self.base.base.tp_rank < tp_size
        &&& dims.len() == 2
        &&& dims[0] == self.q_size() + 2 * self.kv_size()
        &&& dims[0] * dims[1] <= isize::MAX / 8
        &&& tp_size * self.q_size() <= usize::MAX
        &&& tp_size * self.kv_size() <= usize::MAX
    }

    pub fn new(
        hidden_size: usize,
        head_size: usize,
        total_num_heads: usize,
        total_num_kv_heads: Option<usize>,
        bias: bool,
        tp_rank: usize,
        tp_size: usize,
        device: &Device,
    ) -> (layer: Result<Self, LayerError>)
        requires
            tp_rank < tp_size,
            total_num_heads as int % tp_size as int == 0,
            kv_heads(total_num_heads, total_num_kv_heads) as int % tp_size as int == 0,
            qkv_rows(total_num_heads, total_num_kv_heads, head_size) <= isize::MAX / 8,
            qkv_rows(total_num_heads, total_num_kv_heads, head_size) * hidden_size <= isize::MAX
                / 8,
            total_num_heads + 2 * kv_heads(total_num_heads, total_num_kv_heads) <= usize::MAX,
        ensures
            layer matches Ok(l) ==> {
                &&& l.wf()
                &&& l.head_size == head_size
                &&& l.num_heads * tp_size == total_num_heads
                &&& l.num_kv_heads * tp_size == kv_heads(total_num_heads, total_num_kv_heads)
                &&& l.base.base.is_new(
                    hidden_size,
                    (qkv_rows(total_num_heads, total_num_kv_heads, head_size)
                        / tp_size as int) as usize,
                    bias,
                    Some(0),
                    tp_rank,
                    tp_size,
                    *device,
                )
            },
            tensor::is_cpu(*device) ==> layer is Ok,
            layer matches Err(error) ==> error is Tensor,
    {
        let total_kv = match total_num_kv_heads {
            Some(n) => n,
            None => total_num_heads,
        };
        let num_heads = divide(total_num_heads, tp_size);
        let num_kv_heads = divide(total_kv, tp_size);
        let ghost rows = (total_num_heads + 2 * total_kv) * head_size;
        let ghost q = num_heads * head_size;
        let ghost kv = num_kv_heads * head_size;
        proof {
            let n = tp_size as int;
            assert(n * q == total_num_heads * head_size) by (nonlinear_arith)
                requires
                    q == num_heads * head_size,
                    num_heads * n == total_num_heads,
            ;
            assert(n * kv == total_kv * head_size) by (nonlinear_arith)
                requires
                    kv == num_kv_heads * head_size,
                    num_kv_heads * n == total_kv,
            ;
            assert(rows == total_num_heads * head_size + 2 * (total_kv * head_size))
                by (nonlinear_arith)
                requires
                    rows == (total_num_heads + 2 * total_kv) * head_size,
            ;
            assert(rows == n * (q + 2 * kv)) by (nonlinear_arith)
                requires
                    rows == n * q + 2 * (n * kv),
            ;
            let each = q + 2 * kv;
            assert(rows % n == 0 && rows / n == each) by (nonlinear_arith)
                requires
                    rows == n * each,
                    n > 0,
            ;
            assert(q >= 0 && kv >= 0) by (nonlinear_arith)
                requires
                    q == num_heads * head_size,
                    kv == num_kv_heads * head_size,
            ;
            assert(n * q >= 0 && n * kv >= 0) by (nonlinear_arith)
                requires
                    q >= 0,
                    kv >= 0,
                    n > 0,
            ;
            assert(0 <= each <= rows) by (nonlinear_arith)
                requires
                    rows == n * each,
                    n >= 1,
                    each >= 0,
            ;
            assert(each * hidden_size <= rows * hidden_size) by (nonlinear_arith)
                requires
                    each <= rows,
                    hidden_size >= 0,
            ;
        }
        let output_size = (total_num_heads + 2 * total_kv) * head_size;
        match ColumnParallelLinear::new(
            hidden_size,
            output_size,
            bias,
            tp_rank,
            tp_size,
            device,
        ) {
            Ok(base) => Ok(QKVParallelLinear { base, head_size, num_heads, num_kv_heads }),
            Err(error) => Err(error),
        }
    }

    /// What comes of putting this rank's rows of the queries, the keys or the values in
    /// their place. It fails where there is no part by that name.
    pub open spec fn loaded(
        &self,
        before: QKVParallelLinear,
        loaded: Tensor,
        name: Seq<char>,
        success: bool,
    ) -> bool {
        match qkv_part(name, before.q_size(), before.kv_size()) {
            Some(part) => {
                &&& self.head_size == before.head_size
                &&& self.num_heads == before.num_heads
                &&& self.num_kv_heads == before.num_kv_heads
                &&& self.base.base.loaded_part(
                    before.base.base,
                    loaded,
                    0,
                    part.0,
                    part.1,
                    success,
                )
            },
            None => !success && *self == before,
        }
    }

    /// Puts this rank's rows of the queries, the keys or the values in their place.
    pub fn weight_loader(&mut self, loaded_weight: Tensor, loaded_shard_id: &str) -> (loaded:
        Result<(), LayerError>)
        requires
            old(self).wf(),
        ensures
            final(self).wf(),
            final(self).loaded(*old(self), loaded_weight, loaded_shard_id@, loaded is Ok),
            loaded matches Err(error) ==> match qkv_part(
                loaded_shard_id@,
                old(self).q_size(),
                old(self).kv_size(),
            ) {
                Some(_) => error.is_misfit(),
                None => error is UnknownShard,
            },
    {
        let ghost q = self.q_size();
        let ghost kv = self.kv_size();
        proof {
            let n = self.base.base.tp_size as int;
            let rank = self.base.base.tp_rank as int;
            assert(q >= 0 && kv >= 0) by (nonlinear_arith)
                requires
                    q == self.num_heads * self.head_size,
                    kv == self.num_kv_heads * self.head_size,
            ;
            assert((rank + 1) * q <= n * q && (rank + 1) * kv <= n * kv) by (nonlinear_arith)
                requires
                    rank + 1 <= n,
                    q >= 0,
                    kv >= 0,
            ;
        }
        let q_size = self.num_heads * self.head_size;
        let kv_size = self.num_kv_heads * self.head_size;
        let (shard_offset, shard_size) = if text::same_text(loaded_shard_id, "q") {
            (0usize, q_size)
        } else if text::same_text(loaded_shard_id, "k") {
            (q_size, kv_size)
        } else if text::same_text(loaded_shard_id, "v") {
            (q_size + kv_size, kv_size)
        } else {
            return Err(LayerError::UnknownShard);
        };
        self.base.base.load_part(loaded_weight, 0, shard_offset, shard_size)
    }
}

/// The heads of the keys and values: as many as the queries have, unless it is said.
pub open spec fn kv_heads(total_num_heads: usize, total_num_kv_heads: Option<usize>) -> usize {
    match total_num_kv_heads {
        Some(n) => n,
        None => total_num_heads,
    }
}

/// The rows of the weights of the queries, the keys and the values together.
pub open spec fn qkv_rows(
    total_num_heads: usize,
    total_num_kv_heads: Option<usize>,
    head_size: usize,
) -> int {
    (total_num_heads + 2 * kv_heads(total_num_heads, total_num_kv_heads)) * head_size
}

/// The shards of the ranks make up the whole weight: each of its slices is in the shard of
/// exactly one rank, at one place there.
pub proof fn shards_make_up_the_weight(total: int, tp_size: int, i: int)
    requires
        tp_size > 0,
        total >= 0,
        total % tp_size == 0,
        0 <= i < total,
    ensures
        ({
            let shard = total / tp_size;
            let rank = i / shard;
            &&& 0 <= rank < tp_size
            &&& rank * shard <= i < rank * shard + shard
            &&& forall|other: int|
                #![trigger other * shard]
                other * shard <= i < other * shard + shard ==> other == rank
        }),
{
    let shard = total / tp_size;
    assert(total == tp_size * shard && shard > 0) by (nonlinear_arith)
        requires
            shard == total / tp_size,
            total % tp_size == 0,
            tp_size > 0,
            total > 0,
    ;
    let rank = i / shard;
    assert(rank * shard <= i < rank * shard + shard && 0 <= rank) by (nonlinear_arith)
        requires
            rank == i / shard,
            shard > 0,
            i >= 0,
    ;
    assert(rank < tp_size) by (nonlinear_arith)
        requires
            rank * shard <= i,
            i < tp_size * shard,
            shard > 0,
    ;
    assert forall|other: int|
        #![trigger other * shard]
        other * shard <= i < other * shard + shard implies other == rank by {
        assert(other == rank) by (nonlinear_arith)
            requires
                other * shard <= i < other * shard + shard,
                rank * shard <= i < rank * shard + shard,
                shard > 0,
        ;
    }
}

/// The queries, the keys and the values stand one behind the other and fill the weight.
pub proof fn qkv_parts_fit_together(q_size: int, kv_size: int)
    requires
        q_size >= 0,
        kv_size >= 0,
    ensures
        qkv_part("q"@, q_size, kv_size) == Some((0int, q_size)),
        qkv_part("k"@, q_size, kv_size) == Some((q_size, kv_size)),
        qkv_part("v"@, q_size, kv_size) == Some((q_size + kv_size, kv_size)),
        (q_size + kv_size) + kv_size == q_size + 2 * kv_size,
{
    reveal_strlit("q");
    reveal_strlit("k");
    reveal_strlit("v");
    assert("q"@[0] == 'q' && "k"@[0] == 'k' && "v"@[0] == 'v');
}

/// A part of a weight that is loaded into a layer: `size` of its rows, to stand from `offset` on.
pub struct Load {
    pub weight: Tensor,
    pub offset: int,
    pub size: int,
}

impl Load {
    /// Row `i` of the layer is one of the part.
    pub open spec fn has_row(self, i: int) -> bool {
        self.offset <= i < self.offset + self.size
    }
}

/// `states` are a layer as it was and after each of `loads`, all of which succeed.
pub open spec fn is_loaded_in_turn(states: Seq<LinearBase>, loads: Seq<Load>) -> bool {
    &&& states.len() == loads.len() + 1
    &&& forall|i: int|
        0 <= i < loads.len() ==> 0 <= (#[trigger] loads[i]).size && states[i + 1].loaded_part(
            states[i],
            loads[i].weight,
            0,
            loads[i].offset,
            loads[i].size,
            true,
        )
}

/// No row is one of two different parts.
pub open spec fn are_apart(loads: Seq<Load>) -> bool {
    forall|i: int, j: int, row: int|
        0 <= i < loads.len() && 0 <= j < loads.len() && #[trigger] loads[i].has_row(row)
            && #[trigger] loads[j].has_row(row) ==> loads[i] == loads[j]
}

/// After the first `n` loads a row of a part that has been loaded is the row of this rank, and a
/// row of no such part is as it was.
proof fn lemma_loaded_in_turn(
    states: Seq<LinearBase>,
    loads: Seq<Load>,
    index: Seq<usize>,
    n: int,
)
    requires
        is_loaded_in_turn(states, loads),
        are_apart(loads),
        0 <= n <= loads.len(),
        tensor::dims(states[0].weight).len() == 2,
        tensor::in_range(index, tensor::dims(states[0].weight)),
    ensures
        states[n].same_shape(states[0]),
        tensor::dims(states[n].weight) == tensor::dims(states[0].weight),
        forall|j: int|
            0 <= j < n && #[trigger] loads[j].has_row(index[0] as int) ==> tensor::elements(
                states[n].weight,
            )[index] == tensor::elements(loads[j].weight)[index.update(
                0,
                (states[0].tp_rank * loads[j].size + index[0] - loads[j].offset) as usize,
            )],
        (forall|j: int| 0 <= j < n ==> !#[trigger] loads[j].has_row(index[0] as int))
            ==> tensor::elements(states[n].weight)[index] == tensor::elements(
            states[0].weight,
        )[index],
    decreases n,
{
    if n > 0 {
        lemma_loaded_in_turn(states, loads, index, n - 1);
        let load = loads[n - 1];
        let before = states[n - 1];
        let after = states[n];
        let start = before.tp_rank * load.size;
        assert(states[n - 1 + 1].loaded_part(
            before,
            load.weight,
            0,
            load.offset,
            load.size,
            true,
        ));
        let part = choose|part: Tensor|
            tensor::is_slice(part, load.weight, 0, start, load.size)
                && #[trigger] tensor::is_spliced(after.weight, before.weight, part, 0, load.offset);
        assert(tensor::in_range(index, tensor::dims(after.weight)));
        assert(tensor::elements(after.weight)[index] == tensor::elements(after.weight)[index]);
        assert(index[0] < tensor::dims(states[0].weight)[0]);
        assert(index[1] < tensor::dims(states[0].weight)[1]);
        assert(start >= 0) by (nonlinear_arith)
            requires
                start == before.tp_rank * load.size,
                load.size >= 0,
        ;
        assert(tensor::dims(part)[0] == load.size);
        if load.has_row(index[0] as int) {
            let own = index.update(0, (index[0] - load.offset) as usize);
            assert(tensor::in_range(own, tensor::dims(part))) by {
                assert(own[0] < tensor::dims(part)[0]);
                assert(own[1] < tensor::dims(part)[1]);
            }
            assert(tensor::elements(part)[own] == tensor::elements(load.weight)[own.update(
                0,
                (own[0] + start) as usize,
            )]);
            assert(own.update(0, (own[0] + start) as usize) =~= index.update(
                0,
                (start + index[0] - load.offset) as usize,
            ));
        }
    }
}

/// It makes no difference in which order the parts of a layer are loaded: the same parts give
/// the same weight.
pub proof fn parts_are_loaded_in_any_order(
    states: Seq<LinearBase>,
    loads: Seq<Load>,
    others: Seq<LinearBase>,
    other_loads: Seq<Load>,
    index: Seq<usize>,
)
    requires
        is_loaded_in_turn(states, loads),
        is_loaded_in_turn(others, other_loads),
        states[0] == others[0],
        are_apart(loads),
        forall|load: Load| loads.contains(load) == #[trigger] other_loads.contains(load),
        tensor::dims(states[0].weight).len() == 2,
        tensor::in_range(index, tensor::dims(states[0].weight)),
    ensures
        states.last().same_shape(others.last()),
        tensor::dims(states.last().weight) == tensor::dims(others.last().weight),
        tensor::elements(states.last().weight)[index] == tensor::elements(
            others.last().weight,
        )[index],
{
    let row = index[0] as int;
    let n = loads.len() as int;
    let m = other_loads.len() as int;
    assert forall|j: int| 0 <= j < m implies loads.contains(#[trigger] other_loads[j]) by {
        assert(other_loads.contains(other_loads[j]));
    }
    assert forall|j: int| 0 <= j < n implies other_loads.contains(#[trigger] loads[j]) by {
        assert(loads.contains(loads[j]));
    }
    assert(are_apart(other_loads)) by {
        assert forall|i: int, j: int, row: int|
            0 <= i < m && 0 <= j < m && #[trigger] other_loads[i].has_row(row)
                && #[trigger] other_loads[j].has_row(row) implies other_loads[i]
            == other_loads[j] by {
            let a = choose|a: int| 0 <= a < n && loads[a] == other_loads[i];
            let b = choose|b: int| 0 <= b < n && loads[b] == other_loads[j];
            assert(loads[a].has_row(row) && loads[b].has_row(row));
        }
    }
    lemma_loaded_in_turn(states, loads, index, n);
    lemma_loaded_in_turn(others, other_loads, index, m);
    if exists|j: int| 0 <= j < n && #[trigger] loads[j].has_row(row) {
        let j = choose|j: int| 0 <= j < n && #[trigger] loads[j].has_row(row);
        let k = choose|k: int| 0 <= k < m && other_loads[k] == loads[j];
        assert(other_loads[k].has_row(row));
    } else {
        assert forall|k: int| 0 <= k < m implies !#[trigger] other_loads[k].has_row(row) by {
            let j = choose|j: int| 0 <= j < n && loads[j] == other_loads[k];
            assert(!loads[j].has_row(row));
        }
    }
}

/// The load of the queries, the keys or the values of a layer.
pub open spec fn qkv_load(layer: QKVParallelLinear, name: Seq<char>, weight: Tensor) -> Load {
    let part = qkv_part(name, layer.q_size(), layer.kv_size()).unwrap();
    Load { weight, offset: part.0, size: part.1 }
}

/// `states` are a layer as it was and after the weights of `names` have been loaded in turn.
pub open spec fn is_qkv_loaded_in_turn(
    states: Seq<QKVParallelLinear>,
    names: Seq<Seq<char>>,
    weights: Map<Seq<char>, Tensor>,
) -> bool {
    &&& states.len() == names.len() + 1
    &&& forall|i: int|
        0 <= i < names.len() ==> states[i + 1].loaded(
            states[i],
            weights[#[trigger] names[i]],
            names[i],
            true,
        )
}

/// [`is_loaded_in_turn`] for the bases of the layers.
proof fn lemma_qkv_in_turn(
    states: Seq<QKVParallelLinear>,
    names: Seq<Seq<char>>,
    weights: Map<Seq<char>, Tensor>,
)
    requires
        is_qkv_loaded_in_turn(states, names, weights),
    ensures
        ({
            let loads = names.map_values(|name: Seq<char>| qkv_load(states[0], name, weights[name]));
            &&& is_loaded_in_turn(
                states.map_values(|state: QKVParallelLinear| state.base.base),
                loads,
            )
            &&& are_apart(loads)
        }),
        states.last().head_size == states[0].head_size,
        states.last().num_heads == states[0].num_heads,
        states.last().num_kv_heads == states[0].num_kv_heads,
{
    let loads = names.map_values(|name: Seq<char>| qkv_load(states[0], name, weights[name]));
    let bases = states.map_values(|state: QKVParallelLinear| state.base.base);
    assert forall|i: int| 0 <= i < states.len() implies (#[trigger] states[i]).head_size
        == states[0].head_size && states[i].num_heads == states[0].num_heads
        && states[i].num_kv_heads == states[0].num_kv_heads by {
        lemma_qkv_heads(states, names, weights, i);
    }
    let q = states[0].q_size();
    let kv = states[0].kv_size();
    assert(q >= 0 && kv >= 0) by (nonlinear_arith)
        requires
            q == states[0].num_heads * states[0].head_size,
            kv == states[0].num_kv_heads * states[0].head_size,
    ;
    assert forall|i: int| 0 <= i < loads.len() implies 0 <= (#[trigger] loads[i]).size
        && bases[i + 1].loaded_part(
        bases[i],
        loads[i].weight,
        0,
        loads[i].offset,
        loads[i].size,
        true,
    ) by {
        assert(states[i + 1].loaded(states[i], weights[names[i]], names[i], true));
        assert(states[i].q_size() == q && states[i].kv_size() == kv);
    }
    assert forall|i: int, j: int, row: int|
        0 <= i < loads.len() && 0 <= j < loads.len() && #[trigger] loads[i].has_row(row)
            && #[trigger] loads[j].has_row(row) implies loads[i] == loads[j] by {
        assert(states[i + 1].loaded(states[i], weights[names[i]], names[i], true));
        assert(states[j + 1].loaded(states[j], weights[names[j]], names[j], true));
        assert(qkv_part(names[i], q, kv) is Some);
        assert(qkv_part(names[j], q, kv) is Some);
    }
}

proof fn lemma_qkv_heads(
    states: Seq<QKVParallelLinear>,
    names: Seq<Seq<char>>,
    weights: Map<Seq<char>, Tensor>,
    i: int,
)
    requires
        is_qkv_loaded_in_turn(states, names, weights),
        0 <= i < states.len(),
    ensures
        states[i].head_size == states[0].head_size,
        states[i].num_heads == states[0].num_heads,
        states[i].num_kv_heads == states[0].num_kv_heads,
    decreases i,
{
    if i > 0 {
        lemma_qkv_heads(states, names, weights, i - 1);
        assert(states[i - 1 + 1].loaded(states[i - 1], weights[names[i - 1]], names[i - 1], true));
    }
}

/// It makes no difference in which order the queries, the keys and the values are loaded: the
/// same ones give the same weight.
pub proof fn qkv_parts_are_loaded_in_any_order(
    states: Seq<QKVParallelLinear>,
    names: Seq<Seq<char>>,
    others: Seq<QKVParallelLinear>,
    other_names: Seq<Seq<char>>,
    weights: Map<Seq<char>, Tensor>,
    index: Seq<usize>,
)
    requires
        is_qkv_loaded_in_turn(states, names, weights),
        is_qkv_loaded_in_turn(others, other_names, weights),
        states[0] == others[0],
        states[0].wf(),
        forall|name: Seq<char>| names.contains(name) == #[trigger] other_names.contains(name),
        tensor::in_range(index, tensor::dims(states[0].base.base.weight)),
    ensures
        states.last().head_size == others.last().head_size,
        states.last().num_heads == others.last().num_heads,
        states.last().num_kv_heads == others.last().num_kv_heads,
        states.last().base.base.same_shape(others.last().base.base),
        tensor::dims(states.last().base.base.weight) == tensor::dims(
            others.last().base.base.weight,
        ),
        tensor::elements(states.last().base.base.weight)[index] == tensor::elements(
            others.last().base.base.weight,
        )[index],
{
    let load = |name: Seq<char>| qkv_load(states[0], name, weights[name]);
    let loads = names.map_values(load);
    let other_loads = other_names.map_values(load);
    lemma_qkv_in_turn(states, names, weights);
    lemma_qkv_in_turn(others, other_names, weights);
    assert forall|l: Load| loads.contains(l) == #[trigger] other_loads.contains(l) by {
        if loads.contains(l) {
            let i = choose|i: int| 0 <= i < loads.len() && loads[i] == l;
            assert(names.contains(names[i]));
            assert(other_names.contains(names[i]));
            let j = choose|j: int| 0 <= j < other_names.len() && other_names[j] == names[i];
            assert(other_loads[j] == l);
        }
        if other_loads.contains(l) {
            let i = choose|i: int| 0 <= i < other_loads.len() && other_loads[i] == l;
            assert(other_names.contains(other_names[i]));
            assert(names.contains(other_names[i]));
            let j = choose|j: int| 0 <= j < names.len() && names[j] == other_names[i];
            assert(loads[j] == l);
        }
    }
    parts_are_loaded_in_any_order(
        states.map_values(|state: QKVParallelLinear| state.base.base),
        loads,
        others.map_values(|state: QKVParallelLinear| state.base.base),
        other_loads,
        index,
    );
}

} // verus!
