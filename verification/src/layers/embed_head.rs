//! The embedding of tokens and the head over the vocabulary, both cut by the vocabulary.
use crate::layers::tensor;
use crate::layers::tensor::LayerError;
use candle_core::{Device, Tensor};
use vstd::prelude::*;

verus! {

/// One rank's part of the embedding: a row for each token of its part of the vocabulary.
pub struct VocabParallelEmbedding {
    pub num_embeddings: usize,
    pub embedding_dim: usize,
    pub tp_rank: usize,
    pub tp_size: usize,
    pub num_embeddings_per_partition: usize,
    pub vocab_start_idx: usize,
    pub vocab_end_idx: usize,
    pub weight: Tensor,
}

impl VocabParallelEmbedding {
    /// The ranks have equal parts of the vocabulary, one behind the other.
    pub open spec fn wf(&self) -> bool {
        &&& self.tp_rank < self.tp_size
        &&& self.num_embeddings_per_partition * self.tp_size == self.num_embeddings
        &&& self.vocab_start_idx == self.num_embeddings_per_partition * self.tp_rank
        &&& self.vocab_end_idx == self.vocab_start_idx + self.num_embeddings_per_partition
        &&& self.vocab_end_idx <= self.num_embeddings
        &&& self.num_embeddings <= isize::MAX / 8
    }

    /// The layer as it is made. What the rows hold before they are loaded is left open.
    pub open spec fn is_new(
        &self,
        num_embeddings: usize,
        embedding_dim: usize,
        tp_rank: usize,
        tp_size: usize,
        device: Device,
    ) -> bool {
        &&& self.wf()
        &&& self.num_embeddings == num_embeddings
        &&& self.embedding_dim == embedding_dim
        &&& self.tp_rank == tp_rank
        &&& self.tp_size == tp_size
        &&& tensor::dims(self.weight) == seq![self.num_embeddings_per_partition, embedding_dim]
        &&& tensor::is_f32(self.weight)
        &&& tensor::on_cpu(self.weight) == tensor::is_cpu(device)
        &&& tensor::is_contiguous(self.weight)
    }

    pub fn new(
        num_embeddings: usize,
        embedding_dim: usize,
        tp_rank: usize,
        tp_size: usize,
        device: &Device,
    ) -> (layer: Result<Self, LayerError>)
        requires
            tp_rank < tp_size,
            num_embeddings as int % tp_size as int == 0,
            num_embeddings <= isize::MAX / 8,
            num_embeddings * embedding_dim <= isize::MAX / 8,
        ensures
            layer matches Ok(l) ==> l.is_new(
                num_embeddings,
                embedding_dim,
                tp_rank,
                tp_size,
                *device,
            ),
            tensor::is_cpu(*device) ==> layer is Ok,
            layer matches Err(error) ==> error is Tensor,
    {
        let num_embeddings_per_partition = num_embeddings / tp_size;
        proof {
            let n = tp_size as int;
            let each = num_embeddings_per_partition as int;
            let rank = tp_rank as int;
            let total = num_embeddings as int;
            assert(each * n == total && 0 <= each <= total) by (nonlinear_arith)
                requires
                    each == total / n,
                    total % n == 0,
                    n > 0,
                    total >= 0,
            ;
            assert(each * embedding_dim <= total * embedding_dim) by (nonlinear_arith)
                requires
                    each <= total,
                    embedding_dim >= 0,
            ;
            assert(0 <= each * rank && each * rank + each <= total) by (nonlinear_arith)
                requires
                    each * n == total,
                    0 <= rank,
                    rank + 1 <= n,
                    each >= 0,
            ;
        }
        let weight = match tensor::zero_matrix(
            num_embeddings_per_partition,
            embedding_dim,
            device,
        ) {
            Ok(weight) => weight,
            Err(error) => {
                return Err(LayerError::Tensor(error));
            },
        };
        let vocab_start_idx = num_embeddings_per_partition * tp_rank;
        let vocab_end_idx = vocab_start_idx + num_embeddings_per_partition;
        Ok(
            VocabParallelEmbedding {
                num_embeddings,
                embedding_dim,
                tp_rank,
                tp_size,
                num_embeddings_per_partition,
                vocab_start_idx,
                vocab_end_idx,
                weight,
            },
        )
    }

    /// All but the weight is that of `other`.
    pub open spec fn same_shape(&self, other: VocabParallelEmbedding) -> bool {
        &&& self.num_embeddings == other.num_embeddings
        &&& self.embedding_dim == other.embedding_dim
        &&& self.tp_rank == other.tp_rank
        &&& self.tp_size == other.tp_size
        &&& self.num_embeddings_per_partition == other.num_embeddings_per_partition
        &&& self.vocab_start_idx == other.vocab_start_idx
        &&& self.vocab_end_idx == other.vocab_end_idx
    }

    /// What comes of taking this rank's rows of `loaded`: it succeeds where `loaded` has
    /// them, and leaves the layer as it was where not.
    pub open spec fn loaded_rows(
        &self,
        before: VocabParallelEmbedding,
        loaded: Tensor,
        success: bool,
    ) -> bool {
        &&& success == tensor::has_slices(loaded, 0, before.vocab_end_idx as int)
        &&& if success {
            &&& tensor::is_slice(
                self.weight,
                loaded,
                0,
                before.vocab_start_idx as int,
                before.num_embeddings_per_partition as int,
            )
            &&& tensor::same_kind(self.weight, loaded)
            &&& tensor::is_contiguous(loaded) ==> tensor::is_contiguous(self.weight)
            &&& self.same_shape(before)
        } else {
            *self == before
        }
    }

    /// Takes this rank's rows of the weight.
    pub fn weight_loader(&mut self, loaded_weight: Tensor) -> (loaded: Result<(), LayerError>)
        requires
            old(self).wf(),
        ensures
            final(self).wf(),
            final(self).loaded_rows(*old(self), loaded_weight, loaded is Ok),
            loaded matches Err(error) ==> error is Tensor,
    {
        match tensor::narrow(
            &loaded_weight,
            0,
            self.vocab_start_idx,
            self.num_embeddings_per_partition,
        ) {
            Ok(weight) => {
                self.weight = weight;
                Ok(())
            },
            Err(error) => Err(LayerError::Tensor(error)),
        }
    }

    /// Whether token `id` is in this rank's part of the vocabulary, and its row there. For a
    /// token of another rank the first row is read, and what it gives is to be left out.
    pub fn local_row(&self, id: i64) -> (row: (i64, bool))
        requires
            self.wf(),
            self.vocab_end_idx <= i64::MAX,
        ensures
            row.1 == (self.vocab_start_idx <= id < self.vocab_end_idx),
            row.0 == if row.1 {
                id - self.vocab_start_idx
            } else {
                0
            },
            row.1 ==> 0 <= row.0 < self.num_embeddings_per_partition && self.tp_rank
                * self.num_embeddings_per_partition + row.0 == id,
    {
        proof {
            let each = self.num_embeddings_per_partition as int;
            let rank = self.tp_rank as int;
            assert(each * rank == rank * each) by (nonlinear_arith);
        }
        if self.vocab_start_idx as i64 <= id && id < self.vocab_end_idx as i64 {
            (id - self.vocab_start_idx as i64, true)
        } else {
            (0, false)
        }
    }

    /// Token `id` is looked up by this rank. A rank that is alone looks up every token.
    pub open spec fn looks_up(&self, id: i64) -> bool {
        self.tp_size == 1 || self.vocab_start_idx <= id < self.vocab_end_idx
    }

    /// The rows of the weight that are read for the tokens `ids`.
    pub open spec fn rows_of(&self, ids: Seq<i64>) -> Seq<int> {
        ids.map_values(
            |id: i64|
                if !self.looks_up(id) {
                    0
                } else {
                    id - self.vocab_start_idx
                },
        )
    }

    /// Reads the rows of the tokens, and says which of them are this rank's: the others are to
    /// be left out.
    pub fn lookup(&self, ids: &[i64]) -> (found: Result<(Tensor, Vec<bool>), LayerError>)
        requires
            self.wf(),
            tensor::dims(self.weight) == seq![
                self.num_embeddings_per_partition,
                self.embedding_dim,
            ],
            tensor::span(tensor::dims(self.weight)) <= isize::MAX / 8,
            tensor::span(seq![ids@.len() as usize, self.embedding_dim]) <= isize::MAX / 8,
        ensures
            found matches Ok(rows) ==> {
                &&& rows.1@ == ids@.map_values(|id: i64| self.looks_up(id))
                &&& tensor::dims(rows.0) == seq![ids@.len() as usize, self.embedding_dim]
                &&& tensor::same_kind(rows.0, self.weight)
                &&& tensor::are_rows(self.rows_of(ids@), self.weight, i64::MAX as int)
                    ==> tensor::is_selected(rows.0, self.weight, self.rows_of(ids@))
                &&& tensor::on_cpu(self.weight) && tensor::are_addresses(ids@)
                    ==> tensor::are_rows_or_blank(self.rows_of(ids@), self.weight, i64::MAX as int)
            },
            tensor::is_plain(self.weight) && tensor::is_contiguous(self.weight)
                && tensor::can_be_read(self.weight) && tensor::are_rows(
                self.rows_of(ids@),
                self.weight,
                i64::MAX as int,
            ) ==> found is Ok,
            found matches Err(error) ==> if tensor::can_be_read(self.weight) {
                error is Tensor
            } else {
                error is Unreadable
            },
            found is Ok ==> tensor::can_be_read(self.weight),
    {
        if !tensor::is_readable(&self.weight) {
            return Err(LayerError::Unreadable);
        }
        let ghost all = ids@;
        let mut rows: Vec<i64> = Vec::new();
        let mut own: Vec<bool> = Vec::new();
        let mut i: usize = 0;
        while i < ids.len()
            invariant
                all == ids@,
                self.wf(),
                i <= all.len(),
                rows@.len() == i,
                forall|j: int| 0 <= j < i ==> (#[trigger] rows@[j]) == self.rows_of(all)[j],
                own@ == all.take(i as int).map_values(|id: i64| self.looks_up(id)),
                forall|j: int|
                    0 <= j < i && 0 <= #[trigger] all[j] <= usize::MAX ==> 0 <= rows@[j]
                        <= usize::MAX,
            decreases all.len() - i,
        {
            let id = ids[i];
            if self.tp_size == 1 {
                rows.push(id);
                own.push(true);
            } else {
                let (row, is_own) = self.local_row(id);
                rows.push(row);
                own.push(is_own);
            }
            proof {
                if self.tp_size == 1 {
                    assert(self.vocab_start_idx == 0);
                }
                assert(all.take(i + 1) =~= all.take(i as int).push(id));
                assert(own@ =~= all.take(i + 1).map_values(|id: i64| self.looks_up(id)));
            }
            i = i + 1;
        }
        proof {
            assert(all.take(i as int) =~= all);
            assert(rows@.map_values(|row: i64| row as int) =~= self.rows_of(all));
            assert(tensor::dims(self.weight).update(0, all.len() as usize) =~= seq![
                all.len() as usize,
                self.embedding_dim,
            ]);
        }
        match tensor::embedding(&self.weight, self.embedding_dim, rows.as_slice()) {
            Ok(y) => Ok((y, own)),
            Err(error) => Err(LayerError::Tensor(error)),
        }
    }
}

/// A token's rank finds the token's row of the whole embedding.
pub proof fn each_token_finds_its_row(
    layer: VocabParallelEmbedding,
    whole: Tensor,
    found: Tensor,
    ids: Seq<i64>,
    index: Seq<usize>,
)
    requires
        layer.wf(),
        tensor::dims(whole).len() == 2,
        tensor::is_slice(
            layer.weight,
            whole,
            0,
            layer.vocab_start_idx as int,
            layer.num_embeddings_per_partition as int,
        ),
        tensor::is_selected(found, layer.weight, layer.rows_of(ids)),
        ids.len() <= usize::MAX,
        tensor::in_range(index, tensor::dims(found)),
        layer.vocab_start_idx <= ids[index[0] as int] < layer.vocab_end_idx,
    ensures
        tensor::elements(found)[index] == tensor::elements(whole)[index.update(
            0,
            ids[index[0] as int] as usize,
        )],
{
    let id = ids[index[0] as int];
    assert(index[0] < tensor::dims(found)[0]);
    assert(index[1] < tensor::dims(found)[1]);
    let local = index.update(0, (id - layer.vocab_start_idx) as usize);
    assert(layer.rows_of(ids)[index[0] as int] == id - layer.vocab_start_idx);
    assert(tensor::in_range(local, tensor::dims(layer.weight)));
    assert(tensor::elements(found)[index] == tensor::elements(layer.weight)[local]);
    assert(local.update(0, (local[0] + layer.vocab_start_idx) as usize) =~= index.update(
        0,
        id as usize,
    ));
}

/// Every token of the vocabulary is embedded by exactly one rank: a rank has it in its part
/// just where it is the rank that the token falls to.
pub proof fn one_rank_embeds_each_token(layer: VocabParallelEmbedding, id: int)
    requires
        layer.wf(),
        0 <= id < layer.num_embeddings,
    ensures
        ({
            let rank = id / (layer.num_embeddings_per_partition as int);
            &&& 0 <= rank < layer.tp_size
            &&& (layer.vocab_start_idx <= id < layer.vocab_end_idx) == (layer.tp_rank == rank)
        }),
{
    let n = layer.tp_size as int;
    let each = layer.num_embeddings_per_partition as int;
    let own = layer.tp_rank as int;
    let rank = id / each;
    assert(each > 0) by (nonlinear_arith)
        requires
            each * n > 0,
            each >= 0,
    ;
    assert(each * rank <= id < each * rank + each && 0 <= rank) by (nonlinear_arith)
        requires
            rank == id / each,
            each > 0,
            id >= 0,
    ;
    assert(rank < n) by (nonlinear_arith)
        requires
            each * rank <= id,
            id < each * n,
            each > 0,
    ;
    if each * own <= id < each * own + each {
        assert(own == rank) by (nonlinear_arith)
            requires
                each * own <= id < each * own + each,
                each * rank <= id < each * rank + each,
        ;
    }
}

/// The head over the vocabulary.
pub struct ParallelLMHead {
    pub base: VocabParallelEmbedding,
}

/// The rows of the hidden states that logits are computed from: the last new token of each
/// sequence, or of those in `rows` where there are some.
pub open spec fn head_rows(bounds: Seq<u32>, rows: Seq<u32>) -> Seq<u32> {
    if rows.len() == 0 {
        Seq::new((bounds.len() - 1) as nat, |i: int| (bounds[i + 1] - 1) as u32)
    } else {
        Seq::new(rows.len(), |i: int| (bounds[rows[i] + 1] - 1) as u32)
    }
}

impl ParallelLMHead {
    pub fn new(
        num_embeddings: usize,
        embedding_dim: usize,
        tp_rank: usize,
        tp_size: usize,
        device: &Device,
    ) -> (layer: Result<Self, LayerError>)
        requires
            tp_rank < tp_size,
            num_embeddings as int % tp_size as int == 0,
            num_embeddings <= isize::MAX / 8,
            num_embeddings * embedding_dim <= isize::MAX / 8,
        ensures
            layer matches Ok(l) ==> l.base.is_new(
                num_embeddings,
                embedding_dim,
                tp_rank,
                tp_size,
                *device,
            ),
            tensor::is_cpu(*device) ==> layer is Ok,
            layer matches Err(error) ==> error is Tensor,
    {
        match VocabParallelEmbedding::new(
            num_embeddings,
            embedding_dim,
            tp_rank,
            tp_size,
            device,
        ) {
            Ok(base) => Ok(ParallelLMHead { base }),
            Err(error) => Err(error),
        }
    }

    /// Takes this rank's rows of the weight.
    pub fn weight_loader(&mut self, loaded_weight: Tensor) -> (loaded: Result<(), LayerError>)
        requires
            old(self).base.wf(),
        ensures
            final(self).base.wf(),
            final(self).base.loaded_rows(old(self).base, loaded_weight, loaded is Ok),
            loaded matches Err(error) ==> error is Tensor,
    {
        self.base.weight_loader(loaded_weight)
    }

    /// Uses the weight of the embedding for the head too.
    pub fn tie_weights(&mut self, embed_tokens: &VocabParallelEmbedding)
        ensures
            tensor::dims(final(self).base.weight) == tensor::dims(embed_tokens.weight),
            tensor::elements(final(self).base.weight) == tensor::elements(embed_tokens.weight),
            tensor::same_kind(final(self).base.weight, embed_tokens.weight),
            tensor::is_contiguous(final(self).base.weight) == tensor::is_contiguous(
                embed_tokens.weight,
            ),
            final(self).base.same_shape(old(self).base),
    {
        self.base.weight = tensor::share(&embed_tokens.weight);
    }

    /// The rows of the hidden states that logits are computed from. `cu_seqlens_q` tells
    /// where the new tokens of each sequence begin, and where the last ones end.
    pub fn last_indices(cu_seqlens_q: &[u32], seq_need_compute_logits: &[u32]) -> (rows: Vec<u32>)
        requires
            cu_seqlens_q@.len() > 0,
            forall|i: int| 1 <= i < cu_seqlens_q@.len() ==> (#[trigger] cu_seqlens_q@[i]) >= 1,
            forall|i: int|
                0 <= i < seq_need_compute_logits@.len() ==> (
                #[trigger] seq_need_compute_logits@[i]) + 1 < cu_seqlens_q@.len(),
        ensures
            rows@ == head_rows(cu_seqlens_q@, seq_need_compute_logits@),
    {
        let ghost bounds = cu_seqlens_q@;
        let ghost chosen = seq_need_compute_logits@;
        let mut rows: Vec<u32> = Vec::new();
        let mut i: usize = 0;
        if seq_need_compute_logits.len() == 0 {
            while i < cu_seqlens_q.len() - 1
                invariant
                    bounds == cu_seqlens_q@,
                    bounds.len() > 0,
                    forall|i: int| 1 <= i < bounds.len() ==> (#[trigger] bounds[i]) >= 1,
                    i <= bounds.len() - 1,
                    rows@ == Seq::new(i as nat, |j: int| (bounds[j + 1] - 1) as u32),
                decreases bounds.len() - i,
            {
                assert(bounds[i + 1] >= 1);
                rows.push(cu_seqlens_q[i + 1] - 1);
                i = i + 1;
                assert(rows@ =~= Seq::new(i as nat, |j: int| (bounds[j + 1] - 1) as u32));
            }
        } else {
            let n = cu_seqlens_q.len();
            while i < seq_need_compute_logits.len()
                invariant
                    n == bounds.len(),
                    bounds == cu_seqlens_q@,
                    chosen == seq_need_compute_logits@,
                    forall|i: int| 1 <= i < bounds.len() ==> (#[trigger] bounds[i]) >= 1,
                    forall|i: int|
                        0 <= i < chosen.len() ==> (#[trigger] chosen[i]) + 1 < bounds.len(),
                    i <= chosen.len(),
                    rows@ == Seq::new(i as nat, |j: int| (bounds[chosen[j] + 1] - 1) as u32),
                decreases chosen.len() - i,
            {
                let row = seq_need_compute_logits[i] as usize;
                assert(chosen[i as int] + 1 < bounds.len());
                assert(bounds[row + 1] >= 1);
                rows.push(cu_seqlens_q[row + 1] - 1);
                i = i + 1;
                assert(rows@ =~= Seq::new(
                    i as nat,
                    |j: int| (bounds[chosen[j] + 1] - 1) as u32,
                ));
            }
        }
        rows
    }

    /// The hidden states that logits are computed from, one row for each.
    pub fn last_hidden_states(
        x: &Tensor,
        cu_seqlens_q: &[u32],
        seq_need_compute_logits: &[u32],
    ) -> (last: Result<Tensor, LayerError>)
        requires
            cu_seqlens_q@.len() > 0,
            forall|i: int| 1 <= i < cu_seqlens_q@.len() ==> (#[trigger] cu_seqlens_q@[i]) >= 1,
            forall|i: int|
                0 <= i < seq_need_compute_logits@.len() ==> (
                #[trigger] seq_need_compute_logits@[i]) + 1 < cu_seqlens_q@.len(),
            tensor::span(tensor::dims(*x)) <= isize::MAX / 8,
            tensor::span(
                tensor::dims(*x).update(
                    0,
                    head_rows(cu_seqlens_q@, seq_need_compute_logits@).len() as usize,
                ),
            ) <= isize::MAX / 8,
        ensures
            ({
                let rows = head_rows(cu_seqlens_q@, seq_need_compute_logits@).map_values(
                    |row: u32| row as int,
                );
                let there = tensor::are_rows(rows, *x, u32::MAX as int);
                &&& last matches Ok(t) ==> {
                    &&& tensor::dims(*x).len() > 0
                    &&& there ==> tensor::is_selected(t, *x, rows)
                    &&& tensor::on_cpu(*x) ==> there
                    &&& tensor::same_kind(t, *x)
                    &&& tensor::is_contiguous(t)
                }
                &&& tensor::dims(*x).len() > 0 && tensor::is_plain(*x) && tensor::is_contiguous(*x)
                    && tensor::can_be_read(*x) && there ==> last is Ok
            }),
            last matches Err(error) ==> if tensor::can_be_read(*x) {
                error is Tensor
            } else {
                error is Unreadable
            },
            last is Ok ==> tensor::can_be_read(*x),
    {
        if !tensor::is_readable(x) {
            return Err(LayerError::Unreadable);
        }
        let rows = Self::last_indices(cu_seqlens_q, seq_need_compute_logits);
        proof {
            let all = rows@.map_values(|row: u32| row as int);
            assert forall|i: int| 0 <= i < all.len() implies #[trigger] all[i] != u32::MAX by {
                if seq_need_compute_logits@.len() == 0 {
                    assert(cu_seqlens_q@[i + 1] >= 1);
                } else {
                    assert(seq_need_compute_logits@[i] + 1 < cu_seqlens_q@.len());
                    assert(cu_seqlens_q@[seq_need_compute_logits@[i] + 1] >= 1);
                }
            }
        }
        match tensor::index_select(x, rows.as_slice()) {
            Ok(last) => Ok(last),
            Err(error) => Err(LayerError::Tensor(error)),
        }
    }
}

} // verus!
