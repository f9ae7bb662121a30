//! What the layers need to know of the step under way.
use vstd::prelude::*;
use vstd::slice::slice_to_vec;

verus! {

/// The block tables of the sequences of a step, one row for each, padded with `-1` to the
/// same width.
pub struct BlockTables {
    pub rows: usize,
    pub width: usize,
    pub data: Vec<i64>,
}

/// The layout of the tokens of a step. Each field is empty until a step sets it.
pub struct Context {
    /// Where the new tokens of each sequence begin, and where the last ones end.
    pub cu_seqlens_q: Option<Vec<i64>>,
    /// The same for the tokens in context.
    pub cu_seqlens_k: Option<Vec<i64>>,
    pub max_seqlen_q: usize,
    pub max_seqlen_k: usize,
    /// The slot of the cache that each new token is written to.
    pub slot_mapping: Option<Vec<i64>>,
    pub context_lens: Option<Vec<i64>>,
    pub block_tables: Option<BlockTables>,
    /// The sequences that a next token is drawn for.
    pub seq_need_compute_logits: Option<Vec<i64>>,
}

/// What an optional list holds.
pub open spec fn listed(list: Option<Vec<i64>>) -> Option<Seq<i64>> {
    match list {
        Some(v) => Some(v@),
        None => None,
    }
}

#[verifier::ext_equal]
pub struct TablesView {
    pub rows: nat,
    pub width: nat,
    pub data: Seq<i64>,
}

impl View for BlockTables {
    type V = TablesView;

    open spec fn view(&self) -> TablesView {
        TablesView { rows: self.rows as nat, width: self.width as nat, data: self.data@ }
    }
}

/// What a [`Context`] holds.
#[verifier::ext_equal]
pub struct ContextView {
    pub cu_seqlens_q: Option<Seq<i64>>,
    pub cu_seqlens_k: Option<Seq<i64>>,
    pub max_seqlen_q: nat,
    pub max_seqlen_k: nat,
    pub slot_mapping: Option<Seq<i64>>,
    pub context_lens: Option<Seq<i64>>,
    pub block_tables: Option<TablesView>,
    pub seq_need_compute_logits: Option<Seq<i64>>,
}

impl View for Context {
    type V = ContextView;

    open spec fn view(&self) -> ContextView {
        ContextView {
            cu_seqlens_q: listed(self.cu_seqlens_q),
            cu_seqlens_k: listed(self.cu_seqlens_k),
            max_seqlen_q: self.max_seqlen_q as nat,
            max_seqlen_k: self.max_seqlen_k as nat,
            slot_mapping: listed(self.slot_mapping),
            context_lens: listed(self.context_lens),
            block_tables: match self.block_tables {
                Some(tables) => Some(tables@),
                None => None,
            },
            seq_need_compute_logits: listed(self.seq_need_compute_logits),
        }
    }
}

impl ContextView {
    /// No step is under way.
    pub open spec fn is_reset(self) -> bool {
        self == (ContextView {
            cu_seqlens_q: None,
            cu_seqlens_k: None,
            max_seqlen_q: 0,
            max_seqlen_k: 0,
            slot_mapping: None,
            context_lens: None,
            block_tables: None,
            seq_need_compute_logits: None,
        })
    }
}

impl Default for Context {
    fn default() -> (context: Self)
        ensures
            context@.is_reset(),
    {
        Context {
            cu_seqlens_q: None,
            cu_seqlens_k: None,
            max_seqlen_q: 0,
            max_seqlen_k: 0,
            slot_mapping: None,
            context_lens: None,
            block_tables: None,
            seq_need_compute_logits: None,
        }
    }
}

fn copy_list(list: &Option<Vec<i64>>) -> (copy: Option<Vec<i64>>)
    ensures
        listed(copy) == listed(*list),
{
    match list {
        Some(v) => Some(slice_to_vec(v.as_slice())),
        None => None,
    }
}

impl Clone for Context {
    fn clone(&self) -> (copy: Self)
        ensures
            copy@ == self@,
    {
        Context {
            cu_seqlens_q: copy_list(&self.cu_seqlens_q),
            cu_seqlens_k: copy_list(&self.cu_seqlens_k),
            max_seqlen_q: self.max_seqlen_q,
            max_seqlen_k: self.max_seqlen_k,
            slot_mapping: copy_list(&self.slot_mapping),
            context_lens: copy_list(&self.context_lens),
            block_tables: match &self.block_tables {
                Some(tables) => Some(
                    BlockTables {
                        rows: tables.rows,
                        width: tables.width,
                        data: slice_to_vec(tables.data.as_slice()),
                    },
                ),
                None => None,
            },
            seq_need_compute_logits: copy_list(&self.seq_need_compute_logits),
        }
    }
}

/// The context as it is now.
pub fn get_context(context: &Context) -> (copy: Context)
    ensures
        copy@ == context@,
{
    context.clone()
}

/// Replaces the whole context.
pub fn set_context(
    context: &mut Context,
    cu_seqlens_q: Option<Vec<i64>>,
    cu_seqlens_k: Option<Vec<i64>>,
    max_seqlen_q: usize,
    max_seqlen_k: usize,
    slot_mapping: Option<Vec<i64>>,
    context_lens: Option<Vec<i64>>,
    block_tables: Option<BlockTables>,
    seq_need_compute_logits: Option<Vec<i64>>,
)
    ensures
        final(context).cu_seqlens_q == cu_seqlens_q,
        final(context).cu_seqlens_k == cu_seqlens_k,
        final(context).max_seqlen_q == max_seqlen_q,
        final(context).max_seqlen_k == max_seqlen_k,
        final(context).slot_mapping == slot_mapping,
        final(context).context_lens == context_lens,
        final(context).block_tables == block_tables,
        final(context).seq_need_compute_logits == seq_need_compute_logits,
{
    *context = Context {
        cu_seqlens_q,
        cu_seqlens_k,
        max_seqlen_q,
        max_seqlen_k,
        slot_mapping,
        context_lens,
        block_tables,
        seq_need_compute_logits,
    };
}

/// Empties the context, at the end of a step.
pub fn reset_context(context: &mut Context)
    ensures
        final(context)@.is_reset(),
{
    *context = Context::default();
}

} // verus!
