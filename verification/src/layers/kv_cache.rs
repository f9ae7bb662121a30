//! How new keys and values are stored into the cache.
use vstd::prelude::*;

verus! {

/// The product of `dims` from place `i` on.
pub open spec fn product_from(dims: Seq<usize>, i: int) -> int
    decreases dims.len() - i,
{
    if i < 0 || i >= dims.len() {
        1
    } else {
        dims[i] * product_from(dims, i + 1)
    }
}

/// The product of `dims` from place `first` on, if a machine word holds it at every step.
pub fn product(dims: &[usize], first: usize) -> (product: Option<usize>)
    requires
        first <= dims@.len(),
    ensures
        product matches Some(p) ==> p == product_from(dims@, first as int),
        product is None ==> exists|i: int|
            first <= i < dims@.len() && #[trigger] product_from(dims@, i) > usize::MAX,
{
    let mut p: usize = 1;
    let mut i: usize = dims.len();
    while i > first
        invariant
            first <= i <= dims@.len(),
            p == product_from(dims@, i as int),
        decreases i,
    {
        i = i - 1;
        match dims[i].checked_mul(p) {
            Some(q) => {
                p = q;
            },
            None => {
                assert(product_from(dims@, i as int) > usize::MAX);
                return None;
            },
        }
    }
    Some(p)
}

/// How the rows of a step are stored: one group of threads for each token, each of which
/// copies `width` numbers.
#[derive(Debug, Clone, Copy, PartialEq, Eq, Structural)]
pub struct StorePlan {
    pub num_tokens: usize,
    pub width: usize,
    pub threads: u32,
}

/// Why rows cannot be stored.
#[derive(Debug, Clone, Copy, PartialEq, Eq, Structural)]
pub enum StoreError {
    NotContiguous,
    /// A slot of the cache is not as wide as a row.
    WidthMismatch,
}

/// Plans the storing of keys or values of dimensions `src_dims`, the first of which is the
/// number of tokens, into a cache of dimensions `cache_dims`, the first two of which are the
/// blocks and the slots of a block. Without tokens there is nothing to do.
pub fn plan_store(contiguous: bool, cache_dims: &[usize], src_dims: &[usize]) -> (plan: Result<
    Option<StorePlan>,
    StoreError,
>)
    requires
        cache_dims@.len() >= 2,
        src_dims@.len() >= 1,
        forall|i: int|
            2 <= i < cache_dims@.len() ==> #[trigger] product_from(cache_dims@, i) <= usize::MAX,
        forall|i: int|
            1 <= i < src_dims@.len() ==> #[trigger] product_from(src_dims@, i) <= usize::MAX,
    ensures
        plan == (if !contiguous {
            Err(StoreError::NotContiguous)
        } else if product_from(cache_dims@, 2) != product_from(src_dims@, 1) {
            Err(StoreError::WidthMismatch)
        } else if src_dims@[0] == 0 {
            Ok(None)
        } else {
            Ok(
                Some(
                    StorePlan {
                        num_tokens: src_dims@[0],
                        width: product_from(src_dims@, 1) as usize,
                        threads: if product_from(src_dims@, 1) < 1024 {
                            product_from(src_dims@, 1) as u32
                        } else {
                            1024
                        },
                    },
                ),
            )
        }),
        plan matches Ok(Some(p)) ==> p.num_tokens * p.width == product_from(src_dims@, 0)
            && p.threads <= p.width && p.threads <= 1024 && (p.width <= 1024 ==> p.threads
            == p.width),
{
    if !contiguous {
        return Err(StoreError::NotContiguous);
    }
    let width = match product(src_dims, 1) {
        Some(width) => width,
        None => {
            return Err(StoreError::WidthMismatch);
        },
    };
    let slot_width = match product(cache_dims, 2) {
        Some(width) => width,
        None => {
            return Err(StoreError::WidthMismatch);
        },
    };
    if slot_width != width {
        return Err(StoreError::WidthMismatch);
    }
    let num_tokens = src_dims[0];
    if num_tokens == 0 {
        return Ok(None);
    }
    let threads: u32 = if width < 1024 {
        width as u32
    } else {
        1024
    };
    Ok(Some(StorePlan { num_tokens, width, threads }))
}

} // verus!
