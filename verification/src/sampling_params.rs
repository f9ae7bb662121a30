use vstd::prelude::*;

verus! {

/// The bits of the largest temperature that is refused, `1e-10`.
pub const MIN_TEMPERATURE_BITS: u64 = 0x3ddb_7cdf_d9d7_bdbb;

/// The bits of positive infinity.
pub const INFINITY_BITS: u64 = 0x7ff0_0000_0000_0000;

/// How the tokens of one request are drawn.
///
/// The temperature is a double held by its IEEE 754 bits: the engine carries it from the
/// request to the sampler and never computes with it.
#[derive(Clone, Copy)]
pub struct SamplingParams {
    pub temperature: u64,
    pub max_tokens: i32,
    pub ignore_eos: bool,
}

/// Whether the double with these bits is greater than `1e-10`.
///
/// Doubles of positive sign are ordered as their bits are, up to infinity; the bits above
/// those of infinity are the NaNs and the doubles of negative sign, none of which is greater.
pub open spec fn temperature_is_valid(bits: u64) -> bool {
    MIN_TEMPERATURE_BITS < bits <= INFINITY_BITS
}

/// Whether `bits` may be given to [`SamplingParams::new`].
pub fn is_valid_temperature(bits: u64) -> (valid: bool)
    ensures
        valid == temperature_is_valid(bits),
{
    MIN_TEMPERATURE_BITS < bits && bits <= INFINITY_BITS
}

impl SamplingParams {
    pub fn new(temperature: u64, max_tokens: i32, ignore_eos: bool) -> (params: Self)
        requires
            temperature_is_valid(temperature),
        ensures
            params.temperature == temperature,
            params.max_tokens == max_tokens,
            params.ignore_eos == ignore_eos,
    {
        SamplingParams { temperature, max_tokens, ignore_eos }
    }
}

} // verus!
