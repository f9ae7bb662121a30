//! The weights of normalisation.
use crate::layers::tensor;
use crate::layers::tensor::LayerError;
use candle_core::{Device, Tensor};
use vstd::prelude::*;

verus! {

/// One factor for each feature. `eps` is held by the bits of a 32-bit float.
pub struct RMSNorm {
    pub weight: Tensor,
    pub eps: u32,
}

impl RMSNorm {
    /// The layer as it is made: ones.
    pub open spec fn is_new(&self, hidden_size: usize, eps: u32, device: Device) -> bool {
        &&& self.eps == eps
        &&& tensor::dims(self.weight) == seq![hidden_size]
        &&& tensor::is_filled(self.weight, tensor::ONE_BITS)
        &&& tensor::is_f32(self.weight)
        &&& tensor::on_cpu(self.weight) == tensor::is_cpu(device)
    }

    pub fn new(hidden_size: usize, eps: u32, device: &Device) -> (layer: Result<Self, LayerError>)
        requires
            hidden_size <= isize::MAX / 8,
        ensures
            layer matches Ok(l) ==> l.is_new(hidden_size, eps, *device),
            tensor::is_cpu(*device) ==> layer is Ok,
            layer matches Err(error) ==> error is Tensor,
    {
        match tensor::one_vector(hidden_size, device) {
            Ok(weight) => Ok(RMSNorm { weight, eps }),
            Err(error) => Err(LayerError::Tensor(error)),
        }
    }

    pub fn weight_loader(&mut self, loaded_weight: Tensor)
        ensures
            *final(self) == (RMSNorm { weight: loaded_weight, ..*old(self) }),
    {
        self.weight = loaded_weight;
    }
}

} // verus!
