//! The activation functions a neuron can apply to its weighted sum.

use vstd::prelude::*;

verus! {

/// Which nonlinearity a network layer asks for when it evaluates a neuron.
/// `Identity` leaves the weighted sum as it is.
#[derive(Debug, Clone, Copy)]
pub enum ActivationFunc {
    Identity,
    Relu,
    Tanh,
    Linear,
    Sigmoid,
    Gelu,
}

} // verus!
