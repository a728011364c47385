//! Activation functions, loss functions and execution strategies.
use vstd::prelude::*;

verus! {

/// The activation function of a layer.
///
/// `LReLU` carries its leak factor as the bit pattern of an `f64`
/// (`f64::to_bits`); a factor of `0.0` gives the plain ReLU.
#[derive(Debug, Clone, Copy, PartialEq, Eq, Structural)]
pub enum Activation {
    Sigmoid,
    LReLU(u64),
    Linear,
    SoftMax,
}

/// The loss function that training minimises.
#[derive(Debug, Clone, Copy, PartialEq, Eq, Structural)]
pub enum Loss {
    MeanSquare,
    CrossEntropy,
}

/// How a training run spreads its work.
#[derive(Debug, Clone, Copy, PartialEq, Eq, Structural)]
pub enum ExecutionStrategy {
    Sequential,
    Concurrent { workers: Option<usize> },
}

/// Whether `loss` can be computed on the outputs of a final layer with
/// activation `actv`: cross entropy needs outputs in (0, 1), so only
/// `Sigmoid` and `SoftMax` go with it; mean square goes with every activation.
pub open spec fn spec_loss_supports(loss: Loss, actv: Activation) -> bool {
    match loss {
        Loss::MeanSquare => true,
        Loss::CrossEntropy => actv is Sigmoid || actv is SoftMax,
    }
}

impl Loss {
    /// Whether this loss can be used with a final layer of activation `actv`.
    pub fn supports(&self, actv: &Activation) -> (r: bool)
        ensures
            r == spec_loss_supports(*self, *actv),
            *self is MeanSquare ==> r,
            *self is CrossEntropy ==> (r <==> (*actv is Sigmoid || *actv is SoftMax)),
    {
        match self {
            Loss::MeanSquare => true,
            Loss::CrossEntropy => match actv {
                Activation::Sigmoid | Activation::SoftMax => true,
                _ => false,
            },
        }
    }
}

/// Mean square goes with every final activation; cross entropy exactly with
/// Sigmoid and SoftMax.
pub proof fn law_loss_supports(actv: Activation)
    ensures
        spec_loss_supports(Loss::MeanSquare, actv),
        spec_loss_supports(Loss::CrossEntropy, actv) <==> (actv is Sigmoid || actv is SoftMax),
{
}

} // verus!
