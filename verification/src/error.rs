//! The errors of the library.
use crate::strategy::{Activation, Loss};
use vstd::prelude::*;

verus! {

/// Why a byte sequence is not a model in the binary format.
#[derive(Debug, Clone, Copy, PartialEq, Eq, Structural)]
pub enum FormatError {
    /// The input ends before the model does.
    UnexpectedEnd,
    /// The first eight bytes are not the format's magic `"\0MLP_RS\n"`.
    BadMagic,
    /// An activation tag other than 0 to 3.
    BadActivationTag(u8),
    /// A layer whose weight count `neurons * inputs` (or whose size) does not
    /// fit in a `usize`.
    SizeOverflow,
}

/// The errors of building a network and of checking a training set.
#[derive(Debug, Clone, Copy, PartialEq, Eq, Structural)]
pub enum ModelError {
    /// Fewer layer sizes than the minimum: (minimum, received).
    MinLayerSize(usize, usize),
    /// The number of activations is not one less than the number of layer
    /// sizes: (expected, received).
    ActivationLayerMismatch(usize, usize),
    /// The final activation cannot be used with the loss.
    BadCombination(Activation, Loss),
    /// Different numbers of inputs and expected outputs: (inputs, expected).
    InputExpectedMismatch(usize, usize),
}

} // verus!
