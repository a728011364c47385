//! A trainable layer: a weight matrix and a bias per neuron.
use crate::strategy::Activation;
use vstd::prelude::*;

verus! {

/// A fully connected layer of `neurons` neurons, each fed by `inputs` values.
///
/// `matrix` holds the weights row by row (one row of `inputs` weights per
/// neuron) and `biases` one bias per neuron; both hold the bit patterns of
/// `f64` values.
#[derive(Debug, Clone, PartialEq, Eq)]
pub struct Layer {
    pub activation: Activation,
    pub neurons: usize,
    pub inputs: usize,
    pub matrix: Vec<u64>,
    pub biases: Vec<u64>,
}

/// The mathematical model of a layer.
pub struct LayerView {
    pub activation: Activation,
    pub neurons: usize,
    pub inputs: usize,
    pub matrix: Seq<u64>,
    pub biases: Seq<u64>,
}

impl LayerView {
    /// The weights and biases have the sizes that `neurons` and `inputs` give.
    pub open spec fn wf(self) -> bool {
        &&& self.neurons * self.inputs <= usize::MAX
        &&& self.matrix.len() == self.neurons * self.inputs
        &&& self.biases.len() == self.neurons
    }
}

impl View for Layer {
    type V = LayerView;

    open spec fn view(&self) -> LayerView {
        LayerView {
            activation: self.activation,
            neurons: self.neurons,
            inputs: self.inputs,
            matrix: self.matrix@,
            biases: self.biases@,
        }
    }
}

impl Layer {
    /// The weights, row by row.
    pub fn matrix(&self) -> (r: &[u64])
        ensures
            r@ == self.matrix@,
    {
        self.matrix.as_slice()
    }

    /// The biases, one per neuron.
    pub fn biases(&self) -> (r: &[u64])
        ensures
            r@ == self.biases@,
    {
        self.biases.as_slice()
    }

    /// The weight that neuron `neuron` gives to input `input`: the entry at
    /// `neuron * inputs + input` of the row-major matrix.
    pub fn weight(&self, neuron: usize, input: usize) -> (r: u64)
        requires
            neuron * self.inputs + input < self.matrix@.len(),
        ensures
            r == self.matrix@[neuron * self.inputs + input],
    {
        let len = self.matrix.len();
        proof {
            vstd::arithmetic::mul::lemma_mul_nonnegative(neuron as int, self.inputs as int);
            assert(neuron * self.inputs + input < len);
        }
        self.matrix[neuron * self.inputs + input]
    }
}

} // verus!
