//! A network: a sequence of trainable layers.
use crate::error::ModelError;
use crate::layer::{Layer, LayerView};
use crate::strategy::Activation;
use vstd::prelude::*;

verus! {

/// A feed-forward network. The input layer carries no weights, so a network
/// with layer sizes `[n0, n1, .., nk]` holds the `k` layers that map `n0`
/// inputs to `n1` outputs, `n1` to `n2`, and so on.
#[derive(Debug, Clone, PartialEq, Eq)]
pub struct Network {
    pub layers: Vec<Layer>,
}

impl View for Network {
    type V = Seq<LayerView>;

    open spec fn view(&self) -> Seq<LayerView> {
        self.layers@.map_values(|l: Layer| l@)
    }
}

/// Every layer has weights and biases of the sizes that its shape gives.
pub open spec fn spec_layers_wf(layers: Seq<LayerView>) -> bool {
    forall|i: int| 0 <= i < layers.len() ==> (#[trigger] layers[i]).wf()
}

/// Each layer takes as many inputs as the layer before it has neurons.
pub open spec fn spec_layers_chained(layers: Seq<LayerView>) -> bool {
    forall|i: int| 0 < i < layers.len() ==> (#[trigger] layers[i]).inputs == layers[i - 1].neurons
}

/// The error, if any, that layer sizes `sizes` and `n_actvs` activations
/// give: at least two sizes are needed (input and output), and exactly one
/// activation per layer after the input layer.
pub open spec fn spec_shape_error(sizes: Seq<usize>, n_actvs: nat) -> Option<ModelError> {
    if sizes.len() < 2 {
        Some(ModelError::MinLayerSize(2, sizes.len() as usize))
    } else if n_actvs != sizes.len() - 1 {
        Some(ModelError::ActivationLayerMismatch((sizes.len() - 1) as usize, n_actvs as usize))
    } else {
        None
    }
}

/// The layers of a fresh network: layer `i` maps `sizes[i]` inputs to
/// `sizes[i + 1]` neurons with activation `actvs[i]`, initial weights
/// `matrices[i]` and biases all `0.0` (bit pattern 0).
pub open spec fn spec_initial_layers(
    sizes: Seq<usize>,
    actvs: Seq<Activation>,
    matrices: Seq<Seq<u64>>,
) -> Seq<LayerView> {
    Seq::new(
        (sizes.len() - 1) as nat,
        |i: int|
            LayerView {
                activation: actvs[i],
                neurons: sizes[i + 1],
                inputs: sizes[i],
                matrix: matrices[i],
                biases: Seq::new(sizes[i + 1] as nat, |j: int| 0u64),
            },
    )
}

impl Network {
    /// Checks the layer sizes and activations of a network to be built.
    pub fn check_shape(sizes: &[usize], actvs: &[Activation]) -> (r: Result<(), ModelError>)
        ensures
            r == (match spec_shape_error(sizes@, actvs@.len()) {
                Some(e) => Err(e),
                None => Ok(()),
            }),
            (r is Ok) <==> (sizes@.len() >= 2 && actvs@.len() == sizes@.len() - 1),
            sizes@.len() < 2 ==> r == Err::<(), ModelError>(
                ModelError::MinLayerSize(2, sizes@.len() as usize),
            ),
            sizes@.len() >= 2 && actvs@.len() != sizes@.len() - 1 ==> r == Err::<(), ModelError>(
                ModelError::ActivationLayerMismatch((sizes@.len() - 1) as usize, actvs@.len() as usize),
            ),
    {
        if sizes.len() < 2 {
            return Err(ModelError::MinLayerSize(2, sizes.len()));
        }
        if actvs.len() != sizes.len() - 1 {
            return Err(ModelError::ActivationLayerMismatch(sizes.len() - 1, actvs.len()));
        }
        Ok(())
    }

    /// Builds a network with layer sizes `sizes` and activations `actvs`,
    /// whose layer `i` starts with the weights `matrices[i]` (a row of
    /// `sizes[i]` weights for each of its `sizes[i + 1]` neurons) and zero
    /// biases. The weights are drawn by the caller.
    pub fn new(sizes: &[usize], actvs: &[Activation], matrices: Vec<Vec<u64>>) -> (r: Result<
        Network,
        ModelError,
    >)
        requires
            sizes@.len() >= 2 && actvs@.len() == sizes@.len() - 1 ==> {
                &&& matrices@.len() == sizes@.len() - 1
                &&& forall|i: int|
                    0 <= i < matrices@.len() ==> (#[trigger] matrices@[i])@.len() == sizes@[i]
                        * sizes@[i + 1]
            },
        ensures
            match r {
                Ok(net) => {
                    &&& spec_shape_error(sizes@, actvs@.len()) is None
                    &&& net@ == spec_initial_layers(
                        sizes@,
                        actvs@,
                        matrices@.map_values(|m: Vec<u64>| m@),
                    )
                    &&& spec_layers_wf(net@)
                    &&& spec_layers_chained(net@)
                },
                Err(e) => spec_shape_error(sizes@, actvs@.len()) == Some(e),
            },
            (r is Ok) <==> (sizes@.len() >= 2 && actvs@.len() == sizes@.len() - 1),
            sizes@.len() < 2 ==> r == Err::<Network, ModelError>(
                ModelError::MinLayerSize(2, sizes@.len() as usize),
            ),
            sizes@.len() >= 2 && actvs@.len() != sizes@.len() - 1 ==> r == Err::<Network, ModelError>(
                ModelError::ActivationLayerMismatch((sizes@.len() - 1) as usize, actvs@.len() as usize),
            ),
            r matches Ok(net) ==> {
                &&& net.layers@.len() == sizes@.len() - 1
                &&& forall|k: int|
                    0 <= k < sizes@.len() - 1 ==> {
                        &&& (#[trigger] net.layers@[k]).activation == actvs@[k]
                        &&& net.layers@[k].inputs == sizes@[k]
                        &&& net.layers@[k].neurons == sizes@[k + 1]
                        &&& net.layers@[k].matrix@ == matrices@[k]@
                        &&& net.layers@[k].biases@.len() == sizes@[k + 1]
                        &&& forall|j: int|
                            0 <= j < sizes@[k + 1] ==> #[trigger] net.layers@[k].biases@[j] == 0u64
                    }
            },
    {
        Self::check_shape(sizes, actvs)?;
        let ghost mats = matrices@.map_values(|m: Vec<u64>| m@);
        let ghost target = spec_initial_layers(sizes@, actvs@, mats);
        let n = actvs.len();
        let ghost orig = matrices@;
        let mut matrices = matrices;
        let mut layers: Vec<Layer> = Vec::new();
        let mut i: usize = 0;
        while i < n
            invariant
                n == actvs@.len(),
                n == sizes@.len() - 1,
                orig.len() == n,
                forall|k: int| 0 <= k < n ==> mats[k] == (#[trigger] orig[k])@,
                i <= n,
                matrices@ == orig.subrange(i as int, n as int),
                layers@.len() == i,
                target == spec_initial_layers(sizes@, actvs@, mats),
                mats.len() == n,
                forall|k: int| 0 <= k < n ==> (#[trigger] orig[k])@.len() == sizes@[k] * sizes@[k + 1],
                forall|k: int| 0 <= k < i ==> (#[trigger] layers@[k])@ == target[k],
                forall|k: int| 0 <= k < i ==> (#[trigger] layers@[k])@.wf(),
            decreases n - i,
        {
            let neurons = sizes[i + 1];
            let mut biases: Vec<u64> = Vec::new();
            let mut j: usize = 0;
            while j < neurons
                invariant
                    j <= neurons,
                    biases@ == Seq::new(j as nat, |t: int| 0u64),
                decreases neurons - j,
            {
                biases.push(0);
                j = j + 1;
                assert(biases@ =~= Seq::new(j as nat, |t: int| 0u64));
            }
            let matrix = matrices.remove(0);
            assert(matrix == orig[i as int]);
            let mlen = matrix.len();
            proof {
                vstd::arithmetic::mul::lemma_mul_is_commutative(
                    sizes@[i as int] as int,
                    sizes@[i + 1] as int,
                );
            }
            layers.push(
                Layer { activation: actvs[i], neurons, inputs: sizes[i], matrix, biases },
            );
            i = i + 1;
            assert(matrices@ =~= orig.subrange(i as int, n as int));
        }
        let net = Network { layers };
        assert(net@ =~= target);
        assert forall|k: int| 0 <= k < sizes@.len() - 1 implies (#[trigger] net.layers@[k]).activation
            == actvs@[k] && net.layers@[k].matrix@ == orig[k]@ by {
            assert(net@[k] == net.layers@[k]@);
            assert(mats[k] == orig[k]@);
        }
        assert forall|k: int| 0 <= k < net@.len() implies (#[trigger] net@[k]).wf() by {
            assert(net@[k] == layers@[k]@);
        }
        Ok(net)
    }
}

/// Layer sizes and activations are refused exactly when there are fewer
/// than two sizes (reported with the minimum, two, and the count given), or
/// when the number of activations is not one less than the number of sizes
/// (reported with the expected and the given count of activations).
pub proof fn law_shape_error(sizes: Seq<usize>, n_actvs: nat)
    requires
        sizes.len() <= usize::MAX,
        n_actvs <= usize::MAX,
    ensures
        (spec_shape_error(sizes, n_actvs) is None) <==> (sizes.len() >= 2 && n_actvs + 1
            == sizes.len()),
        sizes.len() < 2 ==> spec_shape_error(sizes, n_actvs) == Some(
            ModelError::MinLayerSize(2, sizes.len() as usize),
        ),
        sizes.len() >= 2 && n_actvs + 1 != sizes.len() ==> spec_shape_error(sizes, n_actvs) == Some(
            ModelError::ActivationLayerMismatch((sizes.len() - 1) as usize, n_actvs as usize),
        ),
{
}

/// Layer `k` of a fresh network maps `sizes[k]` inputs to `sizes[k + 1]`
/// neurons with activation `actvs[k]` and weights `matrices[k]`, and all its
/// `sizes[k + 1]` biases are zero; there is one layer per size after the
/// first.
pub proof fn law_initial_layers(
    sizes: Seq<usize>,
    actvs: Seq<Activation>,
    matrices: Seq<Seq<u64>>,
    k: int,
)
    requires
        sizes.len() >= 2,
        0 <= k < sizes.len() - 1,
    ensures
        spec_initial_layers(sizes, actvs, matrices).len() + 1 == sizes.len(),
        spec_initial_layers(sizes, actvs, matrices)[k].activation == actvs[k],
        spec_initial_layers(sizes, actvs, matrices)[k].inputs == sizes[k],
        spec_initial_layers(sizes, actvs, matrices)[k].neurons == sizes[k + 1],
        spec_initial_layers(sizes, actvs, matrices)[k].matrix == matrices[k],
        spec_initial_layers(sizes, actvs, matrices)[k].biases.len() == sizes[k + 1],
        forall|j: int|
            0 <= j < sizes[k + 1] ==> #[trigger] spec_initial_layers(sizes, actvs, matrices)[k].biases[j]
                == 0u64,
{
}

} // verus!
