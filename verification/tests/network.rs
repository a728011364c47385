use mlp::strategy::Activation;
use mlp::{Layer, ModelError, Network};

fn bits(xs: &[f64]) -> Vec<u64> {
    xs.iter().map(|x| x.to_bits()).collect()
}

#[test]
fn new_builds_chained_layers_with_zero_biases() {
    let actvs = [Activation::LReLU(0.01f64.to_bits()), Activation::Sigmoid];
    let m0 = bits(&[0.1, 0.2, 0.3, 0.4, 0.5, 0.6]);
    let m1 = bits(&[-1.0, 2.0, -3.0]);
    let net = Network::new(&[2, 3, 1], &actvs, vec![m0.clone(), m1.clone()]).unwrap();
    assert_eq!(net.layers.len(), 2);
    assert_eq!(net.layers[0].inputs, 2);
    assert_eq!(net.layers[0].neurons, 3);
    assert_eq!(net.layers[0].activation, actvs[0]);
    assert_eq!(net.layers[0].matrix, m0);
    assert_eq!(net.layers[0].biases, vec![0.0f64.to_bits(); 3]);
    assert_eq!(net.layers[1].inputs, 3);
    assert_eq!(net.layers[1].neurons, 1);
    assert_eq!(net.layers[1].activation, Activation::Sigmoid);
    assert_eq!(net.layers[1].matrix, m1);
    assert_eq!(net.layers[1].biases, vec![0u64]);
}

#[test]
fn new_needs_two_layer_sizes() {
    assert_eq!(
        Network::new(&[4], &[], vec![]),
        Err(ModelError::MinLayerSize(2, 1))
    );
    assert_eq!(
        Network::new(&[], &[Activation::Linear], vec![]),
        Err(ModelError::MinLayerSize(2, 0))
    );
}

#[test]
fn new_needs_one_activation_per_layer() {
    assert_eq!(
        Network::new(&[2, 3, 1], &[Activation::Sigmoid], vec![]),
        Err(ModelError::ActivationLayerMismatch(2, 1))
    );
    assert_eq!(
        Network::new(
            &[2, 1],
            &[Activation::Sigmoid, Activation::Linear, Activation::SoftMax],
            vec![]
        ),
        Err(ModelError::ActivationLayerMismatch(1, 3))
    );
}

#[test]
fn check_shape_reports_the_first_problem() {
    assert_eq!(Network::check_shape(&[1, 1], &[Activation::Linear]), Ok(()));
    assert_eq!(
        Network::check_shape(&[1], &[Activation::Linear, Activation::Linear]),
        Err(ModelError::MinLayerSize(2, 1))
    );
    assert_eq!(
        Network::check_shape(&[1, 2, 3, 4], &[Activation::Linear]),
        Err(ModelError::ActivationLayerMismatch(3, 1))
    );
}

#[test]
fn new_with_empty_layer_sizes_of_zero() {
    let net = Network::new(&[0, 0], &[Activation::SoftMax], vec![vec![]]).unwrap();
    assert_eq!(net.layers.len(), 1);
    assert!(net.layers[0].matrix.is_empty());
    assert!(net.layers[0].biases.is_empty());
}

#[test]
fn weight_reads_row_major() {
    let layer = Layer {
        activation: Activation::Linear,
        neurons: 2,
        inputs: 3,
        matrix: vec![10, 11, 12, 20, 21, 22],
        biases: vec![1, 2],
    };
    assert_eq!(layer.weight(0, 0), 10);
    assert_eq!(layer.weight(0, 2), 12);
    assert_eq!(layer.weight(1, 0), 20);
    assert_eq!(layer.weight(1, 2), 22);
    assert_eq!(layer.matrix(), &[10, 11, 12, 20, 21, 22]);
    assert_eq!(layer.biases(), &[1, 2]);
}
