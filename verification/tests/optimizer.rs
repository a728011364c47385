use mlp::strategy::{Activation, ExecutionStrategy, Loss};
use mlp::{Layer, ModelError, Network, Optimizer};

fn net_ending_in(a: Activation) -> Network {
    Network {
        layers: vec![Layer {
            activation: a,
            neurons: 1,
            inputs: 1,
            matrix: vec![0],
            biases: vec![0],
        }],
    }
}

fn opt(loss: Loss, batch: usize) -> Optimizer {
    Optimizer::new(0.01f64.to_bits(), batch, loss, ExecutionStrategy::Sequential)
}

#[test]
fn new_keeps_the_settings() {
    let o = Optimizer::new(
        0.5f64.to_bits(),
        32,
        Loss::CrossEntropy,
        ExecutionStrategy::Concurrent { workers: Some(4) },
    );
    assert_eq!(f64::from_bits(o.learning_rate), 0.5);
    assert_eq!(o.batch_size, 32);
    assert_eq!(o.loss, Loss::CrossEntropy);
    assert_eq!(o.strategy, ExecutionStrategy::Concurrent { workers: Some(4) });
}

#[test]
fn validate_needs_as_many_expected_outputs_as_inputs() {
    let net = net_ending_in(Activation::Sigmoid);
    assert_eq!(
        opt(Loss::MeanSquare, 2).validate(&net, 4, 3),
        Err(ModelError::InputExpectedMismatch(4, 3))
    );
    // the count check comes first, even with a bad combination
    assert_eq!(
        opt(Loss::CrossEntropy, 2).validate(&net_ending_in(Activation::Linear), 1, 0),
        Err(ModelError::InputExpectedMismatch(1, 0))
    );
}

#[test]
fn cross_entropy_needs_sigmoid_or_softmax() {
    let ce = opt(Loss::CrossEntropy, 2);
    assert_eq!(ce.validate(&net_ending_in(Activation::Sigmoid), 4, 4), Ok(()));
    assert_eq!(ce.validate(&net_ending_in(Activation::SoftMax), 4, 4), Ok(()));
    assert_eq!(
        ce.validate(&net_ending_in(Activation::Linear), 4, 4),
        Err(ModelError::BadCombination(Activation::Linear, Loss::CrossEntropy))
    );
    let lrelu = Activation::LReLU(0.01f64.to_bits());
    assert_eq!(
        ce.validate(&net_ending_in(lrelu), 4, 4),
        Err(ModelError::BadCombination(lrelu, Loss::CrossEntropy))
    );
}

#[test]
fn mean_square_goes_with_every_activation() {
    let ms = opt(Loss::MeanSquare, 2);
    for a in [
        Activation::Sigmoid,
        Activation::LReLU(0),
        Activation::Linear,
        Activation::SoftMax,
    ] {
        assert_eq!(ms.validate(&net_ending_in(a), 2, 2), Ok(()));
        assert!(Loss::MeanSquare.supports(&a));
    }
    assert_eq!(ms.validate(&Network { layers: vec![] }, 2, 2), Ok(()));
    assert!(Loss::CrossEntropy.supports(&Activation::Sigmoid));
    assert!(!Loss::CrossEntropy.supports(&Activation::Linear));
}

#[test]
fn sample_order_counts_up() {
    assert_eq!(Optimizer::sample_order(5), vec![0, 1, 2, 3, 4]);
    assert_eq!(Optimizer::sample_order(0), Vec::<usize>::new());
}

#[test]
fn batches_tile_the_epoch() {
    assert_eq!(
        opt(Loss::MeanSquare, 3).batches(10),
        vec![(0, 3), (3, 6), (6, 9), (9, 10)]
    );
    assert_eq!(opt(Loss::MeanSquare, 3).batches(6), vec![(0, 3), (3, 6)]);
    assert_eq!(opt(Loss::MeanSquare, 3).batches(0), vec![]);
    assert_eq!(opt(Loss::MeanSquare, 64).batches(5), vec![(0, 5)]);
    assert_eq!(opt(Loss::MeanSquare, 1).batches(3), vec![(0, 1), (1, 2), (2, 3)]);
}

#[test]
fn worker_ranges_split_evenly() {
    assert_eq!(
        Optimizer::worker_ranges(0, 10, 4),
        vec![(0, 3), (3, 6), (6, 8), (8, 10)]
    );
    assert_eq!(Optimizer::worker_ranges(5, 2, 4), vec![(5, 6), (6, 7)]);
    assert_eq!(Optimizer::worker_ranges(7, 0, 3), vec![]);
    assert_eq!(Optimizer::worker_ranges(32, 32, 1), vec![(32, 64)]);
    assert_eq!(
        Optimizer::worker_ranges(64, 8, 4),
        vec![(64, 66), (66, 68), (68, 70), (70, 72)]
    );
}

#[test]
fn worker_ranges_of_each_batch_tile_the_epoch() {
    let o = opt(Loss::MeanSquare, 7);
    let mut next = 0;
    for (s, e) in o.batches(50) {
        for (ws, we) in Optimizer::worker_ranges(s, e - s, 3) {
            assert_eq!(ws, next);
            assert!(we > ws);
            next = we;
        }
        assert_eq!(next, e);
    }
    assert_eq!(next, 50);
}

#[test]
fn plan_epoch_shuffles_into_a_permutation() {
    let o = opt(Loss::MeanSquare, 100);
    let mut order = Optimizer::sample_order(1000);
    let mut rng = rand::rng();
    let batches = o.plan_epoch(&mut order, &mut rng);
    assert_eq!(batches.len(), 10);
    assert_eq!(batches[9], (900, 1000));
    let mut sorted = order.clone();
    sorted.sort();
    assert_eq!(sorted, Optimizer::sample_order(1000));
    // a shuffle of a thousand samples that leaves them all in place is
    // vanishingly unlikely
    assert_ne!(order, Optimizer::sample_order(1000));
}
