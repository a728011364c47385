# mlp

A feed-forward multi-layer perceptron whose integer side is verified with Verus.

- `src/` (verified): network shapes and construction (`network.rs`, `layer.rs`),
  the binary model format with its round-trip laws (`format.rs`, `bytes.rs`),
  and the training schedule: checking a training set, shuffling the sample
  order, cutting epochs into batches and batches into worker shares
  (`optimizer.rs`). Real numbers are carried as `f64` bit patterns (`u64`).
- `app/` (ordinary Rust): the floating-point work (weight initialisation,
  activations, inference, back-propagation, gradient descent on one thread or
  a thread pool), reading and writing model files, and the XOR example.
