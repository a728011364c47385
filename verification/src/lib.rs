//! A feed-forward multi-layer perceptron: network shapes, the binary model
//! format, and the bookkeeping of mini-batch training.
//!
//! Weights, biases and every other real number are carried as the IEEE-754
//! bit patterns of `f64` values (`u64`), so that the format and the shape
//! logic can be stated and proved over plain integers.

pub mod bytes;
pub mod error;
pub mod format;
pub mod layer;
pub mod network;
pub mod optimizer;
pub mod strategy;

pub use error::{FormatError, ModelError};
pub use layer::Layer;
pub use network::Network;
pub use optimizer::Optimizer;
