//! A feed-forward neural network with sigmoid activations, trained by
//! mini-batch stochastic gradient descent with backpropagation written out
//! by hand.
//!
//! # Numbers
//!
//! The library is generic over the numbers it computes with. A number type
//! implements [`Scalar`], which asks for the few operations that training
//! needs, and a [`Network`] of that type is built, run and trained by the
//! same code whatever the numbers are.
//!
//! # Contracts
//!
//! Every function is verified, and its contract says what it computes as a
//! relation between its arguments and its result: which scalar operations
//! were applied to which operands in which order. `is_sum(a, b, r)` reads
//! "`r` is a value that `a.plus(b)` may return", and the relations for
//! vectors, layers, gradients and whole training runs are built up from
//! such facts. Nothing is assumed of the number type. Where its operations
//! are functions of their operands, every relation holds of one result only;
//! [`determinism`] proves that.
//!
//! # Modules
//!
//! - [`scalar`]: the number type and the relations of its operations.
//! - [`activation`]: the sigmoid and its derivative.
//! - [`linalg`]: vectors and matrices.
//! - [`argmax`]: the place of the largest entry of a vector.
//! - [`sample`]: labelled examples.
//! - [`model`]: the network in mathematical terms, and what a forward pass,
//!   a gradient, an update and an evaluation are.
//! - [`network`]: the network itself.
//! - [`shuffle`]: random order and the split into mini-batches.
//! - [`training`]: epochs of stochastic gradient descent.
//! - [`shape`], [`determinism`]: what holds of every network and every run.

pub mod activation;
pub mod argmax;
pub mod determinism;
pub mod linalg;
pub mod model;
pub mod network;
pub mod sample;
pub mod scalar;
pub mod shape;
pub mod shuffle;
pub mod training;

pub use argmax::ArgmaxError;
pub use network::{Network, NetworkError, NormalSource};
pub use sample::MnistSample;
pub use scalar::Scalar;
pub use training::EpochReport;
