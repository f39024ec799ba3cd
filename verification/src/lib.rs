//! An index for exact nearest-neighbor and radius-bounded search over
//! 128-bit binary features under Hamming distance: a hybrid tree of flat
//! leaves and key-routed branches, searched shell by shell with a proved
//! lower-bound pruning estimate.
pub mod bits;
pub mod hwt;
pub mod keymap;
pub mod lanes;

pub use crate::hwt::Hwt;
