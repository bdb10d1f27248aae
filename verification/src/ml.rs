//! The shape of a value network, as its configuration file describes it.
use vstd::prelude::*;

verus! {

/// Which game a network plays and how large it is.
pub struct ModelConfig {
    pub game: String,
    pub layers: usize,
    pub hidden_dim: i64,
}

} // verus!
