//! A vector-like container that stores runs of identical values, each coded by
//! the value and the index at which the run ends.

pub mod run;
mod encoding;
mod edit;
pub mod rle_vec;
pub mod iter;
pub mod laws;

pub use run::Run;
pub use rle_vec::RleVec;
pub use iter::{Iter, Runs};
