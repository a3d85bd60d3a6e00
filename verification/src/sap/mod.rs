//! Scale-and-perturb encryption: vectors are scaled by a secret number and moved a little, so that
//! their distances can be compared without the key.

pub mod cluster;
pub mod crypto;
pub mod gpu;
pub mod ivf;
pub mod scorer;
