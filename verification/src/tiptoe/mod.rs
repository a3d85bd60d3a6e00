//! Private nearest-neighbour search by linearly homomorphic encryption.

pub mod bfv;
pub mod cluster;
pub mod compress;
pub mod encoding;
pub mod lwe;
pub mod ranking;
pub mod routing;
pub mod scorer;
pub mod seal_compat;
pub mod simplepir;
