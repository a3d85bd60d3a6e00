//! Encrypted matrix-vector products over a prime field.

pub mod crypto;
pub mod field;
pub mod ivf;
pub mod ivf_cache;
pub mod params;
pub mod scorer;
