pub mod bytes;
pub mod cache;
pub mod emvp;
pub mod float_bits;
pub mod gpu;
pub mod hits;
pub mod ivf;
pub mod math;
pub mod parallel;
pub mod plaintext;
pub mod prng;
pub mod probing;
pub mod sap;
pub mod scoring;
pub mod tiptoe;
