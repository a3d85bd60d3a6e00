//! Integer mathematics that the contracts of the library rest on.

pub mod congruence;
pub mod layout;
pub mod rearrange;
pub mod sums;
pub mod wrapping;
