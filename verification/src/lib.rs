//! A bit-exact codec between rationals in `(0, 1]` and fixed-width words.
//!
//! A fraction is expanded into its continued-fraction digits, each digit is
//! written as a self-delimiting symbol in one of two sub-codes chosen by a
//! small state machine, and the rest of the word is padded with ones.

pub mod bits;
pub mod bitslice;
pub mod masked_bits;
pub mod bitwise_array;
pub mod utils;
pub mod sbs_utils;
pub mod sbs1;
pub mod sbs2;
pub mod sbs_main;
pub mod rationals;
pub mod bounds;
pub mod roundtrip;
pub mod thresholds;
pub mod nom_mod;
pub mod nom_ext;
