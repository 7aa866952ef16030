//! Seeded lookup3 hashing of words and bytes, a fixed-size bit vector, and an
//! approximate-membership set built on the two.

pub mod bitset;
pub mod bloom;
pub mod lookup3;
pub mod sample;
