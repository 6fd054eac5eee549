//! Integer factorization helpers: Montgomery arithmetic over 64-bit limbs,
//! Pollard's rho over that arithmetic and over `dashu-int`'s Montgomery rings,
//! perfect-power detection and the SplitMix64 generator.
pub mod arith;
pub mod convert;
pub mod dashu;
pub mod limbs;
pub mod natural;
pub mod montgomery;
pub mod redc;
pub mod splitmix64;
pub mod walk;
