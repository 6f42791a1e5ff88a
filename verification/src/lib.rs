//! Extraction of blocks of nine decimal digits of pi at arbitrary offsets,
//! by a Plouffe/Bellard-style digit-extraction formula evaluated with
//! fixed-width modular arithmetic, one channel per prime power.

pub mod arith;
pub mod primes;
pub mod extract;
