//! Mathematics that the contracts of the library speak of.

pub mod goldilocks;
pub mod primes;
pub mod radix2;
pub mod transform;
