//! Verified planning logic for Metal-accelerated Merkle trees and number-theoretic transforms.

pub mod bits;
pub mod flat;
pub mod fri;
pub mod gpu;
pub mod hash;
pub mod launch;
pub mod math;
