//! Commitments to batches of polynomials.

pub mod device_values;
pub mod extension;
pub mod opening_values;
pub mod openings;
pub mod oracle;
pub mod ring;
pub mod values;
