//! Building blocks of cylindrical algebraic decomposition.

pub mod projection;
pub mod resultant;
pub mod tarski;
