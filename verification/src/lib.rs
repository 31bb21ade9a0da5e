//! Exact net-present-value projection for a block of life-insurance
//! policies under mortality and lapse decrement assumptions.
//!
//! All arithmetic is performed on exact rational numbers, so every result
//! is a true value of the underlying actuarial formula rather than a
//! floating-point approximation.  Each public function carries two
//! contracts: its value is tied to a mathematical model of rational
//! arithmetic over unbounded integers, and its success is characterized
//! exactly by a spec-level mirror of the checked machine computation, so
//! a result is owed, and pinned to one representation, whenever that
//! mirror succeeds.

pub mod projection;
pub mod rational;

pub use crate::projection::npv;
