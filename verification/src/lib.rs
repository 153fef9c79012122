//! A revised primal simplex solver over exact rational arithmetic.
//!
//! The solver works on linear programs in standard equality form
//! `A x = b`, `x >= 0`, maximizing `c x`, whose trailing `m` columns form a
//! feasible starting basis.  All pivoting decisions and the incrementally
//! maintained basis inverse are computed over exact rationals, so the
//! invariants that a floating-point implementation can only approximate are
//! proved to hold exactly here.

pub mod matrix;
pub mod rat;
pub mod simplex;

pub use simplex::primal_simplex;
pub use simplex::Matrices;
