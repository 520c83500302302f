//! Exact coefficients for symbolic expressions: machine rationals that promote
//! to arbitrary precision on overflow, finite-field elements, and the packed
//! byte encoding that stores a coefficient inside an expression.
//!
//! * [`number`] holds the coefficient types with normalization, addition,
//!   multiplication, powers and the order; [`number_laws`] states what holds
//!   of them.
//! * [`packed`] defines the byte encoding and writes it; [`reader`] reads it
//!   back, skips it, and states that the two agree.
//! * [`rational`] holds arbitrary-precision rationals as digit strings and
//!   hands their arithmetic to GMP; [`buffer`] hands little-endian integers
//!   to the `bytes` crate.
//! * [`finite_field`] and [`state`] provide the fields that finite-field
//!   coefficients refer to; [`digits`] and [`utils`] hold the number theory
//!   underneath.

pub mod buffer;
pub mod digits;
pub mod finite_field;
pub mod number;
pub mod number_laws;
pub mod packed;
pub mod rational;
pub mod reader;
pub mod state;
pub mod utils;
