//! Newton's method with deflation, for all the roots of a polynomial.
//!
//! The library owns the shape of the computation: Horner's scheme, the slope by a
//! second synthetic division, Newton's update, the budget of attempts that each root
//! gets, and the deflation that leads from one root to the next. The arithmetic
//! belongs to the number type, which joins in by implementing [`Scalar`]; its methods
//! promise nothing. Every contract here is stated relative to what the arithmetic
//! returned, and so holds whatever the number type does.
pub mod deflation;
pub mod determinism;
pub mod exact;
pub mod horner;
pub mod laws;
pub mod newton;
pub mod parse;
pub mod scalar;

pub use crate::deflation::{newtons, Error, DEFAULT_ITERATIONS};
pub use crate::horner::{evaluate, slope};
pub use crate::newton::{attempt, find_root, Attempt, Search};
pub use crate::parse::parse_poly;
pub use crate::scalar::Scalar;
