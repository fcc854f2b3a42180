//! Functional aggregate queries evaluated by variable elimination.
//!
//! A query is a product of factors, each a weighted relation over a list of
//! variables. Bound variables are eliminated one at a time: the factors that
//! mention a variable are joined on their shared variables and the variable
//! is summed out under a semiring. What remains is a relation over the free
//! variables.
use vstd::prelude::*;

pub mod engine;
pub mod error;
pub mod factors;
pub mod relation;
pub mod semiring;
pub mod value;

pub use engine::{InsideOut, Query, eliminate, intersection, join, union};
pub use error::QueryError;
pub use factors::Factor;
pub use semiring::{Convert, Semiring};
pub use value::Value;

verus! {

} // verus!
