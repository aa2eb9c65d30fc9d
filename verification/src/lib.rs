//! Exact probability distributions of dice expressions.
//!
//! A [`Distribution`] is a table of occurrence counts over a contiguous range
//! of integers; its mathematical content is a [`Table`]. Every operator builds
//! its result by accumulating weighted contributions into an empty table, and
//! every contract states the result as the tally of those contributions.
//!
//! The operators ask of their arguments that the result stays within the
//! ranges of the machine's integers. [`Expression::checked_distribution`]
//! asks nothing: it tests those limits as it goes and gives nothing where
//! they are exceeded. How much memory there is, is not among the limits.

pub mod table;
pub mod tally;
pub mod distribution;
pub mod expression;
pub mod probability;
pub mod combine;
pub mod repeat;
pub mod limits;
pub mod evaluate;
pub mod laws;

pub use combine::{comparison, floor, product, Operation};
pub use distribution::{Distribution, Occurrences};
pub use expression::{ComparisonOp, Error, Expression, Ranker};
pub use limits::{can_combine, can_negate, can_repeat};
pub use probability::Probability;
pub use repeat::repeat;
pub use table::Table;
