//! Exact likelihood that samples drawn without replacement from one finite
//! population stay exclusive, that is, that no two of them share an element.
//!
//! Every count is kept as an integer; a result is handed out as a fraction of
//! outcome counts, and a product that leaves `u64` is reported, never wrapped.

pub mod error;
pub mod model;
pub mod range_lemmas;
pub mod sample_lemmas;
pub mod count_lemmas;
pub mod counting;
pub mod likelihood;
pub mod laws;

pub use counting::{comb, factorial, product_above};
pub use error::LikelihoodError;
pub use likelihood::{
    likelihood_of_an_exclusive_relationship_algebraically_optimized,
    likelihood_of_an_exclusive_relationship_completely_optimized,
    likelihood_of_an_exclusive_relationship_not_optimized, Likelihood,
};
