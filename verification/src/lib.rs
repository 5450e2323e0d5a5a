//! Cross-entropy search for the knapsack problem with setups.
//!
//! A knapsack instance with setups lists item types, each with a value and a
//! weight per unit and a cost that falls due once the item type is used at all.
//! The search draws selections of item types from a product of Bernoulli
//! distributions, values each selection by the best packing of the item types
//! it leaves, and refits the distributions to the best selections of each batch.

pub mod bernoulli;
pub mod decimal;
pub mod error;
pub mod item;
pub mod knapsack;
pub mod matrix;
pub mod optimizer;
pub mod parse;
pub mod random;
pub mod ranking;
pub mod selection;
pub mod setups;

pub use parse::read_kps_instance;
