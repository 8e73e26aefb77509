//! Classifies a set of playing cards into its best poker hand, and orders
//! the hands found: categories from high card to royal flush, with kickers
//! breaking ties by rank.

pub mod cards;
pub mod ranks;
mod grouping;
pub mod combo;
pub mod laws;
