//! Classification and ranking of five-card poker hands.

pub mod errors;
pub mod types;
pub mod poker;
pub mod prelude;
