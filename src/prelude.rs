//! The library's public API in one place.

pub use crate::errors::ParseError;
pub use crate::poker::{compare, find_winners, select_winners, to_hand};
pub use crate::types::{Card, Hand, Rank, Suit};
