//! Poker hand parsing, classification and ranking.

pub mod card;
pub mod text;
pub mod hand;
pub mod classify;
pub mod order;
pub mod winner;
pub mod laws;

pub use card::{Card, Rank, Suit};
pub use hand::Hand;
pub use classify::{Category, KindGroups};
pub use winner::winning_hands;
