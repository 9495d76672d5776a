//! A poker hand evaluator: cards, hands, and a scoring engine that maps a
//! 5-to-7-card hand to a single comparable 32-bit strength score.

pub mod card;
pub mod deck;
pub mod evaluator;
pub mod hand;
pub mod tally;
