//! Core engine of a spaced-repetition flashcard tool: an integer day-count
//! calendar, a deterministic pseudo-random generator, the per-card memory
//! state with its review transitions, cloze-deletion extraction, the card and
//! collection model, and the deck with its review session, reschedulers and
//! reconciliation.

pub mod card;
pub mod date;
pub mod deck;
pub mod fsrs;
pub mod parsing;
pub mod rand;
pub mod state;
pub mod stats;
pub mod text;
