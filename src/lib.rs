//! A flashcard trainer: sets of term/definition pairs, a store that tracks
//! per-term mastery for a learning pass, and the session engine that drives
//! the drill until every term of a set is mastered.

pub mod text;
pub mod direction;
pub mod grading;
pub mod store;
pub mod import;
pub mod session;
pub mod menu;
