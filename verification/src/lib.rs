//! Game-state engine for a memory-matching (concentration) game.
//!
//! The crate owns the board of cards, applies the selection rules, detects
//! completed groups, and emits declarative requests for the delayed hiding of
//! mismatched cards.  The host is expected to run the event loop, schedule the
//! delayed actions, and read board snapshots for rendering; none of that lives
//! here.

pub mod board;
pub mod game;
pub mod shuffle;
