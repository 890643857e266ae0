//! A rules engine for a multi-player card game in the Uno family.
//!
//! The crate models the deck and card taxonomy (`card`) and the turn
//! resolution state machine (`game`): legal-play filtering, rotation with a
//! reversible direction, skip propagation, stacked draw penalties, and deck
//! recycling when the draw pile runs dry.  The engine itself performs no I/O
//! and consumes no randomness of its own: shuffling positions are derived
//! from seeds handed in by the caller, and player decisions arrive as plain
//! `TurnResult` values.

pub mod card;
pub mod game;
