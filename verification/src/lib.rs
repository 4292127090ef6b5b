//! Authoritative server core for an Uno-style multiplayer card game.
//!
//! The crate owns all game state and enforces the rules: deck management,
//! turn rotation with direction reversal, card legality, stacked
//! special-effect resolution, win detection, and the per-room coordinator
//! that routes player actions and collects outbound events.

pub mod cards;
pub mod errors;
pub mod game;
pub mod laws;
pub mod lobby;
pub mod packets;
