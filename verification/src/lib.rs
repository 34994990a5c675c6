//! A betting ledger for a motorsport race: players place wagers on race
//! events, admission rules keep each player's wagers consistent, and once
//! real outcomes are registered the table computes per-player rewards.

pub mod bets;
pub mod errors;
pub mod player;
pub mod race;
pub mod teams;
