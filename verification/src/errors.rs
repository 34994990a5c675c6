//! The single error of the ledger: a wager was rejected because it clashes
//! with one the player already holds.

use vstd::prelude::*;
use crate::bets::Bet;

verus! {

/// Returned by `BettingTable::place` when the admission rules reject a
/// wager. Carries the rejected wager as a diagnostic for the caller; the
/// table itself is left unchanged.
#[derive(Clone, Copy, Debug, PartialEq, Eq, Structural)]
pub struct ClashesWithExistingBet {
    pub existing_bet: Bet,
}

} // verus!
