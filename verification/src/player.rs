//! A player identity together with the reward multiplier the player bets
//! with.

use vstd::prelude::*;

verus! {

#[derive(Eq, PartialEq, Clone, Debug, Hash)]
pub struct Player {
    pub name: String,
    pub multiplier: u64, // x3, x5, ...
}

impl Player {
    /// Builds a player; a missing multiplier defaults to 1.
    pub fn create(name: String, multiplier: Option<u64>) -> (r: Self)
        ensures
            r.name == name,
            r.multiplier == (match multiplier {
                Option::Some(m) => m,
                Option::None => 1u64,
            }),
    {
        let m: u64 = match multiplier {
            Option::Some(m) => m,
            Option::None => 1,
        };
        Player { name, multiplier: m }
    }
}

} // verus!
