//! Players and their characteristics, which poisons wear down between
//! rounds.

use vstd::prelude::*;

verus! {

/// A player: name, vitality, counter speed (milliseconds per tick, lower is
/// faster and harder) and strength bonus added to each objective's score.
/// The game ends for a player once `vitality <= 0`.
#[derive(Debug, Clone)]
pub struct Player {
    pub name: String,
    pub vitality: i32,
    pub speed: u64,
    pub strength: i32,
}

impl Player {
    /// Creates a player with the given characteristics.
    pub fn new(name: String, vitality: i32, speed: u64, strength: i32) -> (player: Self)
        ensures
            player.name@ == name@,
            player.vitality == vitality,
            player.speed == speed,
            player.strength == strength,
    {
        Player { name, vitality, speed, strength }
    }
}

} // verus!
