//! The game's settings as given on the command line, and the players they
//! describe.

use vstd::prelude::*;
use crate::player::Player;

verus! {

/// Settings of a game: player names (two required, up to four), initial
/// vitality, objectives per turn, initial speed (ms per tick) and strength.
pub struct Args {
    pub name1: String,
    pub name2: String,
    pub name3: Option<String>,
    pub name4: Option<String>,
    pub vitality: i32,
    pub objectifs: usize,
    pub speed: u64,
    pub strength: i32,
}

/// The name held in an optional field, as a sequence of zero or one name.
pub open spec fn optional_name(name: Option<String>) -> Seq<Seq<char>> {
    match name {
        Some(n) => seq![n@],
        None => Seq::empty(),
    }
}

/// The names of the players, in order: the two required ones, then the
/// third and fourth when given.
pub open spec fn roster(args: Args) -> Seq<Seq<char>> {
    seq![args.name1@, args.name2@] + optional_name(args.name3) + optional_name(args.name4)
}

/// The views of a vector of names.
pub open spec fn names_view(names: Seq<String>) -> Seq<Seq<char>> {
    names.map_values(|n: String| n@)
}

impl Args {
    /// The names of the players taking part. A game has two to four players;
    /// the settings always name that many, so the error (which reports a
    /// wrong number of players) never comes.
    pub fn player_names(&self) -> (names: Result<Vec<String>, String>)
        ensures
            names matches Ok(v) && names_view(v@) == roster(*self),
    {
        let mut names: Vec<String> = Vec::new();
        names.push(self.name1.clone());
        names.push(self.name2.clone());
        match &self.name3 {
            Some(n) => names.push(n.clone()),
            None => {},
        }
        match &self.name4 {
            Some(n) => names.push(n.clone()),
            None => {},
        }
        assert(names_view(names@) =~= roster(*self));
        if names.len() < 2 || names.len() > 4 {
            return Err(String::from_str("Le nombre de joueurs doit être entre 2 et 4."));
        }
        Ok(names)
    }

    /// Fresh players for a new game: one per name, each with the initial
    /// vitality, speed and strength of the settings.
    pub fn new_players(&self, names: &Vec<String>) -> (players: Vec<Player>)
        ensures
            players.len() == names.len(),
            forall|i: int|
                0 <= i < names.len() ==> {
                    &&& (#[trigger] players@[i]).name@ == names@[i]@
                    &&& players@[i].vitality == self.vitality
                    &&& players@[i].speed == self.speed
                    &&& players@[i].strength == self.strength
                },
    {
        let mut players: Vec<Player> = Vec::new();
        let mut k: usize = 0;
        while k < names.len()
            invariant
                k <= names.len(),
                players.len() == k,
                forall|i: int|
                    0 <= i < k ==> {
                        &&& (#[trigger] players@[i]).name@ == names@[i]@
                        &&& players@[i].vitality == self.vitality
                        &&& players@[i].speed == self.speed
                        &&& players@[i].strength == self.strength
                    },
            decreases names.len() - k,
        {
            players.push(Player::new(names[k].clone(), self.vitality, self.speed, self.strength));
            k = k + 1;
        }
        players
    }
}

/// A game always has between two and four players, the first two being the
/// two required names.
pub proof fn law_roster_size(args: Args)
    ensures
        2 <= roster(args).len() <= 4,
        roster(args)[0] == args.name1@,
        roster(args)[1] == args.name2@,
{
}

} // verus!
