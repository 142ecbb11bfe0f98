//! Game-level identifiers shared by every solver: the two players and the
//! opaque information-set identifier.

use vstd::prelude::*;

verus! {

/// One of the two players in a two-player zero-sum game.
#[derive(Debug, Clone, Copy, PartialEq, Eq, Structural, Hash)]
pub enum Player {
    /// The player we're computing strategy for.
    Hero,
    /// The opponent.
    Villain,
}

/// The other player, as a mathematical function.
pub open spec fn spec_opponent(p: Player) -> Player {
    match p {
        Player::Hero => Player::Villain,
        Player::Villain => Player::Hero,
    }
}

impl Player {
    /// Returns the opposite player.
    pub fn opponent(self) -> (r: Player)
        ensures
            r == spec_opponent(self),
            r != self,
    {
        match self {
            Player::Hero => Player::Villain,
            Player::Villain => Player::Hero,
        }
    }
}

/// Taking the opponent twice gives back the original player.
pub proof fn lemma_opponent_involution(p: Player)
    ensures
        spec_opponent(spec_opponent(p)) == p,
{
}

/// Opaque identifier of an information set: two states share it exactly
/// when the acting player cannot tell them apart.
#[derive(Debug, Clone, Copy, PartialEq, Eq, Structural, Hash)]
pub struct InfoSetId(pub u32);

} // verus!
