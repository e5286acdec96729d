//! The materializer: turns a team of borrowed players into an owned list.
//!
//! The half player, if there is one, is appended as a copy whose name says
//! which half of the game it plays on this side.

use vstd::prelude::*;
use vstd::string::*;
use crate::partition::Team;
use crate::roster::{views, Player, PlayerView};

verus! {

/// What is appended to the half player's name on the side that has it for the
/// first half (`half == 1`) or for the second.
pub open spec fn half_suffix(half: int) -> Seq<char> {
    if half == 1 {
        " (1st half)"@
    } else {
        " (2nd half)"@
    }
}

/// The half player as listed on one side: renamed, otherwise unchanged.
pub open spec fn half_copy(p: PlayerView, half: int) -> PlayerView {
    PlayerView { name: p.name + half_suffix(half), ..p }
}

/// The owned list of a side: its members in order, then the half player's
/// copy if there is a half player.
pub open spec fn materialized(members: Seq<Player>, half_player: Option<Player>, half: int) -> Seq<
    PlayerView,
> {
    match half_player {
        Some(p) => views(members).push(half_copy(p@, half)),
        None => views(members),
    }
}

impl<'a> Team<'a> {
    /// Independent copies of the team's players, the half player last.
    ///
    /// `half` says which half of the game the half player spends on this
    /// side: 1 or 2.
    pub fn owned(&self, half: usize) -> (r: Vec<Player>)
        requires
            self.half_player is Some ==> half == 1 || half == 2,
        ensures
            views(r@) == materialized(self.members(), self.half(), half as int),
    {
        let ghost members = self.members();
        let mut players: Vec<Player> = Vec::new();
        let mut i: usize = 0;
        while i < self.players.len()
            invariant
                i <= self.players.len(),
                members == self.members(),
                views(players@) == views(members.take(i as int)),
            decreases self.players.len() - i,
        {
            let ghost before = players@;
            players.push(self.players[i].duplicate());
            proof {
                assert(views(players@) =~= views(before).push(members[i as int]@));
                assert(views(members.take(i + 1)) =~= views(members.take(i as int)).push(
                    members[i as int]@,
                ));
            }
            i += 1;
        }
        proof {
            assert(members.take(self.players.len() as int) =~= members);
        }
        match self.half_player {
            Some(p) => {
                let suffix = if half == 1 {
                    " (1st half)"
                } else {
                    " (2nd half)"
                };
                let name = p.name.clone().concat(suffix);
                let ghost before = players@;
                players.push(p.with_name(name));
                proof {
                    assert(views(players@) =~= views(before).push(half_copy(p@, half as int)));
                }
            },
            None => {},
        }
        players
    }
}

/// The two owned lists of a split: side A has the half player for the first
/// half of the game, side B for the second.
pub fn materialize(a: &Team<'_>, b: &Team<'_>) -> (r: (Vec<Player>, Vec<Player>))
    ensures
        views(r.0@) == materialized(a.members(), a.half(), 1),
        views(r.1@) == materialized(b.members(), b.half(), 2),
{
    (a.owned(1), b.owned(2))
}

} // verus!
