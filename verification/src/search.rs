//! The balance search: the acceptance test for a candidate split and the
//! bounded search for a candidate that passes it.

use vstd::prelude::*;
use crate::error::BalanceError;
use crate::laws::{lemma_accepted_is_fair, lemma_quorum_out_of_reach};
use crate::materialize::{half_copy, materialize, materialized};
use crate::partition::{
    check_pins, half_of, is_arrangement, partition_with_order, picks, pin_error, pins_of,
    random_team, referents, split_of, splittable, teams_follow, Team,
};
use crate::roster::{
    rating_sum, tag_count, views, Constraints, Player, PlayerView, PositionMinimum,
};

verus! {

/// The rating total of one side: its members plus, at full value, the half
/// player.
pub open spec fn side_rating(members: Seq<Player>, half: Option<Player>) -> int {
    rating_sum(views(members)) + match half {
        Some(p) => p.rating as int,
        None => 0,
    }
}

/// The two totals differ by less than `max_delta`.
pub open spec fn balanced(rating_a: int, rating_b: int, max_delta: int) -> bool {
    -max_delta < rating_a - rating_b < max_delta
}

/// The members hold every required number of players per tag.
pub open spec fn quorum_met(members: Seq<PlayerView>, minimums: Seq<PositionMinimum>) -> bool {
    forall|k: int|
        0 <= k < minimums.len() ==> tag_count(members, (#[trigger] minimums[k]).tag@)
            >= minimums[k].count
}

/// The acceptance test: the sides' totals are balanced, with the half player
/// counted on both, and the members of each side, without the half player,
/// meet every minimum.
pub open spec fn acceptable(
    members_a: Seq<Player>,
    half_a: Option<Player>,
    members_b: Seq<Player>,
    half_b: Option<Player>,
    max_delta: int,
    minimums: Seq<PositionMinimum>,
) -> bool {
    &&& balanced(side_rating(members_a, half_a), side_rating(members_b, half_b), max_delta)
    &&& quorum_met(views(members_a), minimums)
    &&& quorum_met(views(members_b), minimums)
}

/// Whether the split that the arrangement `order` gives passes the
/// acceptance test.
pub open spec fn order_accepted(
    roster: Seq<Player>,
    order: Seq<usize>,
    max_delta: int,
    minimums: Seq<PositionMinimum>,
) -> bool {
    let split = split_of(pins_of(roster), order);
    let half = half_of(roster, split.half);
    acceptable(
        picks(roster, split.side_a),
        half,
        picks(roster, split.side_b),
        half,
        max_delta,
        minimums,
    )
}

/// The two owned lists that the arrangement `order` gives: side A with the
/// half player in its first half, side B with the half player in its second.
pub open spec fn result_of(roster: Seq<Player>, order: Seq<usize>) -> (
    Seq<PlayerView>,
    Seq<PlayerView>,
) {
    let split = split_of(pins_of(roster), order);
    let half = half_of(roster, split.half);
    (
        materialized(picks(roster, split.side_a), half, 1),
        materialized(picks(roster, split.side_b), half, 2),
    )
}

/// Every arrangement of the roster is accepted.
pub open spec fn always_accepted(
    roster: Seq<Player>,
    max_delta: int,
    minimums: Seq<PositionMinimum>,
) -> bool {
    forall|order: Seq<usize>|
        is_arrangement(pins_of(roster), order) ==> #[trigger] order_accepted(
            roster,
            order,
            max_delta,
            minimums,
        )
}

/// No arrangement of the roster is accepted.
pub open spec fn never_accepted(
    roster: Seq<Player>,
    max_delta: int,
    minimums: Seq<PositionMinimum>,
) -> bool {
    forall|order: Seq<usize>|
        is_arrangement(pins_of(roster), order) ==> !#[trigger] order_accepted(
            roster,
            order,
            max_delta,
            minimums,
        )
}

/// Some minimum asks of each side more than half of what the whole roster
/// has.
pub open spec fn quorum_out_of_reach(roster: Seq<PlayerView>, minimums: Seq<PositionMinimum>) -> bool {
    exists|k: int|
        0 <= k < minimums.len() && tag_count(roster, (#[trigger] minimums[k]).tag@) < 2
            * minimums[k].count
}

/// `p` is one of the first `members` entries of `list`.
pub open spec fn listed(list: Seq<PlayerView>, members: int, p: PlayerView) -> bool {
    exists|j: int| 0 <= j < members && j < list.len() && #[trigger] list[j] == p
}

/// If the roster entry at `at` is pinned, it is among the members of its
/// side's list.
pub open spec fn pin_kept(
    roster: Seq<Player>,
    side_a: Seq<PlayerView>,
    side_b: Seq<PlayerView>,
    at: int,
) -> bool {
    let members = roster.len() as int / 2;
    &&& roster[at].fixed_team == Some(true) ==> listed(side_a, members, roster[at]@)
    &&& roster[at].fixed_team == Some(false) ==> listed(side_b, members, roster[at]@)
}

/// Every pinned player of the roster is among the members of its side's
/// list.
pub open spec fn pins_kept(roster: Seq<Player>, side_a: Seq<PlayerView>, side_b: Seq<PlayerView>) -> bool {
    forall|at: int| 0 <= at < roster.len() ==> #[trigger] pin_kept(roster, side_a, side_b, at)
}

/// No two players of the roster share a name.
pub open spec fn names_differ(roster: Seq<Player>) -> bool {
    forall|i: int, j: int|
        0 <= i < j < roster.len() ==> (#[trigger] roster[i]).name@ != (#[trigger] roster[j]).name@
}

/// No member of a list bears the name of the roster entry at `at` if that
/// entry is pinned to the other side.
pub open spec fn pin_exclusive(
    roster: Seq<Player>,
    side_a: Seq<PlayerView>,
    side_b: Seq<PlayerView>,
    at: int,
) -> bool {
    let members = roster.len() as int / 2;
    &&& roster[at].fixed_team == Some(true) ==> forall|j: int|
        0 <= j < members && j < side_b.len() ==> (#[trigger] side_b[j]).name != roster[at].name@
    &&& roster[at].fixed_team == Some(false) ==> forall|j: int|
        0 <= j < members && j < side_a.len() ==> (#[trigger] side_a[j]).name != roster[at].name@
}

/// Where no two players of the roster share a name, no member of a list
/// bears the name of a player pinned to the other side.
pub open spec fn pins_exclusive(
    roster: Seq<Player>,
    side_a: Seq<PlayerView>,
    side_b: Seq<PlayerView>,
) -> bool {
    names_differ(roster) ==> forall|at: int|
        0 <= at < roster.len() ==> #[trigger] pin_exclusive(roster, side_a, side_b, at)
}

/// With an odd roster the two lists end with the same unpinned player of the
/// roster, renamed for the first half in `side_a` and for the second in
/// `side_b`.
pub open spec fn half_shared(roster: Seq<Player>, side_a: Seq<PlayerView>, side_b: Seq<PlayerView>) -> bool {
    roster.len() % 2 == 1 ==> exists|h: int|
        {
            &&& 0 <= h < roster.len()
            &&& (#[trigger] roster[h]).fixed_team is None
            &&& side_a.len() > 0 && side_a.last() == half_copy(roster[h]@, 1)
            &&& side_b.len() > 0 && side_b.last() == half_copy(roster[h]@, 2)
        }
}

/// What holds of every accepted result: both lists hold half of the roster
/// as members and, with an odd roster, the shared half player after them;
/// the lists' rating sums differ by less than `max_delta`; the members of
/// each list meet every minimum; every pinned player is a member of its
/// side's list and, where names tell the players apart, of that list only.
pub open spec fn fair_result(
    roster: Seq<Player>,
    max_delta: int,
    minimums: Seq<PositionMinimum>,
    side_a: Seq<PlayerView>,
    side_b: Seq<PlayerView>,
) -> bool {
    let n = roster.len() as int;
    &&& side_a.len() == n / 2 + n % 2
    &&& side_b.len() == n / 2 + n % 2
    &&& half_shared(roster, side_a, side_b)
    &&& balanced(rating_sum(side_a), rating_sum(side_b), max_delta)
    &&& quorum_met(side_a.take(n / 2), minimums)
    &&& quorum_met(side_b.take(n / 2), minimums)
    &&& pins_kept(roster, side_a, side_b)
    &&& pins_exclusive(roster, side_a, side_b)
}

/// The owned lists are those that the arrangement `order` gives.
pub open spec fn is_result_of(
    roster: Seq<Player>,
    order: Seq<usize>,
    side_a: Seq<Player>,
    side_b: Seq<Player>,
) -> bool {
    (views(side_a), views(side_b)) == result_of(roster, order)
}

/// The rating total of a team, the half player included.
pub fn rating(team: &Team<'_>) -> (r: i128)
    ensures
        r == side_rating(team.members(), team.half()),
{
    let ghost members = team.members();
    let mut sum: i128 = 0;
    let mut i: usize = 0;
    while i < team.players.len()
        invariant
            i <= team.players.len(),
            members == team.members(),
            sum == rating_sum(views(members.take(i as int))),
            i32::MIN * i <= sum <= i32::MAX * i,
        decreases team.players.len() - i,
    {
        proof {
            assert(views(members.take(i + 1)).drop_last() =~= views(members.take(i as int)));
        }
        sum = sum + team.players[i].rating as i128;
        i += 1;
    }
    proof {
        assert(members.take(team.players.len() as int) =~= members);
    }
    match team.half_player {
        Some(p) => sum + p.rating as i128,
        None => sum,
    }
}

/// Whether two rating totals differ by less than `max_delta`.
pub fn is_balanced(rating_a: i128, rating_b: i128, max_delta: i64) -> (b: bool)
    ensures
        b == balanced(rating_a as int, rating_b as int, max_delta as int),
{
    match rating_a.checked_sub(rating_b) {
        Some(d) => -(max_delta as i128) < d && d < max_delta as i128,
        None => false,
    }
}

/// The number of players in `team` that carry `tag`.
pub fn count_position(team: &Vec<&Player>, tag: &String) -> (c: usize)
    ensures
        c == tag_count(views(referents(team@)), tag@),
{
    let ghost all = views(referents(team@));
    let mut count: usize = 0;
    let mut i: usize = 0;
    while i < team.len()
        invariant
            i <= team.len(),
            all == views(referents(team@)),
            count == tag_count(all.take(i as int), tag@),
            count <= i,
        decreases team.len() - i,
    {
        proof {
            assert(all.take(i + 1).drop_last() =~= all.take(i as int));
            assert(all.take(i + 1).last() == team@[i as int]@);
        }
        if team[i].has_position(tag) {
            count += 1;
        }
        i += 1;
    }
    proof {
        assert(all.take(team.len() as int) =~= all);
    }
    count
}

/// Whether `team` holds every required number of players per tag.
pub fn min_pos_met(team: &Vec<&Player>, min_positions: &[PositionMinimum]) -> (b: bool)
    ensures
        b == quorum_met(views(referents(team@)), min_positions@),
{
    let mut k: usize = 0;
    while k < min_positions.len()
        invariant
            k <= min_positions.len(),
            forall|j: int|
                0 <= j < k ==> tag_count(
                    views(referents(team@)),
                    (#[trigger] min_positions@[j]).tag@,
                ) >= min_positions@[j].count,
        decreases min_positions.len() - k,
    {
        if count_position(team, &min_positions[k].tag) < min_positions[k].count {
            return false;
        }
        k += 1;
    }
    true
}

/// The acceptance test on a candidate split.
pub fn is_acceptable(a: &Team<'_>, b: &Team<'_>, max_delta: i64, min_positions: &[PositionMinimum]) -> (r: bool)
    ensures
        r == acceptable(
            a.members(),
            a.half(),
            b.members(),
            b.half(),
            max_delta as int,
            min_positions@,
        ),
{
    is_balanced(rating(a), rating(b), max_delta) && min_pos_met(&a.players, min_positions)
        && min_pos_met(&b.players, min_positions)
}

/// The number of candidates that `get_even_teams` tries before it gives up.
pub const MAX_TRIALS: usize = 100_000;

/// The acceptance test on a candidate split and, if it passes, the owned
/// lists: side A has the half player for the first half, side B for the
/// second.
pub fn accept(a: &Team<'_>, b: &Team<'_>, max_delta: i64, min_positions: &[PositionMinimum]) -> (r:
    Option<(Vec<Player>, Vec<Player>)>)
    ensures
        r is Some <==> acceptable(
            a.members(),
            a.half(),
            b.members(),
            b.half(),
            max_delta as int,
            min_positions@,
        ),
        r matches Some(t) ==> {
            &&& views(t.0@) == materialized(a.members(), a.half(), 1)
            &&& views(t.1@) == materialized(b.members(), b.half(), 2)
        },
{
    if is_acceptable(a, b, max_delta, min_positions) {
        Some(materialize(a, b))
    } else {
        None
    }
}

/// One trial with a given arrangement: the split that `order` gives, put to
/// the acceptance test.
///
/// `Ok(Some(..))` holds the owned lists of an accepted split, `Ok(None)` says
/// that the split was not accepted. A roster with too many pins and an `order`
/// that is no arrangement are rejected.
pub fn try_order(
    players: &[Player],
    order: &[usize],
    max_delta: i64,
    min_positions: &[PositionMinimum],
) -> (r: Result<Option<(Vec<Player>, Vec<Player>)>, BalanceError>)
    ensures
        r is Ok <==> splittable(pins_of(players@)) && is_arrangement(pins_of(players@), order@),
        r matches Err(e) ==> e == (if splittable(pins_of(players@)) {
            BalanceError::InvalidOrder
        } else {
            pin_error(pins_of(players@))
        }),
        r matches Ok(found) ==> (found is Some <==> order_accepted(
            players@,
            order@,
            max_delta as int,
            min_positions@,
        )),
        r matches Ok(Some(t)) ==> is_result_of(players@, order@, t.0@, t.1@),
{
    match partition_with_order(players, order) {
        Err(e) => Err(e),
        Ok((a, b)) => Ok(accept(&a, &b, max_delta, min_positions)),
    }
}

/// Searches for a balanced split: up to `max_trials` random candidates are
/// put to the acceptance test, and the first that passes is returned as two
/// owned lists.
///
/// A roster with too many pins is rejected before any trial. Otherwise the
/// search fails only when its budget is used up, and then says so with the
/// number of trials made. Which candidates come up is left to chance; if no
/// arrangement can pass, the search fails, and if every arrangement passes,
/// the first trial succeeds.
pub fn search(players: &[Player], constraints: &Constraints, max_trials: usize) -> (r: Result<
    (Vec<Player>, Vec<Player>),
    BalanceError,
>)
    ensures
        !splittable(pins_of(players@)) ==> r == Err::<(Vec<Player>, Vec<Player>), BalanceError>(
            pin_error(pins_of(players@)),
        ),
        splittable(pins_of(players@)) ==> (r matches Err(e) ==> e
            == BalanceError::ConstraintUnsatisfiable { trials: max_trials }),
        r is Ok ==> exists|order: Seq<usize>|
            {
                &&& is_arrangement(pins_of(players@), order)
                &&& order_accepted(
                    players@,
                    order,
                    constraints.max_rating_delta as int,
                    constraints.min_position_counts@,
                )
                &&& #[trigger] is_result_of(players@, order, r->Ok_0.0@, r->Ok_0.1@)
            },
        splittable(pins_of(players@)) && max_trials > 0 && always_accepted(
            players@,
            constraints.max_rating_delta as int,
            constraints.min_position_counts@,
        ) ==> r is Ok,
        max_trials == 0 || never_accepted(
            players@,
            constraints.max_rating_delta as int,
            constraints.min_position_counts@,
        ) || quorum_out_of_reach(views(players@), constraints.min_position_counts@) ==> r is Err,
        r matches Ok(t) ==> fair_result(
            players@,
            constraints.max_rating_delta as int,
            constraints.min_position_counts@,
            views(t.0@),
            views(t.1@),
        ),
{
    let ghost roster = players@;
    let ghost pins = pins_of(players@);
    let ghost delta = constraints.max_rating_delta as int;
    let ghost minimums = constraints.min_position_counts@;
    match check_pins(players) {
        Err(e) => {
            return Err(e);
        },
        Ok(_) => {},
    }
    let n = players.len();
    let mut trial: usize = 0;
    while trial < max_trials
        invariant
            trial <= max_trials,
            roster == players@,
            roster.len() == n,
            pins == pins_of(roster),
            delta == constraints.max_rating_delta as int,
            minimums == constraints.min_position_counts@,
            splittable(pins),
            trial > 0 ==> !always_accepted(roster, delta, minimums),
        decreases max_trials - trial,
    {
        match random_team(players) {
            Err(e) => {
                return Err(e);
            },
            Ok((a, b)) => {
                let ghost order = choose|order: Seq<usize>|
                    is_arrangement(pins, order) && #[trigger] teams_follow(roster, order, a, b);
                let found = accept(
                    &a,
                    &b,
                    constraints.max_rating_delta,
                    constraints.min_position_counts.as_slice(),
                );
                proof {
                    assert(found is Some <==> order_accepted(roster, order, delta, minimums));
                }
                match found {
                    Some(t) => {
                        let r: Result<(Vec<Player>, Vec<Player>), BalanceError> = Ok(t);
                        proof {
                            assert(is_result_of(roster, order, r->Ok_0.0@, r->Ok_0.1@));
                            lemma_accepted_is_fair(roster, order, delta, minimums);
                            if quorum_out_of_reach(views(roster), minimums) {
                                lemma_quorum_out_of_reach(roster, order, delta, minimums);
                            }
                        }
                        return r;
                    },
                    None => {},
                }
            },
        }
        trial += 1;
    }
    Err(BalanceError::ConstraintUnsatisfiable { trials: max_trials })
}

fn copy_minimums(min_positions: &[PositionMinimum]) -> (r: Vec<PositionMinimum>)
    ensures
        r@ == min_positions@,
{
    let mut out: Vec<PositionMinimum> = Vec::new();
    let mut i: usize = 0;
    while i < min_positions.len()
        invariant
            i <= min_positions.len(),
            out@ == min_positions@.take(i as int),
        decreases min_positions.len() - i,
    {
        out.push(PositionMinimum { tag: min_positions[i].tag.clone(), count: min_positions[i].count });
        proof {
            assert(min_positions@.take(i + 1) =~= min_positions@.take(i as int).push(
                min_positions@[i as int],
            ));
        }
        i += 1;
    }
    proof {
        assert(min_positions@.take(min_positions.len() as int) =~= min_positions@);
    }
    out
}

/// Two balanced teams for the roster, or why there are none: a search with
/// the standard budget of `MAX_TRIALS` candidates.
///
/// `max_delta` is the threshold for the difference of the rating totals, in
/// thousandths of a point; `min_positions` holds the minimums per tag.
pub fn get_even_teams(players: &[Player], max_delta: i64, min_positions: &[PositionMinimum]) -> (r:
    Result<(Vec<Player>, Vec<Player>), BalanceError>)
    ensures
        !splittable(pins_of(players@)) ==> r == Err::<(Vec<Player>, Vec<Player>), BalanceError>(
            pin_error(pins_of(players@)),
        ),
        splittable(pins_of(players@)) ==> (r matches Err(e) ==> e
            == BalanceError::ConstraintUnsatisfiable { trials: MAX_TRIALS }),
        r is Ok ==> exists|order: Seq<usize>|
            {
                &&& is_arrangement(pins_of(players@), order)
                &&& order_accepted(players@, order, max_delta as int, min_positions@)
                &&& #[trigger] is_result_of(players@, order, r->Ok_0.0@, r->Ok_0.1@)
            },
        splittable(pins_of(players@)) && always_accepted(
            players@,
            max_delta as int,
            min_positions@,
        ) ==> r is Ok,
        never_accepted(players@, max_delta as int, min_positions@) || quorum_out_of_reach(
            views(players@),
            min_positions@,
        ) ==> r is Err,
        r matches Ok(t) ==> fair_result(
            players@,
            max_delta as int,
            min_positions@,
            views(t.0@),
            views(t.1@),
        ),
{
    let constraints = Constraints {
        max_rating_delta: max_delta,
        min_position_counts: copy_minimums(min_positions),
    };
    search(players, &constraints, MAX_TRIALS)
}

} // verus!
