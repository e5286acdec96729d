//! What holds of every split and of every accepted result, proved from the
//! definitions the contracts use.

use vstd::prelude::*;
use crate::materialize::{half_copy, materialized};
use crate::partition::{
    half_of, is_arrangement, lemma_split_covers, lemma_split_disjoint, lemma_split_pins,
    lemma_split_sizes, picks, pins_of, split_of, splittable, teams_follow, Team,
};
use crate::roster::{carries_tag, rating_sum, tag_count, views, Player, PlayerView, PositionMinimum};
use crate::search::{
    balanced, fair_result, listed, names_differ, order_accepted, pin_exclusive, pin_kept,
    pins_kept, quorum_met, quorum_out_of_reach, result_of, side_rating,
};

verus! {

/// Appending a player adds its rating to the sum.
pub proof fn lemma_rating_sum_push(s: Seq<PlayerView>, p: PlayerView)
    ensures
        rating_sum(s.push(p)) == rating_sum(s) + p.rating,
{
    assert(s.push(p).drop_last() =~= s);
}

/// The count of a tag over a concatenation is the sum of the counts.
pub proof fn lemma_tag_count_concat(a: Seq<PlayerView>, b: Seq<PlayerView>, tag: Seq<char>)
    ensures
        tag_count(a + b, tag) == tag_count(a, tag) + tag_count(b, tag),
    decreases b.len(),
{
    if b.len() == 0 {
        assert(a + b =~= a);
    } else {
        lemma_tag_count_concat(a, b.drop_last(), tag);
        assert((a + b).drop_last() =~= a + b.drop_last());
    }
}

/// Taking one player out lowers the count of a tag by one if the player
/// carries it, and not at all otherwise.
pub proof fn lemma_tag_count_remove(s: Seq<PlayerView>, at: int, tag: Seq<char>)
    requires
        0 <= at < s.len(),
    ensures
        tag_count(s, tag) == tag_count(s.remove(at), tag) + if carries_tag(s[at], tag) {
            1nat
        } else {
            0nat
        },
    decreases s.len(),
{
    if at == s.len() - 1 {
        assert(s.remove(at) =~= s.drop_last());
    } else {
        lemma_tag_count_remove(s.drop_last(), at, tag);
        assert(s.remove(at).drop_last() =~= s.drop_last().remove(at));
        assert(s.remove(at).last() == s.last());
    }
}

/// Players picked from a roster, none of them twice, carry a tag no more
/// often than the whole roster does.
pub proof fn lemma_picks_count(roster: Seq<Player>, members: Seq<usize>, tag: Seq<char>)
    requires
        members.no_duplicates(),
        forall|k: int| 0 <= k < members.len() ==> (#[trigger] members[k]) < roster.len(),
    ensures
        tag_count(views(picks(roster, members)), tag) <= tag_count(views(roster), tag),
    decreases roster.len(),
{
    if roster.len() == 0 {
        if members.len() > 0 {
            assert(members[0] < roster.len());
        }
        assert(views(picks(roster, members)) =~= views(roster));
    } else {
        let front = roster.drop_last();
        let last = roster.len() - 1;
        assert(views(roster).drop_last() =~= views(front));
        if exists|k: int| 0 <= k < members.len() && members[k] == last {
            let at = choose|k: int| 0 <= k < members.len() && members[k] == last;
            let rest = members.remove(at);
            assert forall|k: int| 0 <= k < rest.len() implies (#[trigger] rest[k]) < front.len() by {
                if k < at {
                    assert(rest[k] == members[k]);
                } else {
                    assert(rest[k] == members[k + 1]);
                }
            }
            assert forall|i: int, j: int| 0 <= i < j < rest.len() implies rest[i] != rest[j] by {
                let i2 = if i < at { i } else { i + 1 };
                let j2 = if j < at { j } else { j + 1 };
                assert(rest[i] == members[i2] && rest[j] == members[j2]);
            }
            lemma_picks_count(front, rest, tag);
            assert(picks(roster, rest) =~= picks(front, rest));
            assert(views(picks(roster, members)).remove(at) =~= views(picks(roster, rest)));
            lemma_tag_count_remove(views(picks(roster, members)), at, tag);
            assert(views(picks(roster, members))[at] == roster.last()@);
        } else {
            assert forall|k: int| 0 <= k < members.len() implies (#[trigger] members[k])
                < front.len() by {
                assert(members[k] != last);
            }
            lemma_picks_count(front, members, tag);
            assert(picks(roster, members) =~= picks(front, members));
        }
    }
}

/// The two sides of a split together carry a tag no more often than the
/// roster.
pub proof fn lemma_sides_count(roster: Seq<Player>, order: Seq<usize>, tag: Seq<char>)
    requires
        roster.len() <= usize::MAX,
        splittable(pins_of(roster)),
        is_arrangement(pins_of(roster), order),
    ensures
        tag_count(views(picks(roster, split_of(pins_of(roster), order).side_a)), tag) + tag_count(
            views(picks(roster, split_of(pins_of(roster), order).side_b)),
            tag,
        ) <= tag_count(views(roster), tag),
{
    let pins = pins_of(roster);
    let split = split_of(pins, order);
    let both = split.side_a + split.side_b;
    lemma_split_disjoint(pins, order);
    lemma_split_pins(pins, order);
    assert forall|k: int| 0 <= k < both.len() implies (#[trigger] both[k]) < roster.len() by {
        if k < split.side_a.len() {
            assert(both[k] == split.side_a[k]);
        } else {
            assert(both[k] == split.side_b[k - split.side_a.len()]);
        }
    }
    lemma_picks_count(roster, both, tag);
    assert(views(picks(roster, both)) =~= views(picks(roster, split.side_a)) + views(
        picks(roster, split.side_b),
    ));
    lemma_tag_count_concat(
        views(picks(roster, split.side_a)),
        views(picks(roster, split.side_b)),
        tag,
    );
}

/// A minimum that the roster cannot meet on both sides at once rules out
/// every split: no arrangement is accepted.
pub proof fn lemma_quorum_out_of_reach(
    roster: Seq<Player>,
    order: Seq<usize>,
    max_delta: int,
    minimums: Seq<PositionMinimum>,
)
    requires
        roster.len() <= usize::MAX,
        splittable(pins_of(roster)),
        is_arrangement(pins_of(roster), order),
        quorum_out_of_reach(views(roster), minimums),
    ensures
        !order_accepted(roster, order, max_delta, minimums),
{
    let k = choose|k: int|
        0 <= k < minimums.len() && tag_count(views(roster), (#[trigger] minimums[k]).tag@) < 2
            * minimums[k].count;
    lemma_sides_count(roster, order, minimums[k].tag@);
}

/// The shape of a result: both lists hold half of the roster as members, in
/// the order of the split, and an odd roster adds to each the same half
/// player, renamed for its half.
pub proof fn lemma_result_shape(roster: Seq<Player>, order: Seq<usize>)
    requires
        roster.len() <= usize::MAX,
        splittable(pins_of(roster)),
        is_arrangement(pins_of(roster), order),
    ensures
        result_of(roster, order).0.len() == roster.len() / 2 + roster.len() % 2,
        result_of(roster, order).1.len() == roster.len() / 2 + roster.len() % 2,
        result_of(roster, order).0.take(roster.len() as int / 2) == views(
            picks(roster, split_of(pins_of(roster), order).side_a),
        ),
        result_of(roster, order).1.take(roster.len() as int / 2) == views(
            picks(roster, split_of(pins_of(roster), order).side_b),
        ),
        roster.len() % 2 == 1 ==> {
            let h = split_of(pins_of(roster), order).half->0;
            &&& h < roster.len()
            &&& result_of(roster, order).0.last() == half_copy(roster[h as int]@, 1)
            &&& result_of(roster, order).1.last() == half_copy(roster[h as int]@, 2)
        },
{
    let pins = pins_of(roster);
    let split = split_of(pins, order);
    lemma_split_sizes(pins, order);
    lemma_split_pins(pins, order);
    let a = views(picks(roster, split.side_a));
    let b = views(picks(roster, split.side_b));
    assert(result_of(roster, order).0.take(roster.len() as int / 2) =~= a);
    assert(result_of(roster, order).1.take(roster.len() as int / 2) =~= b);
}

/// The rating sums of an accepted result's two lists, the half player
/// counted in each, differ by less than the threshold.
pub proof fn lemma_result_balanced(
    roster: Seq<Player>,
    order: Seq<usize>,
    max_delta: int,
    minimums: Seq<PositionMinimum>,
)
    requires
        order_accepted(roster, order, max_delta, minimums),
    ensures
        balanced(
            rating_sum(result_of(roster, order).0),
            rating_sum(result_of(roster, order).1),
            max_delta,
        ),
{
    let split = split_of(pins_of(roster), order);
    let half = half_of(roster, split.half);
    let a = picks(roster, split.side_a);
    let b = picks(roster, split.side_b);
    match half {
        Some(p) => {
            lemma_rating_sum_push(views(a), half_copy(p@, 1));
            lemma_rating_sum_push(views(b), half_copy(p@, 2));
        },
        None => {},
    }
    assert(rating_sum(result_of(roster, order).0) == side_rating(a, half));
    assert(rating_sum(result_of(roster, order).1) == side_rating(b, half));
}

/// In an accepted result the members of each list, the half player left
/// out, meet every minimum.
pub proof fn lemma_result_quorum(
    roster: Seq<Player>,
    order: Seq<usize>,
    max_delta: int,
    minimums: Seq<PositionMinimum>,
)
    requires
        roster.len() <= usize::MAX,
        splittable(pins_of(roster)),
        is_arrangement(pins_of(roster), order),
        order_accepted(roster, order, max_delta, minimums),
    ensures
        quorum_met(result_of(roster, order).0.take(roster.len() as int / 2), minimums),
        quorum_met(result_of(roster, order).1.take(roster.len() as int / 2), minimums),
{
    lemma_result_shape(roster, order);
}

/// A player pinned to a side is among the members of that side's list, and
/// its roster position is used nowhere else: not on the other side, not as
/// the half player.
pub proof fn lemma_result_pins(roster: Seq<Player>, order: Seq<usize>, at: int)
    requires
        roster.len() <= usize::MAX,
        splittable(pins_of(roster)),
        is_arrangement(pins_of(roster), order),
        0 <= at < roster.len(),
        roster[at].fixed_team is Some,
    ensures
        roster[at].fixed_team == Some(true) ==> {
            &&& split_of(pins_of(roster), order).side_a.contains(at as usize)
            &&& !split_of(pins_of(roster), order).side_b.contains(at as usize)
            &&& exists|j: int|
                0 <= j < roster.len() / 2 && #[trigger] result_of(roster, order).0[j]
                    == roster[at]@
        },
        roster[at].fixed_team == Some(false) ==> {
            &&& split_of(pins_of(roster), order).side_b.contains(at as usize)
            &&& !split_of(pins_of(roster), order).side_a.contains(at as usize)
            &&& exists|j: int|
                0 <= j < roster.len() / 2 && #[trigger] result_of(roster, order).1[j]
                    == roster[at]@
        },
        split_of(pins_of(roster), order).half != Some(at as usize),
{
    let pins = pins_of(roster);
    let split = split_of(pins, order);
    lemma_split_sizes(pins, order);
    lemma_split_pins(pins, order);
    lemma_split_covers(pins, order);
    lemma_result_shape(roster, order);
    assert(pins[at] == roster[at].fixed_team);
    let x = at as usize;
    if roster[at].fixed_team == Some(true) {
        assert(split.side_a.contains(x));
        let j = choose|j: int| 0 <= j < split.side_a.len() && split.side_a[j] == x;
        assert(result_of(roster, order).0.take(roster.len() as int / 2)[j] == roster[at]@);
        assert(result_of(roster, order).0[j] == roster[at]@);
        if split.side_b.contains(x) {
            let k = choose|k: int| 0 <= k < split.side_b.len() && split.side_b[k] == x;
            assert(pins[split.side_b[k] as int] != Some(true));
        }
    } else {
        assert(roster[at].fixed_team->0 == false);
        assert(pins[at] == Some(false));
        assert(split.side_b.contains(x));
        let j = choose|j: int| 0 <= j < split.side_b.len() && split.side_b[j] == x;
        assert(result_of(roster, order).1.take(roster.len() as int / 2)[j] == roster[at]@);
        assert(result_of(roster, order).1[j] == roster[at]@);
        if split.side_a.contains(x) {
            let k = choose|k: int| 0 <= k < split.side_a.len() && split.side_a[k] == x;
            assert(pins[split.side_a[k] as int] != Some(false));
        }
    }
}

/// Where no two players of the roster share a name, the name of a player
/// pinned to one side is the name of no member of the other side's list.
pub proof fn lemma_result_pin_names(roster: Seq<Player>, order: Seq<usize>, at: int)
    requires
        roster.len() <= usize::MAX,
        splittable(pins_of(roster)),
        is_arrangement(pins_of(roster), order),
        0 <= at < roster.len(),
        roster[at].fixed_team is Some,
        names_differ(roster),
    ensures
        roster[at].fixed_team == Some(true) ==> forall|j: int|
            0 <= j < roster.len() / 2 ==> (#[trigger] result_of(roster, order).1[j]).name
                != roster[at].name@,
        roster[at].fixed_team == Some(false) ==> forall|j: int|
            0 <= j < roster.len() / 2 ==> (#[trigger] result_of(roster, order).0[j]).name
                != roster[at].name@,
{
    let pins = pins_of(roster);
    let split = split_of(pins, order);
    let half = roster.len() as int / 2;
    lemma_split_sizes(pins, order);
    lemma_split_pins(pins, order);
    lemma_result_pins(roster, order, at);
    lemma_result_shape(roster, order);
    if roster[at].fixed_team != Some(true) {
        assert(roster[at].fixed_team->0 == false);
    }
    if roster[at].fixed_team == Some(true) {
        assert forall|j: int| 0 <= j < half implies (#[trigger] result_of(roster, order).1[j]).name
            != roster[at].name@ by {
            let other = split.side_b[j];
            assert(result_of(roster, order).1.take(half)[j] == roster[other as int]@);
            assert(split.side_b.contains(other));
            assert(other != at as usize);
            if other < at {
                assert(roster[other as int].name@ != roster[at].name@);
            } else {
                assert(roster[at].name@ != roster[other as int].name@);
            }
        }
    } else {
        assert forall|j: int| 0 <= j < half implies (#[trigger] result_of(roster, order).0[j]).name
            != roster[at].name@ by {
            let other = split.side_a[j];
            assert(result_of(roster, order).0.take(half)[j] == roster[other as int]@);
            assert(split.side_a.contains(other));
            assert(other != at as usize);
            if other < at {
                assert(roster[other as int].name@ != roster[at].name@);
            } else {
                assert(roster[at].name@ != roster[other as int].name@);
            }
        }
    }
}

/// Every player pinned to a side is among the members of that side's list.
pub proof fn lemma_result_keeps_pins(roster: Seq<Player>, order: Seq<usize>)
    requires
        roster.len() <= usize::MAX,
        splittable(pins_of(roster)),
        is_arrangement(pins_of(roster), order),
    ensures
        pins_kept(roster, result_of(roster, order).0, result_of(roster, order).1),
{
    assert forall|at: int| 0 <= at < roster.len() implies pin_kept(
        roster,
        result_of(roster, order).0,
        result_of(roster, order).1,
        at,
    ) by {
        if roster[at].fixed_team is Some {
            lemma_result_pins(roster, order, at);
            if roster[at].fixed_team == Some(true) {
                let j = choose|j: int|
                    0 <= j < roster.len() / 2 && #[trigger] result_of(roster, order).0[j]
                        == roster[at]@;
                assert(listed(result_of(roster, order).0, roster.len() as int / 2, roster[at]@));
            } else {
                assert(roster[at].fixed_team->0 == false);
                let j = choose|j: int|
                    0 <= j < roster.len() / 2 && #[trigger] result_of(roster, order).1[j]
                        == roster[at]@;
                assert(listed(result_of(roster, order).1, roster.len() as int / 2, roster[at]@));
            }
        }
    }
}

/// Every accepted result is fair.
pub proof fn lemma_accepted_is_fair(
    roster: Seq<Player>,
    order: Seq<usize>,
    max_delta: int,
    minimums: Seq<PositionMinimum>,
)
    requires
        roster.len() <= usize::MAX,
        splittable(pins_of(roster)),
        is_arrangement(pins_of(roster), order),
        order_accepted(roster, order, max_delta, minimums),
    ensures
        fair_result(
            roster,
            max_delta,
            minimums,
            result_of(roster, order).0,
            result_of(roster, order).1,
        ),
{
    let pins = pins_of(roster);
    lemma_result_shape(roster, order);
    lemma_result_balanced(roster, order, max_delta, minimums);
    lemma_result_quorum(roster, order, max_delta, minimums);
    lemma_result_keeps_pins(roster, order);
    if names_differ(roster) {
        assert forall|at: int| 0 <= at < roster.len() implies #[trigger] pin_exclusive(
            roster,
            result_of(roster, order).0,
            result_of(roster, order).1,
            at,
        ) by {
            if roster[at].fixed_team is Some {
                lemma_result_pin_names(roster, order, at);
            }
        }
    }
    if roster.len() % 2 == 1 {
        lemma_split_sizes(pins, order);
        lemma_split_pins(pins, order);
        let h = split_of(pins, order).half->0;
        assert(roster[h as int].fixed_team == pins[h as int]);
    }
}

/// The split is a function of the roster and the arrangement: two pairs of
/// teams that both follow the same arrangement of the same roster have the
/// same members in the same order and the same half player.
pub proof fn lemma_split_determined(
    roster: Seq<Player>,
    order: Seq<usize>,
    a1: Team,
    b1: Team,
    a2: Team,
    b2: Team,
)
    requires
        teams_follow(roster, order, a1, b1),
        teams_follow(roster, order, a2, b2),
    ensures
        a1.members() == a2.members(),
        b1.members() == b2.members(),
        a1.half() == a2.half(),
        b1.half() == b2.half(),
        a1.half() == b1.half(),
{
}

} // verus!
