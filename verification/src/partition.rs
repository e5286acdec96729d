//! The partitioner: one candidate split of a roster into two sides.
//!
//! Pinned players go to their side first, in roster order. The unpinned
//! players are then drawn from the end of an arrangement (a reordering of
//! their roster positions) until each side holds half of the roster. With an
//! odd roster one unpinned player is left over: the half player, who belongs
//! to neither member list and counts toward both sides' ratings.

use vstd::prelude::*;
use vstd::seq_lib::*;
use vstd::set_lib::*;
use rand::seq::SliceRandom;
use rand::thread_rng;
use crate::error::BalanceError;
use crate::roster::Player;

verus! {

/// The pins of a roster, player by player.
pub open spec fn pins_of(roster: Seq<Player>) -> Seq<Option<bool>> {
    roster.map_values(|p: Player| p.fixed_team)
}

/// The roster positions whose pin is `pin`, ascending.
pub open spec fn indices_pinned(pins: Seq<Option<bool>>, pin: Option<bool>) -> Seq<usize>
    decreases pins.len(),
{
    if pins.len() == 0 {
        Seq::empty()
    } else {
        let rest = indices_pinned(pins.drop_last(), pin);
        if pins.last() == pin {
            rest.push((pins.len() - 1) as usize)
        } else {
            rest
        }
    }
}

/// A split is possible exactly when neither side has more pinned players than
/// half of the roster.
pub open spec fn splittable(pins: Seq<Option<bool>>) -> bool {
    &&& indices_pinned(pins, Some(true)).len() <= pins.len() / 2
    &&& indices_pinned(pins, Some(false)).len() <= pins.len() / 2
}

/// `order` holds the positions of the unpinned players, each once, in any
/// order.
pub open spec fn is_arrangement(pins: Seq<Option<bool>>, order: Seq<usize>) -> bool {
    order.to_multiset() == indices_pinned(pins, None).to_multiset()
}

/// The `count` entries drawn from the end of `order` once `skip` entries have
/// been drawn: the first of them is the last entry not yet drawn.
pub open spec fn drawn(order: Seq<usize>, skip: int, count: int) -> Seq<usize> {
    Seq::new(count as nat, |k: int| order[order.len() - 1 - skip - k])
}

/// A split of the roster positions into two sides and, for an odd roster, the
/// half player.
pub ghost struct Split {
    pub side_a: Seq<usize>,
    pub side_b: Seq<usize>,
    pub half: Option<usize>,
}

/// The split that the arrangement `order` gives.
pub open spec fn split_of(pins: Seq<Option<bool>>, order: Seq<usize>) -> Split {
    let target = pins.len() / 2;
    let fixed_a = indices_pinned(pins, Some(true));
    let fixed_b = indices_pinned(pins, Some(false));
    let need_a = target - fixed_a.len();
    let need_b = target - fixed_b.len();
    Split {
        side_a: fixed_a + drawn(order, 0, need_a),
        side_b: fixed_b + drawn(order, need_a, need_b),
        half: if pins.len() % 2 == 1 {
            Some(order[0])
        } else {
            None
        },
    }
}

/// What `indices_pinned` returns: exactly the positions with that pin, each
/// once, in ascending order.
pub proof fn lemma_indices_pinned(pins: Seq<Option<bool>>, pin: Option<bool>)
    requires
        pins.len() <= usize::MAX,
    ensures
        indices_pinned(pins, pin).len() <= pins.len(),
        forall|k: int|
            0 <= k < indices_pinned(pins, pin).len() ==> {
                &&& (#[trigger] indices_pinned(pins, pin)[k]) < pins.len()
                &&& pins[indices_pinned(pins, pin)[k] as int] == pin
            },
        forall|i: int|
            0 <= i < pins.len() && #[trigger] pins[i] == pin ==> indices_pinned(
                pins,
                pin,
            ).contains(i as usize),
        forall|j: int, k: int|
            0 <= j < k < indices_pinned(pins, pin).len() ==> (#[trigger] indices_pinned(
                pins,
                pin,
            )[j]) < #[trigger] indices_pinned(pins, pin)[k],
        indices_pinned(pins, pin).no_duplicates(),
    decreases pins.len(),
{
    let r = indices_pinned(pins, pin);
    if pins.len() > 0 {
        let front = pins.drop_last();
        let rest = indices_pinned(front, pin);
        lemma_indices_pinned(front, pin);
        let last = (pins.len() - 1) as usize;
        assert forall|i: int| 0 <= i < pins.len() && #[trigger] pins[i] == pin implies r.contains(
            i as usize,
        ) by {
            if i < pins.len() - 1 {
                assert(front[i] == pin);
                let k = choose|k: int| 0 <= k < rest.len() && rest[k] == i as usize;
                assert(r[k] == i as usize);
            } else {
                assert(r[r.len() - 1] == last);
            }
        }
        assert forall|k: int| 0 <= k < r.len() implies (#[trigger] r[k]) < pins.len()
            && pins[r[k] as int] == pin by {
            if k < rest.len() {
                assert(rest[k] < front.len());
                assert(front[rest[k] as int] == pin);
            }
        }
    }
}

/// Every roster position has exactly one of the three pins.
pub proof fn lemma_pins_cover(pins: Seq<Option<bool>>)
    ensures
        indices_pinned(pins, Some(true)).len() + indices_pinned(pins, Some(false)).len()
            + indices_pinned(pins, None).len() == pins.len(),
    decreases pins.len(),
{
    if pins.len() > 0 {
        lemma_pins_cover(pins.drop_last());
        let front = pins.drop_last();
        let a = indices_pinned(front, Some(true)).len();
        let b = indices_pinned(front, Some(false)).len();
        let f = indices_pinned(front, None).len();
        match pins.last() {
            Some(true) => {
                assert(indices_pinned(pins, Some(true)).len() == a + 1);
                assert(indices_pinned(pins, Some(false)).len() == b);
                assert(indices_pinned(pins, None).len() == f);
            },
            Some(false) => {
                assert(indices_pinned(pins, Some(true)).len() == a);
                assert(indices_pinned(pins, Some(false)).len() == b + 1);
                assert(indices_pinned(pins, None).len() == f);
            },
            None => {
                assert(indices_pinned(pins, Some(true)).len() == a);
                assert(indices_pinned(pins, Some(false)).len() == b);
                assert(indices_pinned(pins, None).len() == f + 1);
            },
        }
    }
}

/// An arrangement names unpinned roster positions only, each exactly once.
pub proof fn lemma_arrangement(pins: Seq<Option<bool>>, order: Seq<usize>)
    requires
        pins.len() <= usize::MAX,
        is_arrangement(pins, order),
    ensures
        order.len() == indices_pinned(pins, None).len(),
        order.no_duplicates(),
        forall|k: int|
            0 <= k < order.len() ==> (#[trigger] order[k]) < pins.len() && pins[order[k] as int]
                is None,
{
    broadcast use group_to_multiset_ensures;

    let free = indices_pinned(pins, None);
    lemma_indices_pinned(pins, None);
    to_multiset_len(order);
    to_multiset_len(free);
    free.lemma_multiset_has_no_duplicates();
    order.lemma_multiset_has_no_duplicates_conv();
    assert forall|k: int| 0 <= k < order.len() implies (#[trigger] order[k]) < pins.len()
        && pins[order[k] as int] is None by {
        assert(order.contains(order[k]));
        assert(order.to_multiset().count(order[k]) > 0);
        assert(free.contains(order[k]));
        let j = choose|j: int| 0 <= j < free.len() && free[j] == order[k];
        assert(free[j] < pins.len());
    }
}

/// The sizes of a split: each side holds half of the roster, the draws use up
/// the arrangement but for the half player, and there is a half player exactly
/// when the roster is odd.
pub proof fn lemma_split_sizes(pins: Seq<Option<bool>>, order: Seq<usize>)
    requires
        pins.len() <= usize::MAX,
        splittable(pins),
        is_arrangement(pins, order),
    ensures
        split_of(pins, order).side_a.len() == pins.len() / 2,
        split_of(pins, order).side_b.len() == pins.len() / 2,
        split_of(pins, order).half is Some <==> pins.len() % 2 == 1,
        order.len() == (pins.len() / 2 - indices_pinned(pins, Some(true)).len()) + (pins.len() / 2
            - indices_pinned(pins, Some(false)).len()) + pins.len() % 2,
{
    lemma_arrangement(pins, order);
    lemma_pins_cover(pins);
}

/// Where the members of a split come from: every position named lies in the
/// roster; side A holds no player pinned to B, side B none pinned to A, and
/// the half player is unpinned.
pub proof fn lemma_split_pins(pins: Seq<Option<bool>>, order: Seq<usize>)
    requires
        pins.len() <= usize::MAX,
        splittable(pins),
        is_arrangement(pins, order),
    ensures
        forall|j: int|
            0 <= j < split_of(pins, order).side_a.len() ==> {
                &&& (#[trigger] split_of(pins, order).side_a[j]) < pins.len()
                &&& pins[split_of(pins, order).side_a[j] as int] != Some(false)
            },
        forall|j: int|
            0 <= j < split_of(pins, order).side_b.len() ==> {
                &&& (#[trigger] split_of(pins, order).side_b[j]) < pins.len()
                &&& pins[split_of(pins, order).side_b[j] as int] != Some(true)
            },
        split_of(pins, order).half matches Some(h) ==> h < pins.len() && pins[h as int] is None,
{
    let split = split_of(pins, order);
    let fixed_a = indices_pinned(pins, Some(true));
    let fixed_b = indices_pinned(pins, Some(false));
    lemma_split_sizes(pins, order);
    lemma_arrangement(pins, order);
    lemma_indices_pinned(pins, Some(true));
    lemma_indices_pinned(pins, Some(false));
    assert forall|j: int| 0 <= j < split.side_a.len() implies (#[trigger] split.side_a[j])
        < pins.len() && pins[split.side_a[j] as int] != Some(false) by {
        if j < fixed_a.len() {
            assert(split.side_a[j] == fixed_a[j]);
        } else {
            assert(split.side_a[j] == order[order.len() - 1 - (j - fixed_a.len())]);
        }
    }
    assert forall|j: int| 0 <= j < split.side_b.len() implies (#[trigger] split.side_b[j])
        < pins.len() && pins[split.side_b[j] as int] != Some(true) by {
        if j < fixed_b.len() {
            assert(split.side_b[j] == fixed_b[j]);
        } else {
            let need_a = pins.len() / 2 - fixed_a.len();
            assert(split.side_b[j] == order[order.len() - 1 - need_a - (j - fixed_b.len())]);
        }
    }
}

/// No roster position is used twice: not within a side, not on both sides,
/// and the half player is on neither.
pub proof fn lemma_split_disjoint(pins: Seq<Option<bool>>, order: Seq<usize>)
    requires
        pins.len() <= usize::MAX,
        splittable(pins),
        is_arrangement(pins, order),
    ensures
        split_of(pins, order).side_a.no_duplicates(),
        split_of(pins, order).side_b.no_duplicates(),
        (split_of(pins, order).side_a + split_of(pins, order).side_b).no_duplicates(),
        split_of(pins, order).half matches Some(h) ==> !split_of(pins, order).side_a.contains(h)
            && !split_of(pins, order).side_b.contains(h),
{
    let split = split_of(pins, order);
    let fixed_a = indices_pinned(pins, Some(true));
    let fixed_b = indices_pinned(pins, Some(false));
    let need_a = pins.len() / 2 - fixed_a.len();
    let need_b = pins.len() / 2 - fixed_b.len();
    let len = order.len() as int;
    lemma_split_sizes(pins, order);
    lemma_arrangement(pins, order);
    lemma_indices_pinned(pins, Some(true));
    lemma_indices_pinned(pins, Some(false));
    // Each member is either a pinned position or an entry of `order`; the
    // entries of `order` are unpinned and pairwise distinct.
    assert forall|j: int| 0 <= j < split.side_a.len() implies if j < fixed_a.len() {
        (#[trigger] split.side_a[j]) == fixed_a[j]
    } else {
        split.side_a[j] == order[len - 1 - (j - fixed_a.len())]
    } by {}
    assert forall|j: int| 0 <= j < split.side_b.len() implies if j < fixed_b.len() {
        (#[trigger] split.side_b[j]) == fixed_b[j]
    } else {
        split.side_b[j] == order[len - 1 - need_a - (j - fixed_b.len())]
    } by {}
    assert forall|i: int, j: int| 0 <= i < j < split.side_a.len() implies split.side_a[i]
        != split.side_a[j] by {
        if j >= fixed_a.len() && i < fixed_a.len() {
            assert(pins[fixed_a[i] as int] == Some(true));
            assert(pins[order[len - 1 - (j - fixed_a.len())] as int] is None);
        }
    }
    assert forall|i: int, j: int| 0 <= i < j < split.side_b.len() implies split.side_b[i]
        != split.side_b[j] by {
        if j >= fixed_b.len() && i < fixed_b.len() {
            assert(pins[fixed_b[i] as int] == Some(false));
            assert(pins[order[len - 1 - need_a - (j - fixed_b.len())] as int] is None);
        }
    }
    assert forall|i: int, j: int|
        0 <= i < split.side_a.len() && 0 <= j < split.side_b.len() implies split.side_a[i]
        != split.side_b[j] by {
        if i < fixed_a.len() {
            assert(pins[split.side_a[i] as int] == Some(true));
            if j < fixed_b.len() {
                assert(pins[split.side_b[j] as int] == Some(false));
            } else {
                assert(pins[order[len - 1 - need_a - (j - fixed_b.len())] as int] is None);
            }
        } else {
            assert(pins[order[len - 1 - (i - fixed_a.len())] as int] is None);
            if j < fixed_b.len() {
                assert(pins[split.side_b[j] as int] == Some(false));
            }
        }
    }
    let both = split.side_a + split.side_b;
    assert forall|i: int, j: int| 0 <= i < j < both.len() implies both[i] != both[j] by {
        if j < split.side_a.len() {
            assert(both[i] == split.side_a[i] && both[j] == split.side_a[j]);
        } else if i >= split.side_a.len() {
            assert(both[i] == split.side_b[i - split.side_a.len()]);
            assert(both[j] == split.side_b[j - split.side_a.len()]);
        } else {
            assert(both[i] == split.side_a[i]);
            assert(both[j] == split.side_b[j - split.side_a.len()]);
        }
    }
    if split.half is Some {
        let h = split.half->0;
        assert(h == order[0]);
        assert(pins[order[0] as int] is None);
        assert forall|j: int| 0 <= j < split.side_a.len() implies split.side_a[j] != h by {
            if j < fixed_a.len() {
                assert(pins[fixed_a[j] as int] == Some(true));
            }
        }
        assert forall|j: int| 0 <= j < split.side_b.len() implies split.side_b[j] != h by {
            if j < fixed_b.len() {
                assert(pins[fixed_b[j] as int] == Some(false));
            }
        }
    }
}

/// Every roster position is used: a player pinned to a side is a member of
/// that side, and an unpinned player is a member of one side or the half
/// player.
pub proof fn lemma_split_covers(pins: Seq<Option<bool>>, order: Seq<usize>)
    requires
        pins.len() <= usize::MAX,
        splittable(pins),
        is_arrangement(pins, order),
    ensures
        forall|i: int|
            0 <= i < pins.len() && #[trigger] pins[i] == Some(true) ==> split_of(
                pins,
                order,
            ).side_a.contains(i as usize),
        forall|i: int|
            0 <= i < pins.len() && #[trigger] pins[i] == Some(false) ==> split_of(
                pins,
                order,
            ).side_b.contains(i as usize),
        forall|i: int|
            0 <= i < pins.len() && #[trigger] pins[i] is None ==> {
                ||| split_of(pins, order).side_a.contains(i as usize)
                ||| split_of(pins, order).side_b.contains(i as usize)
                ||| split_of(pins, order).half == Some(i as usize)
            },
{
    broadcast use group_to_multiset_ensures;

    let split = split_of(pins, order);
    let fixed_a = indices_pinned(pins, Some(true));
    let fixed_b = indices_pinned(pins, Some(false));
    let free = indices_pinned(pins, None);
    let need_a = pins.len() / 2 - fixed_a.len();
    let need_b = pins.len() / 2 - fixed_b.len();
    let len = order.len() as int;
    lemma_split_sizes(pins, order);
    lemma_indices_pinned(pins, Some(true));
    lemma_indices_pinned(pins, Some(false));
    lemma_indices_pinned(pins, None);
    assert forall|i: int| 0 <= i < pins.len() && #[trigger] pins[i] == Some(true) implies split.side_a.contains(
        i as usize,
    ) by {
        let k = choose|k: int| 0 <= k < fixed_a.len() && fixed_a[k] == i as usize;
        assert(split.side_a[k] == i as usize);
    }
    assert forall|i: int| 0 <= i < pins.len() && #[trigger] pins[i] == Some(false) implies split.side_b.contains(
        i as usize,
    ) by {
        let k = choose|k: int| 0 <= k < fixed_b.len() && fixed_b[k] == i as usize;
        assert(split.side_b[k] == i as usize);
    }
    assert forall|i: int| 0 <= i < pins.len() && #[trigger] pins[i] is None implies split.side_a.contains(
        i as usize,
    ) || split.side_b.contains(i as usize) || split.half == Some(i as usize) by {
        let x = i as usize;
        assert(free.contains(x));
        to_multiset_contains(free, x);
        to_multiset_contains(order, x);
        let k = choose|k: int| 0 <= k < len && order[k] == x;
        if k >= len - need_a {
            let j = fixed_a.len() + (len - 1 - k);
            assert(split.side_a[j] == x);
        } else if k >= len - need_a - need_b {
            let j = fixed_b.len() + (len - 1 - need_a - k);
            assert(split.side_b[j] == x);
        } else {
            assert(k == 0);
        }
    }
}

/// How often the roster position `i` is used by a split: as a member of
/// side A, as a member of side B, as the half player.
pub open spec fn uses(split: Split, i: usize) -> int {
    (if split.side_a.contains(i) {
        1int
    } else {
        0int
    }) + (if split.side_b.contains(i) {
        1int
    } else {
        0int
    }) + (if split.half == Some(i) {
        1int
    } else {
        0int
    })
}

/// The split divides a roster of `n` players: each side holds `n / 2`
/// members, none of them twice; there is a half player exactly when `n` is
/// odd; and every roster position is used exactly once.
pub open spec fn divides(split: Split, n: nat) -> bool {
    &&& split.side_a.len() == n / 2
    &&& split.side_b.len() == n / 2
    &&& split.side_a.no_duplicates()
    &&& split.side_b.no_duplicates()
    &&& split.half is Some <==> n % 2 == 1
    &&& forall|i: usize| 0 <= i < n ==> #[trigger] uses(split, i) == 1
    &&& forall|i: usize| i >= n ==> #[trigger] uses(split, i) == 0
}

/// The split that an arrangement gives divides the roster.
pub proof fn lemma_split_divides(pins: Seq<Option<bool>>, order: Seq<usize>)
    requires
        pins.len() <= usize::MAX,
        splittable(pins),
        is_arrangement(pins, order),
    ensures
        divides(split_of(pins, order), pins.len()),
{
    let split = split_of(pins, order);
    lemma_split_sizes(pins, order);
    lemma_split_pins(pins, order);
    lemma_split_disjoint(pins, order);
    lemma_split_covers(pins, order);
    let both = split.side_a + split.side_b;
    assert forall|i: usize| split.side_a.contains(i) implies !split.side_b.contains(i) by {
        let j = choose|j: int| 0 <= j < split.side_a.len() && split.side_a[j] == i;
        if split.side_b.contains(i) {
            let k = choose|k: int| 0 <= k < split.side_b.len() && split.side_b[k] == i;
            assert(both[j] == i);
            assert(both[split.side_a.len() + k] == i);
        }
    }
    assert forall|i: usize| 0 <= i < pins.len() implies #[trigger] uses(split, i) == 1 by {
        assert(pins[i as int] == Some(true) || pins[i as int] == Some(false) || pins[i as int]
            is None) by {
            if pins[i as int] is Some && pins[i as int] != Some(true) {
                assert(pins[i as int]->0 == false);
            }
        }
        assert((i as int) as usize == i);
    }
    assert forall|i: usize| i >= pins.len() implies #[trigger] uses(split, i) == 0 by {
        if split.side_a.contains(i) {
            let j = choose|j: int| 0 <= j < split.side_a.len() && split.side_a[j] == i;
            assert(split.side_a[j] < pins.len());
        }
        if split.side_b.contains(i) {
            let j = choose|j: int| 0 <= j < split.side_b.len() && split.side_b[j] == i;
            assert(split.side_b[j] < pins.len());
        }
    }
}

/// One side of a candidate split: its members, borrowed from the roster, and
/// the half player if the roster is odd. The half player is no member; both
/// sides of a split share it.
pub struct Team<'a> {
    pub players: Vec<&'a Player>,
    pub half_player: Option<&'a Player>,
}

/// The players behind a list of references.
pub open spec fn referents(s: Seq<&Player>) -> Seq<Player> {
    s.map_values(|p: &Player| *p)
}

/// The roster entries at the positions `members`, in that order.
pub open spec fn picks(roster: Seq<Player>, members: Seq<usize>) -> Seq<Player> {
    members.map_values(|i: usize| roster[i as int])
}

/// The roster entry at `half`, if there is one.
pub open spec fn half_of(roster: Seq<Player>, half: Option<usize>) -> Option<Player> {
    match half {
        Some(h) => Some(roster[h as int]),
        None => None,
    }
}

impl<'a> Team<'a> {
    /// The members, in order.
    pub open spec fn members(&self) -> Seq<Player> {
        referents(self.players@)
    }

    /// The half player, if there is one.
    pub open spec fn half(&self) -> Option<Player> {
        match self.half_player {
            Some(p) => Some(*p),
            None => None,
        }
    }

    /// The team consists of the roster entries at `members` and has the entry
    /// at `half` as its half player.
    pub open spec fn holds(&self, roster: Seq<Player>, members: Seq<usize>, half: Option<usize>) -> bool {
        &&& self.members() == picks(roster, members)
        &&& self.half() == half_of(roster, half)
    }
}

/// The two teams are the split that the arrangement `order` gives.
pub open spec fn teams_follow(roster: Seq<Player>, order: Seq<usize>, a: Team, b: Team) -> bool {
    let split = split_of(pins_of(roster), order);
    &&& a.holds(roster, split.side_a, split.half)
    &&& b.holds(roster, split.side_b, split.half)
}

/// The error that a roster which cannot be split is rejected with. Both sides
/// cannot be over-full at once, so side A is looked at first.
pub open spec fn pin_error(pins: Seq<Option<bool>>) -> BalanceError {
    let limit = (pins.len() / 2) as usize;
    let fixed_a = indices_pinned(pins, Some(true)).len();
    let fixed_b = indices_pinned(pins, Some(false)).len();
    if fixed_a > limit {
        BalanceError::TooManyFixedA { fixed: fixed_a as usize, limit }
    } else {
        BalanceError::TooManyFixedB { fixed: fixed_b as usize, limit }
    }
}

fn same_pin(a: Option<bool>, b: Option<bool>) -> (r: bool)
    ensures
        r == (a == b),
{
    match (a, b) {
        (Some(x), Some(y)) => x == y,
        (None, None) => true,
        _ => false,
    }
}

/// The roster positions whose pin is `pin`, ascending.
pub fn pinned_indices(players: &[Player], pin: Option<bool>) -> (r: Vec<usize>)
    ensures
        r@ == indices_pinned(pins_of(players@), pin),
{
    let ghost pins = pins_of(players@);
    let mut out: Vec<usize> = Vec::new();
    let mut i: usize = 0;
    while i < players.len()
        invariant
            i <= players.len(),
            pins == pins_of(players@),
            out@ == indices_pinned(pins.take(i as int), pin),
        decreases players.len() - i,
    {
        proof {
            assert(pins.take(i + 1).drop_last() =~= pins.take(i as int));
            assert(pins.take(i + 1).last() == players@[i as int].fixed_team);
        }
        if same_pin(players[i].fixed_team, pin) {
            out.push(i);
        }
        i += 1;
    }
    proof {
        assert(pins.take(players.len() as int) =~= pins);
    }
    out
}

/// Checks that a split exists: neither side may have more pinned players than
/// half of the roster.
pub fn check_pins(players: &[Player]) -> (r: Result<(), BalanceError>)
    ensures
        r is Ok <==> splittable(pins_of(players@)),
        r matches Err(e) ==> e == pin_error(pins_of(players@)),
{
    let limit = players.len() / 2;
    let fixed_a = pinned_indices(players, Some(true));
    let fixed_b = pinned_indices(players, Some(false));
    if fixed_a.len() > limit {
        Err(BalanceError::TooManyFixedA { fixed: fixed_a.len(), limit })
    } else if fixed_b.len() > limit {
        Err(BalanceError::TooManyFixedB { fixed: fixed_b.len(), limit })
    } else {
        Ok(())
    }
}

/// Reorders `v` at random.
///
/// Calls `rand::seq::SliceRandom::shuffle` on the vector with the generator
/// that `rand::thread_rng` returns. The contract claims only what holds of
/// every outcome: the vector holds the same entries as before, each as often
/// as before. `thread_rng` is seeded by the operating system on the thread's
/// first use and panics if that fails.
#[verifier::external_body]
fn shuffle(v: &mut Vec<usize>)
    ensures
        final(v)@.to_multiset() == old(v)@.to_multiset(),
{
    v.shuffle(&mut thread_rng());
}

/// Appends to `side` the roster entries at `count` positions drawn from the
/// end of `order` once `skip` have been drawn.
fn draw<'a>(
    players: &'a [Player],
    order: &[usize],
    side: &mut Vec<&'a Player>,
    skip: usize,
    count: usize,
    Ghost(before): Ghost<Seq<usize>>,
)
    requires
        skip + count <= order.len(),
        forall|k: int| 0 <= k < order.len() ==> (#[trigger] order@[k]) < players.len(),
        referents(old(side)@) == picks(players@, before),
    ensures
        referents(final(side)@) == picks(players@, before + drawn(order@, skip as int, count as int)),
{
    let mut taken: usize = 0;
    while taken < count
        invariant
            taken <= count,
            skip + count <= order.len(),
            forall|k: int| 0 <= k < order.len() ==> (#[trigger] order@[k]) < players.len(),
            referents(side@) == picks(
                players@,
                before + drawn(order@, skip as int, taken as int),
            ),
        decreases count - taken,
    {
        let idx = order[order.len() - 1 - skip - taken];
        let ghost prior = before + drawn(order@, skip as int, taken as int);
        let ghost old_side = side@;
        side.push(&players[idx]);
        taken += 1;
        proof {
            let next = before + drawn(order@, skip as int, taken as int);
            assert(next =~= prior.push(idx));
            assert(picks(players@, next) =~= picks(players@, prior).push(players@[idx as int]));
            assert(referents(side@) =~= referents(old_side).push(players@[idx as int]));
        }
    }
}

/// The split that the arrangement `order` gives: pinned players first, then
/// draws from the end of `order`, side A before side B.
pub fn partition_in_order<'a>(players: &'a [Player], order: &[usize]) -> (r: (Team<'a>, Team<'a>))
    requires
        splittable(pins_of(players@)),
        is_arrangement(pins_of(players@), order@),
    ensures
        teams_follow(players@, order@, r.0, r.1),
{
    let ghost pins = pins_of(players@);
    let n = players.len();
    let target = n / 2;
    let fixed_a = pinned_indices(players, Some(true));
    let fixed_b = pinned_indices(players, Some(false));
    proof {
        lemma_arrangement(pins, order@);
        lemma_pins_cover(pins);
        lemma_indices_pinned(pins, Some(true));
        lemma_indices_pinned(pins, Some(false));
    }
    let need_a = target - fixed_a.len();
    let need_b = target - fixed_b.len();
    let mut side_a: Vec<&'a Player> = Vec::new();
    let mut side_b: Vec<&'a Player> = Vec::new();
    proof {
        assert(referents(side_a@) =~= picks(players@, Seq::<usize>::empty()));
        assert(referents(side_b@) =~= picks(players@, Seq::<usize>::empty()));
    }
    take_pinned(players, &fixed_a, &mut side_a);
    draw(players, order, &mut side_a, 0, need_a, Ghost(fixed_a@));
    take_pinned(players, &fixed_b, &mut side_b);
    draw(players, order, &mut side_b, need_a, need_b, Ghost(fixed_b@));
    let half_player = if n % 2 == 1 {
        Some(&players[order[0]])
    } else {
        None
    };
    (Team { players: side_a, half_player }, Team { players: side_b, half_player })
}

/// Appends to `side` the roster entries at the positions `members`.
fn take_pinned<'a>(players: &'a [Player], members: &Vec<usize>, side: &mut Vec<&'a Player>)
    requires
        forall|k: int| 0 <= k < members.len() ==> (#[trigger] members@[k]) < players.len(),
        old(side)@.len() == 0,
    ensures
        referents(final(side)@) == picks(players@, members@),
{
    let mut i: usize = 0;
    while i < members.len()
        invariant
            i <= members.len(),
            forall|k: int| 0 <= k < members.len() ==> (#[trigger] members@[k]) < players.len(),
            referents(side@) == picks(players@, members@.take(i as int)),
        decreases members.len() - i,
    {
        let ghost old_side = side@;
        side.push(&players[members[i]]);
        proof {
            assert(members@.take(i + 1) =~= members@.take(i as int).push(members@[i as int]));
            assert(picks(players@, members@.take(i + 1)) =~= picks(
                players@,
                members@.take(i as int),
            ).push(players@[members@[i as int] as int]));
            assert(referents(side@) =~= referents(old_side).push(
                players@[members@[i as int] as int],
            ));
        }
        i += 1;
    }
    proof {
        assert(members@.take(members.len() as int) =~= members@);
    }
}

/// A sequence without repeats that names unpinned positions only, and as many
/// as there are, is an arrangement.
pub proof fn lemma_arrangement_conv(pins: Seq<Option<bool>>, order: Seq<usize>)
    requires
        pins.len() <= usize::MAX,
        order.len() == indices_pinned(pins, None).len(),
        order.no_duplicates(),
        forall|k: int|
            0 <= k < order.len() ==> (#[trigger] order[k]) < pins.len() && pins[order[k] as int]
                is None,
    ensures
        is_arrangement(pins, order),
{
    broadcast use group_to_multiset_ensures;

    let free = indices_pinned(pins, None);
    lemma_indices_pinned(pins, None);
    assert forall|x: usize| order.to_set().contains(x) implies free.to_set().contains(x) by {
        let k = choose|k: int| 0 <= k < order.len() && order[k] == x;
        assert(pins[order[k] as int] is None);
        assert(free.contains((x as int) as usize));
    }
    seq_to_set_is_finite(order);
    seq_to_set_is_finite(free);
    order.unique_seq_to_set();
    free.unique_seq_to_set();
    lemma_subset_equality(order.to_set(), free.to_set());
    order.lemma_multiset_has_no_duplicates();
    free.lemma_multiset_has_no_duplicates();
    assert forall|x: usize| order.to_multiset().count(x) == free.to_multiset().count(x) by {
        to_multiset_contains(order, x);
        to_multiset_contains(free, x);
        assert(order.contains(x) <==> order.to_set().contains(x));
        assert(free.contains(x) <==> free.to_set().contains(x));
    }
    assert(order.to_multiset() =~= free.to_multiset());
}

/// Whether `order` holds the position of each unpinned player exactly once.
pub fn check_arrangement(players: &[Player], order: &[usize]) -> (b: bool)
    ensures
        b == is_arrangement(pins_of(players@), order@),
{
    let ghost pins = pins_of(players@);
    let n = players.len();
    let free = pinned_indices(players, None);
    proof {
        to_multiset_len(order@);
        to_multiset_len(free@);
    }
    if order.len() != free.len() {
        return false;
    }
    let mut seen: Vec<bool> = vec![false; n];
    let mut k: usize = 0;
    while k < order.len()
        invariant
            k <= order.len(),
            n == players.len(),
            seen.len() == n,
            pins == pins_of(players@),
            forall|j: int|
                0 <= j < k ==> (#[trigger] order@[j]) < n && pins[order@[j] as int] is None,
            forall|i: int|
                0 <= i < n ==> (#[trigger] seen@[i] <==> exists|j: int|
                    0 <= j < k && order@[j] == i),
            forall|i: int, j: int| 0 <= i < j < k ==> order@[i] != order@[j],
        decreases order.len() - k,
    {
        let idx = order[k];
        if idx >= n || players[idx].fixed_team.is_some() {
            proof {
                if is_arrangement(pins, order@) {
                    lemma_arrangement(pins, order@);
                    assert(order@[k as int] < n && pins[order@[k as int] as int] is None);
                }
            }
            return false;
        }
        if seen[idx] {
            proof {
                let j = choose|j: int| 0 <= j < k && order@[j] == idx;
                if is_arrangement(pins, order@) {
                    lemma_arrangement(pins, order@);
                    assert(order@[j] == order@[k as int]);
                }
            }
            return false;
        }
        let ghost before = seen@;
        seen.set(idx, true);
        proof {
            assert forall|i: int| 0 <= i < n implies (#[trigger] seen@[i] <==> exists|j: int|
                0 <= j < k + 1 && order@[j] == i) by {
                if i == idx {
                    assert(order@[k as int] == i);
                } else {
                    assert(seen@[i] == before[i]);
                    if before[i] {
                        let j = choose|j: int| 0 <= j < k && order@[j] == i;
                        assert(0 <= j < k + 1 && order@[j] == i);
                    }
                }
            }
        }
        k += 1;
    }
    proof {
        lemma_arrangement_conv(pins, order@);
    }
    true
}

/// The split that the arrangement `order` gives, for any roster and any
/// `order`: a roster with too many pins and an `order` that is no arrangement
/// are rejected.
pub fn partition_with_order<'a>(players: &'a [Player], order: &[usize]) -> (r: Result<
    (Team<'a>, Team<'a>),
    BalanceError,
>)
    ensures
        r is Ok <==> splittable(pins_of(players@)) && is_arrangement(pins_of(players@), order@),
        r matches Ok(t) ==> teams_follow(players@, order@, t.0, t.1),
        r matches Err(e) ==> e == (if splittable(pins_of(players@)) {
            BalanceError::InvalidOrder
        } else {
            pin_error(pins_of(players@))
        }),
{
    match check_pins(players) {
        Err(e) => Err(e),
        Ok(_) => {
            if check_arrangement(players, order) {
                Ok(partition_in_order(players, order))
            } else {
                Err(BalanceError::InvalidOrder)
            }
        },
    }
}

/// One random split of the roster.
///
/// The unpinned players are arranged at random; whatever the arrangement, the
/// teams returned are the split it gives. Only a roster with too many pins is
/// rejected.
pub fn random_team<'a>(players: &'a [Player]) -> (r: Result<(Team<'a>, Team<'a>), BalanceError>)
    ensures
        r is Ok <==> splittable(pins_of(players@)),
        r is Ok ==> exists|order: Seq<usize>|
            is_arrangement(pins_of(players@), order) && #[trigger] teams_follow(
                players@,
                order,
                r->Ok_0.0,
                r->Ok_0.1,
            ),
        r matches Err(e) ==> e == pin_error(pins_of(players@)),
{
    match check_pins(players) {
        Err(e) => Err(e),
        Ok(_) => {
            let mut order = pinned_indices(players, None);
            shuffle(&mut order);
            let teams = partition_in_order(players, order.as_slice());
            let r: Result<(Team<'a>, Team<'a>), BalanceError> = Ok(teams);
            proof {
                assert(teams_follow(players@, order@, r->Ok_0.0, r->Ok_0.1));
            }
            r
        },
    }
}

} // verus!
