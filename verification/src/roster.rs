//! The roster model: players, their mathematical view, and the measures the
//! balancing rules are stated over.

use vstd::prelude::*;

verus! {

/// One rated player of the roster.
#[derive(Clone, Debug)]
pub struct Player {
    pub name: String,
    /// Rating in thousandths of a point.
    pub rating: i32,
    /// `true` for female. Shown to the user; no rule reads it.
    pub gender: bool,
    /// `Some(true)` pins the player to side A, `Some(false)` to side B.
    pub fixed_team: Option<bool>,
    /// Lower-case position tags, in the order they were given.
    pub position: Option<Vec<String>>,
}

/// What a `Player` is, as plain mathematical values.
pub ghost struct PlayerView {
    pub name: Seq<char>,
    pub rating: int,
    pub gender: bool,
    pub fixed_team: Option<bool>,
    pub position: Option<Seq<Seq<char>>>,
}

/// The texts of a list of strings.
pub open spec fn texts(v: Seq<String>) -> Seq<Seq<char>> {
    v.map_values(|s: String| s@)
}

impl View for Player {
    type V = PlayerView;

    open spec fn view(&self) -> PlayerView {
        PlayerView {
            name: self.name@,
            rating: self.rating as int,
            gender: self.gender,
            fixed_team: self.fixed_team,
            position: match self.position {
                Some(v) => Some(texts(v@)),
                None => None,
            },
        }
    }
}

/// The views of a list of players.
pub open spec fn views(s: Seq<Player>) -> Seq<PlayerView> {
    s.map_values(|p: Player| p@)
}

/// Whether the player lists `tag` among its positions.
pub open spec fn carries_tag(p: PlayerView, tag: Seq<char>) -> bool {
    p.position is Some && p.position->0.contains(tag)
}

/// Sum of the ratings of `s`.
pub open spec fn rating_sum(s: Seq<PlayerView>) -> int
    decreases s.len(),
{
    if s.len() == 0 {
        0
    } else {
        rating_sum(s.drop_last()) + s.last().rating
    }
}

/// Number of players in `s` that carry `tag`.
pub open spec fn tag_count(s: Seq<PlayerView>, tag: Seq<char>) -> nat
    decreases s.len(),
{
    if s.len() == 0 {
        0
    } else {
        tag_count(s.drop_last(), tag) + if carries_tag(s.last(), tag) {
            1nat
        } else {
            0nat
        }
    }
}

/// A requirement that each side hold at least `count` players carrying `tag`.
#[derive(Clone, Debug)]
pub struct PositionMinimum {
    pub tag: String,
    pub count: usize,
}

/// What a split must meet to be accepted.
#[derive(Clone, Debug)]
pub struct Constraints {
    /// The two sides' rating totals must differ by less than this, in
    /// thousandths of a point. With 0 or less nothing is accepted.
    pub max_rating_delta: i64,
    /// The minimums that each side must meet. A tag that is not listed is
    /// not required; of a tag listed twice both minimums hold.
    pub min_position_counts: Vec<PositionMinimum>,
}

fn copy_texts(v: &Vec<String>) -> (r: Vec<String>)
    ensures
        texts(r@) == texts(v@),
{
    let mut out: Vec<String> = Vec::new();
    let mut i: usize = 0;
    while i < v.len()
        invariant
            i <= v.len(),
            out.len() == i,
            forall|j: int| 0 <= j < i ==> out[j]@ == v[j]@,
        decreases v.len() - i,
    {
        out.push(v[i].clone());
        i += 1;
    }
    assert(texts(out@) =~= texts(v@));
    out
}

impl Player {
    /// An independent copy of the player under the name `name`; every other
    /// field is copied unchanged.
    pub fn with_name(&self, name: String) -> (r: Player)
        ensures
            r@ == (PlayerView { name: name@, ..self@ }),
    {
        let position = match &self.position {
            Some(v) => Some(copy_texts(v)),
            None => None,
        };
        Player {
            name,
            rating: self.rating,
            gender: self.gender,
            fixed_team: self.fixed_team,
            position,
        }
    }

    /// An independent copy of the player.
    pub fn duplicate(&self) -> (r: Player)
        ensures
            r@ == self@,
    {
        self.with_name(self.name.clone())
    }

    /// Whether `tag` is one of the player's positions.
    pub fn has_position(&self, tag: &String) -> (b: bool)
        ensures
            b == carries_tag(self@, tag@),
    {
        match &self.position {
            None => false,
            Some(v) => {
                let mut i: usize = 0;
                while i < v.len()
                    invariant
                        i <= v.len(),
                        self.position == Some(*v),
                        forall|j: int| 0 <= j < i ==> texts(v@)[j] != tag@,
                    decreases v.len() - i,
                {
                    if v[i] == *tag {
                        assert(texts(v@)[i as int] == tag@);
                        assert(texts(v@).contains(tag@));
                        return true;
                    }
                    i += 1;
                }
                false
            },
        }
    }
}

/// What the score shown under a team takes off each player's rating: five
/// points.
pub const SCORE_BASELINE: i32 = 5000;

/// The score shown under a team: the sum, over its players, of the rating
/// above the baseline.
pub open spec fn shown_score(team: Seq<PlayerView>) -> int {
    rating_sum(team) - SCORE_BASELINE * team.len()
}

/// The score shown under a team.
pub fn score(team: &[Player]) -> (r: i128)
    ensures
        r == shown_score(views(team@)),
{
    let ghost all = views(team@);
    let mut sum: i128 = 0;
    let mut i: usize = 0;
    while i < team.len()
        invariant
            i <= team.len(),
            all == views(team@),
            sum == rating_sum(all.take(i as int)),
            i32::MIN * i <= sum <= i32::MAX * i,
        decreases team.len() - i,
    {
        proof {
            assert(all.take(i + 1).drop_last() =~= all.take(i as int));
            assert(all.take(i + 1).last() == team@[i as int]@);
        }
        sum = sum + team[i].rating as i128;
        i += 1;
    }
    proof {
        assert(all.take(team.len() as int) =~= all);
    }
    sum - 5000 * (team.len() as i128)
}

/// The four minimums of the team form: goalkeepers (`gk`), defenders (`df`),
/// midfielders (`mid`) and forwards (`fw`), in that order.
pub fn standard_minimums(gk: usize, df: usize, mid: usize, fw: usize) -> (r: Vec<PositionMinimum>)
    ensures
        r@.len() == 4,
        r@[0].tag@ == "gk"@ && r@[0].count == gk,
        r@[1].tag@ == "df"@ && r@[1].count == df,
        r@[2].tag@ == "mid"@ && r@[2].count == mid,
        r@[3].tag@ == "fw"@ && r@[3].count == fw,
{
    let mut out: Vec<PositionMinimum> = Vec::new();
    out.push(PositionMinimum { tag: "gk".to_owned(), count: gk });
    out.push(PositionMinimum { tag: "df".to_owned(), count: df });
    out.push(PositionMinimum { tag: "mid".to_owned(), count: mid });
    out.push(PositionMinimum { tag: "fw".to_owned(), count: fw });
    out
}

} // verus!
