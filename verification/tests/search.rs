use teamgen::error::BalanceError;
use teamgen::partition::{partition_with_order, Team};
use teamgen::roster::{standard_minimums, Constraints, Player, PositionMinimum};
use teamgen::search::{
    accept, count_position, get_even_teams, is_acceptable, is_balanced, min_pos_met, rating,
    search, try_order, MAX_TRIALS,
};

fn player(name: &str, rating: i32, fixed_team: Option<bool>, tags: &[&str]) -> Player {
    Player {
        name: name.to_string(),
        rating,
        gender: false,
        fixed_team,
        position: if tags.is_empty() {
            None
        } else {
            Some(tags.iter().map(|t| t.to_string()).collect())
        },
    }
}

fn minimum(tag: &str, count: usize) -> PositionMinimum {
    PositionMinimum { tag: tag.to_string(), count }
}

fn constraints(max_rating_delta: i64, minimums: &[PositionMinimum]) -> Constraints {
    Constraints { max_rating_delta, min_position_counts: minimums.to_vec() }
}

fn names(team: &[Player]) -> Vec<String> {
    team.iter().map(|p| p.name.clone()).collect()
}

fn total(team: &[Player]) -> i64 {
    team.iter().map(|p| p.rating as i64).sum()
}

fn tagged(team: &[Player], members: usize, tag: &str) -> usize {
    team[..members]
        .iter()
        .filter(|p| p.position.as_ref().map_or(false, |v| v.iter().any(|t| t == tag)))
        .count()
}

#[test]
fn odd_roster_shares_one_half_player() {
    let roster: Vec<Player> = (0..5)
        .map(|i| player(&format!("Kim{}", i), 5000 + i, None, &[]))
        .collect();
    let (a, b) = get_even_teams(&roster, 1_000_000, &[]).unwrap();
    assert_eq!(a.len(), 3);
    assert_eq!(b.len(), 3);
    let half_a = a.last().unwrap();
    let half_b = b.last().unwrap();
    assert!(half_a.name.ends_with(" (1st half)"));
    assert!(half_b.name.ends_with(" (2nd half)"));
    assert_eq!(
        half_a.name.trim_end_matches(" (1st half)"),
        half_b.name.trim_end_matches(" (2nd half)")
    );
    assert_eq!(half_a.rating, half_b.rating);
    assert!(a[..2].iter().all(|p| !p.name.contains("half")));
    assert!(b[..2].iter().all(|p| !p.name.contains("half")));
    assert!((total(&a) - total(&b)).abs() < 1_000_000);
    // Each of the five players is listed, the half player twice.
    let mut listed: Vec<String> = a[..2].iter().chain(b[..2].iter()).map(|p| p.name.clone()).collect();
    listed.push(half_a.name.trim_end_matches(" (1st half)").to_string());
    listed.sort();
    assert_eq!(listed, vec!["Kim0", "Kim1", "Kim2", "Kim3", "Kim4"]);
}

#[test]
fn unconstrained_rosters_split_in_halves() {
    for n in 0..9usize {
        let roster: Vec<Player> = (0..n)
            .map(|i| player(&format!("Kim{}", i), 1000 * i as i32, None, &[]))
            .collect();
        let (a, b) = get_even_teams(&roster, i64::MAX, &[]).unwrap();
        assert_eq!(a.len(), n / 2 + n % 2);
        assert_eq!(b.len(), n / 2 + n % 2);
        let halves_a = a.iter().filter(|p| p.name.ends_with(" (1st half)")).count();
        let halves_b = b.iter().filter(|p| p.name.ends_with(" (2nd half)")).count();
        assert_eq!(halves_a, n % 2);
        assert_eq!(halves_b, n % 2);
    }
}

#[test]
fn order_decides_the_result() {
    let roster = vec![
        player("Ann", 7000, Some(true), &[]),
        player("Bob", 6000, None, &[]),
        player("Cid", 5000, Some(false), &[]),
        player("Dee", 4000, None, &[]),
        player("Eve", 3000, None, &[]),
    ];
    let (a, b) = try_order(&roster, &[1, 3, 4], 1_000_000, &[]).unwrap().unwrap();
    assert_eq!(names(&a), vec!["Ann", "Eve", "Bob (1st half)"]);
    assert_eq!(names(&b), vec!["Cid", "Dee", "Bob (2nd half)"]);
    let (a, b) = try_order(&roster, &[4, 1, 3], 1_000_000, &[]).unwrap().unwrap();
    assert_eq!(names(&a), vec!["Ann", "Dee", "Eve (1st half)"]);
    assert_eq!(names(&b), vec!["Cid", "Bob", "Eve (2nd half)"]);
    let again = try_order(&roster, &[4, 1, 3], 1_000_000, &[]).unwrap().unwrap();
    assert_eq!(names(&again.0), names(&a));
    assert_eq!(names(&again.1), names(&b));
}

#[test]
fn threshold_is_strict() {
    let roster = vec![
        player("Ann", 7000, Some(true), &[]),
        player("Bob", 6000, Some(false), &[]),
    ];
    // The sides differ by exactly 1000.
    assert!(try_order(&roster, &[], 1000, &[]).unwrap().is_none());
    assert!(try_order(&roster, &[], 1001, &[]).unwrap().is_some());
    assert!(try_order(&roster, &[], 0, &[]).unwrap().is_none());
    assert!(try_order(&roster, &[], -5, &[]).unwrap().is_none());
}

#[test]
fn balance_is_exact_on_wide_totals() {
    assert!(is_balanced(10, 7, 4));
    assert!(!is_balanced(10, 7, 3));
    assert!(is_balanced(7, 10, 4));
    assert!(!is_balanced(7, 10, 3));
    assert!(is_balanced(5, 5, 1));
    assert!(!is_balanced(5, 5, 0));
    assert!(!is_balanced(i128::MAX, i128::MIN, i64::MAX));
    assert!(!is_balanced(i128::MIN, i128::MAX, i64::MAX));
    assert!(!is_balanced(0, i128::MIN, i64::MAX));
    assert!(is_balanced(i128::MAX, i128::MAX - 3, 4));
}

#[test]
fn rating_counts_the_half_player_in_full() {
    let roster = vec![
        player("a", 7500, None, &[]),
        player("b", -2000, None, &[]),
        player("c", 6000, None, &[]),
    ];
    let with_half = Team { players: vec![&roster[0], &roster[1]], half_player: Some(&roster[2]) };
    assert_eq!(rating(&with_half), 11_500);
    let without = Team { players: vec![&roster[0], &roster[1]], half_player: None };
    assert_eq!(rating(&without), 5500);
    let empty = Team { players: vec![], half_player: None };
    assert_eq!(rating(&empty), 0);
    let top = player("top", i32::MAX, None, &[]);
    let many = Team { players: vec![&top; 1000], half_player: Some(&top) };
    assert_eq!(rating(&many), 1001 * i32::MAX as i128);
}

#[test]
fn positions_are_counted_per_tag() {
    let roster = vec![
        player("a", 1, None, &["gk", "df"]),
        player("b", 1, None, &["df"]),
        player("c", 1, None, &[]),
        player("d", 1, None, &["fw", "fw"]),
    ];
    let team: Vec<&Player> = roster.iter().collect();
    assert_eq!(count_position(&team, &"df".to_string()), 2);
    assert_eq!(count_position(&team, &"gk".to_string()), 1);
    assert_eq!(count_position(&team, &"fw".to_string()), 1);
    assert_eq!(count_position(&team, &"mid".to_string()), 0);
    assert_eq!(count_position(&team, &"DF".to_string()), 0);
    assert!(min_pos_met(&team, &[minimum("df", 2), minimum("gk", 1)]));
    assert!(!min_pos_met(&team, &[minimum("df", 2), minimum("gk", 2)]));
    assert!(min_pos_met(&team, &[minimum("mid", 0)]));
    assert!(!min_pos_met(&team, &[minimum("mid", 1)]));
    assert!(min_pos_met(&team, &[]));
    assert!(min_pos_met(&team, &standard_minimums(1, 2, 0, 1)));
    assert!(!min_pos_met(&team, &standard_minimums(1, 2, 1, 1)));
}

#[test]
fn half_player_does_not_count_toward_a_minimum() {
    let roster = vec![
        player("Ann", 5000, Some(true), &["gk"]),
        player("Bob", 5000, Some(false), &["df"]),
        player("Cid", 5000, None, &["gk"]),
    ];
    // Cid is the half player: side B has no goalkeeper among its members.
    let minimums = [minimum("gk", 1)];
    assert!(try_order(&roster, &[2], 1_000_000, &minimums).unwrap().is_none());
    assert_eq!(
        search(&roster, &constraints(1_000_000, &minimums), 20).err(),
        Some(BalanceError::ConstraintUnsatisfiable { trials: 20 })
    );
    let (a, b) = partition_with_order(&roster, &[2]).unwrap();
    assert!(!is_acceptable(&a, &b, 1_000_000, &minimums));
    assert!(is_acceptable(&a, &b, 1_000_000, &[]));
    assert!(accept(&a, &b, 1_000_000, &minimums).is_none());
}

#[test]
fn accepted_results_meet_every_constraint() {
    let roster = vec![
        player("Ann", 9000, Some(true), &["gk"]),
        player("Bob", 8500, Some(false), &["gk", "df"]),
        player("Cid", 7000, None, &["df"]),
        player("Dee", 6500, None, &["df", "mid"]),
        player("Eve", 6000, None, &["mid"]),
        player("Fay", 5500, None, &["mid", "fw"]),
        player("Gus", 5000, None, &["fw"]),
        player("Hal", 4500, None, &["fw"]),
        player("Ida", 4000, None, &["df"]),
    ];
    let minimums = standard_minimums(1, 1, 1, 1);
    for _ in 0..20 {
        let (a, b) = get_even_teams(&roster, 1500, &minimums).unwrap();
        assert_eq!(a.len(), 5);
        assert_eq!(b.len(), 5);
        assert!((total(&a) - total(&b)).abs() < 1500);
        for tag in ["gk", "df", "mid", "fw"] {
            assert!(tagged(&a, 4, tag) >= 1);
            assert!(tagged(&b, 4, tag) >= 1);
        }
        assert!(names(&a[..4]).contains(&"Ann".to_string()));
        assert!(!names(&b).contains(&"Ann".to_string()));
        assert!(names(&b[..4]).contains(&"Bob".to_string()));
        assert!(!names(&a).contains(&"Bob".to_string()));
        assert_eq!(a[4].rating, b[4].rating);
        assert_eq!(a[4].position, b[4].position);
    }
}

#[test]
fn impossible_quorum_uses_up_the_budget() {
    let roster = vec![
        player("Ann", 7000, None, &["gk"]),
        player("Bob", 6000, None, &["df"]),
        player("Cid", 5000, None, &["mid"]),
        player("Dee", 4000, None, &["fw"]),
    ];
    let minimums = vec![minimum("gk", 1)];
    assert_eq!(
        search(&roster, &constraints(1_000_000, &minimums), 50).err(),
        Some(BalanceError::ConstraintUnsatisfiable { trials: 50 })
    );
    assert_eq!(MAX_TRIALS, 100_000);
    assert_eq!(
        get_even_teams(&roster, 1_000_000, &minimums).err(),
        Some(BalanceError::ConstraintUnsatisfiable { trials: 100_000 })
    );
}

#[test]
fn five_goalkeepers_each_need_ten_in_the_roster() {
    let roster: Vec<Player> = (0..12)
        .map(|i| player(&format!("Kim{}", i), 5000, None, if i < 9 { &["gk"] } else { &["df"] }))
        .collect();
    assert_eq!(
        search(&roster, &constraints(1_000_000, &[minimum("gk", 5)]), 200).err(),
        Some(BalanceError::ConstraintUnsatisfiable { trials: 200 })
    );
}

#[test]
fn empty_budget_fails_without_a_trial() {
    let roster = vec![player("a", 1, None, &[]), player("b", 1, None, &[])];
    assert_eq!(
        search(&roster, &constraints(1_000_000, &[]), 0).err(),
        Some(BalanceError::ConstraintUnsatisfiable { trials: 0 })
    );
    assert!(search(&roster, &constraints(1_000_000, &[]), 1).is_ok());
}

#[test]
fn pins_are_checked_before_the_search() {
    let roster = vec![
        player("Ann", 7000, Some(false), &[]),
        player("Bob", 6000, Some(false), &[]),
        player("Cid", 5000, None, &[]),
    ];
    let expected = BalanceError::TooManyFixedB { fixed: 2, limit: 1 };
    assert_eq!(get_even_teams(&roster, 1000, &[]).err(), Some(expected));
    assert_eq!(search(&roster, &constraints(1000, &[]), 0).err(), Some(expected));
    assert_eq!(try_order(&roster, &[2], 1000, &[]).err(), Some(expected));
}

#[test]
fn trial_rejects_an_order_that_is_no_arrangement() {
    let roster = vec![player("a", 1, None, &[]), player("b", 1, None, &[])];
    assert_eq!(try_order(&roster, &[0, 0], 10, &[]).err(), Some(BalanceError::InvalidOrder));
    assert_eq!(try_order(&roster, &[0], 10, &[]).err(), Some(BalanceError::InvalidOrder));
    assert!(try_order(&roster, &[1, 0], 10, &[]).unwrap().is_some());
}

#[test]
fn messages_name_the_failure() {
    assert_eq!(
        BalanceError::ConstraintUnsatisfiable { trials: 7 }.message(),
        "Unable to generate even teams.  You may need to loosen the requirements for each team."
    );
    assert_eq!(
        BalanceError::TooManyFixedA { fixed: 3, limit: 2 }.message(),
        "Too many players are fixed to team A: a team holds half of the roster."
    );
    assert_eq!(
        BalanceError::TooManyFixedB { fixed: 3, limit: 2 }.message(),
        "Too many players are fixed to team B: a team holds half of the roster."
    );
    assert_eq!(
        BalanceError::InvalidOrder.message(),
        "The player order must list every player without a fixed team exactly once."
    );
}
