use teamgen::materialize::materialize;
use teamgen::partition::Team;
use teamgen::roster::{score, standard_minimums, Player};

fn player(name: &str, rating: i32, tags: Option<Vec<&str>>) -> Player {
    Player {
        name: name.to_string(),
        rating,
        gender: true,
        fixed_team: Some(false),
        position: tags.map(|v| v.iter().map(|t| t.to_string()).collect()),
    }
}

#[test]
fn copies_keep_every_field() {
    let p = player("Jane Doe", 7500, Some(vec!["gk", "df"]));
    let copy = p.duplicate();
    assert_eq!(copy.name, "Jane Doe");
    assert_eq!(copy.rating, 7500);
    assert!(copy.gender);
    assert_eq!(copy.fixed_team, Some(false));
    assert_eq!(copy.position, Some(vec!["gk".to_string(), "df".to_string()]));
    let renamed = p.with_name("J. Doe".to_string());
    assert_eq!(renamed.name, "J. Doe");
    assert_eq!(renamed.rating, 7500);
    assert_eq!(renamed.position, p.position);
    let bare = player("x", 0, None).duplicate();
    assert_eq!(bare.position, None);
}

#[test]
fn positions_are_matched_exactly() {
    let p = player("a", 1, Some(vec!["gk", "mid"]));
    assert!(p.has_position(&"gk".to_string()));
    assert!(p.has_position(&"mid".to_string()));
    assert!(!p.has_position(&"df".to_string()));
    assert!(!p.has_position(&"g".to_string()));
    assert!(!p.has_position(&"".to_string()));
    assert!(!player("b", 1, None).has_position(&"gk".to_string()));
    assert!(!player("c", 1, Some(vec![])).has_position(&"gk".to_string()));
}

#[test]
fn score_is_rating_above_five_points() {
    let team = vec![player("a", 7500, None), player("b", 4000, None), player("c", 5000, None)];
    assert_eq!(score(&team), 1500);
    assert_eq!(score(&[]), 0);
    assert_eq!(score(&team[1..2]), -1000);
}

#[test]
fn form_minimums_come_in_form_order() {
    let m = standard_minimums(1, 2, 3, 4);
    let pairs: Vec<(&str, usize)> = m.iter().map(|x| (x.tag.as_str(), x.count)).collect();
    assert_eq!(pairs, vec![("gk", 1), ("df", 2), ("mid", 3), ("fw", 4)]);
}

#[test]
fn owned_team_names_the_half() {
    let roster = vec![
        player("Ann", 7000, Some(vec!["gk"])),
        player("Bob", 6000, None),
        player("Cid", 5000, Some(vec!["fw"])),
    ];
    let team = Team { players: vec![&roster[0], &roster[1]], half_player: Some(&roster[2]) };
    let first = team.owned(1);
    let names: Vec<&str> = first.iter().map(|p| p.name.as_str()).collect();
    assert_eq!(names, vec!["Ann", "Bob", "Cid (1st half)"]);
    assert_eq!(first[2].rating, 5000);
    assert_eq!(first[2].fixed_team, Some(false));
    assert!(first[2].gender);
    assert_eq!(first[2].position, Some(vec!["fw".to_string()]));
    assert_eq!(first[0].position, Some(vec!["gk".to_string()]));
    let second = team.owned(2);
    assert_eq!(second[2].name, "Cid (2nd half)");
    assert_eq!(second.len(), 3);
    let whole = Team { players: vec![&roster[1]], half_player: None };
    let owned = whole.owned(1);
    assert_eq!(owned.len(), 1);
    assert_eq!(owned[0].name, "Bob");
    // The source roster is untouched.
    assert_eq!(roster[2].name, "Cid");
}

#[test]
fn split_is_materialized_side_by_side() {
    let roster = vec![
        player("Ann", 7000, None),
        player("Bob", 6000, None),
        player("Cid", 5000, None),
    ];
    let a = Team { players: vec![&roster[0]], half_player: Some(&roster[2]) };
    let b = Team { players: vec![&roster[1]], half_player: Some(&roster[2]) };
    let (owned_a, owned_b) = materialize(&a, &b);
    let names = |t: &[Player]| t.iter().map(|p| p.name.clone()).collect::<Vec<_>>();
    assert_eq!(names(&owned_a), vec!["Ann", "Cid (1st half)"]);
    assert_eq!(names(&owned_b), vec!["Bob", "Cid (2nd half)"]);
    assert_eq!(score(&owned_a), 2000);
    assert_eq!(score(&owned_b), 1000);
}
