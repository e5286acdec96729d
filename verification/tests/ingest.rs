use teamgen::ingest::{parse_rating, read_sheet, read_tags, RowParseError};
use teamgen::roster::Player;
use teamgen::sheet_link::{csv_export_url, export_url_of};
use teamgen::text::{
    chars_of, copy_range, find_char, is_char, lowercase_string, push_chars, split_chars,
    starts_with, string_of, trim_chars,
};

fn chars(s: &str) -> Vec<char> {
    s.chars().collect()
}

fn rating(s: &str) -> Option<i32> {
    parse_rating(&chars(s))
}

fn tags(v: &[&str]) -> Option<Vec<String>> {
    Some(v.iter().map(|t| t.to_string()).collect())
}

#[test]
fn attending_row_becomes_a_player() {
    let p = Player::from_row("Alex,Lee,M,6.0,y,,mid").unwrap();
    assert_eq!(p.name, "Alex Lee");
    assert_eq!(p.rating, 6000);
    assert!(!p.gender);
    assert_eq!(p.fixed_team, None);
    assert_eq!(p.position, tags(&["mid"]));
}

#[test]
fn absent_row_is_left_out() {
    assert!(Player::from_row("Sam,Ng,F,8.0,n").is_none());
    assert!(matches!(Player::parse_row("Sam,Ng,F,8.0,n"), Ok(None)));
}

#[test]
fn full_row_is_read_field_by_field() {
    let p = Player::from_row("Jane,Doe,F,7.5,y,A,gk/df").unwrap();
    assert_eq!(p.name, "Jane Doe");
    assert_eq!(p.rating, 7500);
    assert!(p.gender);
    assert_eq!(p.fixed_team, Some(true));
    assert_eq!(p.position, tags(&["gk", "df"]));
    let q = Player::from_row("Jo,Poe,f,3,y,B").unwrap();
    assert!(!q.gender);
    assert_eq!(q.rating, 3000);
    assert_eq!(q.fixed_team, Some(false));
    assert_eq!(q.position, None);
    let r = Player::from_row("Al,Bo,F,1.25,y").unwrap();
    assert_eq!(r.fixed_team, None);
    assert_eq!(r.position, None);
    assert_eq!(r.rating, 1250);
}

#[test]
fn pin_token_must_be_exact() {
    for token in ["a", "b", "AB", " A", "C", ""] {
        let row = format!("Al,Bo,M,1,y,{}", token);
        assert_eq!(Player::from_row(&row).unwrap().fixed_team, None);
    }
}

#[test]
fn attendance_token_must_be_exact() {
    for token in ["Y", "yes", " y", "y ", "", "y\r"] {
        let row = format!("Al,Bo,M,1,{}", token);
        assert!(matches!(Player::parse_row(&row), Ok(None)));
    }
}

#[test]
fn tags_are_trimmed_and_lowered() {
    let p = Player::from_row("Al,Bo,M,1,y,, GK / Df /fw \r").unwrap();
    assert_eq!(p.position, tags(&["gk", "df", "fw"]));
    let q = Player::from_row("Al,Bo,M,1,y,,   ").unwrap();
    assert_eq!(q.position, None);
    let r = Player::from_row("Al,Bo,M,1,y,,gk//MID,ignored").unwrap();
    assert_eq!(r.position, tags(&["gk", "", "mid"]));
    assert_eq!(read_tags(&chars("\u{2003}ÀB\u{a0}")), tags(&["àb"]));
    assert_eq!(read_tags(&chars("")), None);
    assert_eq!(read_tags(&chars("/")), tags(&["", ""]));
}

#[test]
fn malformed_rows_are_errors() {
    assert_eq!(Player::parse_row("").err(), Some(RowParseError::MissingField));
    assert_eq!(Player::parse_row("a,b,c,1").err(), Some(RowParseError::MissingField));
    assert_eq!(Player::parse_row("a,b,c,x,y").err(), Some(RowParseError::BadRating));
    assert_eq!(Player::parse_row("a,b,c,,n").err(), Some(RowParseError::BadRating));
    assert_eq!(Player::parse_row("a,b,c, 7,y").err(), Some(RowParseError::BadRating));
    assert!(Player::from_row("a,b,c,x,y").is_none());
    assert!(Player::from_row("a,b").is_none());
}

#[test]
fn ratings_are_read_in_thousandths() {
    assert_eq!(rating("6.0"), Some(6000));
    assert_eq!(rating("7.5"), Some(7500));
    assert_eq!(rating("8"), Some(8000));
    assert_eq!(rating("0"), Some(0));
    assert_eq!(rating("-2.25"), Some(-2250));
    assert_eq!(rating("+3.125"), Some(3125));
    assert_eq!(rating("3.1259"), Some(3125));
    assert_eq!(rating("-3.1259"), Some(-3125));
    assert_eq!(rating(".5"), Some(500));
    assert_eq!(rating("5."), Some(5000));
    assert_eq!(rating("007.010"), Some(7010));
    assert_eq!(rating("0.001"), Some(1));
    assert_eq!(rating("0.0009"), Some(0));
    assert_eq!(rating("-0"), Some(0));
    assert_eq!(rating("2147483.647"), Some(i32::MAX));
    assert_eq!(rating("-2147483.647"), Some(-i32::MAX));
    assert_eq!(rating("2147483.648"), None);
    assert_eq!(rating("-2147483.648"), None);
    assert_eq!(rating("9999999"), None);
    assert_eq!(rating("10000000"), None);
    assert_eq!(rating("99999999999999999999999999999999"), None);
    assert_eq!(rating("00000000000000000000000000000001.5"), Some(1500));
}

#[test]
fn texts_that_are_no_decimal_numbers() {
    for text in ["", ".", "-", "+", "+.", "1.2.3", "1,5", "1e3", "abc", " 1", "1 ", "--1", "٣", "inf", "NaN", "1_000"] {
        assert_eq!(rating(text), None, "{:?}", text);
    }
}

#[test]
fn sheet_is_read_after_its_header() {
    let text = "Team list\nupdated weekly\nfName,lName,gender,rating,attending,team,position\nJane,Doe,F,7.5,y,A,gk/df\nSam,Ng,F,8.0,n\nbroken row\nAlex,Lee,M,6.0,y,,mid\nAl,Bo,M,high,y\n";
    let sheet = read_sheet(text);
    let names: Vec<&str> = sheet.players.iter().map(|p| p.name.as_str()).collect();
    assert_eq!(names, vec!["Jane Doe", "Alex Lee"]);
    assert_eq!(sheet.players[0].rating, 7500);
    assert_eq!(sheet.players[1].position, tags(&["mid"]));
    // Line 5 has one field, line 7 has no rating, line 8 is the empty line
    // after the last line break.
    assert_eq!(sheet.skipped, vec![5, 7, 8]);
}

#[test]
fn sheet_without_header_has_no_rows() {
    let sheet = read_sheet("Jane,Doe,F,7.5,y,A,gk/df\nAlex,Lee,M,6.0,y,,mid");
    assert!(sheet.players.is_empty());
    assert!(sheet.skipped.is_empty());
    let empty = read_sheet("");
    assert!(empty.players.is_empty() && empty.skipped.is_empty());
    let only_header = read_sheet("fName,lName");
    assert!(only_header.players.is_empty() && only_header.skipped.is_empty());
}

#[test]
fn header_is_the_first_line_that_starts_with_its_name() {
    let sheet = read_sheet("xfName\nfNameAndMore\nA,B,M,1,y\nfName\nC,D,M,2,y");
    let names: Vec<&str> = sheet.players.iter().map(|p| p.name.as_str()).collect();
    assert_eq!(names, vec!["A B", "C D"]);
    assert_eq!(sheet.skipped, vec![3]);
}

#[test]
fn text_is_split_at_every_separator() {
    let pieces = |s: &str, sep: char| -> Vec<String> {
        split_chars(&chars(s), sep).iter().map(|p| p.iter().collect()).collect()
    };
    assert_eq!(pieces("a,b,,c", ','), vec!["a", "b", "", "c"]);
    assert_eq!(pieces("", ','), vec![""]);
    assert_eq!(pieces(",", ','), vec!["", ""]);
    assert_eq!(pieces("abc", ','), vec!["abc"]);
    assert_eq!(pieces("a,b,", ','), vec!["a", "b", ""]);
    assert_eq!(pieces("gk/df", '/'), vec!["gk", "df"]);
}

#[test]
fn text_helpers_agree_with_their_meaning() {
    let s = chars("  héllo, wörld \t");
    assert_eq!(chars_of("héllo"), chars("héllo"));
    assert_eq!(string_of(&s, 2, 7), "héllo");
    assert_eq!(copy_range(&s, 2, 7), chars("héllo"));
    assert_eq!(copy_range(&s, 3, 3), chars(""));
    assert_eq!(trim_chars(&s), chars("héllo, wörld"));
    assert_eq!(trim_chars(&chars(" \n\t ")), chars(""));
    assert_eq!(trim_chars(&chars("")), chars(""));
    assert_eq!(trim_chars(&chars("a b")), chars("a b"));
    assert_eq!(find_char(&s, 0, ','), 7);
    assert_eq!(find_char(&s, 8, ','), s.len());
    assert_eq!(find_char(&s, 7, ','), 7);
    assert_eq!(find_char(&s, s.len(), ','), s.len());
    assert!(starts_with(&chars("fName,x"), &chars("fName")));
    assert!(starts_with(&chars("fName"), &chars("")));
    assert!(!starts_with(&chars("fNam"), &chars("fName")));
    assert!(!starts_with(&chars("xfName"), &chars("fName")));
    assert!(is_char(&chars("y"), 'y'));
    assert!(!is_char(&chars("yy"), 'y'));
    assert!(!is_char(&chars(""), 'y'));
    assert!(!is_char(&chars("n"), 'y'));
    assert_eq!(lowercase_string(&chars("GK")), "gk");
    assert_eq!(lowercase_string(&chars("ὈΔΥΣΣΕΎΣ")), "ὀδυσσεύς");
    let mut out = "ab".to_string();
    push_chars(&mut out, &chars("cd"));
    assert_eq!(out, "abcd");
}

#[test]
fn sheet_address_becomes_export_address() {
    assert_eq!(
        csv_export_url("https://docs.google.com/spreadsheets/d/abc-DEF_123/edit?gid=42#gid=42"),
        Some("https://docs.google.com/spreadsheets/d/abc-DEF_123/export?format=csv&gid=42".to_string())
    );
    assert_eq!(
        csv_export_url("docs.google.com/spreadsheets/d/x/edit?gid=0"),
        Some("https://docs.google.com/spreadsheets/d/x/export?format=csv&gid=0".to_string())
    );
    assert_eq!(
        csv_export_url("see http://docs.google.com/spreadsheets/d//edit?gid=&x=1"),
        Some("https://docs.google.com/spreadsheets/d//export?format=csv&gid=".to_string())
    );
    assert_eq!(csv_export_url(""), None);
    assert_eq!(csv_export_url("https://example.com/spreadsheets/d/abc/edit?gid=0"), None);
    assert_eq!(csv_export_url("https://docs.google.com/spreadsheets/d/abc/view?gid=0"), None);
    assert_eq!(csv_export_url("https://docs.google.com/spreadsheets/d/a b/edit?gid=0"), None);
}

#[test]
fn export_address_needs_identifier_and_tab() {
    let some = |s: &str| Some(s.to_string());
    let groups = Some(vec![some("whole"), None, None, some("ID"), some("7"), None]);
    assert_eq!(
        export_url_of(&groups),
        some("https://docs.google.com/spreadsheets/d/ID/export?format=csv&gid=7")
    );
    assert_eq!(export_url_of(&None), None);
    assert_eq!(export_url_of(&Some(vec![some("w"), None, None, some("ID")])), None);
    assert_eq!(export_url_of(&Some(vec![some("w"), None, None, None, some("7")])), None);
    assert_eq!(export_url_of(&Some(vec![some("w"), None, None, some("ID"), None])), None);
    assert_eq!(export_url_of(&Some(vec![])), None);
}
