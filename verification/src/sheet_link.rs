//! From the address of a sheet, as copied from the browser, to the address
//! that exports the same sheet as comma-separated text.

use vstd::prelude::*;
use vstd::string::*;
use regex::Regex;

verus! {

/// What a search for the regular expression `pattern` in `text` finds: `None`
/// if `pattern` is no valid expression or matches nowhere in `text`, else the
/// capture groups of the leftmost match in the order of their opening
/// parentheses, the whole match first, each `None` if the group took no part
/// in the match.
pub uninterp spec fn regex_groups(pattern: Seq<char>, text: Seq<char>) -> Option<
    Seq<Option<Seq<char>>>,
>;

/// The texts of a list of optional strings.
pub open spec fn group_texts(groups: Seq<Option<String>>) -> Seq<Option<Seq<char>>> {
    groups.map_values(
        |g: Option<String>|
            match g {
                Some(s) => Some(s@),
                None => None,
            },
    )
}

/// The capture groups of the leftmost match of `pattern` in `text`.
///
/// Compiles the expression with `regex::Regex::new` and searches with
/// `regex::Regex::captures`; the groups are read with
/// `regex::Captures::iter`. Both steps depend on the two texts alone, and
/// `regex_groups` names what they find. Nothing more is claimed of it.
#[verifier::external_body]
fn captures(pattern: &str, text: &str) -> (r: Option<Vec<Option<String>>>)
    ensures
        match r {
            Some(groups) => regex_groups(pattern@, text@) == Some(group_texts(groups@)),
            None => regex_groups(pattern@, text@) is None,
        },
{
    let re = Regex::new(pattern).ok()?;
    let found = re.captures(text)?;
    Some(found.iter().map(|g| g.map(|m| m.as_str().to_owned())).collect())
}

/// The expression that a sheet's address is searched with. Its third group
/// is the sheet's identifier and its fourth the number of the tab.
pub open spec fn sheet_pattern() -> Seq<char> {
    "(http(s)?:\\/\\/)?docs\\.google\\.com\\/spreadsheets\\/d\\/([\\w-]*)\\/edit\\?gid=(\\w*)(#)?.*"@
}

/// The export address for the capture groups of a sheet's address: none
/// unless the identifier and the tab were both found.
pub open spec fn export_address(groups: Option<Seq<Option<Seq<char>>>>) -> Option<Seq<char>> {
    match groups {
        Some(g) => if g.len() > 4 && g[3] is Some && g[4] is Some {
            Some(
                "https://docs.google.com/spreadsheets/d/"@ + g[3]->0 + "/export?format=csv&gid="@
                    + g[4]->0,
            )
        } else {
            None
        },
        None => None,
    }
}

/// The export address for the capture groups of a sheet's address.
pub fn export_url_of(groups: &Option<Vec<Option<String>>>) -> (r: Option<String>)
    ensures
        match r {
            Some(url) => export_address(
                match *groups {
                    Some(g) => Some(group_texts(g@)),
                    None => None,
                },
            ) == Some(url@),
            None => export_address(
                match *groups {
                    Some(g) => Some(group_texts(g@)),
                    None => None,
                },
            ) is None,
        },
{
    match groups {
        Some(g) => {
            if g.len() <= 4 {
                return None;
            }
            proof {
                assert(group_texts(g@)[3] == match g@[3] {
                    Some(s) => Some(s@),
                    None => None,
                });
                assert(group_texts(g@)[4] == match g@[4] {
                    Some(s) => Some(s@),
                    None => None,
                });
            }
            match (&g[3], &g[4]) {
                (Some(id), Some(tab)) => {
                    let mut url = "https://docs.google.com/spreadsheets/d/".to_owned();
                    url.append(id.as_str());
                    url.append("/export?format=csv&gid=");
                    url.append(tab.as_str());
                    Some(url)
                },
                _ => None,
            }
        },
        None => None,
    }
}

/// The address that exports a sheet as comma-separated text, for the address
/// of the sheet as the browser shows it. `None` if the address is not that of
/// a sheet.
pub fn csv_export_url(sheet_url: &str) -> (r: Option<String>)
    ensures
        match r {
            Some(url) => export_address(regex_groups(sheet_pattern(), sheet_url@)) == Some(url@),
            None => export_address(regex_groups(sheet_pattern(), sheet_url@)) is None,
        },
{
    let groups = captures(
        "(http(s)?:\\/\\/)?docs\\.google\\.com\\/spreadsheets\\/d\\/([\\w-]*)\\/edit\\?gid=(\\w*)(#)?.*",
        sheet_url,
    );
    export_url_of(&groups)
}

} // verus!
