//! Reading a roster from the rows of a sheet.
//!
//! A row holds, separated by commas: first name, last name, gender (`F` for
//! female), rating, attendance (`y` for attending), and optionally the side
//! the player is pinned to (`A` or `B`) and the player's positions, separated
//! by `/`. A rating is a decimal number; it is kept in thousandths, and digits
//! beyond the third decimal place are dropped.

use vstd::prelude::*;
use crate::roster::{texts, views, Player, PlayerView};
use crate::text::{
    chars_of, find_char, first_index, is_char, lemma_first_index, lowercase, lowercase_string,
    pieces, push_chars, split, split_chars, starts_with, trim_chars, trimmed,
};

verus! {

/// Why a row could not be read.
#[derive(Debug, Clone, Copy, PartialEq, Eq, Structural)]
pub enum RowParseError {
    /// The row has fewer than the five fields that every row must have.
    MissingField,
    /// The rating is no decimal number, or it is too large to be held.
    BadRating,
}

/// Whether `c` is a decimal digit.
pub open spec fn is_digit(c: char) -> bool {
    '0' as u32 <= c as u32 <= '9' as u32
}

/// The value of a decimal digit.
pub open spec fn digit_value(c: char) -> int {
    c as u32 - '0' as u32
}

/// Whether `s` holds decimal digits only.
pub open spec fn all_digits(s: Seq<char>) -> bool {
    forall|i: int| 0 <= i < s.len() ==> is_digit(#[trigger] s[i])
}

/// The number that the digits `s` write; 0 for no digits.
pub open spec fn number(s: Seq<char>) -> int
    decreases s.len(),
{
    if s.len() == 0 {
        0
    } else {
        number(s.drop_last()) * 10 + digit_value(s.last())
    }
}

/// The digit at decimal place `place` (0 for tenths), 0 if `frac` is shorter.
pub open spec fn frac_digit(frac: Seq<char>, place: int) -> int {
    if place < frac.len() {
        digit_value(frac[place])
    } else {
        0
    }
}

/// The thousandths that the decimal places `frac` write: places beyond the
/// third are dropped.
pub open spec fn thousandths(frac: Seq<char>) -> int {
    100 * frac_digit(frac, 0) + 10 * frac_digit(frac, 1) + frac_digit(frac, 2)
}

/// The thousandths that an unsigned decimal number writes: digits, then
/// optionally a point and more digits, with at least one digit in all.
pub open spec fn unsigned_rating(body: Seq<char>) -> Option<int> {
    let point = first_index(body, '.');
    let whole = body.take(point);
    let frac = if point < body.len() {
        body.skip(point + 1)
    } else {
        Seq::empty()
    };
    if all_digits(whole) && all_digits(frac) && whole.len() + frac.len() > 0 {
        Some(number(whole) * 1000 + thousandths(frac))
    } else {
        None
    }
}

/// The rating that the text `s` writes, in thousandths: an unsigned decimal
/// number with an optional sign before it, of a magnitude that fits.
pub open spec fn rating_value(s: Seq<char>) -> Option<int> {
    let signed = s.len() > 0 && (s[0] == '-' || s[0] == '+');
    let body = if signed {
        s.drop_first()
    } else {
        s
    };
    match unsigned_rating(body) {
        Some(m) => if m <= i32::MAX {
            Some(if signed && s[0] == '-' {
                -m
            } else {
                m
            })
        } else {
            None
        },
        None => None,
    }
}

/// Appending a digit multiplies the number by ten and adds the digit, so the
/// number never shrinks.
pub proof fn lemma_number_grows(s: Seq<char>)
    requires
        all_digits(s),
    ensures
        0 <= number(s),
        s.len() > 0 ==> number(s.drop_last()) <= number(s),
    decreases s.len(),
{
    if s.len() > 0 {
        assert(is_digit(s[s.len() - 1]));
        assert forall|i: int| 0 <= i < s.drop_last().len() implies is_digit(
            #[trigger] s.drop_last()[i],
        ) by {
            assert(s.drop_last()[i] == s[i]);
        }
        lemma_number_grows(s.drop_last());
    }
}

/// The largest whole part that is read exactly: any number from here on is
/// too large for a rating.
pub const WHOLE_LIMIT: u64 = 10_000_000;

fn is_digit_char(c: char) -> (b: bool)
    ensures
        b == is_digit(c),
{
    '0' <= c && c <= '9'
}

fn digit_of(c: char) -> (d: u64)
    requires
        is_digit(c),
    ensures
        d == digit_value(c),
{
    (c as u32 - '0' as u32) as u64
}

/// Whether `s[from..to]` holds decimal digits only.
fn digits_only(s: &[char], from: usize, to: usize) -> (b: bool)
    requires
        from <= to <= s.len(),
    ensures
        b == all_digits(s@.subrange(from as int, to as int)),
{
    let mut i: usize = from;
    while i < to
        invariant
            from <= i <= to <= s.len(),
            forall|j: int| from <= j < i ==> is_digit(#[trigger] s@[j]),
        decreases to - i,
    {
        if !is_digit_char(s[i]) {
            proof {
                assert(s@.subrange(from as int, to as int)[i - from] == s@[i as int]);
            }
            return false;
        }
        i += 1;
    }
    proof {
        assert forall|j: int| 0 <= j < to - from implies is_digit(
            #[trigger] s@.subrange(from as int, to as int)[j],
        ) by {
            assert(is_digit(s@[from + j]));
        }
    }
    true
}

/// The number that the digits `s[from..to]` write, or `WHOLE_LIMIT` if it is
/// that large or larger.
fn number_capped(s: &[char], from: usize, to: usize) -> (r: u64)
    requires
        from <= to <= s.len(),
        all_digits(s@.subrange(from as int, to as int)),
    ensures
        r <= WHOLE_LIMIT,
        r < WHOLE_LIMIT ==> r == number(s@.subrange(from as int, to as int)),
        r == WHOLE_LIMIT ==> number(s@.subrange(from as int, to as int)) >= WHOLE_LIMIT,
{
    let mut acc: u64 = 0;
    let mut i: usize = from;
    while i < to
        invariant
            from <= i <= to <= s.len(),
            all_digits(s@.subrange(from as int, to as int)),
            acc <= WHOLE_LIMIT,
            acc < WHOLE_LIMIT ==> acc == number(s@.subrange(from as int, i as int)),
            acc == WHOLE_LIMIT ==> number(s@.subrange(from as int, i as int)) >= WHOLE_LIMIT,
        decreases to - i,
    {
        proof {
            let next = s@.subrange(from as int, i + 1);
            assert(next.drop_last() =~= s@.subrange(from as int, i as int));
            assert(next.last() == s@.subrange(from as int, to as int)[i - from]);
            assert forall|j: int| 0 <= j < next.len() implies is_digit(#[trigger] next[j]) by {
                assert(next[j] == s@.subrange(from as int, to as int)[j]);
            }
            lemma_number_grows(next);
        }
        let d = digit_of(s[i]);
        let grown = acc * 10 + d;
        acc = if grown >= WHOLE_LIMIT {
            WHOLE_LIMIT
        } else {
            grown
        };
        i += 1;
    }
    acc
}

fn place_value(s: &[char], from: usize, place: usize) -> (d: u64)
    requires
        from <= s.len(),
        all_digits(s@.skip(from as int)),
    ensures
        d == frac_digit(s@.skip(from as int), place as int),
        d <= 9,
{
    if place < s.len() - from {
        proof {
            assert(s@.skip(from as int)[place as int] == s@[from + place]);
            assert(is_digit(s@.skip(from as int)[place as int]));
        }
        digit_of(s[from + place])
    } else {
        0
    }
}

/// The rating that the text writes, in thousandths.
pub fn parse_rating(s: &[char]) -> (r: Option<i32>)
    ensures
        r matches Some(v) ==> rating_value(s@) == Some(v as int),
        r is None ==> rating_value(s@) is None,
{
    let signed = s.len() > 0 && (s[0] == '-' || s[0] == '+');
    let start: usize = if signed {
        1
    } else {
        0
    };
    let ghost body = s@.skip(start as int);
    proof {
        if signed {
            assert(s@.drop_first() =~= body);
        } else {
            assert(s@ =~= body);
        }
        lemma_first_index(body, '.');
    }
    let point = find_char(s, start, '.');
    let frac_start: usize = if point < s.len() {
        point + 1
    } else {
        point
    };
    let ghost whole = body.take(point - start);
    let ghost frac = if point < s.len() {
        body.skip(point - start + 1)
    } else {
        Seq::<char>::empty()
    };
    proof {
        assert(s@.subrange(start as int, point as int) =~= whole);
        assert(s@.subrange(frac_start as int, s.len() as int) =~= frac);
        assert(s@.skip(frac_start as int) =~= frac);
    }
    if !digits_only(s, start, point) || !digits_only(s, frac_start, s.len()) {
        return None;
    }
    if point - start + (s.len() - frac_start) == 0 {
        return None;
    }
    let whole_value = number_capped(s, start, point);
    let parts = 100 * place_value(s, frac_start, 0) + 10 * place_value(s, frac_start, 1)
        + place_value(s, frac_start, 2);
    if whole_value >= WHOLE_LIMIT {
        return None;
    }
    let magnitude = whole_value * 1000 + parts;
    if magnitude > i32::MAX as u64 {
        return None;
    }
    let value = magnitude as i32;
    if signed && s[0] == '-' {
        Some(-value)
    } else {
        Some(value)
    }
}

/// The side that a row pins its player to: `A` or `B` in the sixth field.
pub open spec fn row_pin(fields: Seq<Seq<char>>) -> Option<bool> {
    if fields.len() > 5 && fields[5] == seq!['A'] {
        Some(true)
    } else if fields.len() > 5 && fields[5] == seq!['B'] {
        Some(false)
    } else {
        None
    }
}

/// The tag that one piece of the position field writes.
pub open spec fn tag_of(piece: Seq<char>) -> Seq<char> {
    lowercase(trimmed(piece))
}

/// The positions that a field writes: none if it is blank, else its pieces
/// between `/`, each without the whitespace around it and in lower case.
pub open spec fn tag_list(field: Seq<char>) -> Option<Seq<Seq<char>>> {
    let all = trimmed(field);
    if all.len() == 0 {
        None
    } else {
        Some(split(all, '/').map_values(|piece: Seq<char>| tag_of(piece)))
    }
}

/// What a row says: the player if the row is attending, nothing if it is
/// not, or why the row cannot be read.
pub open spec fn row_player(row: Seq<char>) -> Result<Option<PlayerView>, RowParseError> {
    let fields = split(row, ',');
    if fields.len() < 5 {
        Err(RowParseError::MissingField)
    } else {
        match rating_value(fields[3]) {
            None => Err(RowParseError::BadRating),
            Some(rating) => if fields[4] == seq!['y'] {
                Ok(
                    Some(
                        PlayerView {
                            name: fields[0] + seq![' '] + fields[1],
                            rating,
                            gender: fields[2] == seq!['F'],
                            fixed_team: row_pin(fields),
                            position: if fields.len() > 6 {
                                tag_list(fields[6])
                            } else {
                                None
                            },
                        },
                    ),
                )
            } else {
                Ok(None)
            },
        }
    }
}

/// What was read from a row, as plain values.
pub open spec fn read_view(r: Result<Option<Player>, RowParseError>) -> Result<
    Option<PlayerView>,
    RowParseError,
> {
    match r {
        Ok(Some(p)) => Ok(Some(p@)),
        Ok(None) => Ok(None),
        Err(e) => Err(e),
    }
}

/// The positions that a field writes.
pub fn read_tags(field: &[char]) -> (r: Option<Vec<String>>)
    ensures
        match r {
            Some(tags) => tag_list(field@) == Some(texts(tags@)),
            None => tag_list(field@) is None,
        },
{
    let all = trim_chars(field);
    if all.len() == 0 {
        return None;
    }
    let parts = split_chars(all.as_slice(), '/');
    let ghost wanted = split(all@, '/').map_values(|piece: Seq<char>| tag_of(piece));
    let mut tags: Vec<String> = Vec::new();
    let mut i: usize = 0;
    while i < parts.len()
        invariant
            i <= parts.len(),
            pieces(parts@) == split(all@, '/'),
            wanted == split(all@, '/').map_values(|piece: Seq<char>| tag_of(piece)),
            tags.len() == i,
            forall|j: int| 0 <= j < i ==> (#[trigger] tags@[j])@ == wanted[j],
        decreases parts.len() - i,
    {
        let piece = trim_chars(parts[i].as_slice());
        proof {
            assert(pieces(parts@)[i as int] == parts@[i as int]@);
        }
        tags.push(lowercase_string(piece.as_slice()));
        i += 1;
    }
    proof {
        assert(texts(tags@) =~= wanted);
    }
    Some(tags)
}

impl Player {
    /// Reads one row of the sheet.
    ///
    /// `Ok(Some(..))` holds the player of an attending row and `Ok(None)`
    /// stands for a row that is not attending. A row with fewer than five
    /// fields, or with a rating that cannot be read, is an error.
    pub fn parse_row(value: &str) -> (r: Result<Option<Player>, RowParseError>)
        ensures
            read_view(r) == row_player(value@),
    {
        let row = chars_of(value);
        let fields = split_chars(row.as_slice(), ',');
        let ghost texts_of_fields = split(value@, ',');
        proof {
            assert(pieces(fields@) == texts_of_fields);
            assert forall|k: int| 0 <= k < fields.len() implies (#[trigger] fields@[k])@
                == texts_of_fields[k] by {
                assert(pieces(fields@)[k] == fields@[k]@);
            }
        }
        if fields.len() < 5 {
            return Err(RowParseError::MissingField);
        }
        let mut name = String::new();
        push_chars(&mut name, fields[0].as_slice());
        name.push(' ');
        push_chars(&mut name, fields[1].as_slice());
        proof {
            assert(name@ =~= texts_of_fields[0] + seq![' '] + texts_of_fields[1]);
        }
        let gender = is_char(fields[2].as_slice(), 'F');
        let rating = match parse_rating(fields[3].as_slice()) {
            Some(v) => v,
            None => {
                return Err(RowParseError::BadRating);
            },
        };
        let attending = is_char(fields[4].as_slice(), 'y');
        let fixed_team = if fields.len() > 5 && is_char(fields[5].as_slice(), 'A') {
            Some(true)
        } else if fields.len() > 5 && is_char(fields[5].as_slice(), 'B') {
            Some(false)
        } else {
            None
        };
        let position = if fields.len() > 6 {
            read_tags(fields[6].as_slice())
        } else {
            None
        };
        if attending {
            Ok(Some(Player { name, rating, gender, fixed_team, position }))
        } else {
            Ok(None)
        }
    }

    /// The player of a row, if the row can be read and is attending.
    pub fn from_row(value: &str) -> (r: Option<Player>)
        ensures
            match r {
                Some(p) => row_player(value@) == Ok::<Option<PlayerView>, RowParseError>(
                    Some(p@),
                ),
                None => !(row_player(value@) matches Ok(Some(_))),
            },
    {
        match Player::parse_row(value) {
            Ok(Some(p)) => Some(p),
            _ => None,
        }
    }
}

/// Whether a line is the header of the sheet: it starts with `fName`.
pub open spec fn is_header(line: Seq<char>) -> bool {
    line.len() >= 5 && line.take(5) == seq!['f', 'N', 'a', 'm', 'e']
}

/// The number of lines before the header, or the number of lines if there
/// is no header.
pub open spec fn header_index(lines: Seq<Seq<char>>) -> int
    decreases lines.len(),
{
    if lines.len() == 0 || is_header(lines.first()) {
        0
    } else {
        1 + header_index(lines.drop_first())
    }
}

/// The players of the attending rows among `rows`, in order.
pub open spec fn rows_players(rows: Seq<Seq<char>>) -> Seq<PlayerView>
    decreases rows.len(),
{
    if rows.len() == 0 {
        Seq::empty()
    } else {
        let before = rows_players(rows.drop_last());
        match row_player(rows.last()) {
            Ok(Some(p)) => before.push(p),
            _ => before,
        }
    }
}

/// The positions among `rows` of the rows that cannot be read, ascending.
pub open spec fn rows_skipped(rows: Seq<Seq<char>>) -> Seq<int>
    decreases rows.len(),
{
    if rows.len() == 0 {
        Seq::empty()
    } else {
        let before = rows_skipped(rows.drop_last());
        if row_player(rows.last()) is Err {
            before.push(rows.len() - 1)
        } else {
            before
        }
    }
}

/// The lines of a sheet.
pub open spec fn sheet_lines(text: Seq<char>) -> Seq<Seq<char>> {
    split(text, '\n')
}

/// The line number of the first row: the line after the header, or the
/// number of lines if there is no header.
pub open spec fn sheet_row_start(text: Seq<char>) -> int {
    let lines = sheet_lines(text);
    let header = header_index(lines);
    if header < lines.len() {
        header + 1
    } else {
        lines.len() as int
    }
}

/// The rows of a sheet: its lines after the header.
pub open spec fn sheet_rows(text: Seq<char>) -> Seq<Seq<char>> {
    sheet_lines(text).skip(sheet_row_start(text))
}

/// What was read from a sheet.
#[derive(Clone, Debug)]
pub struct Sheet {
    /// The players of the attending rows, in the order of the rows.
    pub players: Vec<Player>,
    /// The line numbers, counted from 0, of the rows that were skipped
    /// because they could not be read.
    pub skipped: Vec<usize>,
}

/// What `header_index` returns: a line number or the number of lines, with no
/// header before it and, if it is a line number, the header at it.
pub proof fn lemma_header_index(lines: Seq<Seq<char>>, k: int)
    requires
        0 <= k <= lines.len(),
        forall|j: int| 0 <= j < k ==> !is_header(#[trigger] lines[j]),
        k < lines.len() ==> is_header(lines[k]),
    ensures
        header_index(lines) == k,
    decreases lines.len(),
{
    if lines.len() == 0 || is_header(lines.first()) {
        if k > 0 {
            assert(!is_header(lines[0]));
        }
    } else {
        let rest = lines.drop_first();
        assert forall|j: int| 0 <= j < k - 1 implies !is_header(#[trigger] rest[j]) by {
            assert(rest[j] == lines[j + 1]);
        }
        if k < lines.len() {
            assert(rest[k - 1] == lines[k]);
        }
        lemma_header_index(rest, k - 1);
    }
}

fn header_prefix() -> (r: Vec<char>)
    ensures
        r@ == seq!['f', 'N', 'a', 'm', 'e'],
{
    let mut v: Vec<char> = Vec::new();
    v.push('f');
    v.push('N');
    v.push('a');
    v.push('m');
    v.push('e');
    proof {
        assert(v@ =~= seq!['f', 'N', 'a', 'm', 'e']);
    }
    v
}

/// Reads a sheet: the lines up to and including the header are passed over,
/// and each line after it is read as a row. Rows that are not attending are
/// dropped; rows that cannot be read are skipped and reported.
pub fn read_sheet(text: &str) -> (r: Sheet)
    ensures
        views(r.players@) == rows_players(sheet_rows(text@)),
        r.skipped@.len() == rows_skipped(sheet_rows(text@)).len(),
        forall|k: int|
            0 <= k < r.skipped@.len() ==> (#[trigger] r.skipped@[k]) == sheet_row_start(text@)
                + rows_skipped(sheet_rows(text@))[k],
{
    let all = chars_of(text);
    let lines = split_chars(all.as_slice(), '\n');
    let prefix = header_prefix();
    let ghost line_texts = sheet_lines(text@);
    proof {
        assert(pieces(lines@) == line_texts);
        assert forall|k: int| 0 <= k < lines.len() implies (#[trigger] lines@[k])@
            == line_texts[k] by {
            assert(pieces(lines@)[k] == lines@[k]@);
        }
    }
    let mut start: usize = 0;
    while start < lines.len() && !starts_with(lines[start].as_slice(), prefix.as_slice())
        invariant
            start <= lines.len(),
            lines.len() == line_texts.len(),
            prefix@ == seq!['f', 'N', 'a', 'm', 'e'],
            forall|k: int| 0 <= k < lines.len() ==> (#[trigger] lines@[k])@ == line_texts[k],
            forall|j: int| 0 <= j < start ==> !is_header(#[trigger] line_texts[j]),
        decreases lines.len() - start,
    {
        start += 1;
    }
    proof {
        lemma_header_index(line_texts, start as int);
    }
    if start < lines.len() {
        start += 1;
    }
    let ghost rows = sheet_rows(text@);
    let mut players: Vec<Player> = Vec::new();
    let mut skipped: Vec<usize> = Vec::new();
    let mut i: usize = start;
    proof {
        assert(rows.take(0) =~= Seq::<Seq<char>>::empty());
        assert(views(players@) =~= rows_players(rows.take(0)));
    }
    while i < lines.len()
        invariant
            start <= i <= lines.len(),
            lines.len() == line_texts.len(),
            start == sheet_row_start(text@),
            rows == line_texts.skip(start as int),
            forall|k: int| 0 <= k < lines.len() ==> (#[trigger] lines@[k])@ == line_texts[k],
            views(players@) == rows_players(rows.take(i - start)),
            skipped@.len() == rows_skipped(rows.take(i - start)).len(),
            forall|k: int|
                0 <= k < skipped@.len() ==> (#[trigger] skipped@[k]) == start + rows_skipped(
                    rows.take(i - start),
                )[k],
        decreases lines.len() - i,
    {
        let ghost before = players@;
        let line = string_of_line(lines[i].as_slice());
        proof {
            assert(rows.take(i - start + 1).drop_last() =~= rows.take(i - start));
            assert(rows.take(i - start + 1).last() == line_texts[i as int]);
        }
        match Player::parse_row(line.as_str()) {
            Ok(Some(p)) => {
                players.push(p);
                proof {
                    assert(views(players@) =~= views(before).push(p@));
                }
            },
            Ok(None) => {},
            Err(_) => {
                skipped.push(i);
            },
        }
        i += 1;
    }
    proof {
        assert(rows.take(lines.len() - start) =~= rows);
    }
    Sheet { players, skipped }
}

fn string_of_line(line: &[char]) -> (r: String)
    ensures
        r@ == line@,
{
    let mut out = String::new();
    push_chars(&mut out, line);
    out
}

} // verus!
