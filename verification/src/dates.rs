//! Calendar days as stamps of the form YYYYMMDD.
//!
//! The calendar itself is chrono's: which day it is, which day comes before
//! another, and how a day is written. The form of a stamp is a pattern that
//! the regex crate matches.

use crate::text::hex_char;
use chrono::Datelike;
use std::fmt::Write;
use vstd::prelude::*;
use vstd::std_specs::cmp::PartialEqSpecImpl;
use vstd::string::StringExecFns;

verus! {

/// Whether a text matches a pattern as the regex crate reads it; `None`
/// where the pattern is none.
pub uninterp spec fn regex_match(pattern: Seq<char>, text: Seq<char>) -> Option<bool>;

/// The day before the given one, where the calendar has both.
pub uninterp spec fn day_before(year: int, month: int, day: int) -> Option<(int, int, int)>;

/// A day written in a format as chrono reads it, where the calendar has the
/// day and the format can be written.
pub uninterp spec fn date_text(format: Seq<char>, year: int, month: int, day: int) -> Option<
    Seq<char>,
>;

/// The pattern of a stamp: four digits of the year, two of the month and two
/// of the day, and nothing else.
pub open spec fn ymd_pattern() -> Seq<char> {
    "^(\\d{4})(\\d{2})(\\d{2})$"@
}

/// The format of a stamp: year, month and day without separators.
pub open spec fn ymd_format() -> Seq<char> {
    "%Y%m%d"@
}

/// Whether a text matches the pattern of a stamp.
pub open spec fn matches_ymd_pattern(text: Seq<char>) -> bool {
    regex_match(ymd_pattern(), text) == Some(true)
}

/// A day written as year, month and day without separators, where the
/// calendar has the day.
pub open spec fn ymd_text(year: int, month: int, day: int) -> Option<Seq<char>> {
    date_text(ymd_format(), year, month, day)
}

/// A day of a year of at most four digits in eight digits: four of the year,
/// two of the month, two of the day.
pub open spec fn ymd_digits(year: int, month: int, day: int) -> Seq<char> {
    seq![
        hex_char(year / 1000),
        hex_char(year / 100 % 10),
        hex_char(year / 10 % 10),
        hex_char(year % 10),
        hex_char(month / 10),
        hex_char(month % 10),
        hex_char(day / 10),
        hex_char(day % 10),
    ]
}

/// Whether the first day comes before the second.
pub open spec fn comes_before(a: (int, int, int), b: (int, int, int)) -> bool {
    a.0 < b.0 || (a.0 == b.0 && (a.1 < b.1 || (a.1 == b.1 && a.2 < b.2)))
}

/// Eight digits from `0` to `9`.
pub open spec fn is_ascii_ymd(text: Seq<char>) -> bool {
    text.len() == 8 && forall|i: int| 0 <= i < 8 ==> '0' <= #[trigger] text[i] <= '9'
}

/// The stamp of a day, if the day can be written as one.
pub open spec fn stamp_text(year: int, month: int, day: int) -> Option<Seq<char>> {
    match ymd_text(year, month, day) {
        Some(text) => if matches_ymd_pattern(text) {
            Some(text)
        } else {
            None
        },
        None => None,
    }
}

/// The day that lies `back` days before the given one, where the calendar
/// has all the days in between.
pub open spec fn days_back(year: int, month: int, day: int, back: nat) -> Option<(int, int, int)>
    decreases back,
{
    if back == 0 {
        Some((year, month, day))
    } else {
        match days_back(year, month, day, (back - 1) as nat) {
            Some(d) => day_before(d.0, d.1, d.2),
            None => None,
        }
    }
}

/// The stamp of the day that lies `back` days before the given one.
pub open spec fn stamp_back(year: int, month: int, day: int, back: nat) -> Option<Seq<char>> {
    match days_back(year, month, day, back) {
        Some(d) => stamp_text(d.0, d.1, d.2),
        None => None,
    }
}

/// The texts of some stamps.
pub open spec fn stamps_of(days: Seq<DateStamp>) -> Seq<Seq<char>> {
    Seq::new(days.len(), |i: int| days[i]@)
}

/// Whether the stamps are those of the days of a week that ends with the
/// given day, oldest first, from the first day of the week on: the first
/// stamp is of the day six days before the given one.
pub open spec fn are_days_until(stamps: Seq<Seq<char>>, year: int, month: int, day: int) -> bool {
    stamps.len() <= 7 && forall|i: int|
        0 <= i < stamps.len() ==> Some(#[trigger] stamps[i]) == stamp_back(
            year,
            month,
            day,
            (6 - i) as nat,
        )
}

/// Matches a text against a pattern with the regex crate's `Regex::new` and
/// `Regex::is_match`; `None` where the regex crate refuses the pattern. The
/// result is named. The contract adds that the pattern of a stamp is a
/// pattern, and that eight digits from `0` to `9` match it, as they are
/// decimal digits.
#[verifier::external_body]
fn regex_is_match(pattern: &str, text: &str) -> (r: Option<bool>)
    ensures
        r == regex_match(pattern@, text@),
        pattern@ == ymd_pattern() ==> r is Some,
        pattern@ == ymd_pattern() && is_ascii_ymd(text@) ==> r == Some(true),
{
    regex::Regex::new(pattern).ok().map(|regex| regex.is_match(text))
}

/// Reads the clock with chrono's `Utc::now` and hands out year, month and day
/// of the current day in UTC. Nothing is claimed of them. chrono panics where
/// the clock stands before the year 1970.
#[verifier::external_body]
fn utc_today() -> (r: (i32, u32, u32)) {
    let today = chrono::Utc::now().date_naive();
    (today.year(), today.month(), today.day())
}

/// The day before a day, by chrono's `NaiveDate::pred_opt`: `None` where
/// chrono has no such day or none before it. The result is named. The
/// contract adds that the day before comes before the day, in the same year
/// or in the year before.
#[verifier::external_body]
fn previous_day(year: i32, month: u32, day: u32) -> (r: Option<(i32, u32, u32)>)
    ensures
        match r {
            Some(d) => day_before(year as int, month as int, day as int) == Some(
                (d.0 as int, d.1 as int, d.2 as int),
            ) && comes_before(
                (d.0 as int, d.1 as int, d.2 as int),
                (year as int, month as int, day as int),
            ) && d.0 >= year - 1,
            None => day_before(year as int, month as int, day as int) is None,
        },
{
    chrono::NaiveDate::from_ymd_opt(year, month, day).and_then(|d| d.pred_opt()).map(
        |d| (d.year(), d.month(), d.day()),
    )
}

/// Writes a day in a format with chrono's `NaiveDate::format`: `None` where
/// chrono has no such day or cannot write the format. The result is named.
/// The contract adds that chrono has only days of the months 1 to 12 and of
/// the days 1 to 31, and that in the format of a stamp a day of the years 0
/// to 9999 is written as four digits of the year, two of the month and two of
/// the day.
#[verifier::external_body]
fn format_date(year: i32, month: u32, day: u32, format: &str) -> (r: Option<String>)
    ensures
        match r {
            Some(text) => date_text(format@, year as int, month as int, day as int) == Some(
                text@,
            ) && 1 <= month <= 12 && 1 <= day <= 31 && (format@ == ymd_format() && 0 <= year
                <= 9999 ==> text@ == ymd_digits(year as int, month as int, day as int)),
            None => date_text(format@, year as int, month as int, day as int) is None,
        },
{
    let date = chrono::NaiveDate::from_ymd_opt(year, month, day)?;
    let mut text = String::new();
    write!(text, "{}", date.format(format)).ok()?;
    Some(text)
}

/// A date of the form YYYYMMDD.
#[derive(Debug)]
pub struct DateStamp {
    date: String,
}

impl DateStamp {
    /// The eight characters of the stamp.
    pub closed spec fn view(self) -> Seq<char> {
        self.date@
    }

    /// The invariant of the type: the text has the form of a stamp.
    #[verifier::type_invariant]
    pub closed spec fn inv(self) -> bool {
        matches_ymd_pattern(self.date@)
    }

    /// What the invariant of the type says of the text.
    pub proof fn lemma_inv(self)
        ensures
            self.inv() == matches_ymd_pattern(self@),
    {
    }

    /// Makes a stamp of a text of the form YYYYMMDD.
    pub fn from_ymd(date_ymd: String) -> (r: Self)
        requires
            matches_ymd_pattern(date_ymd@),
        ensures
            r@ == date_ymd@,
    {
        DateStamp { date: date_ymd }
    }

    /// Makes a stamp of a text if it has the form YYYYMMDD.
    pub fn try_from_ymd(date_ymd: String) -> (r: Option<Self>)
        ensures
            r is Some <==> matches_ymd_pattern(date_ymd@),
            r is Some ==> r.unwrap()@ == date_ymd@,
            is_ascii_ymd(date_ymd@) ==> r is Some,
    {
        match regex_is_match("^(\\d{4})(\\d{2})(\\d{2})$", date_ymd.as_str()) {
            Some(true) => Some(Self::from_ymd(date_ymd)),
            _ => None,
        }
    }

    /// The text of the stamp.
    pub fn into_string(self) -> (r: String)
        ensures
            r@ == self@,
            matches_ymd_pattern(r@),
    {
        proof {
            use_type_invariant(&self);
        }
        self.date
    }

    /// The text of the stamp, borrowed.
    pub fn as_str(&self) -> (r: &str)
        ensures
            r@ == self@,
            matches_ymd_pattern(r@),
    {
        proof {
            use_type_invariant(self);
        }
        self.date.as_str()
    }
}

impl PartialEq for DateStamp {
    fn eq(&self, other: &Self) -> (r: bool) {
        self.date == other.date
    }
}

impl Eq for DateStamp {

}

impl PartialEqSpecImpl for DateStamp {
    open spec fn obeys_eq_spec() -> bool {
        true
    }

    open spec fn eq_spec(&self, other: &Self) -> bool {
        self@ == other@
    }
}

impl Clone for DateStamp {
    fn clone(&self) -> (r: Self)
        ensures
            r@ == self@,
    {
        proof {
            use_type_invariant(self);
        }
        DateStamp { date: self.date.clone() }
    }
}

/// The eight digits of a day are digits from `0` to `9`.
pub proof fn lemma_ymd_digits(year: int, month: int, day: int)
    requires
        0 <= year <= 9999,
        1 <= month <= 12,
        1 <= day <= 31,
    ensures
        is_ascii_ymd(ymd_digits(year, month, day)),
{
}

/// The character of a decimal digit stands 48 places after its value.
pub proof fn lemma_digit_value(n: int)
    requires
        0 <= n < 10,
    ensures
        hex_char(n) as int == 48 + n,
{
}

/// The digits of a number below a hundred tell the number.
proof fn lemma_two_digits(a: int, b: int)
    requires
        0 <= a < 100,
        0 <= b < 100,
        hex_char(a / 10) == hex_char(b / 10),
        hex_char(a % 10) == hex_char(b % 10),
    ensures
        a == b,
{
    lemma_digit_value(a / 10);
    lemma_digit_value(b / 10);
    lemma_digit_value(a % 10);
    lemma_digit_value(b % 10);
}

/// The digits of a number below ten thousand tell the number.
proof fn lemma_four_digits(a: int, b: int)
    requires
        0 <= a <= 9999,
        0 <= b <= 9999,
        hex_char(a / 1000) == hex_char(b / 1000),
        hex_char(a / 100 % 10) == hex_char(b / 100 % 10),
        hex_char(a / 10 % 10) == hex_char(b / 10 % 10),
        hex_char(a % 10) == hex_char(b % 10),
    ensures
        a == b,
{
    lemma_digit_value(a / 1000);
    lemma_digit_value(b / 1000);
    lemma_digit_value(a / 100 % 10);
    lemma_digit_value(b / 100 % 10);
    lemma_digit_value(a / 10 % 10);
    lemma_digit_value(b / 10 % 10);
    lemma_digit_value(a % 10);
    lemma_digit_value(b % 10);
    assert(a == (a / 10) * 10 + a % 10 && b == (b / 10) * 10 + b % 10);
    assert(a / 10 == (a / 100) * 10 + a / 10 % 10 && b / 10 == (b / 100) * 10 + b / 10 % 10);
    assert(a / 100 == (a / 1000) * 10 + a / 100 % 10 && b / 100 == (b / 1000) * 10 + b / 100
        % 10);
}

/// Where each of the eight digits of a day stands.
proof fn lemma_ymd_digits_places(year: int, month: int, day: int)
    ensures
        ymd_digits(year, month, day).len() == 8,
        ymd_digits(year, month, day)[0] == hex_char(year / 1000),
        ymd_digits(year, month, day)[1] == hex_char(year / 100 % 10),
        ymd_digits(year, month, day)[2] == hex_char(year / 10 % 10),
        ymd_digits(year, month, day)[3] == hex_char(year % 10),
        ymd_digits(year, month, day)[4] == hex_char(month / 10),
        ymd_digits(year, month, day)[5] == hex_char(month % 10),
        ymd_digits(year, month, day)[6] == hex_char(day / 10),
        ymd_digits(year, month, day)[7] == hex_char(day % 10),
{
}

/// Different days of years of at most four digits are written in different
/// digits.
pub proof fn lemma_ymd_digits_differ(a: (int, int, int), b: (int, int, int))
    requires
        0 <= a.0 <= 9999 && 1 <= a.1 <= 12 && 1 <= a.2 <= 31,
        0 <= b.0 <= 9999 && 1 <= b.1 <= 12 && 1 <= b.2 <= 31,
        ymd_digits(a.0, a.1, a.2) == ymd_digits(b.0, b.1, b.2),
    ensures
        a == b,
{
    lemma_ymd_digits_places(a.0, a.1, a.2);
    lemma_ymd_digits_places(b.0, b.1, b.2);
    lemma_two_digits(a.1, b.1);
    lemma_two_digits(a.2, b.2);
    lemma_four_digits(a.0, b.0);
}

/// The stamp of a day, if the calendar has the day and writes it as a stamp.
pub fn date_stamp_of(year: i32, month: u32, day: u32) -> (r: Option<DateStamp>)
    ensures
        match r {
            Some(stamp) => stamp_text(year as int, month as int, day as int) == Some(stamp@),
            None => stamp_text(year as int, month as int, day as int) is None,
        },
        r is Some ==> 1 <= month <= 12 && 1 <= day <= 31,
        r is Some && 0 <= year <= 9999 ==> r.unwrap()@ == ymd_digits(
            year as int,
            month as int,
            day as int,
        ),
        0 <= year <= 9999 ==> (r is Some <==> ymd_text(year as int, month as int, day as int)
            is Some),
{
    match format_date(year, month, day, "%Y%m%d") {
        Some(text) => {
            proof {
                if 0 <= year <= 9999 {
                    lemma_ymd_digits(year as int, month as int, day as int);
                }
            }
            DateStamp::try_from_ymd(text)
        },
        None => None,
    }
}

/// The stamps of the seven days that end with the given one, oldest first.
/// `None` if one of them cannot be had. From the year 6 to the year 9999 the
/// seven stamps differ from each other.
pub fn last_seven_days_until(year: i32, month: u32, day: u32) -> (r: Option<Vec<DateStamp>>)
    ensures
        r is Some <==> forall|back: nat|
            back < 7 ==> #[trigger] stamp_back(year as int, month as int, day as int, back) is Some,
        r is Some ==> r.unwrap().len() == 7 && forall|i: int|
            0 <= i < 7 ==> Some((#[trigger] r.unwrap()[i])@) == stamp_back(
                year as int,
                month as int,
                day as int,
                (6 - i) as nat,
            ),
        r is Some && 6 <= year <= 9999 ==> forall|i: int, j: int|
            0 <= i < j < 7 ==> (#[trigger] r.unwrap()[i])@ != (#[trigger] r.unwrap()[j])@,
{
    let mut newest_first: Vec<DateStamp> = Vec::new();
    let mut current: (i32, u32, u32) = (year, month, day);
    let mut back: usize = 0;
    let ghost mut days: Seq<(int, int, int)> = Seq::empty();
    while back < 7
        invariant
            0 <= back <= 7,
            newest_first.len() == back,
            days.len() == back,
            6 <= year <= 9999 ==> year - back <= current.0 <= year,
            6 <= year <= 9999 ==> forall|b: int|
                0 <= b < back ==> 0 <= (#[trigger] days[b]).0 <= 9999 && 1 <= days[b].1 <= 12 && 1
                    <= days[b].2 <= 31 && newest_first[b]@ == ymd_digits(
                    days[b].0,
                    days[b].1,
                    days[b].2,
                ),
            6 <= year <= 9999 ==> forall|a: int, b: int|
                0 <= a < b < back ==> comes_before(#[trigger] days[b], #[trigger] days[a]),
            6 <= year <= 9999 && back < 7 ==> forall|a: int|
                0 <= a < back ==> comes_before(
                    (current.0 as int, current.1 as int, current.2 as int),
                    #[trigger] days[a],
                ),
            back < 7 ==> days_back(year as int, month as int, day as int, back as nat) == Some(
                (current.0 as int, current.1 as int, current.2 as int),
            ),
            forall|b: int|
                0 <= b < back ==> Some((#[trigger] newest_first[b])@) == stamp_back(
                    year as int,
                    month as int,
                    day as int,
                    b as nat,
                ),
        decreases 7 - back,
    {
        let ghost here = (current.0 as int, current.1 as int, current.2 as int);
        match date_stamp_of(current.0, current.1, current.2) {
            Some(stamp) => {
                newest_first.push(stamp);
                proof {
                    days = days.push(here);
                }
            },
            None => {
                assert(stamp_back(year as int, month as int, day as int, back as nat) is None);
                return None;
            },
        }
        if back < 6 {
            match previous_day(current.0, current.1, current.2) {
                Some(before) => {
                    current = before;
                    proof {
                        if 6 <= year <= 9999 {
                            let next = (before.0 as int, before.1 as int, before.2 as int);
                            assert forall|a: int| 0 <= a < back + 1 implies comes_before(
                                next,
                                #[trigger] days[a],
                            ) by {
                                assert(comes_before(next, here));
                                if a < back {
                                    assert(comes_before(here, days[a]));
                                }
                            }
                        }
                    }
                },
                None => {
                    assert(days_back(year as int, month as int, day as int, (back + 1) as nat)
                        is None);
                    assert(stamp_back(year as int, month as int, day as int, (back + 1) as nat)
                        is None);
                    return None;
                },
            }
        }
        back += 1;
    }
    proof {
        if 6 <= year <= 9999 {
            assert forall|a: int, b: int| 0 <= a < b < 7 implies (#[trigger] newest_first[a])@
                != (#[trigger] newest_first[b])@ by {
                assert(comes_before(days[b], days[a]));
                if newest_first[a]@ == newest_first[b]@ {
                    lemma_ymd_digits_differ(days[a], days[b]);
                }
            }
        }
    }
    let ghost texts = stamps_of(newest_first@);
    assert(forall|b: int| 0 <= b < 7 ==> #[trigger] texts[b] == newest_first[b]@);
    let mut oldest_first: Vec<DateStamp> = Vec::new();
    while newest_first.len() > 0
        invariant
            newest_first.len() + oldest_first.len() == 7,
            texts.len() == 7,
            forall|b: int| 0 <= b < newest_first.len() ==> (#[trigger] newest_first[b])@ == texts[b],
            forall|i: int|
                0 <= i < oldest_first.len() ==> (#[trigger] oldest_first[i])@ == texts[6 - i],
            forall|b: int|
                0 <= b < newest_first.len() ==> Some((#[trigger] newest_first[b])@) == stamp_back(
                    year as int,
                    month as int,
                    day as int,
                    b as nat,
                ),
            forall|i: int|
                0 <= i < oldest_first.len() ==> Some((#[trigger] oldest_first[i])@) == stamp_back(
                    year as int,
                    month as int,
                    day as int,
                    (6 - i) as nat,
                ),
        decreases newest_first.len(),
    {
        let ghost n = newest_first.len();
        let stamp = newest_first.pop().unwrap();
        assert(Some(stamp@) == stamp_back(
            year as int,
            month as int,
            day as int,
            (n - 1) as nat,
        ));
        oldest_first.push(stamp);
    }
    assert forall|b: nat| b < 7 implies #[trigger] stamp_back(
        year as int,
        month as int,
        day as int,
        b,
    ) is Some by {
        assert(Some(oldest_first[6 - b]@) == stamp_back(
            year as int,
            month as int,
            day as int,
            (6 - (6 - b)) as nat,
        ));
    }
    Some(oldest_first)
}

/// The text of a stamp that may be missing.
pub open spec fn stamp_view(stamp: Option<DateStamp>) -> Option<Seq<char>> {
    match stamp {
        Some(stamp) => Some(stamp@),
        None => None,
    }
}

/// The texts of stamps that may be missing.
pub open spec fn days_view(days: Option<Vec<DateStamp>>) -> Option<Seq<Seq<char>>> {
    match days {
        Some(days) => Some(stamps_of(days@)),
        None => None,
    }
}

/// Whether no stamp stands twice.
pub open spec fn stamps_differ(stamps: Seq<Seq<char>>) -> bool {
    forall|i: int, j: int| 0 <= i < j < stamps.len() ==> stamps[i] != stamps[j]
}

/// Whether the outcome is the stamp of the given day, or no stamp where the
/// day has none.
pub open spec fn is_stamp_of_day(outcome: Option<Seq<char>>, year: int, month: int, day: int) -> bool {
    outcome == stamp_text(year, month, day)
}

/// Whether each of the seven days that end with the given one has a stamp.
pub open spec fn week_has_stamps(year: int, month: int, day: int) -> bool {
    forall|back: nat| back < 7 ==> #[trigger] stamp_back(year, month, day, back) is Some
}

/// Whether the outcome is the first `count` stamps of the week that ends
/// with the given day, oldest first, or nothing where a day of the week has
/// no stamp.
pub open spec fn is_week_until(
    outcome: Option<Seq<Seq<char>>>,
    count: nat,
    year: int,
    month: int,
    day: int,
) -> bool {
    match outcome {
        Some(stamps) => week_has_stamps(year, month, day) && stamps.len() == count
            && are_days_until(stamps, year, month, day),
        None => !week_has_stamps(year, month, day),
    }
}

/// Today's stamp, by the clock in UTC: the stamp of the day that the clock
/// gives. `None` if that day cannot be written as a stamp, as in a year of
/// more than four digits.
pub fn today_ymd() -> (r: Option<DateStamp>)
    ensures
        exists|year: int, month: int, day: int| #[trigger]
            is_stamp_of_day(stamp_view(r), year, month, day),
        r is Some ==> matches_ymd_pattern(r.unwrap()@),
{
    let today = utc_today();
    let stamp = date_stamp_of(today.0, today.1, today.2);
    proof {
        assert(is_stamp_of_day(
            stamp_view(stamp),
            today.0 as int,
            today.1 as int,
            today.2 as int,
        ));
    }
    stamp
}

/// The stamps of the last seven days, today's last: those of the week that
/// ends with the day that the clock gives. `None` if one of them cannot be
/// had. From the year 6 to the year 9999 the seven stamps differ from each
/// other.
pub fn last_seven_days_ymd() -> (r: Option<Vec<DateStamp>>)
    ensures
        exists|year: int, month: int, day: int| #[trigger]
            is_week_until(days_view(r), 7, year, month, day) && (r is Some && 6 <= year <= 9999
                ==> stamps_differ(stamps_of(r.unwrap()@))),
        r is Some ==> r.unwrap().len() == 7,
{
    let today = utc_today();
    let days = last_seven_days_until(today.0, today.1, today.2);
    proof {
        let (year, month, day) = (today.0 as int, today.1 as int, today.2 as int);
        if days is Some {
            let stamps = stamps_of(days.unwrap()@);
            assert(stamps.len() == 7);
            assert(are_days_until(stamps, year, month, day));
            if 6 <= year <= 9999 {
                assert forall|i: int, j: int| 0 <= i < j < stamps.len() implies stamps[i]
                    != stamps[j] by {
                    assert(days.unwrap()[i]@ != days.unwrap()[j]@);
                }
            }
        }
        assert(is_week_until(days_view(days), 7, year, month, day));
    }
    days
}

/// The first six of the last seven days: from six days ago to yesterday.
/// `None` if one of the seven cannot be had.
pub fn previous_six_days() -> (r: Option<Vec<DateStamp>>)
    ensures
        exists|year: int, month: int, day: int| #[trigger]
            is_week_until(days_view(r), 6, year, month, day),
        r is Some ==> r.unwrap().len() == 6,
{
    let seven = last_seven_days_ymd();
    let ghost (year, month, day) = choose|year: int, month: int, day: int| #[trigger]
        is_week_until(days_view(seven), 7, year, month, day);
    match seven {
        Some(days) => {
            let ghost all = days@;
            let mut days = days;
            days.truncate(6);
            proof {
                assert forall|i: int| 0 <= i < 6 implies Some(#[trigger] stamps_of(days@)[i])
                    == stamp_back(year, month, day, (6 - i) as nat) by {
                    assert(days[i] == all[i]);
                    assert(stamps_of(all)[i] == all[i]@);
                }
                assert(are_days_until(stamps_of(days@), year, month, day));
                assert(is_week_until(days_view(Some(days)), 6, year, month, day));
            }
            Some(days)
        },
        None => {
            proof {
                assert(is_week_until(days_view(None), 6, year, month, day));
            }
            None
        },
    }
}

} // verus!
