//! `.mem` v1 cards: dates, freshness, structured content rules, parsing and
//! canonical serialization (UTF-8, no BOM, LF endings, single trailing LF,
//! fixed directive order).

use vstd::prelude::*;

use crate::chars::{chars_eq, hex_digit, hex_digit_char, contains_char, extend_chars, extend_str, from_chars, int_text, push_int, str_byte_len, str_eq, to_chars, utf8_len};
use crate::normalize::{lemma_trim_end_at, normalize_seq, normalize_text, py_strip, py_strip_seq, space_pred, trim_end_by, trim_start_by};
use crate::freshness_table::{FRESHNESS_HUNDREDTHS, FRESHNESS_LEN};
use crate::{trunc_div, trust_text, trust_text_seq, Error};

pub mod parse;
pub mod roundtrip;
pub mod entities;

pub use crate::mem::parse::parse_card;



verus! {

broadcast use vstd::string::group_string_axioms;

/// A memory card.
#[derive(Clone, Debug)]
pub struct Card {
    pub id: i64,
    pub card_type: String,
    pub status: String,
    pub importance: i64,
    /// Fixed point 0..=6 representing T0, T0.5 .. T3.
    pub trust: i64,
    pub updated: String,
    pub entities: Vec<String>,
    pub source: String,
    pub lock: bool,
    pub scope: String,
    pub last_used: String,
    pub valid_from: String,
    pub valid_to: String,
    pub supersedes: Vec<i64>,
    pub title: String,
    pub body: Vec<String>,
    pub deduplicated: bool,
    pub unchanged: bool,
}

/// A card's fields as plain values.
pub struct CardModel {
    pub id: int,
    pub card_type: Seq<char>,
    pub status: Seq<char>,
    pub importance: int,
    pub trust: int,
    pub updated: Seq<char>,
    pub entities: Seq<Seq<char>>,
    pub source: Seq<char>,
    pub lock: bool,
    pub scope: Seq<char>,
    pub last_used: Seq<char>,
    pub valid_from: Seq<char>,
    pub valid_to: Seq<char>,
    pub supersedes: Seq<i64>,
    pub title: Seq<char>,
    pub body: Seq<Seq<char>>,
    pub deduplicated: bool,
    pub unchanged: bool,
}

impl View for Card {
    type V = CardModel;

    open spec fn view(&self) -> CardModel {
        CardModel {
            id: self.id as int,
            card_type: self.card_type@,
            status: self.status@,
            importance: self.importance as int,
            trust: self.trust as int,
            updated: self.updated@,
            entities: views(self.entities@),
            source: self.source@,
            lock: self.lock,
            scope: self.scope@,
            last_used: self.last_used@,
            valid_from: self.valid_from@,
            valid_to: self.valid_to@,
            supersedes: self.supersedes@,
            title: self.title@,
            body: views(self.body@),
            deduplicated: self.deduplicated,
            unchanged: self.unchanged,
        }
    }
}

/// The views of a vector of strings.
pub open spec fn views(v: Seq<String>) -> Seq<Seq<char>> {
    v.map_values(|s: String| s@)
}

/// `"\n" + line` for each line, concatenated.
pub open spec fn newline_prefixed(lines: Seq<Seq<char>>) -> Seq<char>
    decreases lines.len(),
{
    if lines.len() == 0 {
        Seq::empty()
    } else {
        newline_prefixed(lines.drop_last()) + seq!['\n'] + lines.last()
    }
}

impl Card {
    /// An empty card whose source is `user`.
    pub fn new() -> (c: Self)
        ensures
            c.id == 0,
            c.card_type@.len() == 0,
            c.status@.len() == 0,
            c.importance == 0,
            c.trust == 0,
            c.updated@.len() == 0,
            c.entities@.len() == 0,
            c.source@ == "user"@,
            !c.lock,
            c.scope@.len() == 0,
            c.last_used@.len() == 0,
            c.valid_from@.len() == 0,
            c.valid_to@.len() == 0,
            c.supersedes@.len() == 0,
            c.title@.len() == 0,
            c.body@.len() == 0,
            !c.deduplicated,
            !c.unchanged,
    {
        Card {
            id: 0,
            card_type: String::new(),
            status: String::new(),
            importance: 0,
            trust: 0,
            updated: String::new(),
            entities: Vec::new(),
            source: String::from_str("user"),
            lock: false,
            scope: String::new(),
            last_used: String::new(),
            valid_from: String::new(),
            valid_to: String::new(),
            supersedes: Vec::new(),
            title: String::new(),
            body: Vec::new(),
            deduplicated: false,
            unchanged: false,
        }
    }

    /// The title followed by each body line, separated by newlines.
    pub fn full_text(&self) -> (r: String)
        ensures
            r@ == self.title@ + newline_prefixed(views(self.body@)),
    {
        let mut out = to_chars(self.title.as_str());
        let mut i: usize = 0;
        while i < self.body.len()
            invariant
                i <= self.body.len(),
                out@ == self.title@ + newline_prefixed(views(self.body@).take(i as int)),
            decreases self.body.len() - i,
        {
            out.push('\n');
            extend_str(&mut out, self.body[i].as_str());
            assert(views(self.body@).take(i + 1).drop_last() =~= views(self.body@).take(i as int));
            i = i + 1;
        }
        assert(views(self.body@).take(self.body.len() as int) =~= views(self.body@));
        from_chars(&out)
    }

    /// Freshness text from the last use (or update) date, as of `today`.
    pub fn freshness_text(&self, today: &str) -> (r: String)
        ensures
            r@ == freshness_seq(self.last_used@, self.updated@, today@),
    {
        freshness_text(self.last_used.as_str(), self.updated.as_str(), today)
    }
}

/// Remainder of division rounding toward zero (Rust `%`).
pub open spec fn trunc_rem(a: int, b: int) -> int {
    a - trunc_div(a, b) * b
}

/// Days since 0001-01-01 plus one (Python `date.toordinal()` for valid dates).
pub open spec fn ordinal_seq(year: int, month: int, day: int) -> int {
    let y = year - (if month <= 2 { 1int } else { 0int });
    let era = trunc_div(if y >= 0 { y } else { y - 399 }, 400);
    let yoe = y - era * 400;
    let mp = trunc_rem(month + 9, 12);
    let doy = trunc_div(153 * mp + 2, 5) + day - 1;
    let doe = yoe * 365 + trunc_div(yoe, 4) - trunc_div(yoe, 100) + doy;
    era * 146097 + doe - 305
}

/// The Gregorian day after a valid date.
pub open spec fn next_day(year: int, month: int, day: int) -> (int, int, int) {
    if day < month_days(year, month) {
        (year, month, day + 1)
    } else if month < 12 {
        (year, month + 1, 1)
    } else {
        (year + 1, 1, 1)
    }
}

/// Days before March 1 of year `y + 1`, counted from the era's origin.
spec fn march_base(y: int) -> int {
    let era = y / 400;
    let yoe = y % 400;
    era * 146097 + yoe * 365 + yoe / 4 - yoe / 100
}

proof fn lemma_march_step(y: int)
    requires
        0 <= y,
    ensures
        march_base(y + 1) - march_base(y) == 365 + (if leap_year(y + 1) { 1int } else { 0int }),
{
    let yoe = y % 400;
    let era = y / 400;
    assert(y == era * 400 + yoe && 0 <= yoe < 400) by (nonlinear_arith)
        requires
            0 <= y,
            era == y / 400,
            yoe == y % 400,
    ;
    if yoe < 399 {
        assert((y + 1) / 400 == era && (y + 1) % 400 == yoe + 1) by (nonlinear_arith)
            requires
                y == era * 400 + yoe,
                0 <= yoe < 399,
                era >= 0,
        ;
        assert((y + 1) % 4 == (yoe + 1) % 4 && (y + 1) % 100 == (yoe + 1) % 100 && (y + 1) % 400 == yoe + 1)
            by (nonlinear_arith)
            requires
                y == era * 400 + yoe,
                0 <= yoe < 399,
                era >= 0,
        ;
        assert((yoe + 1) / 4 - yoe / 4 == (if (yoe + 1) % 4 == 0 { 1int } else { 0int })) by (nonlinear_arith)
            requires
                0 <= yoe,
        ;
        assert((yoe + 1) / 100 - yoe / 100 == (if (yoe + 1) % 100 == 0 { 1int } else { 0int })) by (nonlinear_arith)
            requires
                0 <= yoe,
        ;
    } else {
        assert((y + 1) / 400 == era + 1 && (y + 1) % 400 == 0) by (nonlinear_arith)
            requires
                y == era * 400 + yoe,
                yoe == 399,
                era >= 0,
        ;
        assert((y + 1) % 4 == 0 && (y + 1) % 100 == 0) by (nonlinear_arith)
            requires
                y + 1 == (era + 1) * 400,
        ;
    }
}

proof fn lemma_ordinal_as_base(year: int, month: int, day: int)
    requires
        1 <= year,
        1 <= month <= 12,
    ensures
        ordinal_seq(year, month, day) == march_base(year - (if month <= 2 { 1int } else { 0int })) + (153
            * ((month + 9) % 12) + 2) / 5 + day - 1 - 305,
{
    let y = year - (if month <= 2 { 1int } else { 0int });
    assert(y >= 0);
    assert(trunc_div(y, 400) == y / 400);
    let yoe = y - (y / 400) * 400;
    assert(yoe == y % 400) by (nonlinear_arith)
        requires
            yoe == y - (y / 400) * 400,
            y >= 0,
    ;
    assert(0 <= yoe) by (nonlinear_arith)
        requires
            yoe == y % 400,
    ;
    assert(trunc_div(yoe, 4) == yoe / 4);
    assert(trunc_div(yoe, 100) == yoe / 100);
    assert(trunc_rem(month + 9, 12) == (month + 9) % 12);
}

/// The ordinal counts days: the first day of year 1 is day 1, 2000-01-01 is
/// day 730120, and the day after a valid date of years 1..=9999 has the next
/// ordinal.
pub proof fn law_ordinal_counts_days(year: int, month: int, day: int)
    requires
        1 <= year <= 9999,
        1 <= month <= 12,
        1 <= day <= month_days(year, month),
    ensures
        ordinal_seq(1, 1, 1) == 1,
        ordinal_seq(2000, 1, 1) == 730120,
        ordinal_seq(next_day(year, month, day).0, next_day(year, month, day).1, next_day(year, month, day).2)
            == ordinal_seq(year, month, day) + 1,
{
    assert(ordinal_seq(1, 1, 1) == 1);
    assert(ordinal_seq(2000, 1, 1) == 730120);
    let (y2, m2, d2) = next_day(year, month, day);
    lemma_ordinal_as_base(year, month, day);
    lemma_ordinal_as_base(y2, m2, d2);
    if day < month_days(year, month) {
    } else if month < 12 {
        if month == 2 {
            lemma_march_step(year - 1);
            assert(day == 28 + (if leap_year(year) { 1int } else { 0int }));
        }
    } else {
    }
}

/// Days since 0001-01-01 plus one (ordinal matching Python `date.toordinal()`).
/// The bounds keep the 64-bit arithmetic from overflowing.
pub fn ordinal_from_civil(year: i64, month: i64, day: i64) -> (r: i64)
    requires
        -10_000_000_000_000_000 <= year <= 10_000_000_000_000_000,
        month <= i64::MAX - 9,
        -4_000_000_000_000_000_000 <= day <= 4_000_000_000_000_000_000,
    ensures
        r == ordinal_seq(year as int, month as int, day as int),
{
    let y = year - (if month <= 2 { 1 } else { 0 });
    let era = (if y >= 0 { y } else { y - 399 }) / 400;
    let yoe = y - era * 400;
    let mp = (month + 9) % 12;
    let doy = (153 * mp + 2) / 5 + day - 1;
    let doe = yoe * 365 + yoe / 4 - yoe / 100 + doy;
    era * 146097 + doe - 305
}

/// Gregorian leap year.
pub open spec fn leap_year(year: int) -> bool {
    (year % 4 == 0 && year % 100 != 0) || year % 400 == 0
}

/// Days in a month of a year; zero for a month outside 1..=12.
pub open spec fn month_days(year: int, month: int) -> int {
    if month == 1 || month == 3 || month == 5 || month == 7 || month == 8 || month == 10 || month
        == 12 {
        31
    } else if month == 4 || month == 6 || month == 9 || month == 11 {
        30
    } else if month == 2 {
        if leap_year(year) {
            29
        } else {
            28
        }
    } else {
        0
    }
}

fn is_leap_year(year: i64) -> (r: bool)
    requires
        year >= 0,
    ensures
        r == leap_year(year as int),
{
    (year % 4 == 0 && year % 100 != 0) || year % 400 == 0
}

fn days_in_month(year: i64, month: i64) -> (r: i64)
    requires
        year >= 0,
    ensures
        r == month_days(year as int, month as int),
{
    if month == 1 || month == 3 || month == 5 || month == 7 || month == 8 || month == 10 || month
        == 12 {
        31
    } else if month == 4 || month == 6 || month == 9 || month == 11 {
        30
    } else if month == 2 {
        if is_leap_year(year) {
            29
        } else {
            28
        }
    } else {
        0
    }
}

/// Weekday with Monday = 0 .. Sunday = 6.
pub open spec fn weekday_of(ordinal: int) -> int {
    (ordinal - 1) % 7
}

/// ISO week count of a year (52 or 53).
pub open spec fn iso_weeks_seq(year: int) -> int {
    let jan1 = weekday_of(ordinal_seq(year, 1, 1));
    if jan1 == 3 || (jan1 == 2 && leap_year(year)) {
        53
    } else {
        52
    }
}

/// Ordinal of an ISO week date; weekday Monday = 1 .. Sunday = 7.
pub open spec fn iso_ordinal_seq(year: int, week: int, weekday: int) -> int {
    let jan4 = ordinal_seq(year, 1, 4);
    let week1_monday = jan4 - weekday_of(jan4);
    week1_monday + (week - 1) * 7 + (weekday - 1)
}

fn weekday(ordinal: i64) -> (r: i64)
    requires
        -10_000_000_000 <= ordinal <= 10_000_000_000,
    ensures
        r == weekday_of(ordinal as int),
{
    let m = (ordinal - 1) % 7;
    if m < 0 {
        m + 7
    } else {
        m
    }
}

fn iso_weeks_in_year(year: i64) -> (r: i64)
    requires
        1 <= year <= 9999,
    ensures
        r == iso_weeks_seq(year as int),
{
    let jan1 = weekday(ordinal_from_civil(year, 1, 1));
    if jan1 == 3 || (jan1 == 2 && is_leap_year(year)) {
        53
    } else {
        52
    }
}

fn iso_ordinal(year: i64, week: i64, weekday_of_date: i64) -> (r: i64)
    requires
        1 <= year <= 9999,
        1 <= week <= 53,
        1 <= weekday_of_date <= 7,
    ensures
        r == iso_ordinal_seq(year as int, week as int, weekday_of_date as int),
{
    let jan4 = ordinal_from_civil(year, 1, 4);
    let jan4_weekday = weekday(jan4) + 1;
    let week1_monday = jan4 - (jan4_weekday - 1);
    week1_monday + (week - 1) * 7 + (weekday_of_date - 1)
}

/// An ASCII decimal digit.
pub open spec fn ascii_digit(c: char) -> bool {
    '0' <= c && c <= '9'
}

/// Value of a sequence of ASCII decimal digits.
pub open spec fn digits_value(s: Seq<char>) -> int
    decreases s.len(),
{
    if s.len() == 0 {
        0
    } else {
        digits_value(s.drop_last()) * 10 + ((s.last() as u32) - ('0' as u32))
    }
}

/// The value of a non-empty all-digit field, else nothing.
pub open spec fn digits_field(s: Seq<char>) -> Option<int> {
    if s.len() > 0 && forall|i: int| 0 <= i < s.len() ==> ascii_digit(#[trigger] s[i]) {
        Some(digits_value(s))
    } else {
        None
    }
}

/// Ordinal of a valid calendar date in years 1..=9999.
pub open spec fn civil_date(y: Option<int>, m: Option<int>, d: Option<int>) -> Option<int> {
    match (y, m, d) {
        (Some(y), Some(m), Some(d)) => if 1 <= y <= 9999 && 1 <= m <= 12 && 1 <= d <= month_days(
            y,
            m,
        ) {
            Some(ordinal_seq(y, m, d))
        } else {
            None
        },
        _ => None,
    }
}

/// Ordinal of a valid ISO week date in years 1..=9999.
pub open spec fn week_date(y: Option<int>, w: Option<int>, wd: Option<int>) -> Option<int> {
    match (y, w, wd) {
        (Some(y), Some(w), Some(wd)) => if 1 <= y <= 9999 && 1 <= w <= iso_weeks_seq(y) && 1 <= wd
            <= 7 {
            Some(iso_ordinal_seq(y, w, wd))
        } else {
            None
        },
        _ => None,
    }
}

/// Field `s[a..b]` as a number.
pub open spec fn field(s: Seq<char>, a: int, b: int) -> Option<int> {
    digits_field(s.subrange(a, b))
}

/// Ordinal of an ISO date text in one of the accepted forms: `YYYY-MM-DD`,
/// `YYYYMMDD`, `YYYY-Www`, `YYYYWww`, `YYYY-Www-D`, `YYYYWwwD`.
pub open spec fn parse_iso_date_seq(t: Seq<char>) -> Option<int> {
    if t.len() == 7 && t[4] == 'W' {
        week_date(field(t, 0, 4), field(t, 5, 7), Some(1))
    } else if t.len() == 8 && (forall|i: int| 0 <= i < 8 ==> ascii_digit(#[trigger] t[i])) {
        civil_date(field(t, 0, 4), field(t, 4, 6), field(t, 6, 8))
    } else if t.len() == 8 && t[4] == 'W' {
        week_date(field(t, 0, 4), field(t, 5, 7), field(t, 7, 8))
    } else if t.len() == 8 && t[4] == '-' && t[5] == 'W' {
        week_date(field(t, 0, 4), field(t, 6, 8), Some(1))
    } else if t.len() == 10 && t[4] == '-' && t[7] == '-' {
        civil_date(field(t, 0, 4), field(t, 5, 7), field(t, 8, 10))
    } else if t.len() == 10 && t[4] == '-' && t[5] == 'W' && t[8] == '-' {
        week_date(field(t, 0, 4), field(t, 6, 8), field(t, 9, 10))
    } else {
        None
    }
}

/// Parses `t[a..b]` (at most four scalars) as a decimal field.
fn digits(t: &[char], a: usize, b: usize) -> (r: Option<i64>)
    requires
        a <= b <= t.len(),
        b - a <= 4,
    ensures
        r matches Some(v) ==> field(t@, a as int, b as int) == Some(v as int) && 0 <= v <= 9999,
        r is None ==> field(t@, a as int, b as int) is None,
{
    let ghost s = t@.subrange(a as int, b as int);
    if a == b {
        return None;
    }
    let mut value: i64 = 0;
    let mut i = a;
    while i < b
        invariant
            a <= i <= b <= t.len(),
            b - a <= 4,
            s == t@.subrange(a as int, b as int),
            forall|k: int| a <= k < i ==> ascii_digit(#[trigger] t@[k]),
            value == digits_value(t@.subrange(a as int, i as int)),
            0 <= value,
            i - a == 0 ==> value < 1,
            i - a == 1 ==> value < 10,
            i - a == 2 ==> value < 100,
            i - a == 3 ==> value < 1000,
            i - a == 4 ==> value < 10000,
        decreases b - i,
    {
        let c = t[i];
        if !('0' <= c && c <= '9') {
            assert(!ascii_digit(s[i - a]));
            return None;
        }
        proof {
            assert(t@.subrange(a as int, i + 1).drop_last() =~= t@.subrange(a as int, i as int));
        }
        value = value * 10 + ((c as u32) - ('0' as u32)) as i64;
        i = i + 1;
    }
    assert(t@.subrange(a as int, b as int) =~= s);
    assert forall|k: int| 0 <= k < s.len() implies ascii_digit(#[trigger] s[k]) by {
        assert(s[k] == t@[a + k]);
    }
    Some(value)
}

fn civil(y: Option<i64>, m: Option<i64>, d: Option<i64>) -> (r: Option<i64>)
    requires
        y matches Some(v) ==> 0 <= v <= 9999,
        m matches Some(v) ==> 0 <= v <= 9999,
        d matches Some(v) ==> 0 <= v <= 9999,
    ensures
        r == (match civil_date(
            match y { Some(v) => Some(v as int), None => None },
            match m { Some(v) => Some(v as int), None => None },
            match d { Some(v) => Some(v as int), None => None },
        ) {
            Some(v) => Some(v as i64),
            None => None,
        }),
        r matches Some(v) ==> civil_date(
            match y { Some(v) => Some(v as int), None => None },
            match m { Some(v) => Some(v as int), None => None },
            match d { Some(v) => Some(v as int), None => None },
        ) == Some(v as int),
{
    match (y, m, d) {
        (Some(year), Some(month), Some(day)) => {
            if !(1 <= year && year <= 9999) || !(1 <= month && month <= 12) || day < 1 || day
                > days_in_month(year, month) {
                return None;
            }
            Some(ordinal_from_civil(year, month, day))
        },
        _ => None,
    }
}

fn week(y: Option<i64>, w: Option<i64>, wd: Option<i64>) -> (r: Option<i64>)
    requires
        y matches Some(v) ==> 0 <= v <= 9999,
        w matches Some(v) ==> 0 <= v <= 9999,
        wd matches Some(v) ==> 0 <= v <= 9999,
    ensures
        r matches Some(v) ==> week_date(
            match y { Some(v) => Some(v as int), None => None },
            match w { Some(v) => Some(v as int), None => None },
            match wd { Some(v) => Some(v as int), None => None },
        ) == Some(v as int),
        r is None ==> week_date(
            match y { Some(v) => Some(v as int), None => None },
            match w { Some(v) => Some(v as int), None => None },
            match wd { Some(v) => Some(v as int), None => None },
        ) is None,
{
    match (y, w, wd) {
        (Some(year), Some(wk), Some(day)) => {
            if !(1 <= year && year <= 9999) || wk < 1 || wk > iso_weeks_in_year(year) || !(1 <= day
                && day <= 7) {
                return None;
            }
            Some(iso_ordinal(year, wk, day))
        },
        _ => None,
    }
}

/// Strict subset of `datetime.date.fromisoformat`: `YYYY-MM-DD`, `YYYYMMDD`,
/// `YYYY-Www`, `YYYYWww`, `YYYY-Www-D` and `YYYYWwwD`, as an ordinal.
pub fn parse_iso_date(text: &str) -> (r: Option<i64>)
    ensures
        r matches Some(v) ==> parse_iso_date_seq(text@) == Some(v as int),
        r is None ==> parse_iso_date_seq(text@) is None,
{
    let t = to_chars(text);
    let n = t.len();
    if n == 7 && t[4] == 'W' {
        return week(digits(&t, 0, 4), digits(&t, 5, 7), Some(1));
    }
    if n == 8 {
        let mut all_digits = true;
        let mut i: usize = 0;
        while i < 8
            invariant
                i <= 8,
                t.len() == 8,
                all_digits == forall|k: int| 0 <= k < i ==> ascii_digit(#[trigger] t@[k]),
            decreases 8 - i,
        {
            if !('0' <= t[i] && t[i] <= '9') {
                all_digits = false;
            }
            i = i + 1;
        }
        if all_digits {
            return civil(digits(&t, 0, 4), digits(&t, 4, 6), digits(&t, 6, 8));
        }
        if t[4] == 'W' {
            return week(digits(&t, 0, 4), digits(&t, 5, 7), digits(&t, 7, 8));
        }
        if t[4] == '-' && t[5] == 'W' {
            return week(digits(&t, 0, 4), digits(&t, 6, 8), Some(1));
        }
        return None;
    }
    if n == 10 && t[4] == '-' && t[7] == '-' {
        return civil(digits(&t, 0, 4), digits(&t, 5, 7), digits(&t, 8, 10));
    }
    if n == 10 && t[4] == '-' && t[5] == 'W' && t[8] == '-' {
        return week(digits(&t, 0, 4), digits(&t, 6, 8), digits(&t, 9, 10));
    }
    None
}

/// Lexicographic order of scalar sequences (byte order of UTF-8 strings).
pub open spec fn seq_lt(a: Seq<char>, b: Seq<char>) -> bool
    decreases a.len(),
{
    if a.len() == 0 {
        b.len() > 0
    } else if b.len() == 0 {
        false
    } else if a[0] != b[0] {
        (a[0] as u32) < (b[0] as u32)
    } else {
        seq_lt(a.drop_first(), b.drop_first())
    }
}

/// Lexicographic `a < b`.
pub fn chars_lt(a: &[char], b: &[char]) -> (r: bool)
    ensures
        r == seq_lt(a@, b@),
{
    let mut i: usize = 0;
    assert(a@.skip(0) =~= a@);
    assert(b@.skip(0) =~= b@);
    while i < a.len() && i < b.len() && a[i] == b[i]
        invariant
            i <= a.len(),
            i <= b.len(),
            seq_lt(a@, b@) == seq_lt(a@.skip(i as int), b@.skip(i as int)),
        decreases a.len() - i,
    {
        proof {
            assert(a@.skip(i as int).drop_first() =~= a@.skip(i + 1));
            assert(b@.skip(i as int).drop_first() =~= b@.skip(i + 1));
        }
        i = i + 1;
    }
    if i == a.len() {
        return i < b.len();
    }
    if i == b.len() {
        return false;
    }
    assert(a@.skip(i as int)[0] == a@[i as int]);
    assert(b@.skip(i as int)[0] == b@[i as int]);
    (a[i] as u32) < (b[i] as u32)
}

/// Validity window test with raw string comparison of ISO dates.
pub open spec fn date_is_current_seq(today: Seq<char>, valid_from: Seq<char>, valid_to: Seq<char>) -> bool {
    !((valid_from.len() > 0 && seq_lt(today, valid_from)) || (valid_to.len() > 0 && seq_lt(
        valid_to,
        today,
    )))
}

/// Whether `today` lies within `[valid_from, valid_to]`, each bound optional
/// (empty), comparing the date texts lexicographically.
pub fn date_is_current(today: &str, valid_from: &str, valid_to: &str) -> (r: bool)
    ensures
        r == date_is_current_seq(today@, valid_from@, valid_to@),
{
    let t = to_chars(today);
    let f = to_chars(valid_from);
    let e = to_chars(valid_to);
    !((f.len() > 0 && chars_lt(&t, &f)) || (e.len() > 0 && chars_lt(&e, &t)))
}

/// Whether a card is within its validity window on `today`.
pub fn card_is_current(card: &Card, today: &str) -> (r: bool)
    ensures
        r == date_is_current_seq(today@, card.valid_from@, card.valid_to@),
{
    date_is_current(today, card.valid_from.as_str(), card.valid_to.as_str())
}

/// Whole days from the reference date (last use, else `fallback`) to
/// `today`, zero when either date does not parse or lies ahead.
pub open spec fn freshness_days_seq(last_used: Seq<char>, fallback: Seq<char>, today: Seq<char>) -> int {
    let reference = if last_used.len() == 0 { fallback } else { last_used };
    match (parse_iso_date_seq(today), parse_iso_date_seq(reference)) {
        (Some(t), Some(r)) => if t - r > 0 { t - r } else { 0 },
        _ => 0,
    }
}

/// Freshness text of a card by its last use, as of `today`.
pub open spec fn freshness_seq(last_used: Seq<char>, fallback: Seq<char>, today: Seq<char>) -> Seq<char> {
    let days = freshness_days_seq(last_used, fallback, today);
    if days >= FRESHNESS_LEN {
        hundredths_text(0)
    } else {
        hundredths_text(FRESHNESS_HUNDREDTHS[days] as nat)
    }
}

/// Freshness display text, as of `today`, from the last-use date (or the
/// fallback when it is empty).
pub fn freshness_text(last_used: &str, fallback: &str, today: &str) -> (r: String)
    ensures
        r@ == freshness_seq(last_used@, fallback@, today@),
{
    let days = freshness_days(last_used, fallback, today);
    freshness_entry(days)
}

/// Freshness in hundredths, as of `today`, by the last-use date (or the
/// fallback when it is empty): the number its text shows.
pub open spec fn freshness_hundredths_seq(last_used: Seq<char>, fallback: Seq<char>, today: Seq<char>) -> int {
    let days = freshness_days_seq(last_used, fallback, today);
    if days >= FRESHNESS_LEN {
        0
    } else {
        FRESHNESS_HUNDREDTHS[days] as int
    }
}

/// Freshness in hundredths, as of `today`.
pub fn freshness_hundredths(last_used: &str, fallback: &str, today: &str) -> (r: u8)
    ensures
        r == freshness_hundredths_seq(last_used@, fallback@, today@),
{
    let days = freshness_days(last_used, fallback, today);
    if days >= FRESHNESS_LEN as i64 {
        0
    } else {
        FRESHNESS_HUNDREDTHS[days as usize]
    }
}

/// Whole days since the last use (or `fallback`), as of `today`.
fn freshness_days(last_used: &str, fallback: &str, today: &str) -> (d: i64)
    ensures
        d == freshness_days_seq(last_used@, fallback@, today@),
        d >= 0,
{
    let reference = if last_used.unicode_len() == 0 { fallback } else { last_used };
    match parse_iso_date(today) {
        None => 0,
        Some(t) => match parse_iso_date(reference) {
            Some(r) => {
                proof {
                    lemma_parsed_date_range(today@);
                    lemma_parsed_date_range(reference@);
                }
                if t - r > 0 { t - r } else { 0 }
            },
            None => 0,
        },
    }
}

/// Ordinals of dates in years 1..=9999 are bounded.
pub proof fn lemma_ordinal_range(y: int, m: int, d: int)
    requires
        1 <= y <= 9999,
        1 <= m <= 12,
        1 <= d <= 31,
    ensures
        -1000 <= ordinal_seq(y, m, d) <= 5000000,
{
}

/// Ordinals of ISO week dates in years 1..=9999 are bounded.
pub proof fn lemma_week_range(y: int, w: int, wd: int)
    requires
        1 <= y <= 9999,
        1 <= w <= 53,
        1 <= wd <= 7,
    ensures
        -1000 <= iso_ordinal_seq(y, w, wd) <= 5001000,
{
    lemma_ordinal_range(y, 1, 4);
}

/// A parsed date lies within years 1..=9999.
pub proof fn lemma_parsed_date_range(t: Seq<char>)
    ensures
        parse_iso_date_seq(t) matches Some(v) ==> -1000 <= v <= 5001000,
{
    if let Some(v) = parse_iso_date_seq(t) {
        if t.len() == 7 && t[4] == 'W' {
            let (y, w) = (field(t, 0, 4)->0, field(t, 5, 7)->0);
            lemma_week_range(y, w, 1);
        } else if t.len() == 8 && (forall|i: int| 0 <= i < 8 ==> ascii_digit(#[trigger] t[i])) {
            lemma_ordinal_range(field(t, 0, 4)->0, field(t, 4, 6)->0, field(t, 6, 8)->0);
        } else if t.len() == 8 && t[4] == 'W' {
            lemma_week_range(field(t, 0, 4)->0, field(t, 5, 7)->0, field(t, 7, 8)->0);
        } else if t.len() == 8 && t[4] == '-' && t[5] == 'W' {
            lemma_week_range(field(t, 0, 4)->0, field(t, 6, 8)->0, 1);
        } else if t.len() == 10 && t[4] == '-' && t[7] == '-' {
            lemma_ordinal_range(field(t, 0, 4)->0, field(t, 5, 7)->0, field(t, 8, 10)->0);
        } else {
            lemma_week_range(field(t, 0, 4)->0, field(t, 6, 8)->0, field(t, 9, 10)->0);
        }
    }
}

/// A value in hundredths (at most 100) as Python prints the float: `1.0`,
/// `0.5`, `0.05`, `0.0`.
pub open spec fn hundredths_text(h: nat) -> Seq<char> {
    if h >= 100 {
        "1.0"@
    } else if h % 10 == 0 {
        seq!['0', '.', hex_digit(h / 10)]
    } else {
        seq!['0', '.', hex_digit(h / 10), hex_digit(h % 10)]
    }
}

/// The text of a value in hundredths.
fn hundredths_string(h: u8) -> (r: String)
    ensures
        r@ == hundredths_text(h as nat),
{
    if h >= 100 {
        return String::from_str("1.0");
    }
    let mut v: Vec<char> = Vec::new();
    v.push('0');
    v.push('.');
    v.push(hex_digit_char((h / 10) as u32));
    if h % 10 != 0 {
        v.push(hex_digit_char((h % 10) as u32));
    }
    assert(v@ =~= hundredths_text(h as nat));
    from_chars(&v)
}

/// The freshness text for a day count.
fn freshness_entry(days: i64) -> (r: String)
    requires
        days >= 0,
    ensures
        r@ == (if days >= FRESHNESS_LEN { hundredths_text(0) } else { hundredths_text(FRESHNESS_HUNDREDTHS[days as int] as nat) }),
{
    if days >= FRESHNESS_LEN as i64 {
        return hundredths_string(0);
    }
    hundredths_string(FRESHNESS_HUNDREDTHS[days as usize])
}

pub proof fn lemma_seq_lt_irreflexive(a: Seq<char>)
    ensures
        !seq_lt(a, a),
    decreases a.len(),
{
    if a.len() > 0 {
        lemma_seq_lt_irreflexive(a.drop_first());
    }
}

pub proof fn lemma_seq_lt_transitive(a: Seq<char>, b: Seq<char>, c: Seq<char>)
    requires
        seq_lt(a, b),
        seq_lt(b, c),
    ensures
        seq_lt(a, c),
    decreases a.len(),
{
    if a.len() > 0 && b.len() > 0 && c.len() > 0 && a[0] == b[0] && b[0] == c[0] {
        lemma_seq_lt_transitive(a.drop_first(), b.drop_first(), c.drop_first());
    }
}

pub proof fn lemma_seq_lt_total(a: Seq<char>, b: Seq<char>)
    ensures
        a == b || seq_lt(a, b) || seq_lt(b, a),
    decreases a.len(),
{
    if a.len() > 0 && b.len() > 0 {
        if a[0] == b[0] {
            lemma_seq_lt_total(a.drop_first(), b.drop_first());
            if a.drop_first() == b.drop_first() {
                assert(a =~= seq![a[0]] + a.drop_first());
                assert(b =~= seq![b[0]] + b.drop_first());
            }
        } else {
            vstd::utf8::char_u32_cast(a[0], a[0] as u32);
            vstd::utf8::char_u32_cast(b[0], b[0] as u32);
        }
    } else if a.len() == 0 && b.len() == 0 {
        assert(a =~= b);
    }
}

pub proof fn lemma_seq_lt_asymmetric(a: Seq<char>, b: Seq<char>)
    requires
        seq_lt(a, b),
    ensures
        !seq_lt(b, a),
{
    if seq_lt(b, a) {
        lemma_seq_lt_transitive(a, b, a);
        lemma_seq_lt_irreflexive(a);
    }
}

/// Entity candidates: stripped, non-empty values with their normalization
/// keys, first value per key kept, in input order.
pub open spec fn entity_candidates(values: Seq<Seq<char>>) -> Seq<(Seq<char>, Seq<char>)>
    decreases values.len(),
{
    if values.len() == 0 {
        Seq::empty()
    } else {
        let prev = entity_candidates(values.drop_last());
        let t = py_strip_seq(values.last());
        let key = normalize_seq(t);
        if t.len() == 0 || exists|k: int| 0 <= k < prev.len() && (#[trigger] prev[k]).0 == key {
            prev
        } else {
            prev.push((key, t))
        }
    }
}

/// The entity list of a card: the candidates ordered by key.
pub open spec fn canonical_entities_of(values: Seq<Seq<char>>, r: Seq<Seq<char>>) -> bool {
    let cand = entity_candidates(values);
    &&& r.len() == cand.len()
    &&& forall|i: int, j: int| 0 <= i < j < r.len() ==> seq_lt(normalize_seq(#[trigger] r[i]), normalize_seq(#[trigger] r[j]))
    &&& forall|i: int| 0 <= i < r.len() ==> #[trigger] candidate_value(cand, r[i])
    &&& forall|k: int| 0 <= k < cand.len() ==> #[trigger] seq_has(r, cand[k].1)
}

/// Whether `x` is the value of some candidate.
pub open spec fn candidate_value(cand: Seq<(Seq<char>, Seq<char>)>, x: Seq<char>) -> bool {
    exists|k: int| 0 <= k < cand.len() && cand[k].1 == x
}

/// Whether `x` occurs in `r`.
pub open spec fn seq_has(r: Seq<Seq<char>>, x: Seq<char>) -> bool {
    exists|i: int| 0 <= i < r.len() && r[i] == x
}

pub proof fn lemma_candidates_keyed(values: Seq<Seq<char>>)
    ensures
        forall|k: int| 0 <= k < entity_candidates(values).len() ==> (#[trigger] entity_candidates(values)[k]).0 == normalize_seq(entity_candidates(values)[k].1),
        forall|a: int, b: int| 0 <= a < b < entity_candidates(values).len() ==> (#[trigger] entity_candidates(values)[a]).0 != (#[trigger] entity_candidates(values)[b]).0,
    decreases values.len(),
{
    if values.len() > 0 {
        lemma_candidates_keyed(values.drop_last());
        let prev = entity_candidates(values.drop_last());
        let t = py_strip_seq(values.last());
        let key = normalize_seq(t);
        let cur = entity_candidates(values);
        if !(t.len() == 0 || exists|k: int| 0 <= k < prev.len() && (#[trigger] prev[k]).0 == key) {
            assert(cur == prev.push((key, t)));
            assert forall|k: int| 0 <= k < cur.len() implies (#[trigger] cur[k]).0 == normalize_seq(cur[k].1) by {
                if k < prev.len() {
                    assert(cur[k] == prev[k]);
                }
            }
            assert forall|a: int, b: int| 0 <= a < b < cur.len() implies (#[trigger] cur[a]).0 != (#[trigger] cur[b]).0 by {
                assert(cur[a] == prev[a]);
                if b < prev.len() {
                    assert(cur[b] == prev[b]);
                }
            }
        }
    }
}

/// Stripped, non-empty entities deduplicated by normalized key (first value
/// wins) and ordered by key.
pub fn canonical_entities(values: &[String]) -> (r: Vec<String>)
    ensures
        canonical_entities_of(views(values@), views(r@)),
        views(r@) == canonical_entities_seq(views(values@)),
{
    let ghost vs = views(values@);
    let mut keys: Vec<Vec<char>> = Vec::new();
    let mut vals: Vec<String> = Vec::new();
    let mut i: usize = 0;
    while i < values.len()
        invariant
            i <= values.len(),
            vs == views(values@),
            keys.len() == vals.len(),
            entity_candidates(vs.take(i as int)).len() == keys.len(),
            forall|k: int| 0 <= k < keys.len() ==> #[trigger] entity_candidates(vs.take(i as int))[k] == (keys@[k]@, vals@[k]@),
        decreases values.len() - i,
    {
        let ghost prev = entity_candidates(vs.take(i as int));
        assert(vs.take(i + 1).drop_last() =~= vs.take(i as int));
        assert(vs.take(i + 1).last() == values@[i as int]@);
        let trimmed = py_strip(values[i].as_str());
        if trimmed.unicode_len() > 0 {
            let key = normalize_text(trimmed);
            let kv = to_chars(key.as_str());
            let mut found = false;
            let mut k: usize = 0;
            while k < keys.len()
                invariant
                    k <= keys.len(),
                    keys.len() == prev.len(),
                    forall|j: int| 0 <= j < keys.len() ==> #[trigger] prev[j] == (keys@[j]@, vals@[j]@),
                    found == exists|j: int| 0 <= j < k && (#[trigger] prev[j]).0 == kv@,
                decreases keys.len() - k,
            {
                assert(prev[k as int] == (keys@[k as int]@, vals@[k as int]@));
                if chars_eq(&keys[k], &kv) {
                    found = true;
                }
                k = k + 1;
            }
            if !found {
                keys.push(kv);
                vals.push(String::from_str(trimmed));
            }
        }
        i = i + 1;
    }
    assert(vs.take(values.len() as int) =~= vs);
    proof {
        lemma_candidates_keyed(vs);
    }
    let ghost cand = entity_candidates(vs);
    // Insertion sort by key.
    let mut out: Vec<String> = Vec::new();
    let mut out_keys: Vec<Vec<char>> = Vec::new();
    let ghost mut placed: Seq<int> = Seq::empty();
    let mut j: usize = 0;
    while j < keys.len()
        invariant
            j <= keys.len(),
            keys.len() == vals.len(),
            cand.len() == keys.len(),
            forall|k: int| 0 <= k < keys.len() ==> #[trigger] cand[k] == (keys@[k]@, vals@[k]@),
            forall|k: int| 0 <= k < cand.len() ==> (#[trigger] cand[k]).0 == normalize_seq(cand[k].1),
            forall|a: int, b: int| 0 <= a < b < cand.len() ==> (#[trigger] cand[a]).0 != (#[trigger] cand[b]).0,
            out.len() == j,
            out_keys.len() == j,
            placed.len() == j,
            forall|a: int| 0 <= a < j ==> 0 <= #[trigger] placed[a] < j,
            forall|a: int, b: int| 0 <= a < b < j ==> placed[a] != placed[b],
            forall|a: int| 0 <= a < j ==> out@[a]@ == vals@[#[trigger] placed[a]]@ && out_keys@[a]@ == keys@[placed[a]]@,
            forall|a: int, b: int| 0 <= a < b < j ==> seq_lt(#[trigger] out_keys@[a]@, #[trigger] out_keys@[b]@),
        decreases keys.len() - j,
    {
        let mut pos: usize = 0;
        while pos < out_keys.len() && chars_lt(&out_keys[pos], &keys[j])
            invariant
                pos <= out_keys.len(),
                j < keys.len(),
                forall|a: int| 0 <= a < pos ==> seq_lt(#[trigger] out_keys@[a]@, keys@[j as int]@),
            decreases out_keys.len() - pos,
        {
            pos = pos + 1;
        }
        proof {
            // Every later key is greater than the new key.
            assert forall|a: int| pos <= a < out_keys.len() implies seq_lt(keys@[j as int]@, #[trigger] out_keys@[a]@) by {
                let pa = placed[a];
                assert(cand[pa].0 != cand[j as int].0);
                lemma_seq_lt_total(out_keys@[a]@, keys@[j as int]@);
                if a > pos {
                    assert(seq_lt(out_keys@[pos as int]@, out_keys@[a]@));
                    if seq_lt(out_keys@[a]@, keys@[j as int]@) {
                        lemma_seq_lt_transitive(out_keys@[pos as int]@, out_keys@[a]@, keys@[j as int]@);
                    }
                    lemma_seq_lt_total(out_keys@[pos as int]@, keys@[j as int]@);
                    let pp = placed[pos as int];
                    assert(cand[pp].0 != cand[j as int].0);
                }
            }
        }
        let ghost old_out = out@;
        let ghost old_keys = out_keys@;
        let ghost old_placed = placed;
        out.insert(pos, vals[j].clone());
        out_keys.insert(pos, keys[j].clone());
        proof {
            placed = old_placed.insert(pos as int, j as int);
            assert forall|a: int, b: int| 0 <= a < b < j + 1 implies seq_lt(#[trigger] out_keys@[a]@, #[trigger] out_keys@[b]@) by {
                if b < pos {
                    assert(out_keys@[a] == old_keys[a]);
                    assert(out_keys@[b] == old_keys[b]);
                } else if b == pos {
                    assert(out_keys@[a] == old_keys[a]);
                } else if a == pos {
                    assert(out_keys@[b] == old_keys[b - 1]);
                } else if a < pos {
                    assert(out_keys@[a] == old_keys[a]);
                    assert(out_keys@[b] == old_keys[b - 1]);
                    assert(seq_lt(old_keys[a]@, keys@[j as int]@));
                    assert(seq_lt(keys@[j as int]@, old_keys[b - 1]@));
                    lemma_seq_lt_transitive(old_keys[a]@, keys@[j as int]@, old_keys[b - 1]@);
                } else {
                    assert(out_keys@[a] == old_keys[a - 1]);
                    assert(out_keys@[b] == old_keys[b - 1]);
                }
            }
            assert forall|a: int| 0 <= a < j + 1 implies out@[a]@ == vals@[#[trigger] placed[a]]@ && out_keys@[a]@ == keys@[placed[a]]@ by {
                if a < pos {
                    assert(out@[a] == old_out[a]);
                } else if a > pos {
                    assert(out@[a] == old_out[a - 1]);
                }
            }
            assert forall|a: int, b: int| 0 <= a < b < j + 1 implies placed[a] != placed[b] by {
                if a < pos && b > pos {
                    assert(placed[b] == old_placed[b - 1]);
                } else if a > pos {
                    assert(placed[a] == old_placed[a - 1]);
                    assert(placed[b] == old_placed[b - 1]);
                }
            }
        }
        j = j + 1;
    }
    proof {
        let rv = views(out@);
        assert forall|a: int, b: int| 0 <= a < b < rv.len() implies seq_lt(normalize_seq(#[trigger] rv[a]), normalize_seq(#[trigger] rv[b])) by {
            let pa = placed[a];
            let pb = placed[b];
            assert(rv[a] == cand[pa].1);
            assert(rv[b] == cand[pb].1);
            assert(seq_lt(out_keys@[a]@, out_keys@[b]@));
        }
        assert forall|a: int| 0 <= a < rv.len() implies #[trigger] candidate_value(cand, rv[a]) by {
            let pa = placed[a];
            assert(cand[pa].1 == rv[a]);
        }
        // `placed` is a permutation of 0..n, so every candidate is placed.
        lemma_injective_onto(placed, keys.len() as int);
        assert forall|k: int| 0 <= k < cand.len() implies #[trigger] seq_has(rv, cand[k].1) by {
            assert(seq_hits(placed, k));
            let i = choose|i: int| 0 <= i < placed.len() && placed[i] == k;
            assert(rv[i] == cand[k].1);
        }
        assert(canonical_entities_of(views(values@), rv));
        lemma_canonical_unique(views(values@), rv, canonical_entities_seq(views(values@)));
    }
    out
}

/// Whether `k` occurs in `p`.
pub open spec fn seq_hits(p: Seq<int>, k: int) -> bool {
    exists|i: int| 0 <= i < p.len() && p[i] == k
}

/// An injective map of `0..n` into `0..n` reaches every value.
pub proof fn lemma_injective_onto(p: Seq<int>, n: int)
    requires
        p.len() == n,
        forall|a: int| 0 <= a < n ==> 0 <= #[trigger] p[a] < n,
        forall|a: int, b: int| 0 <= a < b < n ==> p[a] != p[b],
    ensures
        forall|k: int| 0 <= k < n ==> #[trigger] seq_hits(p, k),
{
    if n >= 0 {
        assert(p.no_duplicates());
        p.unique_seq_to_set();
        vstd::set_lib::lemma_int_range(0, n);
        let r = vstd::set_lib::set_int_range(0, n);
        assert(p.to_set().subset_of(r));
        vstd::set_lib::lemma_len_subset(p.to_set(), r);
        vstd::set_lib::lemma_subset_equality(p.to_set(), r);
        assert forall|k: int| 0 <= k < n implies #[trigger] seq_hits(p, k) by {
            assert(r.contains(k));
            assert(p.to_set().contains(k));
        }
    }
}

/// The canonical entity list of `values` (the unique list satisfying
/// `canonical_entities_of`).
pub open spec fn canonical_entities_seq(values: Seq<Seq<char>>) -> Seq<Seq<char>> {
    choose|r: Seq<Seq<char>>| canonical_entities_of(values, r)
}

/// Two lists ordered strictly by key holding the same candidate values are
/// equal.
pub proof fn lemma_canonical_unique(values: Seq<Seq<char>>, a: Seq<Seq<char>>, b: Seq<Seq<char>>)
    requires
        canonical_entities_of(values, a),
        canonical_entities_of(values, b),
    ensures
        a == b,
{
    let cand = entity_candidates(values);
    let n = a.len() as int;
    assert forall|i: int| 0 <= i < n implies a[i] == b[i] by {
        lemma_canonical_prefix(values, a, b, i);
    }
    assert(a =~= b);
}

/// Distinct positions of a key-sorted list hold distinct values.
proof fn lemma_sorted_distinct(r: Seq<Seq<char>>, i: int, j: int)
    requires
        forall|x: int, y: int| 0 <= x < y < r.len() ==> seq_lt(normalize_seq(#[trigger] r[x]), normalize_seq(#[trigger] r[y])),
        0 <= i < r.len(),
        0 <= j < r.len(),
        i != j,
    ensures
        r[i] != r[j],
{
    if i < j {
        assert(seq_lt(normalize_seq(r[i]), normalize_seq(r[j])));
        if r[i] == r[j] {
            lemma_seq_lt_irreflexive(normalize_seq(r[i]));
        }
    } else {
        assert(seq_lt(normalize_seq(r[j]), normalize_seq(r[i])));
        if r[i] == r[j] {
            lemma_seq_lt_irreflexive(normalize_seq(r[i]));
        }
    }
}

proof fn lemma_canonical_prefix(values: Seq<Seq<char>>, a: Seq<Seq<char>>, b: Seq<Seq<char>>, i: int)
    requires
        canonical_entities_of(values, a),
        canonical_entities_of(values, b),
        0 <= i < a.len(),
    ensures
        a[i] == b[i],
    decreases i,
{
    let cand = entity_candidates(values);
    assert forall|k: int| 0 <= k < i implies a[k] == b[k] by {
        lemma_canonical_prefix(values, a, b, k);
    }
    // a[i] sits in b at some j >= i, and b[i] sits in a at some j2 >= i.
    assert(candidate_value(cand, a[i]));
    let ka = choose|k: int| 0 <= k < cand.len() && cand[k].1 == a[i];
    assert(seq_has(b, cand[ka].1));
    let j = choose|j: int| 0 <= j < b.len() && b[j] == a[i];
    assert(candidate_value(cand, b[i]));
    let kb = choose|k: int| 0 <= k < cand.len() && cand[k].1 == b[i];
    assert(seq_has(a, cand[kb].1));
    let j2 = choose|j2: int| 0 <= j2 < a.len() && a[j2] == b[i];
    if j < i {
        assert(b[j] == a[j]);
        lemma_sorted_distinct(a, i, j);
    }
    if j2 < i {
        assert(a[j2] == b[j2]);
        lemma_sorted_distinct(b, i, j2);
    }
    if j > i && j2 > i {
        // key(b[i]) < key(b[j]) = key(a[i]) < key(a[j2]) = key(b[i])
        assert(seq_lt(normalize_seq(b[i]), normalize_seq(b[j])));
        assert(seq_lt(normalize_seq(a[i]), normalize_seq(a[j2])));
        lemma_seq_lt_transitive(normalize_seq(b[i]), normalize_seq(a[i]), normalize_seq(b[i]));
        lemma_seq_lt_irreflexive(normalize_seq(b[i]));
    }
    if j > i && j2 == i {
        assert(a[i] == b[i]);
    }
}

proof fn lemma_trim_start_shape(s: Seq<char>, pred: spec_fn(char) -> bool)
    ensures
        trim_start_by(s, pred).len() > 0 ==> !pred(trim_start_by(s, pred)[0]),
    decreases s.len(),
{
    if s.len() > 0 && pred(s[0]) {
        lemma_trim_start_shape(s.drop_first(), pred);
    }
}

proof fn lemma_trim_end_shape(s: Seq<char>, pred: spec_fn(char) -> bool)
    ensures
        trim_end_by(s, pred).len() <= s.len(),
        trim_end_by(s, pred) == s.take(trim_end_by(s, pred).len() as int),
        trim_end_by(s, pred).len() > 0 ==> !pred(trim_end_by(s, pred).last()),
    decreases s.len(),
{
    if s.len() > 0 && pred(s.last()) {
        lemma_trim_end_shape(s.drop_last(), pred);
        let t = trim_end_by(s.drop_last(), pred);
        assert(s.drop_last().take(t.len() as int) =~= s.take(t.len() as int));
    } else {
        assert(s.take(s.len() as int) =~= s);
    }
}

/// Stripping a stripped text changes nothing.
pub proof fn lemma_py_strip_stable(s: Seq<char>)
    ensures
        py_strip_seq(py_strip_seq(s)) == py_strip_seq(s),
{
    let p = space_pred();
    let a = trim_start_by(s, p);
    let x = py_strip_seq(s);
    lemma_trim_start_shape(s, p);
    lemma_trim_end_shape(a, p);
    if x.len() > 0 {
        assert(x[0] == a[0]);
        crate::normalize::lemma_trim_start_at(x, p, 0);
        assert(x.skip(0) =~= x);
        crate::normalize::lemma_trim_end_at(x, p, x.len() as int);
        assert(x.take(x.len() as int) =~= x);
    } else {
        assert(trim_start_by(x, p) == x);
    }
}

proof fn lemma_candidate_values_stripped(values: Seq<Seq<char>>)
    ensures
        forall|k: int| 0 <= k < entity_candidates(values).len() ==> (#[trigger] entity_candidates(values)[k]).1.len()
            > 0 && py_strip_seq(entity_candidates(values)[k].1) == entity_candidates(values)[k].1,
    decreases values.len(),
{
    if values.len() > 0 {
        lemma_candidate_values_stripped(values.drop_last());
        lemma_py_strip_stable(values.last());
        let prev = entity_candidates(values.drop_last());
        let cur = entity_candidates(values);
        assert forall|k: int| 0 <= k < cur.len() implies (#[trigger] cur[k]).1.len() > 0 && py_strip_seq(cur[k].1)
            == cur[k].1 by {
            if k < prev.len() {
                assert(cur[k] == prev[k]);
            }
        }
    }
}

/// The candidates of a list of stripped values with distinct keys are the
/// values themselves, keyed, in order.
proof fn lemma_candidates_of_canonical(r: Seq<Seq<char>>, n: int)
    requires
        0 <= n <= r.len(),
        forall|i: int| 0 <= i < r.len() ==> (#[trigger] r[i]).len() > 0 && py_strip_seq(r[i]) == r[i],
        forall|i: int, j: int| 0 <= i < j < r.len() ==> seq_lt(normalize_seq(#[trigger] r[i]), normalize_seq(#[trigger] r[j])),
    ensures
        entity_candidates(r.take(n)) == r.take(n).map_values(|x: Seq<char>| (normalize_seq(x), x)),
    decreases n,
{
    if n > 0 {
        lemma_candidates_of_canonical(r, n - 1);
        let rt = r.take(n);
        assert(rt.drop_last() =~= r.take(n - 1));
        let prev = entity_candidates(r.take(n - 1));
        let x = r[n - 1];
        assert(rt.last() == x);
        let key = normalize_seq(x);
        assert forall|k: int| 0 <= k < prev.len() implies (#[trigger] prev[k]).0 != key by {
            assert(prev[k].0 == normalize_seq(r[k]));
            assert(seq_lt(normalize_seq(r[k]), normalize_seq(r[n - 1])));
            lemma_seq_lt_irreflexive(key);
        }
        assert(entity_candidates(rt) == prev.push((key, x)));
        assert(entity_candidates(rt) =~= rt.map_values(|x: Seq<char>| (normalize_seq(x), x)));
    }
}

/// The canonical entity list is a fixed point: canonicalizing it again gives
/// it back, so its keys are the input's candidate keys, strictly increasing.
pub proof fn law_canonical_entities_idempotent(values: Seq<Seq<char>>, r: Seq<Seq<char>>)
    requires
        canonical_entities_of(values, r),
    ensures
        canonical_entities_of(r, r),
        canonical_entities_seq(r) == r,
{
    let cand = entity_candidates(values);
    lemma_candidate_values_stripped(values);
    assert forall|i: int| 0 <= i < r.len() implies (#[trigger] r[i]).len() > 0 && py_strip_seq(r[i]) == r[i] by {
        assert(candidate_value(cand, r[i]));
        let k = choose|k: int| 0 <= k < cand.len() && cand[k].1 == r[i];
        assert(cand[k].1 == r[i]);
    }
    lemma_candidates_of_canonical(r, r.len() as int);
    assert(r.take(r.len() as int) =~= r);
    let rc = entity_candidates(r);
    assert forall|i: int| 0 <= i < r.len() implies #[trigger] candidate_value(rc, r[i]) by {
        assert(rc[i].1 == r[i]);
    }
    assert forall|k: int| 0 <= k < rc.len() implies #[trigger] seq_has(r, rc[k].1) by {
        assert(r[k] == rc[k].1);
    }
    assert(canonical_entities_of(r, r));
    let c = canonical_entities_seq(r);
    assert(canonical_entities_of(r, c));
    lemma_canonical_unique(r, r, c);
}

/// `str::replace("\r\n", "\n")`.
pub open spec fn crlf_to_lf(s: Seq<char>) -> Seq<char>
    decreases s.len(),
{
    if s.len() == 0 {
        s
    } else if s.len() >= 2 && s[0] == '\r' && s[1] == '\n' {
        seq!['\n'] + crlf_to_lf(s.skip(2))
    } else {
        seq![s[0]] + crlf_to_lf(s.drop_first())
    }
}

/// The line feed predicate as a value.
pub open spec fn newline_pred() -> spec_fn(char) -> bool {
    |c: char| c == '\n'
}

/// `str::split(sep)`: the pieces between separators (at least one).
pub open spec fn split_on(s: Seq<char>, sep: char) -> Seq<Seq<char>>
    decreases s.len(),
{
    if s.len() == 0 {
        seq![Seq::empty()]
    } else {
        let p = split_on(s.drop_last(), sep);
        if s.last() == sep {
            p.push(Seq::empty())
        } else {
            p.update(p.len() - 1, p.last().push(s.last()))
        }
    }
}

pub proof fn lemma_split_nonempty(s: Seq<char>, sep: char)
    ensures
        split_on(s, sep).len() >= 1,
    decreases s.len(),
{
    if s.len() > 0 {
        lemma_split_nonempty(s.drop_last(), sep);
    }
}

/// Body lines of structured content: CRLF folded to LF, trailing line feeds
/// removed, split on LF; an empty body has no lines.
pub open spec fn body_lines_seq(body: Seq<char>) -> Seq<Seq<char>> {
    let st = trim_end_by(crlf_to_lf(body), newline_pred());
    if st.len() == 0 {
        Seq::empty()
    } else {
        split_on(st, '\n')
    }
}

/// `body.replace("\r\n", "\n")`.
pub fn replace_crlf(v: &[char]) -> (r: Vec<char>)
    ensures
        r@ == crlf_to_lf(v@),
{
    let mut out: Vec<char> = Vec::new();
    let mut i: usize = 0;
    assert(v@.skip(0) =~= v@);
    while i < v.len()
        invariant
            i <= v.len(),
            out@ + crlf_to_lf(v@.skip(i as int)) == crlf_to_lf(v@),
        decreases v.len() - i,
    {
        let ghost rest = v@.skip(i as int);
        if i + 1 < v.len() && v[i] == '\r' && v[i + 1] == '\n' {
            out.push('\n');
            assert(rest.skip(2) =~= v@.skip(i + 2));
            assert(out@ + crlf_to_lf(v@.skip(i + 2)) =~= old_out_plus(out@, crlf_to_lf(v@.skip(i + 2))));
            i = i + 2;
        } else {
            out.push(v[i]);
            assert(rest.drop_first() =~= v@.skip(i + 1));
            i = i + 1;
        }
    }
    assert(v@.skip(v.len() as int) =~= Seq::<char>::empty());
    assert(out@ + Seq::<char>::empty() =~= out@);
    out
}

spec fn old_out_plus(a: Seq<char>, b: Seq<char>) -> Seq<char> {
    a + b
}

/// Splits `v` on `sep`.
pub fn split_on_char(v: &[char], sep: char) -> (r: Vec<String>)
    ensures
        views(r@) == split_on(v@, sep),
{
    let mut lines: Vec<String> = Vec::new();
    let mut cur: Vec<char> = Vec::new();
    let mut i: usize = 0;
    while i < v.len()
        invariant
            i <= v.len(),
            views(lines@).push(cur@) == split_on(v@.take(i as int), sep),
        decreases v.len() - i,
    {
        proof {
            lemma_split_nonempty(v@.take(i as int), sep);
            assert(v@.take(i + 1).drop_last() =~= v@.take(i as int));
        }
        if v[i] == sep {
            let line = from_chars(&cur);
            lines.push(line);
            cur = Vec::new();
            assert(views(lines@).push(cur@) =~= split_on(v@.take(i + 1), sep));
        } else {
            let ghost before = views(lines@).push(cur@);
            cur.push(v[i]);
            assert(views(lines@).push(cur@) =~= before.update(before.len() - 1, before.last().push(v@[i as int])));
        }
        i = i + 1;
    }
    lines.push(from_chars(&cur));
    assert(v@.take(v.len() as int) =~= v@);
    assert(views(lines@) =~= split_on(v@, sep));
    lines
}

/// Body lines of a structured body text.
fn body_lines(body: &str) -> (r: Vec<String>)
    ensures
        views(r@) == body_lines_seq(body@),
{
    let v = to_chars(body);
    let folded = replace_crlf(&v);
    let mut e = folded.len();
    while e > 0 && folded[e - 1] == '\n'
        invariant
            e <= folded.len(),
            forall|k: int| e <= k < folded.len() ==> (newline_pred())(#[trigger] folded@[k]),
        decreases e,
    {
        e = e - 1;
    }
    proof {
        lemma_trim_end_at(folded@, newline_pred(), e as int);
    }
    if e == 0 {
        return Vec::new();
    }
    let mut st: Vec<char> = Vec::new();
    let mut i: usize = 0;
    while i < e
        invariant
            i <= e <= folded.len(),
            st@ == folded@.take(i as int),
        decreases e - i,
    {
        st.push(folded[i]);
        assert(folded@.take(i as int).push(folded@[i as int]) =~= folded@.take(i + 1));
        i = i + 1;
    }
    split_on_char(&st, '\n')
}

/// The first entity error, scanning in order: an over-long entity or one
/// holding a comma, line break or NUL.
pub open spec fn entity_error(es: Seq<Seq<char>>) -> Option<Seq<char>>
    decreases es.len(),
{
    if es.len() == 0 {
        None
    } else {
        let e = py_strip_seq(es[0]);
        if e.len() == 0 {
            entity_error(es.drop_first())
        } else if e.len() > 128 {
            Some("单个实体最多 128 个字符"@)
        } else if e.contains(',') || e.contains('\n') || e.contains('\r') || e.contains('\0') {
            Some("实体不能包含逗号、换行或 NUL 字符"@)
        } else {
            entity_error(es.drop_first())
        }
    }
}

/// Stripped, non-empty entities in order.
pub open spec fn kept_entities(es: Seq<Seq<char>>) -> Seq<Seq<char>>
    decreases es.len(),
{
    if es.len() == 0 {
        Seq::empty()
    } else {
        let prev = kept_entities(es.drop_last());
        let e = py_strip_seq(es.last());
        if e.len() == 0 {
            prev
        } else {
            prev.push(e)
        }
    }
}

/// The card types.
pub open spec fn valid_type(t: Seq<char>) -> bool {
    t == "fact"@ || t == "decision"@ || t == "skill"@
}

/// The first validation error of structured content, if any.
pub open spec fn structured_error(
    title: Seq<char>,
    body: Seq<char>,
    entities: Seq<Seq<char>>,
    card_type: Seq<char>,
) -> Option<Seq<char>> {
    if text_error(title, body, entities.len()) is Some {
        text_error(title, body, entities.len())
    } else if entity_error(entities) is Some {
        entity_error(entities)
    } else if !valid_type(card_type) {
        Some("类型只能是 fact、decision 或 skill"@)
    } else {
        None
    }
}

/// The first error of the title, body and entity count, if any.
pub open spec fn text_error(title: Seq<char>, body: Seq<char>, entity_count: nat) -> Option<Seq<char>> {
    let t = py_strip_seq(title);
    if t.len() == 0 {
        Some("标题不能为空"@)
    } else if t.contains('\n') || t.contains('\r') || t.contains('\0') {
        Some("标题必须是单行文本，且不能包含 NUL 字符"@)
    } else if t.len() > 120 {
        Some("标题最多 120 个字符"@)
    } else if body.len() > 2097152 {
        Some("正文最多 2097152 个字符"@)
    } else if utf8_len(body) > 2097152 {
        Some("正文超过 2097152 字节上限"@)
    } else if body.contains('\0') {
        Some("正文不能包含 NUL 字符"@)
    } else if crlf_to_lf(body).contains('\r') {
        Some("正文只能使用 LF 或完整 CRLF 换行"@)
    } else if entity_count > 32 {
        Some("实体最多 32 项"@)
    } else {
        None
    }
}

/// Whether `r` is a core error with message `m`.
pub open spec fn is_core_error<T>(r: Result<T, Error>, m: Seq<char>) -> bool {
    r matches Err(Error::Core(x)) && x@ == m
}

/// Validates structured content and normalizes it into a stripped title,
/// body lines, canonical entities and the card type.
pub fn normalize_structured_content(
    title: &str,
    body: &str,
    entities: &[String],
    card_type: &str,
) -> (r: crate::Result<(String, Vec<String>, Vec<String>, String)>)
    ensures
        match structured_error(title@, body@, views(entities@), card_type@) {
            Some(m) => is_core_error(r, m),
            None => r matches Ok((t, b, e, ty)) && t@ == py_strip_seq(title@) && views(b@)
                == body_lines_seq(body@) && views(e@) == canonical_entities_seq(
                kept_entities(views(entities@)),
            ) && ty@ == card_type@,
        },
{
    let t = py_strip(title);
    let tv = to_chars(t);
    if tv.len() == 0 {
        return Err(Error::core_error("标题不能为空"));
    }
    if contains_char(&tv, '\n') || contains_char(&tv, '\r') || contains_char(&tv, '\0') {
        return Err(Error::core_error("标题必须是单行文本，且不能包含 NUL 字符"));
    }
    if tv.len() > 120 {
        return Err(Error::core_error("标题最多 120 个字符"));
    }
    let bv = to_chars(body);
    if bv.len() > 2097152 {
        return Err(Error::core_error("正文最多 2097152 个字符"));
    }
    if str_byte_len(body) > 2097152 {
        return Err(Error::core_error("正文超过 2097152 字节上限"));
    }
    if contains_char(&bv, '\0') {
        return Err(Error::core_error("正文不能包含 NUL 字符"));
    }
    let folded = replace_crlf(&bv);
    if contains_char(&folded, '\r') {
        return Err(Error::core_error("正文只能使用 LF 或完整 CRLF 换行"));
    }
    if entities.len() > 32 {
        return Err(Error::core_error("实体最多 32 项"));
    }
    let ghost es = views(entities@);
    assert(text_error(title@, body@, entities@.len()) is None);
    let mut kept: Vec<String> = Vec::new();
    let mut i: usize = 0;
    assert(es.skip(0) =~= es);
    while i < entities.len()
        invariant
            i <= entities.len(),
            es == views(entities@),
            text_error(title@, body@, entities@.len()) is None,
            entity_error(es) == entity_error(es.skip(i as int)),
            views(kept@) == kept_entities(es.take(i as int)),
        decreases entities.len() - i,
    {
        let e = py_strip(entities[i].as_str());
        let ev = to_chars(e);
        assert(es.skip(i as int)[0] == es[i as int]);
        assert(es[i as int] == entities@[i as int]@);
        assert(ev@ == py_strip_seq(es.skip(i as int)[0]));
        assert(es.skip(i as int).drop_first() =~= es.skip(i + 1));
        assert(es.take(i + 1).drop_last() =~= es.take(i as int));
        assert(es.take(i + 1).last() == es[i as int]);
        if ev.len() > 0 {
            if ev.len() > 128 {
                return Err(Error::core_error("单个实体最多 128 个字符"));
            }
            if contains_char(&ev, ',') || contains_char(&ev, '\n') || contains_char(&ev, '\r')
                || contains_char(&ev, '\0') {
                return Err(Error::core_error("实体不能包含逗号、换行或 NUL 字符"));
            }
            kept.push(String::from_str(e));
        }
        i = i + 1;
    }
    assert(es.take(entities.len() as int) =~= es);
    assert(es.skip(entities.len() as int) =~= Seq::<Seq<char>>::empty());
    proof {
        reveal_strlit("fact");
        reveal_strlit("decision");
        reveal_strlit("skill");
    }
    if !(str_eq(card_type, "fact") || str_eq(card_type, "decision") || str_eq(card_type, "skill")) {
        return Err(Error::core_error("类型只能是 fact、decision 或 skill"));
    }
    let lines = body_lines(body);
    let canonical = canonical_entities(&kept);
    Ok((String::from_str(t), lines, canonical, String::from_str(card_type)))
}

/// Scope stored for a structured card: `global`, or `project:<project>`.
pub open spec fn stored_scope_result(scope: Seq<char>, project: Seq<char>) -> Result<Seq<char>, Seq<char>> {
    if scope == "global"@ {
        Ok("global"@)
    } else if scope != "project"@ {
        Err("适用范围只能是 global 或 project"@)
    } else if project.len() == 0 || project == "global"@ {
        Err("scope=project 需要可识别的项目目录；请在项目会话中重试，或明确使用 global"@)
    } else {
        Ok("project:"@ + project)
    }
}

/// The stored scope for `scope` (`global` or `project`) within `project`.
pub fn stored_scope(scope: &str, project: &str) -> (r: crate::Result<String>)
    ensures
        match stored_scope_result(scope@, project@) {
            Ok(v) => r matches Ok(x) && x@ == v,
            Err(m) => is_core_error(r, m),
        },
{
    if str_eq(scope, "global") {
        return Ok(String::from_str("global"));
    }
    if !str_eq(scope, "project") {
        return Err(Error::core_error("适用范围只能是 global 或 project"));
    }
    if project.unicode_len() == 0 || str_eq(project, "global") {
        return Err(
            Error::core_error(
                "scope=project 需要可识别的项目目录；请在项目会话中重试，或明确使用 global",
            ),
        );
    }
    let mut v: Vec<char> = Vec::new();
    extend_str(&mut v, "project:");
    extend_str(&mut v, project);
    Ok(from_chars(&v))
}

/// Items joined by `", "`.
pub open spec fn join_comma(items: Seq<Seq<char>>) -> Seq<char>
    decreases items.len(),
{
    if items.len() == 0 {
        Seq::empty()
    } else if items.len() == 1 {
        items[0]
    } else {
        join_comma(items.drop_last()) + ", "@ + items.last()
    }
}

/// Appends `items` joined by `", "`.
fn push_joined(out: &mut Vec<char>, items: &[String])
    ensures
        final(out)@ == old(out)@ + join_comma(views(items@)),
{
    let ghost vs = views(items@);
    let mut i: usize = 0;
    while i < items.len()
        invariant
            i <= items.len(),
            vs == views(items@),
            out@ == old(out)@ + join_comma(vs.take(i as int)),
        decreases items.len() - i,
    {
        proof {
            reveal_strlit(", ");
        }
        let ghost before = out@;
        if i > 0 {
            extend_str(out, ", ");
        }
        extend_str(out, items[i].as_str());
        assert(vs.take(i + 1).drop_last() =~= vs.take(i as int));
        assert(vs.take(i + 1).last() == items@[i as int]@);
        if i == 0 {
            assert(out@ =~= old(out)@ + join_comma(vs.take(i + 1)));
        } else {
            assert(out@ =~= old(out)@ + join_comma(vs.take(i + 1)));
        }
        i = i + 1;
    }
    assert(vs.take(items.len() as int) =~= vs);
}

/// Strictly increasing.
pub open spec fn strictly_increasing(r: Seq<i64>) -> bool {
    forall|a: int, b: int| 0 <= a < b < r.len() ==> r[a] < r[b]
}

/// The distinct values of `xs` in increasing order.
pub open spec fn sorted_unique(xs: Seq<i64>) -> Seq<i64> {
    choose|r: Seq<i64>| strictly_increasing(r) && r.to_set() == xs.to_set()
}

pub proof fn lemma_sorted_unique_eq(a: Seq<i64>, b: Seq<i64>)
    requires
        strictly_increasing(a),
        strictly_increasing(b),
        a.to_set() == b.to_set(),
    ensures
        a == b,
    decreases a.len(),
{
    if a.len() > 0 {
        assert(a.to_set().contains(a[0]));
        assert(b.to_set().contains(a[0]));
        assert(b.len() > 0);
        assert(a.to_set().contains(b[0]));
        let ia = choose|i: int| 0 <= i < a.len() && a[i] == b[0];
        let ib = choose|i: int| 0 <= i < b.len() && b[i] == a[0];
        if ia > 0 {
            assert(a[0] < a[ia]);
        }
        if ib > 0 {
            assert(b[0] < b[ib]);
        }
        assert(a[0] == b[0]);
        let ta = a.drop_first();
        let tb = b.drop_first();
        assert forall|x: i64| ta.to_set().contains(x) implies tb.to_set().contains(x) by {
            let i = choose|i: int| 0 <= i < ta.len() && ta[i] == x;
            assert(a[i + 1] == x);
            assert(b.to_set().contains(x));
            let j = choose|j: int| 0 <= j < b.len() && b[j] == x;
            assert(a[0] < x);
            if j == 0 {
                assert(false);
            }
            assert(tb[j - 1] == x);
        }
        assert forall|x: i64| tb.to_set().contains(x) implies ta.to_set().contains(x) by {
            let i = choose|i: int| 0 <= i < tb.len() && tb[i] == x;
            assert(b[i + 1] == x);
            assert(a.to_set().contains(x));
            let j = choose|j: int| 0 <= j < a.len() && a[j] == x;
            assert(b[0] < x);
            if j == 0 {
                assert(false);
            }
            assert(ta[j - 1] == x);
        }
        assert(ta.to_set() =~= tb.to_set());
        lemma_sorted_unique_eq(ta, tb);
        assert(a =~= seq![a[0]] + ta);
        assert(b =~= seq![b[0]] + tb);
    } else {
        if b.len() > 0 {
            assert(b.to_set().contains(b[0]));
        }
    }
}

/// The distinct values in increasing order.
pub fn sort_unique_ids(xs: &[i64]) -> (r: Vec<i64>)
    ensures
        r@ == sorted_unique(xs@),
        strictly_increasing(r@),
        r@.to_set() == xs@.to_set(),
{
    let mut out: Vec<i64> = Vec::new();
    let mut i: usize = 0;
    while i < xs.len()
        invariant
            i <= xs.len(),
            strictly_increasing(out@),
            out@.to_set() == xs@.take(i as int).to_set(),
        decreases xs.len() - i,
    {
        let x = xs[i];
        let mut pos: usize = 0;
        while pos < out.len() && out[pos] < x
            invariant
                pos <= out.len(),
                forall|a: int| 0 <= a < pos ==> out@[a] < x,
            decreases out.len() - pos,
        {
            pos = pos + 1;
        }
        let ghost before = out@;
        if pos < out.len() && out[pos] == x {
        } else {
            out.insert(pos, x);
            assert forall|a: int, b: int| 0 <= a < b < out.len() implies out@[a] < out@[b] by {
                if b < pos {
                } else if b == pos {
                } else if a == pos {
                    assert(out@[b] == before[b - 1]);
                    assert(before[pos as int] >= x);
                    if b - 1 > pos {
                        assert(before[pos as int] < before[b - 1]);
                    }
                } else if a < pos {
                    assert(out@[b] == before[b - 1]);
                    assert(before[a] < x);
                    assert(before[pos as int] >= x);
                    if b - 1 > pos {
                        assert(before[pos as int] < before[b - 1]);
                    }
                } else {
                    assert(out@[a] == before[a - 1]);
                    assert(out@[b] == before[b - 1]);
                }
            }
        }
        proof {
            assert(xs@.take(i + 1) =~= xs@.take(i as int).push(x));
            assert forall|y: i64| out@.to_set().contains(y) <==> xs@.take(i + 1).to_set().contains(y) by {
                if out@.to_set().contains(y) {
                    let k = choose|k: int| 0 <= k < out@.len() && out@[k] == y;
                    if y != x {
                        if k < pos {
                            assert(before[k] == y);
                        } else if out@.len() == before.len() {
                            assert(before[k] == y);
                        } else {
                            assert(k != pos);
                            assert(before[k - 1] == y);
                        }
                        assert(before.to_set().contains(y));
                        assert(xs@.take(i as int).to_set().contains(y));
                        let m = choose|m: int| 0 <= m < i && #[trigger] xs@.take(i as int)[m] == y;
                        assert(xs@.take(i + 1)[m] == y);
                    } else {
                        assert(xs@.take(i + 1)[i as int] == y);
                    }
                }
                if xs@.take(i + 1).to_set().contains(y) {
                    let m = choose|m: int| 0 <= m < i + 1 && #[trigger] xs@.take(i + 1)[m] == y;
                    if m < i {
                        assert(xs@.take(i as int)[m] == y);
                        assert(xs@.take(i as int).to_set().contains(y));
                        assert(before.to_set().contains(y));
                        let k = choose|k: int| 0 <= k < before.len() && before[k] == y;
                        if out@.len() == before.len() {
                            assert(out@[k] == y);
                        } else if k < pos {
                            assert(out@[k] == y);
                        } else {
                            assert(out@[k + 1] == y);
                        }
                    } else {
                        if out@.len() == before.len() {
                            assert(out@[pos as int] == y);
                        } else {
                            assert(out@[pos as int] == y);
                        }
                    }
                }
            }
            assert(out@.to_set() =~= xs@.take(i + 1).to_set());
        }
        i = i + 1;
    }
    assert(xs@.take(xs.len() as int) =~= xs@);
    proof {
        lemma_sorted_unique_eq(out@, sorted_unique(xs@));
    }
    out
}

/// `label + value + "\n"` for a non-empty value.
pub open spec fn opt_directive(label: Seq<char>, value: Seq<char>) -> Seq<char> {
    if value.len() == 0 {
        Seq::empty()
    } else {
        label + value + "\n"@
    }
}

/// Each line followed by a line feed.
pub open spec fn body_block(lines: Seq<Seq<char>>) -> Seq<char>
    decreases lines.len(),
{
    if lines.len() == 0 {
        Seq::empty()
    } else {
        body_block(lines.drop_last()) + lines.last() + "\n"@
    }
}

/// `@id` references.
pub open spec fn ref_items(ids: Seq<i64>) -> Seq<Seq<char>> {
    ids.map_values(|x: i64| "@"@ + int_text(x as int))
}

/// The header line of a card as of `today`.
pub open spec fn header_seq(card: Card, today: Seq<char>) -> Seq<char> {
    "@"@ + int_text(card.id as int) + " "@ + card.card_type@ + " "@ + card.status@ + " I"@
        + int_text(card.importance as int) + " T"@ + trust_text_seq(card.trust as int) + " F"@
        + freshness_seq(card.last_used@, card.updated@, today) + " "@ + card.updated@ + "\n"@
}

/// The entity directive line of a card.
pub open spec fn entity_line_seq(card: Card) -> Seq<char> {
    if card.entities@.len() == 0 {
        Seq::empty()
    } else {
        "= "@ + join_comma(canonical_entities_seq(views(card.entities@))) + "\n"@
    }
}

/// The source, format, lock, scope, date and validity directive lines.
pub open spec fn meta_lines_seq(card: Card) -> Seq<char> {
    "~ "@ + card.source@ + "\n"@ + "# format 1\n"@ + (if card.lock {
        "# lock\n"@
    } else {
        Seq::empty()
    }) + opt_directive("# scope "@, card.scope@) + opt_directive("# last-used "@, card.last_used@)
        + opt_directive("# valid-from "@, card.valid_from@) + opt_directive(
        "# valid-to "@,
        card.valid_to@,
    )
}

/// The replacement directive line of a card.
pub open spec fn supersedes_line_seq(card: Card) -> Seq<char> {
    if card.supersedes@.len() == 0 {
        Seq::empty()
    } else {
        "# supersedes "@ + join_comma(ref_items(sorted_unique(card.supersedes@))) + "\n"@
    }
}

/// The directive lines of a card.
pub open spec fn directives_seq(card: Card) -> Seq<char> {
    entity_line_seq(card) + meta_lines_seq(card) + supersedes_line_seq(card)
}

/// Canonical `.mem` v1 text of a card as of `today`.
pub open spec fn serialize_seq(card: Card, today: Seq<char>) -> Seq<char> {
    header_seq(card, today) + directives_seq(card) + card.title@ + "\n"@ + body_block(views(card.body@))
}

/// Appends `label + value + "\n"` when `value` is non-empty.
fn push_directive(out: &mut Vec<char>, label: &str, value: &str)
    ensures
        final(out)@ == old(out)@ + opt_directive(label@, value@),
{
    if value.unicode_len() > 0 {
        extend_str(out, label);
        extend_str(out, value);
        extend_str(out, "\n");
    }
}

/// The header's text up to its importance digit.
spec fn header_head(card: Card) -> Seq<char> {
    "@"@ + int_text(card.id as int) + " "@ + card.card_type@ + " "@ + card.status@ + " I"@
}

/// Appends `@<id> <type> <status> I`.
#[verifier::spinoff_prover]
fn push_header_head(out: &mut Vec<char>, card: &Card)
    ensures
        final(out)@ == old(out)@ + header_head(*card),
{
    proof {
        reveal_strlit("@");
        reveal_strlit(" ");
        reveal_strlit(" I");
    }
    let ghost o = out@;
    out.push('@');
    push_int(out, card.id);
    out.push(' ');
    assert(out@ =~= o + "@"@ + int_text(card.id as int) + " "@);
    extend_str(out, card.card_type.as_str());
    out.push(' ');
    extend_str(out, card.status.as_str());
    extend_str(out, " I");
    assert(out@ =~= o + header_head(*card));
}

/// Appends `<importance> T<trust> F<freshness> <updated>` and the newline.
#[verifier::spinoff_prover]
fn push_header_tail(out: &mut Vec<char>, card: &Card, today: &str)
    ensures
        final(out)@ == old(out)@ + int_text(card.importance as int) + " T"@ + trust_text_seq(card.trust as int)
            + " F"@ + freshness_seq(card.last_used@, card.updated@, today@) + " "@ + card.updated@ + "\n"@,
{
    proof {
        reveal_strlit(" ");
        reveal_strlit("\n");
        reveal_strlit(" T");
        reveal_strlit(" F");
    }
    let ghost o = out@;
    push_int(out, card.importance);
    extend_str(out, " T");
    let trust = trust_text(card.trust);
    extend_str(out, trust.as_str());
    extend_str(out, " F");
    let ghost p2 = int_text(card.importance as int) + " T"@ + trust_text_seq(card.trust as int) + " F"@;
    assert(out@ =~= o + p2);
    let fresh = card.freshness_text(today);
    extend_str(out, fresh.as_str());
    out.push(' ');
    extend_str(out, card.updated.as_str());
    out.push('\n');
    assert(out@ =~= o + p2 + freshness_seq(card.last_used@, card.updated@, today@) + " "@ + card.updated@ + "\n"@);
}

/// Appends the header line.
#[verifier::spinoff_prover]
#[verifier::rlimit(40)]
fn push_header(out: &mut Vec<char>, card: &Card, today: &str)
    ensures
        final(out)@ == old(out)@ + header_seq(*card, today@),
{
    let ghost o = out@;
    push_header_head(out, card);
    push_header_tail(out, card, today);
    assert(out@ =~= o + header_seq(*card, today@));
}

/// The `@id` reference texts.
fn ref_texts(refs: &[i64]) -> (r: Vec<String>)
    ensures
        views(r@) == ref_items(refs@),
{
    let mut items: Vec<String> = Vec::new();
    let mut i: usize = 0;
    while i < refs.len()
        invariant
            i <= refs.len(),
            views(items@) == ref_items(refs@.take(i as int)),
        decreases refs.len() - i,
    {
        let mut item: Vec<char> = Vec::new();
        item.push('@');
        push_int(&mut item, refs[i]);
        proof {
            reveal_strlit("@");
        }
        assert(item@ =~= "@"@ + int_text(refs@[i as int] as int));
        let ghost prev = views(items@);
        let text = from_chars(&item);
        items.push(text);
        assert(views(items@) =~= prev.push(item@));
        assert(refs@.take(i + 1) =~= refs@.take(i as int).push(refs@[i as int]));
        assert(ref_items(refs@.take(i + 1)) =~= ref_items(refs@.take(i as int)).push("@"@ + int_text(refs@[i as int] as int)));
        i = i + 1;
    }
    assert(refs@.take(refs.len() as int) =~= refs@);
    items
}

/// Appends the entity directive line.
fn push_entity_line(out: &mut Vec<char>, card: &Card)
    ensures
        final(out)@ == old(out)@ + entity_line_seq(*card),
{
    if card.entities.len() > 0 {
        extend_str(out, "= ");
        let canonical = canonical_entities(&card.entities);
        push_joined(out, &canonical);
        extend_str(out, "\n");
        assert(final(out)@ =~= old(out)@ + entity_line_seq(*card));
    }
}

/// Appends the source, format, lock, scope, date and validity lines.
fn push_meta_lines(out: &mut Vec<char>, card: &Card)
    ensures
        final(out)@ == old(out)@ + meta_lines_seq(*card),
{
    extend_str(out, "~ ");
    extend_str(out, card.source.as_str());
    extend_str(out, "\n");
    extend_str(out, "# format 1\n");
    if card.lock {
        extend_str(out, "# lock\n");
    }
    push_directive(out, "# scope ", card.scope.as_str());
    push_directive(out, "# last-used ", card.last_used.as_str());
    push_directive(out, "# valid-from ", card.valid_from.as_str());
    push_directive(out, "# valid-to ", card.valid_to.as_str());
    assert(final(out)@ =~= old(out)@ + meta_lines_seq(*card));
}

/// Appends the replacement directive line.
fn push_supersedes_line(out: &mut Vec<char>, card: &Card)
    ensures
        final(out)@ == old(out)@ + supersedes_line_seq(*card),
{
    if card.supersedes.len() > 0 {
        extend_str(out, "# supersedes ");
        let refs = sort_unique_ids(&card.supersedes);
        let items = ref_texts(&refs);
        push_joined(out, &items);
        extend_str(out, "\n");
        assert(final(out)@ =~= old(out)@ + supersedes_line_seq(*card));
    }
}

/// Appends the directive lines.
fn push_directives(out: &mut Vec<char>, card: &Card)
    ensures
        final(out)@ == old(out)@ + directives_seq(*card),
{
    push_entity_line(out, card);
    push_meta_lines(out, card);
    push_supersedes_line(out, card);
    assert(final(out)@ =~= old(out)@ + directives_seq(*card));
}

/// Appends the title line and each body line.
fn push_title_body(out: &mut Vec<char>, card: &Card)
    ensures
        final(out)@ == old(out)@ + card.title@ + "\n"@ + body_block(views(card.body@)),
{
    extend_str(out, card.title.as_str());
    extend_str(out, "\n");
    let ghost lines = views(card.body@);
    let ghost titled = out@;
    let mut j: usize = 0;
    while j < card.body.len()
        invariant
            j <= card.body.len(),
            lines == views(card.body@),
            out@ == titled + body_block(lines.take(j as int)),
        decreases card.body.len() - j,
    {
        extend_str(out, card.body[j].as_str());
        extend_str(out, "\n");
        assert(lines.take(j + 1).drop_last() =~= lines.take(j as int));
        assert(out@ =~= titled + body_block(lines.take(j + 1)));
        j = j + 1;
    }
    assert(lines.take(card.body.len() as int) =~= lines);
}

/// Canonical `.mem` v1 serialization with the freshness as of `today`.
pub fn serialize_card(card: &Card, today: &str) -> (r: String)
    ensures
        r@ == serialize_seq(*card, today@),
{
    let mut out: Vec<char> = Vec::new();
    push_header(&mut out, card, today);
    push_directives(&mut out, card);
    push_title_body(&mut out, card);
    assert(out@ =~= serialize_seq(*card, today@));
    from_chars(&out)
}

/// The fields of a card built from structured content.
pub open spec fn built_card(
    c: Card,
    title: Seq<char>,
    body: Seq<char>,
    entities: Seq<Seq<char>>,
    card_type: Seq<char>,
    scope_value: Seq<char>,
    status: Seq<char>,
    source: Seq<char>,
    lock: bool,
    today: Seq<char>,
) -> bool {
    let published = status == "published"@;
    &&& c.id == 0
    &&& c.card_type@ == card_type
    &&& c.status@ == status
    &&& c.importance == (if published { 3int } else { 2int })
    &&& c.trust == (if published { 6int } else { 4int })
    &&& c.updated@ == today
    &&& views(c.entities@) == canonical_entities_seq(kept_entities(entities))
    &&& c.source@ == source
    &&& c.lock == (lock && published)
    &&& c.scope@ == scope_value
    &&& c.last_used@.len() == 0
    &&& c.valid_from@.len() == 0
    &&& c.valid_to@.len() == 0
    &&& c.supersedes@.len() == 0
    &&& c.title@ == py_strip_seq(title)
    &&& views(c.body@) == body_lines_seq(body)
    &&& !c.deduplicated
    &&& !c.unchanged
}

/// Validates structured content and builds a card with id 0, dated `today`:
/// a published card gets I3/T3, a candidate I2/T2; only a published card
/// keeps the lock.
pub fn build_structured_card(
    title: &str,
    body: &str,
    entities: &[String],
    card_type: &str,
    scope: &str,
    project: &str,
    status: &str,
    source: &str,
    lock: bool,
    today: &str,
) -> (r: crate::Result<Card>)
    ensures
        !(status@ == "published"@ || status@ == "candidate"@) ==> is_core_error(
            r,
            "结构化建卡只支持正式记忆或候选记忆"@,
        ),
        (status@ == "published"@ || status@ == "candidate"@) ==> match structured_error(
            title@,
            body@,
            views(entities@),
            card_type@,
        ) {
            Some(m) => is_core_error(r, m),
            None => match stored_scope_result(scope@, project@) {
                Err(m) => is_core_error(r, m),
                Ok(sv) => match r {
                    Ok(c) => built_card(c, title@, body@, views(entities@), card_type@, sv, status@, source@, lock, today@)
                        && utf8_len(serialize_seq(c, today@)) <= 2097152,
                    Err(_) => is_core_error(r, "记忆内容超过 2097152 字节上限"@) && exists|c: Card|
                        built_card(c, title@, body@, views(entities@), card_type@, sv, status@, source@, lock, today@)
                        && utf8_len(#[trigger] serialize_seq(c, today@)) > 2097152,
                },
            },
        },
{
    let published = str_eq(status, "published");
    if !published && !str_eq(status, "candidate") {
        return Err(Error::core_error("结构化建卡只支持正式记忆或候选记忆"));
    }
    let (title, body_lines, normalized_entities, card_type) = match normalize_structured_content(
        title,
        body,
        entities,
        card_type,
    ) {
        Ok(parts) => parts,
        Err(e) => return Err(e),
    };
    let scope_value = match stored_scope(scope, project) {
        Ok(v) => v,
        Err(e) => return Err(e),
    };
    let card = Card {
        id: 0,
        card_type,
        status: String::from_str(status),
        importance: if published { 3 } else { 2 },
        trust: if published { 6 } else { 4 },
        updated: String::from_str(today),
        entities: normalized_entities,
        source: String::from_str(source),
        lock: lock && published,
        scope: scope_value,
        last_used: String::new(),
        valid_from: String::new(),
        valid_to: String::new(),
        supersedes: Vec::new(),
        title,
        body: body_lines,
        deduplicated: false,
        unchanged: false,
    };
    let text = serialize_card(&card, today);
    if str_byte_len(text.as_str()) > 2097152 {
        return Err(Error::core_error("记忆内容超过 2097152 字节上限"));
    }
    Ok(card)
}

} // verus!
