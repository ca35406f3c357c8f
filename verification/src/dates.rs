use vstd::prelude::*;

use crate::strutil::{digit_val, is_digit};

use chrono::Datelike;
use chrono::Timelike;

verus! {

/// A signed span of time in whole seconds, the unit every moratorium is
/// reduced to.
#[derive(Debug, PartialEq, Eq, Structural)]
pub struct Duration {
    pub seconds: i64,
}

/// The largest count of units a moratorium string may carry: the largest
/// decimal number that fits 32 bits.
pub open spec fn max_unit_count() -> int {
    0xFFFF_FFFF
}

impl Duration {
    pub fn minutes(n: i64) -> (r: Duration)
        requires
            0 <= n <= max_unit_count(),
        ensures
            r.seconds == n * 60,
    {
        Duration { seconds: n * 60 }
    }

    pub fn hours(n: i64) -> (r: Duration)
        requires
            0 <= n <= max_unit_count(),
        ensures
            r.seconds == n * 3600,
    {
        Duration { seconds: n * 3600 }
    }

    pub fn days(n: i64) -> (r: Duration)
        requires
            0 <= n <= max_unit_count(),
        ensures
            r.seconds == n * 86400,
    {
        Duration { seconds: n * 86400 }
    }

    pub fn weeks(n: i64) -> (r: Duration)
        requires
            0 <= n <= max_unit_count(),
        ensures
            r.seconds == n * 604800,
    {
        Duration { seconds: n * 604800 }
    }
}

/// Whether a year is a leap year.
pub open spec fn is_leap_year(y: int) -> bool {
    y % 4 == 0 && (y % 100 != 0 || y % 400 == 0)
}

/// The number of days of a month.
pub open spec fn days_in_month(y: int, m: int) -> int {
    if m == 2 {
        if is_leap_year(y) {
            29
        } else {
            28
        }
    } else if m == 4 || m == 6 || m == 9 || m == 11 {
        30
    } else {
        31
    }
}

/// A calendar date.  Box names under the warehouse carry one, written
/// `YYYY-MM-DD`.
#[derive(Debug, PartialEq, Eq, Structural, Clone, Copy)]
pub struct Date {
    pub year: i64,
    pub month: i64,
    pub day: i64,
}

impl Date {
    /// A date the box-name grammar can produce: four-digit year, valid month
    /// and day.
    pub open spec fn valid(&self) -> bool {
        &&& 0 <= self.year <= 9999
        &&& 1 <= self.month <= 12
        &&& 1 <= self.day <= days_in_month(self.year as int, self.month as int)
    }
}

/// The serial number of a civil date: days since 1970-01-01, negative
/// before it.  The computation shifts the year to start in March, counts
/// whole 400-year eras, then the day of the era.
pub open spec fn civil_day_number(date: Date) -> int {
    let y: int = if date.month <= 2 {
        date.year - 1
    } else {
        date.year as int
    };
    let era: int = y / 400;
    let yoe: int = y - era * 400;
    let mp: int = if date.month > 2 {
        date.month - 3
    } else {
        date.month + 9
    };
    let doy: int = (153 * mp + 2) / 5 + date.day - 1;
    let doe: int = yoe * 365 + yoe / 4 - yoe / 100 + doy;
    era * 146097 + doe - 719468
}

/// The moment a date's midnight occupies on a linear second scale.
pub open spec fn date_seconds(date: Date) -> int {
    civil_day_number(date) * 86400
}

/// A wall-clock reading: a valid date with a time of day.
#[derive(Debug, PartialEq, Eq, Structural, Clone, Copy)]
pub struct ClockTime {
    pub year: i64,
    pub month: i64,
    pub day: i64,
    pub hour: i64,
    pub minute: i64,
    pub second: i64,
}

impl ClockTime {
    pub open spec fn valid(&self) -> bool {
        &&& 1 <= self.month <= 12
        &&& 1 <= self.day <= days_in_month(self.year as int, self.month as int)
        &&& 0 <= self.hour < 24
        &&& 0 <= self.minute < 60
        &&& 0 <= self.second < 60
    }

    pub open spec fn date(&self) -> Date {
        Date { year: self.year, month: self.month, day: self.day }
    }

    /// The reading's position on the same second scale as `date_seconds`.
    pub open spec fn seconds(&self) -> int {
        date_seconds(self.date()) + self.hour * 3600 + self.minute * 60 + self.second
    }
}

/// Reads the wall clock: the current local date and time.
///
/// Relies on chrono's `Local::now` with the `Datelike` and `Timelike`
/// accessors: `month` is 1 to 12, `day` is a valid day of that month, `hour`
/// is below 24, `minute` and `second` below 60.  What moment it reports
/// depends on the machine's clock, so nothing else is promised.
#[verifier::external_body]
pub fn local_now() -> (r: ClockTime)
    ensures
        r.valid(),
{
    let now = chrono::Local::now();
    ClockTime {
        year: now.year() as i64,
        month: now.month() as i64,
        day: now.day() as i64,
        hour: now.hour() as i64,
        minute: now.minute() as i64,
        second: now.second() as i64,
    }
}

/// Whether a box dated `date` has aged past `moratorium` at the moment
/// `now`: strictly more than the moratorium must have passed since the
/// date's midnight.
pub open spec fn expired(date: Date, moratorium: Duration, now: ClockTime) -> bool {
    date_seconds(date) + moratorium.seconds < now.seconds()
}

/// Decides expiry of one box date.
pub fn is_expired(date: &Date, moratorium: &Duration, now: &ClockTime) -> (r: bool)
    requires
        date.valid(),
        now.valid(),
        0 <= now.year <= 9999,
        0 <= moratorium.seconds <= max_unit_count() * 604800,
    ensures
        r == expired(*date, *moratorium, *now),
{
    proof {
        lemma_civil_day_number_bounds(*date);
        lemma_civil_day_number_bounds(now.date());
    }
    let ds = civil_days(date) * 86400;
    let ns = civil_days(&Date { year: now.year, month: now.month, day: now.day }) * 86400
        + now.hour * 3600 + now.minute * 60 + now.second;
    ds + moratorium.seconds < ns
}

/// The day number of a valid date stays within a few million either way.
pub proof fn lemma_civil_day_number_bounds(date: Date)
    requires
        date.valid(),
    ensures
        -800000 <= civil_day_number(date) <= 3800000,
{
    let y: int = if date.month <= 2 {
        date.year - 1
    } else {
        date.year as int
    };
    assert(-1 <= y <= 9999);
    let era: int = y / 400;
    let yoe: int = y - era * 400;
    assert(0 <= yoe < 400) by (nonlinear_arith)
        requires
            -1 <= y <= 9999 && era == y / 400 && yoe == y - era * 400,
    ;
    assert(-1 <= era <= 24);
    let mp: int = if date.month > 2 {
        date.month - 3
    } else {
        date.month + 9
    };
    assert(0 <= mp <= 11);
    let doy: int = (153 * mp + 2) / 5 + date.day - 1;
    assert(0 <= doy <= 367);
    let doe: int = yoe * 365 + yoe / 4 - yoe / 100 + doy;
    assert(0 <= doe <= 146500) by (nonlinear_arith)
        requires
            0 <= yoe < 400 && doe == yoe * 365 + yoe / 4 - yoe / 100 + doy && 0 <= doy <= 367,
    ;
}

/// Computes the civil day number of a valid date.
pub fn civil_days(date: &Date) -> (r: i64)
    requires
        date.valid(),
    ensures
        r == civil_day_number(*date),
{
    let y: i64 = if date.month <= 2 {
        date.year - 1
    } else {
        date.year
    };
    // Truncating division must act as flooring division here; shifting a
    // negative year down by 399 achieves that, and only year zero can make
    // `y` negative.
    let era: i64 = if y >= 0 {
        y / 400
    } else {
        (y - 399) / 400
    };
    proof {
        if y >= 0 {
            assert(era == (y as int) / 400);
        } else {
            assert(y == -1);
            assert((-1int) / 400 == -1) by (nonlinear_arith);
            assert(era == -1);
        }
    }
    let yoe: i64 = y - era * 400;
    let mp: i64 = if date.month > 2 {
        date.month - 3
    } else {
        date.month + 9
    };
    let doy: i64 = (153 * mp + 2) / 5 + date.day - 1;
    let doe: i64 = yoe * 365 + yoe / 4 - yoe / 100 + doy;
    proof {
        lemma_civil_day_number_bounds(*date);
        assert(0 <= yoe < 400) by (nonlinear_arith)
            requires
                -1 <= y <= 9999 && era == (y as int) / 400 && yoe == y - era * 400,
        ;
        assert(0 <= doe <= 146500) by (nonlinear_arith)
            requires
                0 <= yoe < 400 && doe == yoe * 365 + yoe / 4 - yoe / 100 + doy && 0 <= doy
                    <= 367,
        ;
    }
    era * 146097 + doe - 719468
}

/// A box name in date form: `YYYY-MM-DD`, all parts decimal digits.
pub open spec fn date_name_format(s: Seq<char>) -> bool {
    &&& s.len() == 10
    &&& s[4] == '-'
    &&& s[7] == '-'
    &&& is_digit(s[0]) && is_digit(s[1]) && is_digit(s[2]) && is_digit(s[3])
    &&& is_digit(s[5]) && is_digit(s[6])
    &&& is_digit(s[8]) && is_digit(s[9])
}

/// The date a well-formed box name denotes.
pub open spec fn date_of_name(s: Seq<char>) -> Date {
    Date {
        year: (digit_val(s[0]) * 1000 + digit_val(s[1]) * 100 + digit_val(s[2]) * 10 + digit_val(
            s[3],
        )) as i64,
        month: (digit_val(s[5]) * 10 + digit_val(s[6])) as i64,
        day: (digit_val(s[8]) * 10 + digit_val(s[9])) as i64,
    }
}

/// Computes the days of a month.
pub fn month_length(y: i64, m: i64) -> (r: i64)
    requires
        0 <= y,
        1 <= m <= 12,
    ensures
        r == days_in_month(y as int, m as int),
{
    if m == 2 {
        if y % 4 == 0 && (y % 100 != 0 || y % 400 == 0) {
            29
        } else {
            28
        }
    } else if m == 4 || m == 6 || m == 9 || m == 11 {
        30
    } else {
        31
    }
}

/// Parses a box name as a calendar date: `Some` exactly when the name has
/// the `YYYY-MM-DD` shape and denotes a real date.
pub fn parse_date(name: &str) -> (r: Option<Date>)
    ensures
        r is Some <==> (date_name_format(name@) && date_of_name(name@).valid()),
        r is Some ==> r.unwrap() == date_of_name(name@),
{
    let n = name.unicode_len();
    if n != 10 {
        return None;
    }
    if name.get_char(4) != '-' || name.get_char(7) != '-' {
        return None;
    }
    let c0 = name.get_char(0);
    let c1 = name.get_char(1);
    let c2 = name.get_char(2);
    let c3 = name.get_char(3);
    let c5 = name.get_char(5);
    let c6 = name.get_char(6);
    let c8 = name.get_char(8);
    let c9 = name.get_char(9);
    if c0 < '0' || c0 > '9' || c1 < '0' || c1 > '9' || c2 < '0' || c2 > '9' || c3 < '0' || c3
        > '9' {
        return None;
    }
    if c5 < '0' || c5 > '9' || c6 < '0' || c6 > '9' || c8 < '0' || c8 > '9' || c9 < '0' || c9
        > '9' {
        return None;
    }
    let d0 = (c0 as i64) - 48;
    let d1 = (c1 as i64) - 48;
    let d2 = (c2 as i64) - 48;
    let d3 = (c3 as i64) - 48;
    let d4 = (c5 as i64) - 48;
    let d5 = (c6 as i64) - 48;
    let d6 = (c8 as i64) - 48;
    let d7 = (c9 as i64) - 48;
    let year = d0 * 1000 + d1 * 100 + d2 * 10 + d3;
    let month = d4 * 10 + d5;
    let day = d6 * 10 + d7;
    proof {
        assert(date_name_format(name@));
        assert(year == date_of_name(name@).year);
        assert(month == date_of_name(name@).month);
        assert(day == date_of_name(name@).day);
    }
    if month < 1 || month > 12 {
        return None;
    }
    if day < 1 || day > month_length(year, month) {
        return None;
    }
    Some(Date { year, month, day })
}

/// The `YYYY-MM-DD` rendering of a date, zero-padded.
pub open spec fn date_name(d: Date) -> Seq<char> {
    seq![
        digit_char(d.year as int / 1000 % 10),
        digit_char(d.year as int / 100 % 10),
        digit_char(d.year as int / 10 % 10),
        digit_char(d.year as int % 10),
        '-',
        digit_char(d.month as int / 10 % 10),
        digit_char(d.month as int % 10),
        '-',
        digit_char(d.day as int / 10 % 10),
        digit_char(d.day as int % 10),
    ]
}

/// The character of one decimal digit.
pub open spec fn digit_char(v: int) -> char {
    if v == 0 {
        '0'
    } else if v == 1 {
        '1'
    } else if v == 2 {
        '2'
    } else if v == 3 {
        '3'
    } else if v == 4 {
        '4'
    } else if v == 5 {
        '5'
    } else if v == 6 {
        '6'
    } else if v == 7 {
        '7'
    } else if v == 8 {
        '8'
    } else {
        '9'
    }
}

/// Renders a date as a box name.
pub fn format_date(d: &Date) -> (r: String)
    requires
        d.valid(),
    ensures
        r@ == date_name(*d),
{
    let mut out = String::new();
    push_digit(&mut out, d.year / 1000 % 10);
    push_digit(&mut out, d.year / 100 % 10);
    push_digit(&mut out, d.year / 10 % 10);
    push_digit(&mut out, d.year % 10);
    push_dash(&mut out);
    push_digit(&mut out, d.month / 10 % 10);
    push_digit(&mut out, d.month % 10);
    push_dash(&mut out);
    push_digit(&mut out, d.day / 10 % 10);
    push_digit(&mut out, d.day % 10);
    proof {
        assert(out@ =~= date_name(*d));
    }
    out
}

/// Appends one decimal digit character.
pub fn push_digit(out: &mut String, v: i64)
    requires
        0 <= v <= 9,
    ensures
        final(out)@ == old(out)@ + seq![digit_char(v as int)],
{
    let s: &str = if v == 0 {
        "0"
    } else if v == 1 {
        "1"
    } else if v == 2 {
        "2"
    } else if v == 3 {
        "3"
    } else if v == 4 {
        "4"
    } else if v == 5 {
        "5"
    } else if v == 6 {
        "6"
    } else if v == 7 {
        "7"
    } else if v == 8 {
        "8"
    } else {
        "9"
    };
    proof {
        reveal_strlit("0");
        reveal_strlit("1");
        reveal_strlit("2");
        reveal_strlit("3");
        reveal_strlit("4");
        reveal_strlit("5");
        reveal_strlit("6");
        reveal_strlit("7");
        reveal_strlit("8");
        reveal_strlit("9");
        assert(s@ =~= seq![digit_char(v as int)]);
    }
    out.append(s);
}

/// Appends the date separator.
fn push_dash(out: &mut String)
    ensures
        final(out)@ == old(out)@ + seq!['-'],
{
    proof {
        reveal_strlit("-");
        assert("-"@ =~= seq!['-']);
    }
    out.append("-");
}

/// Expiry boundary: a box dated exactly one moratorium before now is not
/// yet expired.
pub proof fn lemma_expiry_boundary(date: Date, moratorium: Duration, now: ClockTime)
    requires
        now.seconds() == date_seconds(date) + moratorium.seconds,
    ensures
        !expired(date, moratorium, now),
{
}

/// Expiry boundary: any moment strictly past the boundary expires the box.
pub proof fn lemma_expiry_past_boundary(date: Date, moratorium: Duration, now: ClockTime)
    requires
        now.seconds() > date_seconds(date) + moratorium.seconds,
    ensures
        expired(date, moratorium, now),
{
}

/// A box name written for a valid date reads back as the same date: the
/// identity the sweep stamps on a box is exactly what a later burn sees.
pub proof fn lemma_date_name_round_trip(d: Date)
    requires
        d.valid(),
    ensures
        date_name_format(date_name(d)),
        date_of_name(date_name(d)) == d,
{
    let s = date_name(d);
    let y = d.year as int;
    let m = d.month as int;
    let dd = d.day as int;
    assert(0 <= y / 1000 % 10 <= 9 && 0 <= y / 100 % 10 <= 9 && 0 <= y / 10 % 10 <= 9 && 0 <= y
        % 10 <= 9) by (nonlinear_arith)
        requires
            0 <= y <= 9999,
    ;
    assert(0 <= m / 10 % 10 <= 9 && 0 <= m % 10 <= 9 && 0 <= dd / 10 % 10 <= 9 && 0 <= dd % 10
        <= 9) by (nonlinear_arith)
        requires
            1 <= m <= 12 && 1 <= dd <= 31,
    ;
    lemma_digit_char_val(y / 1000 % 10);
    lemma_digit_char_val(y / 100 % 10);
    lemma_digit_char_val(y / 10 % 10);
    lemma_digit_char_val(y % 10);
    lemma_digit_char_val(m / 10 % 10);
    lemma_digit_char_val(m % 10);
    lemma_digit_char_val(dd / 10 % 10);
    lemma_digit_char_val(dd % 10);
    assert((y / 1000 % 10) * 1000 + (y / 100 % 10) * 100 + (y / 10 % 10) * 10 + y % 10 == y)
        by (nonlinear_arith)
        requires
            0 <= y <= 9999,
    ;
    assert((m / 10 % 10) * 10 + m % 10 == m) by (nonlinear_arith)
        requires
            1 <= m <= 12,
    ;
    assert((dd / 10 % 10) * 10 + dd % 10 == dd) by (nonlinear_arith)
        requires
            1 <= dd <= 31,
    ;
}

/// A single digit renders to a digit character of the same value.
proof fn lemma_digit_char_val(v: int)
    requires
        0 <= v <= 9,
    ensures
        is_digit(digit_char(v)),
        digit_val(digit_char(v)) == v,
{
}

} // verus!
