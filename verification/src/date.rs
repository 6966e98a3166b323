use vstd::prelude::*;
use vstd::arithmetic::div_mod::{
    lemma_fundamental_div_mod, lemma_fundamental_div_mod_converse_div,
    lemma_mod_division_less_than_divisor, lemma_mod_multiples_basic,
};

verus! {

/// A calendar date in the proleptic Gregorian calendar, held as plain values.
/// Timestamps in a report are naive: no time zone, year injected externally.
#[derive(Clone, Copy, PartialEq, Eq, Structural, Debug)]
pub struct Date {
    pub year: i32,
    pub month: u8,
    pub day: u8,
}

/// A naive timestamp: a date plus a wall-clock time of day.
#[derive(Clone, Copy, PartialEq, Eq, Structural, Debug)]
pub struct Timestamp {
    pub date: Date,
    pub hour: u8,
    pub minute: u8,
}

pub open spec fn is_leap_year(y: int) -> bool {
    (y % 4 == 0 && y % 100 != 0) || y % 400 == 0
}

pub open spec fn days_in_month(y: int, m: int) -> int {
    if m == 2 {
        if is_leap_year(y) {
            29
        } else {
            28
        }
    } else if m == 4 || m == 6 || m == 9 || m == 11 {
        30
    } else {
        31
    }
}

/// Days of the year that precede the first day of month `m` of year `y`.
pub open spec fn days_before_month(y: int, m: int) -> int {
    let base: int = if m <= 1 {
        0
    } else if m == 2 {
        31
    } else if m == 3 {
        59
    } else if m == 4 {
        90
    } else if m == 5 {
        120
    } else if m == 6 {
        151
    } else if m == 7 {
        181
    } else if m == 8 {
        212
    } else if m == 9 {
        243
    } else if m == 10 {
        273
    } else if m == 11 {
        304
    } else {
        334
    };
    if m >= 3 && is_leap_year(y) {
        base + 1
    } else {
        base
    }
}

/// The number of leap years in the range `[0, y)`; year 0 itself is a leap year.
pub open spec fn leap_years_before(y: int) -> int {
    (y - 1) / 4 - (y - 1) / 100 + (y - 1) / 400 + 1
}

/// Days in the range from the first day of year 0 to the first day of year `y`.
pub open spec fn days_before_year(y: int) -> int {
    365 * y + leap_years_before(y)
}

impl Date {
    pub open spec fn valid(self) -> bool {
        &&& 1 <= self.year <= 9999
        &&& 1 <= self.month <= 12
        &&& 1 <= self.day <= days_in_month(self.year as int, self.month as int)
    }

    /// The number of days from the first day of year 0 to this date.
    pub open spec fn day_number(self) -> int {
        days_before_year(self.year as int) + days_before_month(
            self.year as int,
            self.month as int,
        ) + self.day - 1
    }

    /// Strict chronological order, compared field by field.
    pub open spec fn lt(self, other: Date) -> bool {
        ||| self.year < other.year
        ||| (self.year == other.year && self.month < other.month)
        ||| (self.year == other.year && self.month == other.month && self.day < other.day)
    }
}

impl Timestamp {
    pub open spec fn valid(self) -> bool {
        self.date.valid() && self.hour <= 23 && self.minute <= 59
    }

    /// Seconds elapsed since the midnight that starts this timestamp's date.
    pub open spec fn second_of_day(self) -> int {
        self.hour * 3600 + self.minute * 60
    }

    /// Seconds from the start of year 0 to this instant.
    pub open spec fn abs_seconds(self) -> int {
        self.date.day_number() * 86400 + self.second_of_day()
    }
}

/// One division step: the quotient of `x` by `d` exceeds that of `x - 1`
/// exactly when `d` divides `x`.
proof fn lemma_div_step(x: int, d: int)
    requires
        1 <= d,
    ensures
        x / d - (x - 1) / d == if x % d == 0 {
            1int
        } else {
            0int
        },
{
    lemma_fundamental_div_mod(x, d);
    lemma_mod_division_less_than_divisor(x, d);
    let q = x / d;
    let r = x % d;
    if r == 0 {
        assert((q - 1) * d + (d - 1) == d * q - 1) by (nonlinear_arith);
        lemma_fundamental_div_mod_converse_div(x - 1, d, q - 1, d - 1);
    } else {
        assert(q * d + (r - 1) == d * q + r - 1) by (nonlinear_arith);
        lemma_fundamental_div_mod_converse_div(x - 1, d, q, r - 1);
    }
}

/// Stepping from year `y` to year `y + 1` adds one counted leap year exactly
/// when `y` itself is a leap year.
proof fn lemma_leap_step(y: int)
    ensures
        leap_years_before(y + 1) == leap_years_before(y) + if is_leap_year(y) {
            1int
        } else {
            0int
        },
{
    lemma_div_step(y, 4);
    lemma_div_step(y, 100);
    lemma_div_step(y, 400);
    if y % 400 == 0 {
        lemma_fundamental_div_mod(y, 400);
        assert(y == 100 * (4 * (y / 400)));
        lemma_mod_multiples_basic(4 * (y / 400), 100);
        assert(y % 100 == 0);
    }
    if y % 100 == 0 {
        lemma_fundamental_div_mod(y, 100);
        assert(y == 4 * (25 * (y / 100)));
        lemma_mod_multiples_basic(25 * (y / 100), 4);
        assert(y % 4 == 0);
    }
}

/// A year holds 365 days, or 366 in a leap year.
pub proof fn lemma_days_before_year_step(y: int)
    ensures
        days_before_year(y + 1) == days_before_year(y) + 365 + if is_leap_year(y) {
            1int
        } else {
            0int
        },
{
    lemma_leap_step(y);
}

/// Every date of year `y` has a day number below the first day of year `y + 1`
/// and at or above the first day of year `y`.
pub proof fn lemma_day_number_in_year(d: Date)
    requires
        d.valid(),
    ensures
        days_before_year(d.year as int) <= d.day_number() < days_before_year(d.year as int + 1),
{
    lemma_days_before_year_step(d.year as int);
}

/// Day numbers of the first days of years grow with the year.
pub proof fn lemma_days_before_year_monotone(y1: int, y2: int)
    requires
        y1 <= y2,
    ensures
        days_before_year(y1) <= days_before_year(y2),
    decreases y2 - y1,
{
    if y1 < y2 {
        lemma_days_before_year_monotone(y1, y2 - 1);
        lemma_days_before_year_step(y2 - 1);
    }
}

/// Chronological order of valid dates agrees with the order of day numbers.
pub proof fn lemma_day_number_increases(a: Date, b: Date)
    requires
        a.valid(),
        b.valid(),
        a.lt(b),
    ensures
        a.day_number() < b.day_number(),
{
    if a.year < b.year {
        lemma_day_number_in_year(a);
        lemma_day_number_in_year(b);
        lemma_days_before_year_monotone(a.year as int + 1, b.year as int);
    }
}

/// Day numbers identify valid dates uniquely.
pub proof fn lemma_day_number_injective(a: Date, b: Date)
    requires
        a.valid(),
        b.valid(),
        a.day_number() == b.day_number(),
    ensures
        a == b,
{
    if a.lt(b) {
        lemma_day_number_increases(a, b);
    }
    if b.lt(a) {
        lemma_day_number_increases(b, a);
    }
}

/// True when `y` is a leap year.
pub fn leap_year(y: i32) -> (r: bool)
    requires
        0 <= y,
    ensures
        r == is_leap_year(y as int),
{
    (y % 4 == 0 && y % 100 != 0) || y % 400 == 0
}

/// The number of days in month `m` of year `y`.
pub fn month_length(y: i32, m: u8) -> (r: u8)
    requires
        0 <= y,
        1 <= m <= 12,
    ensures
        r == days_in_month(y as int, m as int),
{
    if m == 2 {
        if leap_year(y) {
            29
        } else {
            28
        }
    } else if m == 4 || m == 6 || m == 9 || m == 11 {
        30
    } else {
        31
    }
}

/// Weekday of a date, counted in days from Monday: 0 is Monday, 6 is Sunday.
/// The first day of year 0 in the proleptic Gregorian calendar is a Saturday.
pub open spec fn weekday_index(d: Date) -> int {
    (d.day_number() + 5) % 7
}

/// The day number of a date, computed from the closed forms above.
pub fn date_index(d: &Date) -> (n: i64)
    requires
        d.valid(),
    ensures
        n == d.day_number(),
        0 <= n <= 3_700_000,
{
    let y = d.year as u64;
    proof {
        vstd::arithmetic::div_mod::lemma_div_is_ordered_by_denominator(y - 1, 4, 100);
    }
    let leaps = (y - 1) / 4 - (y - 1) / 100 + (y - 1) / 400 + 1;
    let base: u64 = match d.month {
        1 => 0,
        2 => 31,
        3 => 59,
        4 => 90,
        5 => 120,
        6 => 151,
        7 => 181,
        8 => 212,
        9 => 243,
        10 => 273,
        11 => 304,
        _ => 334,
    };
    let dbm = if d.month >= 3 && leap_year(d.year) {
        base + 1
    } else {
        base
    };
    (365 * y + leaps + dbm + (d.day as u64) - 1) as i64
}

/// The date of the day after `d`.
pub open spec fn next_date_spec(d: Date) -> Date {
    if d.day < days_in_month(d.year as int, d.month as int) {
        Date { year: d.year, month: d.month, day: (d.day + 1) as u8 }
    } else if d.month < 12 {
        Date { year: d.year, month: (d.month + 1) as u8, day: 1 }
    } else {
        Date { year: (d.year + 1) as i32, month: 1, day: 1 }
    }
}

/// Stepping to the next day is stepping one day number forward; below the
/// last representable date the successor is again valid.
pub proof fn lemma_next_date(d: Date)
    requires
        d.valid(),
        !(d.year == 9999 && d.month == 12 && d.day == 31),
    ensures
        next_date_spec(d).valid(),
        next_date_spec(d).day_number() == d.day_number() + 1,
{
    if !(d.day < days_in_month(d.year as int, d.month as int)) && !(d.month < 12) {
        lemma_days_before_year_step(d.year as int);
    }
}

/// No valid date has a day number at or above the first day of year 10000.
pub proof fn lemma_day_number_limit(d: Date)
    requires
        d.valid(),
    ensures
        0 <= d.day_number() < 3652425,
{
    lemma_day_number_in_year(d);
    lemma_days_before_year_monotone(1, d.year as int);
    lemma_days_before_year_monotone(d.year as int + 1, 10000);
    assert(days_before_year(1) == 366);
    assert(days_before_year(10000) == 3652425);
}

/// The date of the following day.
pub fn next_date(d: &Date) -> (r: Date)
    requires
        d.valid(),
        !(d.year == 9999 && d.month == 12 && d.day == 31),
    ensures
        r == next_date_spec(*d),
        r.valid(),
        r.day_number() == d.day_number() + 1,
{
    proof {
        lemma_next_date(*d);
    }
    let len = month_length(d.year, d.month);
    if d.day < len {
        Date { year: d.year, month: d.month, day: d.day + 1 }
    } else if d.month < 12 {
        Date { year: d.year, month: d.month + 1, day: 1 }
    } else {
        Date { year: d.year + 1, month: 1, day: 1 }
    }
}

/// No timestamp reaches this many seconds from the start of year 0.
pub open spec fn abs_second_limit() -> int {
    86400int * 3652425
}

/// Seconds elapsed since midnight, computed from the clock fields.
pub fn second_of_day_of(t: &Timestamp) -> (s: i64)
    requires
        t.valid(),
    ensures
        s == t.second_of_day(),
        0 <= s <= 86340,
{
    (t.hour as i64) * 3600 + (t.minute as i64) * 60
}

/// Seconds from the start of year 0 to a timestamp.
pub fn timestamp_abs(t: &Timestamp) -> (s: i64)
    requires
        t.valid(),
    ensures
        s == t.abs_seconds(),
        0 <= s < abs_second_limit(),
{
    proof {
        lemma_day_number_limit(t.date);
    }
    date_index(&t.date) * 86400 + second_of_day_of(t)
}

/// Weekday of a valid date, as days from Monday.
pub fn weekday_of(d: &Date) -> (w: u8)
    requires
        d.valid(),
    ensures
        w as int == weekday_index(*d),
        w < 7,
{
    let n = date_index(d);
    ((n + 5) % 7) as u8
}

/// The month's three-letter name.
pub open spec fn month_name(m: int) -> Seq<char> {
    if m == 1 {
        "Jan"@
    } else if m == 2 {
        "Feb"@
    } else if m == 3 {
        "Mar"@
    } else if m == 4 {
        "Apr"@
    } else if m == 5 {
        "May"@
    } else if m == 6 {
        "Jun"@
    } else if m == 7 {
        "Jul"@
    } else if m == 8 {
        "Aug"@
    } else if m == 9 {
        "Sep"@
    } else if m == 10 {
        "Oct"@
    } else if m == 11 {
        "Nov"@
    } else {
        "Dec"@
    }
}

/// The three-letter abbreviation of month `month`, 1 being January.
pub fn month_to_string(month: u32) -> (r: &'static str)
    requires
        1 <= month <= 12,
    ensures
        r@ == month_name(month as int),
{
    match month {
        1 => "Jan",
        2 => "Feb",
        3 => "Mar",
        4 => "Apr",
        5 => "May",
        6 => "Jun",
        7 => "Jul",
        8 => "Aug",
        9 => "Sep",
        10 => "Oct",
        11 => "Nov",
        _ => "Dec",
    }
}

/// The ISO 8601 week number that chrono assigns to the given calendar date.
pub uninterp spec fn iso_week_of(y: int, m: int, d: int) -> u32;

/// Relies on chrono's `NaiveDate::from_ymd_opt` (documented to return `Some`
/// for every existing in-range calendar date) and `IsoWeek::week` (documented
/// to return the ISO week number, in 1..=53); the result is a function of the
/// date alone.
#[verifier::external_body]
pub(crate) fn iso_week_number(d: &Date) -> (w: u32)
    requires
        d.valid(),
    ensures
        w == iso_week_of(d.year as int, d.month as int, d.day as int),
        1 <= w <= 53,
{
    chrono::Datelike::iso_week(
        &chrono::NaiveDate::from_ymd_opt(d.year, d.month as u32, d.day as u32).unwrap(),
    ).week()
}

} // verus!
