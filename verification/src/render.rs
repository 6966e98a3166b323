use vstd::prelude::*;
use vstd::arithmetic::div_mod::{
    lemma_fundamental_div_mod, lemma_mod_division_less_than_divisor, lemma_mod_multiples_basic,
};
use crate::date::{Date, iso_week_of, iso_week_number, weekday_index, weekday_of};
use crate::split::{DayReport, sum_seconds};

verus! {

/// Whole minutes of a second count; any sub-minute part is discarded.
pub open spec fn minutes_of(secs: int) -> int {
    secs / 60
}

/// The largest multiple of `unit` minutes not exceeding the whole minutes.
pub open spec fn rounded_minutes_spec(secs: int, unit: int) -> int {
    (secs / 60 / unit) * unit
}

/// The minutes that rounding discards.
pub open spec fn remainder_minutes_spec(secs: int, unit: int) -> int {
    (secs / 60) % unit
}

/// Law: the rounded minutes are a multiple of the unit; they never exceed
/// the true whole minutes and fall short of them by less than one unit; and
/// together with the remainder, which lies in `[0, unit)`, they reconstruct
/// the whole minutes exactly.
pub proof fn lemma_rounding(secs: int, unit: int)
    requires
        0 <= secs,
        1 <= unit,
    ensures
        rounded_minutes_spec(secs, unit) % unit == 0,
        rounded_minutes_spec(secs, unit) <= minutes_of(secs) < rounded_minutes_spec(secs, unit)
            + unit,
        rounded_minutes_spec(secs, unit) + remainder_minutes_spec(secs, unit) == minutes_of(secs),
        0 <= remainder_minutes_spec(secs, unit) < unit,
        0 <= rounded_minutes_spec(secs, unit) <= secs,
{
    let m = secs / 60;
    lemma_fundamental_div_mod(secs, 60);
    lemma_mod_division_less_than_divisor(secs, 60);
    assert(0 <= m <= secs) by {
        assert(secs == 60 * m + secs % 60);
    }
    lemma_fundamental_div_mod(m, unit);
    lemma_mod_division_less_than_divisor(m, unit);
    let q = m / unit;
    assert(q * unit == unit * q) by (nonlinear_arith);
    assert(q * unit == m - m % unit) by {
        assert(m == unit * q + m % unit);
    }
    lemma_mod_multiples_basic(q, unit);
    assert(0 <= q * unit) by {
        if q < 0 {
            assert(q <= -1);
            assert(q * unit <= -1 * unit) by (nonlinear_arith)
                requires
                    q <= -1,
                    unit >= 1,
            ;
        }
    }
}

/// Computes the rounded minutes of a second count.
pub fn rounded_minutes(seconds: i64, unit: i64) -> (r: i64)
    requires
        0 <= seconds,
        1 <= unit,
    ensures
        r == rounded_minutes_spec(seconds as int, unit as int),
        0 <= r <= seconds,
{
    proof {
        lemma_rounding(seconds as int, unit as int);
    }
    seconds / 60 / unit * unit
}

/// Computes the minutes that rounding discards.
pub fn remainder_minutes(seconds: i64, unit: i64) -> (r: i64)
    requires
        0 <= seconds,
        1 <= unit,
    ensures
        r == remainder_minutes_spec(seconds as int, unit as int),
        0 <= r < unit,
        r <= seconds,
{
    proof {
        lemma_rounding(seconds as int, unit as int);
    }
    seconds / 60 % unit
}

/// The decimal digits of `n`, most significant first.
pub open spec fn dec_digits(n: int) -> Seq<u8>
    decreases n,
{
    if n < 10 {
        seq![('0' as u8 + n) as u8]
    } else {
        dec_digits(n / 10).push(('0' as u8 + n % 10) as u8)
    }
}

/// The decimal digits, left-padded with zeros to at least `w` digits.
pub open spec fn dec_padded(n: int, w: int) -> Seq<u8> {
    if dec_digits(n).len() >= w {
        dec_digits(n)
    } else {
        Seq::new((w - dec_digits(n).len()) as nat, |i: int| '0' as u8) + dec_digits(n)
    }
}

/// True when every byte is seven-bit.
pub open spec fn ascii_seq(s: Seq<u8>) -> bool {
    forall|i: int| 0 <= i < s.len() ==> s[i] < 128
}

/// Decimal digits are ASCII; how many there are follows the magnitude.
proof fn lemma_dec_digits_shape(n: int)
    requires
        0 <= n,
    ensures
        1 <= dec_digits(n).len(),
        ascii_seq(dec_digits(n)),
        n < 10 ==> dec_digits(n).len() == 1,
        n < 100 ==> dec_digits(n).len() <= 2,
        10 <= n ==> dec_digits(n).len() >= 2,
        100 <= n ==> dec_digits(n).len() >= 3,
    decreases n,
{
    if n < 10 {
    } else {
        lemma_fundamental_div_mod(n, 10);
        lemma_mod_division_less_than_divisor(n, 10);
        assert(1 <= n / 10) by {
            assert(n == 10 * (n / 10) + n % 10);
        }
        assert(n < 100 ==> n / 10 < 10) by {
            assert(n == 10 * (n / 10) + n % 10);
        }
        assert(100 <= n ==> 10 <= n / 10) by {
            assert(n == 10 * (n / 10) + n % 10);
        }
        lemma_dec_digits_shape(n / 10);
        let s = dec_digits(n / 10);
        let c = ('0' as u8 + n % 10) as u8;
        assert(forall|i: int| 0 <= i < s.len() ==> s.push(c)[i] == s[i]);
        assert(s.push(c)[s.len() as int] == c);
    }
}

/// Appends the decimal digits of `n`.
fn push_dec(out: &mut Vec<u8>, n: i64)
    requires
        0 <= n,
    ensures
        final(out)@ == old(out)@ + dec_digits(n as int),
    decreases n,
{
    proof {
        lemma_dec_digits_shape(n as int);
    }
    if n >= 10 {
        proof {
            vstd::arithmetic::div_mod::lemma_div_is_ordered_by_denominator(n as int, 1, 10);
            lemma_mod_division_less_than_divisor(n as int, 10);
        }
        push_dec(out, n / 10);
        out.push('0' as u8 + (n % 10) as u8);
        proof {
            assert((old(out)@ + dec_digits((n / 10) as int)).push(('0' as u8 + (n % 10)) as u8)
                =~= old(out)@ + dec_digits(n as int));
        }
    } else {
        out.push('0' as u8 + n as u8);
        proof {
            assert(old(out)@.push(('0' as u8 + n) as u8) =~= old(out)@ + dec_digits(n as int));
        }
    }
}

/// Appends the decimal digits of `n`, zero-padded to at least two.
fn push_dec_pad2(out: &mut Vec<u8>, n: i64)
    requires
        0 <= n,
    ensures
        final(out)@ == old(out)@ + dec_padded(n as int, 2),
{
    proof {
        lemma_dec_digits_shape(n as int);
    }
    if n < 10 {
        out.push('0' as u8);
        proof {
            assert(dec_digits(n as int).len() == 1);
            assert(dec_padded(n as int, 2) =~= Seq::new(1, |i: int| '0' as u8) + dec_digits(
                n as int,
            ));
        }
        push_dec(out, n);
        proof {
            assert((old(out)@.push('0' as u8)) + dec_digits(n as int) =~= old(out)@ + dec_padded(
                n as int,
                2,
            ));
        }
    } else {
        push_dec(out, n);
    }
}

/// Appends the decimal digits of `n`, zero-padded to at least three.
fn push_dec_pad3(out: &mut Vec<u8>, n: i64)
    requires
        0 <= n,
    ensures
        final(out)@ == old(out)@ + dec_padded(n as int, 3),
{
    proof {
        lemma_dec_digits_shape(n as int);
    }
    if n < 10 {
        out.push('0' as u8);
        out.push('0' as u8);
        proof {
            assert(dec_digits(n as int).len() == 1);
            assert(dec_padded(n as int, 3) =~= Seq::new(2, |i: int| '0' as u8) + dec_digits(
                n as int,
            ));
        }
        push_dec(out, n);
        proof {
            assert(old(out)@.push('0' as u8).push('0' as u8) + dec_digits(n as int) =~= old(out)@
                + dec_padded(n as int, 3));
        }
    } else if n < 100 {
        out.push('0' as u8);
        proof {
            assert(dec_digits(n as int).len() == 2);
            assert(dec_padded(n as int, 3) =~= Seq::new(1, |i: int| '0' as u8) + dec_digits(
                n as int,
            ));
        }
        push_dec(out, n);
        proof {
            assert(old(out)@.push('0' as u8) + dec_digits(n as int) =~= old(out)@ + dec_padded(
                n as int,
                3,
            ));
        }
    } else {
        push_dec(out, n);
    }
}

/// The three-letter month name as bytes.
pub open spec fn month_name_bytes(m: int) -> Seq<u8> {
    if m == 1 {
        seq!['J' as u8, 'a' as u8, 'n' as u8]
    } else if m == 2 {
        seq!['F' as u8, 'e' as u8, 'b' as u8]
    } else if m == 3 {
        seq!['M' as u8, 'a' as u8, 'r' as u8]
    } else if m == 4 {
        seq!['A' as u8, 'p' as u8, 'r' as u8]
    } else if m == 5 {
        seq!['M' as u8, 'a' as u8, 'y' as u8]
    } else if m == 6 {
        seq!['J' as u8, 'u' as u8, 'n' as u8]
    } else if m == 7 {
        seq!['J' as u8, 'u' as u8, 'l' as u8]
    } else if m == 8 {
        seq!['A' as u8, 'u' as u8, 'g' as u8]
    } else if m == 9 {
        seq!['S' as u8, 'e' as u8, 'p' as u8]
    } else if m == 10 {
        seq!['O' as u8, 'c' as u8, 't' as u8]
    } else if m == 11 {
        seq!['N' as u8, 'o' as u8, 'v' as u8]
    } else {
        seq!['D' as u8, 'e' as u8, 'c' as u8]
    }
}

/// The three-letter weekday name as bytes, 0 being Monday.
pub open spec fn weekday_name_bytes(w: int) -> Seq<u8> {
    if w == 0 {
        seq!['M' as u8, 'o' as u8, 'n' as u8]
    } else if w == 1 {
        seq!['T' as u8, 'u' as u8, 'e' as u8]
    } else if w == 2 {
        seq!['W' as u8, 'e' as u8, 'd' as u8]
    } else if w == 3 {
        seq!['T' as u8, 'h' as u8, 'u' as u8]
    } else if w == 4 {
        seq!['F' as u8, 'r' as u8, 'i' as u8]
    } else if w == 5 {
        seq!['S' as u8, 'a' as u8, 't' as u8]
    } else {
        seq!['S' as u8, 'u' as u8, 'n' as u8]
    }
}

/// Appends the month name, 1 being January.
fn push_month_name(out: &mut Vec<u8>, m: u8)
    requires
        1 <= m <= 12,
    ensures
        final(out)@ == old(out)@ + month_name_bytes(m as int),
{
    let (a, b, c): (u8, u8, u8) = match m {
        1 => ('J' as u8, 'a' as u8, 'n' as u8),
        2 => ('F' as u8, 'e' as u8, 'b' as u8),
        3 => ('M' as u8, 'a' as u8, 'r' as u8),
        4 => ('A' as u8, 'p' as u8, 'r' as u8),
        5 => ('M' as u8, 'a' as u8, 'y' as u8),
        6 => ('J' as u8, 'u' as u8, 'n' as u8),
        7 => ('J' as u8, 'u' as u8, 'l' as u8),
        8 => ('A' as u8, 'u' as u8, 'g' as u8),
        9 => ('S' as u8, 'e' as u8, 'p' as u8),
        10 => ('O' as u8, 'c' as u8, 't' as u8),
        11 => ('N' as u8, 'o' as u8, 'v' as u8),
        _ => ('D' as u8, 'e' as u8, 'c' as u8),
    };
    out.push(a);
    out.push(b);
    out.push(c);
    proof {
        assert(final(out)@ =~= old(out)@ + month_name_bytes(m as int));
    }
}

/// Appends the weekday name, 0 being Monday.
fn push_weekday_name(out: &mut Vec<u8>, w: u8)
    requires
        w < 7,
    ensures
        final(out)@ == old(out)@ + weekday_name_bytes(w as int),
{
    let (a, b, c): (u8, u8, u8) = match w {
        0 => ('M' as u8, 'o' as u8, 'n' as u8),
        1 => ('T' as u8, 'u' as u8, 'e' as u8),
        2 => ('W' as u8, 'e' as u8, 'd' as u8),
        3 => ('T' as u8, 'h' as u8, 'u' as u8),
        4 => ('F' as u8, 'r' as u8, 'i' as u8),
        5 => ('S' as u8, 'a' as u8, 't' as u8),
        _ => ('S' as u8, 'u' as u8, 'n' as u8),
    };
    out.push(a);
    out.push(b);
    out.push(c);
    proof {
        assert(final(out)@ =~= old(out)@ + weekday_name_bytes(w as int));
    }
}

/// True when the reports hold valid dates and non-negative seconds that sum
/// within the machine's range.
pub open spec fn reports_ok(days: Seq<DayReport>) -> bool {
    &&& forall|i: int| 0 <= i < days.len() ==> (#[trigger] days[i]).date.valid()
    &&& forall|i: int| 0 <= i < days.len() ==> (#[trigger] days[i]).seconds >= 0
    &&& sum_seconds(days) <= i64::MAX
}

/// Sum of the independently rounded minutes of the days in year `y`,
/// month `m`.
pub open spec fn month_rounded_sum(days: Seq<DayReport>, y: int, m: int, unit: int) -> int
    decreases days.len(),
{
    if days.len() == 0 {
        0
    } else {
        (if days[0].date.year == y && days[0].date.month == m {
            rounded_minutes_spec(days[0].seconds as int, unit)
        } else {
            0
        }) + month_rounded_sum(days.drop_first(), y, m, unit)
    }
}

/// Sum of the per-day rounding remainders of the days in year `y`, month `m`.
pub open spec fn month_remainder_sum(days: Seq<DayReport>, y: int, m: int, unit: int) -> int
    decreases days.len(),
{
    if days.len() == 0 {
        0
    } else {
        (if days[0].date.year == y && days[0].date.month == m {
            remainder_minutes_spec(days[0].seconds as int, unit)
        } else {
            0
        }) + month_remainder_sum(days.drop_first(), y, m, unit)
    }
}

/// Sum of the rounded minutes of the days in year `y`, month `m` whose date
/// chrono places in ISO week `w`.
pub open spec fn week_rounded_sum(days: Seq<DayReport>, y: int, m: int, w: u32, unit: int) -> int
    decreases days.len(),
{
    if days.len() == 0 {
        0
    } else {
        (if days[0].date.year == y && days[0].date.month == m && iso_week_of(
            days[0].date.year as int,
            days[0].date.month as int,
            days[0].date.day as int,
        ) == w {
            rounded_minutes_spec(days[0].seconds as int, unit)
        } else {
            0
        }) + week_rounded_sum(days.drop_first(), y, m, w, unit)
    }
}

/// Sum of the rounding remainders of the days in year `y`, month `m` whose
/// date chrono places in ISO week `w`.
pub open spec fn week_remainder_sum(days: Seq<DayReport>, y: int, m: int, w: u32, unit: int) -> int
    decreases days.len(),
{
    if days.len() == 0 {
        0
    } else {
        (if days[0].date.year == y && days[0].date.month == m && iso_week_of(
            days[0].date.year as int,
            days[0].date.month as int,
            days[0].date.day as int,
        ) == w {
            remainder_minutes_spec(days[0].seconds as int, unit)
        } else {
            0
        }) + week_remainder_sum(days.drop_first(), y, m, w, unit)
    }
}

/// Computes the month sums: rounded minutes and discarded remainder minutes.
#[verifier::loop_isolation(false)]
fn month_sums(days: &Vec<DayReport>, y: i32, m: u8, unit: i64) -> (r: (i64, i64))
    requires
        1 <= unit,
        reports_ok(days@),
    ensures
        r.0 == month_rounded_sum(days@, y as int, m as int, unit as int),
        r.1 == month_remainder_sum(days@, y as int, m as int, unit as int),
        0 <= r.0,
        0 <= r.1,
{
    let n = days.len();
    let mut i: usize = n;
    let mut rsum: i64 = 0;
    let mut rem: i64 = 0;
    proof {
        assert(days@.skip(n as int) =~= Seq::<DayReport>::empty());
    }
    while i > 0
        invariant
            i <= n,
            rsum == month_rounded_sum(days@.skip(i as int), y as int, m as int, unit as int),
            rem == month_remainder_sum(days@.skip(i as int), y as int, m as int, unit as int),
            0 <= rsum,
            0 <= rem,
            rsum + rem <= sum_seconds(days@.skip(i as int)),
        decreases i,
    {
        i = i - 1;
        let d = &days[i];
        proof {
            assert(days@.skip(i as int)[0] == days@[i as int]);
            assert(days@.skip(i as int).drop_first() =~= days@.skip(i as int + 1));
            lemma_sum_seconds_skip(days@, i as int);
            lemma_rounding(d.seconds as int, unit as int);
        }
        if d.date.year == y && d.date.month == m {
            rsum = rsum + rounded_minutes(d.seconds, unit);
            rem = rem + remainder_minutes(d.seconds, unit);
        }
    }
    proof {
        assert(days@.skip(0) =~= days@);
    }
    (rsum, rem)
}

/// Computes the week-within-month sums: rounded and remainder minutes.
#[verifier::loop_isolation(false)]
fn week_sums(days: &Vec<DayReport>, y: i32, m: u8, w: u32, unit: i64) -> (r: (i64, i64))
    requires
        1 <= unit,
        reports_ok(days@),
    ensures
        r.0 == week_rounded_sum(days@, y as int, m as int, w, unit as int),
        r.1 == week_remainder_sum(days@, y as int, m as int, w, unit as int),
        0 <= r.0,
        0 <= r.1,
{
    let n = days.len();
    let mut i: usize = n;
    let mut rsum: i64 = 0;
    let mut rem: i64 = 0;
    proof {
        assert(days@.skip(n as int) =~= Seq::<DayReport>::empty());
    }
    while i > 0
        invariant
            i <= n,
            rsum == week_rounded_sum(days@.skip(i as int), y as int, m as int, w, unit as int),
            rem == week_remainder_sum(days@.skip(i as int), y as int, m as int, w, unit as int),
            0 <= rsum,
            0 <= rem,
            rsum + rem <= sum_seconds(days@.skip(i as int)),
        decreases i,
    {
        i = i - 1;
        let d = &days[i];
        proof {
            assert(days@.skip(i as int)[0] == days@[i as int]);
            assert(days@.skip(i as int).drop_first() =~= days@.skip(i as int + 1));
            lemma_sum_seconds_skip(days@, i as int);
            lemma_rounding(d.seconds as int, unit as int);
        }
        if d.date.year == y && d.date.month == m {
            let dw = iso_week_number(&d.date);
            if dw == w {
                rsum = rsum + rounded_minutes(d.seconds, unit);
                rem = rem + remainder_minutes(d.seconds, unit);
            }
        }
    }
    proof {
        assert(days@.skip(0) =~= days@);
    }
    (rsum, rem)
}

/// One step back extends the suffix sum of seconds by one day's seconds.
proof fn lemma_sum_seconds_skip(days: Seq<DayReport>, i: int)
    requires
        0 <= i < days.len(),
        forall|j: int| 0 <= j < days.len() ==> (#[trigger] days[j]).seconds >= 0,
        sum_seconds(days) <= i64::MAX,
    ensures
        sum_seconds(days.skip(i)) == days[i].seconds + sum_seconds(days.skip(i + 1)),
        sum_seconds(days.skip(i)) <= sum_seconds(days),
        0 <= sum_seconds(days.skip(i + 1)),
    decreases i,
{
    lemma_sum_seconds_suffix_nonneg(days, i + 1);
    assert(days.skip(i)[0] == days[i]);
    assert(days.skip(i).drop_first() =~= days.skip(i + 1));
    if i == 0 {
        assert(days.skip(0) =~= days);
    } else {
        lemma_sum_seconds_skip(days, i - 1);
    }
}

/// Concatenation keeps bytes seven-bit.
proof fn lemma_ascii_concat(a: Seq<u8>, b: Seq<u8>)
    requires
        ascii_seq(a),
        ascii_seq(b),
    ensures
        ascii_seq(a + b),
{
    assert forall|i: int| 0 <= i < (a + b).len() implies (a + b)[i] < 128 by {
        if i < a.len() {
            assert((a + b)[i] == a[i]);
        } else {
            assert((a + b)[i] == b[i - a.len()]);
        }
    }
}

/// A month header line: month name, year, and the month's total as
/// hours and minutes, the hours padded to three digits; with the sum of
/// the discarded minutes appended when `verbose` is set.
pub open spec fn month_line_spec(days: Seq<DayReport>, d: Date, unit: int, verbose: bool) -> Seq<
    u8,
> {
    let total = month_rounded_sum(days, d.year as int, d.month as int, unit);
    let base = month_name_bytes(d.month as int) + seq![' ' as u8] + dec_digits(d.year as int)
        + seq![' ' as u8, ' ' as u8, ' ' as u8] + dec_padded(total / 60, 3) + seq![':' as u8]
        + dec_padded(total % 60, 2);
    if verbose {
        base + seq![' ' as u8, '+' as u8] + dec_digits(
            month_remainder_sum(days, d.year as int, d.month as int, unit),
        )
    } else {
        base
    }
}

/// A week header line: the ISO week number and the week's total within the
/// month, as two-digit hours and minutes.
pub open spec fn week_line_spec(days: Seq<DayReport>, d: Date, unit: int, verbose: bool) -> Seq<
    u8,
> {
    let w = iso_week_of(d.year as int, d.month as int, d.day as int);
    let total = week_rounded_sum(days, d.year as int, d.month as int, w, unit);
    let base = seq![
        ' ' as u8, ' ' as u8, 'W' as u8, 'e' as u8, 'e' as u8, 'k' as u8, ' ' as u8,
    ] + dec_padded(w as int, 2) + seq![' ' as u8, ' ' as u8, ' ' as u8] + dec_padded(
        total / 60,
        2,
    ) + seq![':' as u8] + dec_padded(total % 60, 2);
    if verbose {
        base + seq![' ' as u8, '+' as u8] + dec_digits(
            week_remainder_sum(days, d.year as int, d.month as int, w, unit),
        )
    } else {
        base
    }
}

/// A day line: day of month, weekday name, and the day's rounded total.
pub open spec fn day_line_spec(r: DayReport, unit: int, verbose: bool) -> Seq<u8> {
    let total = rounded_minutes_spec(r.seconds as int, unit);
    let base = seq![' ' as u8, ' ' as u8, ' ' as u8, ' ' as u8] + dec_padded(r.date.day as int, 2)
        + seq![' ' as u8] + weekday_name_bytes(weekday_index(r.date)) + seq![' ' as u8, ' ' as u8]
        + dec_padded(total / 60, 2) + seq![':' as u8] + dec_padded(total % 60, 2);
    if verbose {
        base + seq![' ' as u8, '+' as u8] + dec_digits(
            remainder_minutes_spec(r.seconds as int, unit),
        )
    } else {
        base
    }
}

/// A suffix of non-negative seconds has a non-negative sum.
proof fn lemma_sum_seconds_suffix_nonneg(days: Seq<DayReport>, i: int)
    requires
        0 <= i <= days.len(),
        forall|j: int| 0 <= j < days.len() ==> (#[trigger] days[j]).seconds >= 0,
    ensures
        0 <= sum_seconds(days.skip(i)),
    decreases days.len() - i,
{
    if i < days.len() {
        assert(days.skip(i)[0] == days[i]);
        assert(days.skip(i).drop_first() =~= days.skip(i + 1));
        lemma_sum_seconds_suffix_nonneg(days, i + 1);
    } else {
        assert(days.skip(i) =~= Seq::<DayReport>::empty());
    }
}

/// Zero-padded digits are ASCII too.
proof fn lemma_dec_padded_ascii(n: int, w: int)
    requires
        0 <= n,
    ensures
        ascii_seq(dec_padded(n, w)),
{
    lemma_dec_digits_shape(n);
    if dec_digits(n).len() < w {
        let z = Seq::new((w - dec_digits(n).len()) as nat, |i: int| '0' as u8);
        assert(forall|i: int| 0 <= i < z.len() ==> z[i] == '0' as u8);
        lemma_ascii_concat(z, dec_digits(n));
    }
}

/// Builds a month header line.
fn month_line(days: &Vec<DayReport>, d: Date, unit: i64, verbose: bool) -> (line: Vec<u8>)
    requires
        1 <= unit,
        reports_ok(days@),
        d.valid(),
    ensures
        line@ == month_line_spec(days@, d, unit as int, verbose),
        ascii_seq(line@),
{
    let sums = month_sums(days, d.year, d.month, unit);
    let tr = sums.0;
    let rem = sums.1;
    let mut line: Vec<u8> = Vec::new();
    push_month_name(&mut line, d.month);
    line.push(' ' as u8);
    push_dec(&mut line, d.year as i64);
    line.push(' ' as u8);
    line.push(' ' as u8);
    line.push(' ' as u8);
    push_dec_pad3(&mut line, tr / 60);
    line.push(':' as u8);
    push_dec_pad2(&mut line, tr % 60);
    if verbose {
        line.push(' ' as u8);
        line.push('+' as u8);
        push_dec(&mut line, rem);
    }
    proof {
        assert(line@ =~= month_line_spec(days@, d, unit as int, verbose));
        assert(ascii_seq(line@)) by {
            assert(forall|i: int| 0 <= i < line@.len() ==> line@[i] < 128) by {
                lemma_month_line_ascii(days@, d, unit as int, verbose);
            }
        }
    }
    line
}

/// A month header line is ASCII.
proof fn lemma_month_line_ascii(days: Seq<DayReport>, d: Date, unit: int, verbose: bool)
    requires
        1 <= unit,
        d.valid(),
        0 <= month_rounded_sum(days, d.year as int, d.month as int, unit),
        0 <= month_remainder_sum(days, d.year as int, d.month as int, unit),
    ensures
        ascii_seq(month_line_spec(days, d, unit, verbose)),
{
    let total = month_rounded_sum(days, d.year as int, d.month as int, unit);
    let p1 = month_name_bytes(d.month as int);
    let p2 = seq![' ' as u8];
    let p3 = dec_digits(d.year as int);
    let p4 = seq![' ' as u8, ' ' as u8, ' ' as u8];
    let p5 = dec_padded(total / 60, 3);
    let p6 = seq![':' as u8];
    let p7 = dec_padded(total % 60, 2);
    assert(ascii_seq(p1));
    assert(ascii_seq(p2));
    lemma_dec_digits_shape(d.year as int);
    assert(ascii_seq(p4));
    lemma_mod_division_less_than_divisor(total, 60);
    assert(0 <= total / 60) by {
        lemma_fundamental_div_mod(total, 60);
        assert(total == 60 * (total / 60) + total % 60);
    }
    lemma_dec_padded_ascii(total / 60, 3);
    assert(ascii_seq(p6));
    lemma_dec_padded_ascii(total % 60, 2);
    lemma_ascii_concat(p1, p2);
    lemma_ascii_concat(p1 + p2, p3);
    lemma_ascii_concat(p1 + p2 + p3, p4);
    lemma_ascii_concat(p1 + p2 + p3 + p4, p5);
    lemma_ascii_concat(p1 + p2 + p3 + p4 + p5, p6);
    lemma_ascii_concat(p1 + p2 + p3 + p4 + p5 + p6, p7);
    if verbose {
        let base = p1 + p2 + p3 + p4 + p5 + p6 + p7;
        let p8 = seq![' ' as u8, '+' as u8];
        let p9 = dec_digits(month_remainder_sum(days, d.year as int, d.month as int, unit));
        assert(ascii_seq(p8));
        lemma_dec_digits_shape(month_remainder_sum(days, d.year as int, d.month as int, unit));
        lemma_ascii_concat(base, p8);
        lemma_ascii_concat(base + p8, p9);
    }
}

/// Builds a week header line.
fn week_line(days: &Vec<DayReport>, d: Date, unit: i64, verbose: bool) -> (line: Vec<u8>)
    requires
        1 <= unit,
        reports_ok(days@),
        d.valid(),
    ensures
        line@ == week_line_spec(days@, d, unit as int, verbose),
        ascii_seq(line@),
{
    let w = iso_week_number(&d);
    let sums = week_sums(days, d.year, d.month, w, unit);
    let tr = sums.0;
    let rem = sums.1;
    let mut line: Vec<u8> = Vec::new();
    line.push(' ' as u8);
    line.push(' ' as u8);
    line.push('W' as u8);
    line.push('e' as u8);
    line.push('e' as u8);
    line.push('k' as u8);
    line.push(' ' as u8);
    push_dec_pad2(&mut line, w as i64);
    line.push(' ' as u8);
    line.push(' ' as u8);
    line.push(' ' as u8);
    push_dec_pad2(&mut line, tr / 60);
    line.push(':' as u8);
    push_dec_pad2(&mut line, tr % 60);
    if verbose {
        line.push(' ' as u8);
        line.push('+' as u8);
        push_dec(&mut line, rem);
    }
    proof {
        assert(line@ =~= week_line_spec(days@, d, unit as int, verbose));
        assert(ascii_seq(line@)) by {
            assert(forall|i: int| 0 <= i < line@.len() ==> line@[i] < 128) by {
                lemma_week_line_ascii(days@, d, unit as int, verbose);
            }
        }
    }
    line
}

/// A week header line is ASCII.
proof fn lemma_week_line_ascii(days: Seq<DayReport>, d: Date, unit: int, verbose: bool)
    requires
        1 <= unit,
        d.valid(),
        0 <= week_rounded_sum(
            days,
            d.year as int,
            d.month as int,
            iso_week_of(d.year as int, d.month as int, d.day as int),
            unit,
        ),
        0 <= week_remainder_sum(
            days,
            d.year as int,
            d.month as int,
            iso_week_of(d.year as int, d.month as int, d.day as int),
            unit,
        ),
    ensures
        ascii_seq(week_line_spec(days, d, unit, verbose)),
{
    let w = iso_week_of(d.year as int, d.month as int, d.day as int);
    let total = week_rounded_sum(days, d.year as int, d.month as int, w, unit);
    let p1 = seq![' ' as u8, ' ' as u8, 'W' as u8, 'e' as u8, 'e' as u8, 'k' as u8, ' ' as u8];
    let p2 = dec_padded(w as int, 2);
    let p3 = seq![' ' as u8, ' ' as u8, ' ' as u8];
    let p4 = dec_padded(total / 60, 2);
    let p5 = seq![':' as u8];
    let p6 = dec_padded(total % 60, 2);
    assert(ascii_seq(p1));
    lemma_dec_padded_ascii(w as int, 2);
    assert(ascii_seq(p3));
    lemma_mod_division_less_than_divisor(total, 60);
    assert(0 <= total / 60) by {
        lemma_fundamental_div_mod(total, 60);
        assert(total == 60 * (total / 60) + total % 60);
    }
    lemma_dec_padded_ascii(total / 60, 2);
    assert(ascii_seq(p5));
    lemma_dec_padded_ascii(total % 60, 2);
    lemma_ascii_concat(p1, p2);
    lemma_ascii_concat(p1 + p2, p3);
    lemma_ascii_concat(p1 + p2 + p3, p4);
    lemma_ascii_concat(p1 + p2 + p3 + p4, p5);
    lemma_ascii_concat(p1 + p2 + p3 + p4 + p5, p6);
    if verbose {
        let base = p1 + p2 + p3 + p4 + p5 + p6;
        let p7 = seq![' ' as u8, '+' as u8];
        let p8 = dec_digits(week_remainder_sum(days, d.year as int, d.month as int, w, unit));
        assert(ascii_seq(p7));
        lemma_dec_digits_shape(week_remainder_sum(days, d.year as int, d.month as int, w, unit));
        lemma_ascii_concat(base, p7);
        lemma_ascii_concat(base + p7, p8);
    }
}

/// Builds a day line.
fn day_line(r: &DayReport, unit: i64, verbose: bool) -> (line: Vec<u8>)
    requires
        1 <= unit,
        r.date.valid(),
        0 <= r.seconds,
    ensures
        line@ == day_line_spec(*r, unit as int, verbose),
        ascii_seq(line@),
{
    let tr = rounded_minutes(r.seconds, unit);
    let rem = remainder_minutes(r.seconds, unit);
    let wd = weekday_of(&r.date);
    let mut line: Vec<u8> = Vec::new();
    line.push(' ' as u8);
    line.push(' ' as u8);
    line.push(' ' as u8);
    line.push(' ' as u8);
    push_dec_pad2(&mut line, r.date.day as i64);
    line.push(' ' as u8);
    push_weekday_name(&mut line, wd);
    line.push(' ' as u8);
    line.push(' ' as u8);
    push_dec_pad2(&mut line, tr / 60);
    line.push(':' as u8);
    push_dec_pad2(&mut line, tr % 60);
    if verbose {
        line.push(' ' as u8);
        line.push('+' as u8);
        push_dec(&mut line, rem);
    }
    proof {
        assert(line@ =~= day_line_spec(*r, unit as int, verbose));
        assert(ascii_seq(line@)) by {
            assert(forall|i: int| 0 <= i < line@.len() ==> line@[i] < 128) by {
                lemma_day_line_ascii(*r, unit as int, verbose);
            }
        }
    }
    line
}

/// A day line is ASCII.
proof fn lemma_day_line_ascii(r: DayReport, unit: int, verbose: bool)
    requires
        1 <= unit,
        r.date.valid(),
        0 <= r.seconds,
    ensures
        ascii_seq(day_line_spec(r, unit, verbose)),
{
    lemma_rounding(r.seconds as int, unit);
    let total = rounded_minutes_spec(r.seconds as int, unit);
    let p1 = seq![' ' as u8, ' ' as u8, ' ' as u8, ' ' as u8];
    let p2 = dec_padded(r.date.day as int, 2);
    let p3 = seq![' ' as u8];
    let p4 = weekday_name_bytes(weekday_index(r.date));
    let p5 = seq![' ' as u8, ' ' as u8];
    let p6 = dec_padded(total / 60, 2);
    let p7 = seq![':' as u8];
    let p8 = dec_padded(total % 60, 2);
    assert(ascii_seq(p1));
    lemma_dec_padded_ascii(r.date.day as int, 2);
    assert(ascii_seq(p3));
    assert(ascii_seq(p4));
    assert(ascii_seq(p5));
    lemma_mod_division_less_than_divisor(total, 60);
    assert(0 <= total / 60) by {
        lemma_fundamental_div_mod(total, 60);
        assert(total == 60 * (total / 60) + total % 60);
    }
    lemma_dec_padded_ascii(total / 60, 2);
    assert(ascii_seq(p7));
    lemma_dec_padded_ascii(total % 60, 2);
    lemma_ascii_concat(p1, p2);
    lemma_ascii_concat(p1 + p2, p3);
    lemma_ascii_concat(p1 + p2 + p3, p4);
    lemma_ascii_concat(p1 + p2 + p3 + p4, p5);
    lemma_ascii_concat(p1 + p2 + p3 + p4 + p5, p6);
    lemma_ascii_concat(p1 + p2 + p3 + p4 + p5 + p6, p7);
    lemma_ascii_concat(p1 + p2 + p3 + p4 + p5 + p6 + p7, p8);
    if verbose {
        let base = p1 + p2 + p3 + p4 + p5 + p6 + p7 + p8;
        let p9 = seq![' ' as u8, '+' as u8];
        let p10 = dec_digits(remainder_minutes_spec(r.seconds as int, unit));
        assert(ascii_seq(p9));
        lemma_dec_digits_shape(remainder_minutes_spec(r.seconds as int, unit));
        lemma_ascii_concat(base, p9);
        lemma_ascii_concat(base + p9, p10);
    }
}

/// True when day `i` opens a new month group: it is the first day, or its
/// calendar month differs from the previous day's.
pub open spec fn new_month_at(days: Seq<DayReport>, i: int) -> bool {
    i == 0 || days[i - 1].date.year != days[i].date.year || days[i - 1].date.month
        != days[i].date.month
}

/// True when day `i` opens a new week group: a new month always does, and so
/// does a change of ISO week number.
pub open spec fn new_week_at(days: Seq<DayReport>, i: int) -> bool {
    new_month_at(days, i) || iso_week_of(
        days[i - 1].date.year as int,
        days[i - 1].date.month as int,
        days[i - 1].date.day as int,
    ) != iso_week_of(days[i].date.year as int, days[i].date.month as int, days[i].date.day as int)
}

/// The lines emitted for day `i`: a month header if it opens a month, a week
/// header if it opens a week, and its own day line.
pub open spec fn lines_for_day(days: Seq<DayReport>, i: int, unit: int, verbose: bool) -> Seq<
    Seq<u8>,
> {
    (if new_month_at(days, i) {
        seq![month_line_spec(days, days[i].date, unit, verbose)]
    } else {
        seq![]
    }) + (if new_week_at(days, i) {
        seq![week_line_spec(days, days[i].date, unit, verbose)]
    } else {
        seq![]
    }) + seq![day_line_spec(days[i], unit, verbose)]
}

/// The lines for the days from index `i` on.
pub open spec fn render_from(days: Seq<DayReport>, i: int, unit: int, verbose: bool) -> Seq<
    Seq<u8>,
>
    decreases days.len() - i,
{
    if i < 0 || i >= days.len() {
        seq![]
    } else {
        lines_for_day(days, i, unit, verbose) + render_from(days, i + 1, unit, verbose)
    }
}

/// The full report: month headers, week headers and day lines, emitted in one
/// chronological pass over the day totals.
pub open spec fn render_spec(days: Seq<DayReport>, unit: int, verbose: bool) -> Seq<Seq<u8>> {
    render_from(days, 0, unit, verbose)
}

/// The byte sequences of a vector of lines.
pub open spec fn byte_views(lines: Seq<Vec<u8>>) -> Seq<Seq<u8>> {
    lines.map_values(|v: Vec<u8>| v@)
}

/// Appends one line.
fn push_line(lines: &mut Vec<Vec<u8>>, l: Vec<u8>)
    ensures
        byte_views(final(lines)@) == byte_views(old(lines)@).push(l@),
        final(lines)@.len() == old(lines)@.len() + 1,
        forall|j: int| 0 <= j < old(lines)@.len() ==> final(lines)@[j] == old(lines)@[j],
        final(lines)@[old(lines)@.len() as int]@ == l@,
{
    lines.push(l);
    proof {
        assert(byte_views(lines@) =~= byte_views(old(lines)@).push(
            lines@[lines@.len() - 1]@,
        ));
    }
}

/// Renders the report of the given day totals as text lines, held as bytes.
#[verifier::loop_isolation(false)]
#[verifier::rlimit(60)]
pub fn render_report(days: &Vec<DayReport>, unit: i64, verbose: bool) -> (lines: Vec<Vec<u8>>)
    requires
        1 <= unit,
        reports_ok(days@),
    ensures
        byte_views(lines@) == render_spec(days@, unit as int, verbose),
        forall|j: int| 0 <= j < lines@.len() ==> ascii_seq(#[trigger] lines@[j]@),
{
    let ghost u = unit as int;
    let mut lines: Vec<Vec<u8>> = Vec::new();
    let n = days.len();
    let mut i: usize = 0;
    proof {
        assert(byte_views(lines@) + render_from(days@, 0, u, verbose) =~= render_from(
            days@,
            0,
            u,
            verbose,
        ));
    }
    while i < n
        invariant
            i <= n,
            render_spec(days@, u, verbose) == byte_views(lines@) + render_from(
                days@,
                i as int,
                u,
                verbose,
            ),
            forall|j: int| 0 <= j < lines@.len() ==> ascii_seq(#[trigger] lines@[j]@),
        decreases n - i,
    {
        let ghost before = byte_views(lines@);
        let d = days[i].date;
        let new_month = i == 0 || days[i - 1].date.year != d.year || days[i - 1].date.month
            != d.month;
        proof {
            assert(new_month == new_month_at(days@, i as int));
        }
        let new_week = if new_month {
            true
        } else {
            let wp = iso_week_number(&days[i - 1].date);
            let wc = iso_week_number(&d);
            wp != wc
        };
        proof {
            assert(new_week == new_week_at(days@, i as int));
        }
        if new_month {
            let l = month_line(days, d, unit, verbose);
            push_line(&mut lines, l);
        }
        if new_week {
            let l = week_line(days, d, unit, verbose);
            push_line(&mut lines, l);
        }
        let dl = day_line(&days[i], unit, verbose);
        push_line(&mut lines, dl);
        proof {
            let mo: Seq<Seq<u8>> = if new_month {
                seq![month_line_spec(days@, d, u, verbose)]
            } else {
                seq![]
            };
            let wk: Seq<Seq<u8>> = if new_week {
                seq![week_line_spec(days@, d, u, verbose)]
            } else {
                seq![]
            };
            let dy: Seq<Seq<u8>> = seq![day_line_spec(days@[i as int], u, verbose)];
            assert(byte_views(lines@) =~= before + (mo + wk + dy));
            assert(lines_for_day(days@, i as int, u, verbose) == mo + wk + dy);
            assert(before + lines_for_day(days@, i as int, u, verbose) + render_from(
                days@,
                i as int + 1,
                u,
                verbose,
            ) =~= before + (lines_for_day(days@, i as int, u, verbose) + render_from(
                days@,
                i as int + 1,
                u,
                verbose,
            )));
        }
        i = i + 1;
    }
    proof {
        assert(render_from(days@, n as int, u, verbose) =~= Seq::<Seq<u8>>::empty());
        assert(byte_views(lines@) + Seq::<Seq<u8>>::empty() =~= byte_views(lines@));
    }
    lines
}

/// The characters that a sequence of ASCII bytes spells.
pub open spec fn chars_of_bytes(s: Seq<u8>) -> Seq<char> {
    s.map_values(|b: u8| b as char)
}

/// Relies on String::from_utf8: a vector of ASCII bytes is valid UTF-8 and
/// decodes to exactly those characters.
#[verifier::external_body]
fn bytes_to_string(v: &Vec<u8>) -> (s: String)
    requires
        ascii_seq(v@),
    ensures
        s@ == chars_of_bytes(v@),
{
    String::from_utf8(v.clone()).unwrap()
}

/// Turns rendered byte lines into strings.
#[verifier::loop_isolation(false)]
pub fn lines_to_strings(lines: &Vec<Vec<u8>>) -> (out: Vec<String>)
    requires
        forall|j: int| 0 <= j < lines@.len() ==> ascii_seq(#[trigger] lines@[j]@),
    ensures
        out@.len() == lines@.len(),
        forall|j: int|
            0 <= j < lines@.len() ==> (#[trigger] out@[j])@ == chars_of_bytes(lines@[j]@),
{
    let mut out: Vec<String> = Vec::new();
    let n = lines.len();
    let mut i: usize = 0;
    while i < n
        invariant
            i <= n,
            out@.len() == i,
            forall|j: int| 0 <= j < i ==> (#[trigger] out@[j])@ == chars_of_bytes(lines@[j]@),
        decreases n - i,
    {
        let s = bytes_to_string(&lines[i]);
        out.push(s);
        i = i + 1;
    }
    out
}

} // verus!
