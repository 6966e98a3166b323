use vstd::prelude::*;
use crate::date::{
    Date, Timestamp, abs_second_limit, lemma_day_number_limit, lemma_next_date, next_date,
    next_date_spec, second_of_day_of, timestamp_abs, date_index,
};
use crate::parse::{EntryView, ReportEntry, parse_datetime, parse_datetime_spec, views_of};
use crate::ReportError;

verus! {

/// Total seconds recorded for one calendar date.
#[derive(Clone, Copy, PartialEq, Eq, Structural, Debug)]
pub struct DayReport {
    pub date: Date,
    pub seconds: i64,
}

impl DayReport {
    /// A fresh report for a date, with no seconds yet.
    pub fn new(date: Date) -> (r: DayReport)
        ensures
            r.date == date,
            r.seconds == 0,
    {
        DayReport { date, seconds: 0 }
    }
}

/// The per-day contributions of the span that starts on date `d`, `start_sec`
/// seconds into the day, and ends at `to`, with `n` midnights in between:
/// each day up to a midnight contributes the seconds left until that
/// midnight, and the last day the seconds from midnight to `to`.
pub open spec fn split_days(d: Date, start_sec: int, to: Timestamp, n: nat) -> Seq<(Date, int)>
    decreases n,
{
    if n == 0 {
        seq![(d, to.second_of_day() - start_sec)]
    } else {
        seq![(d, 86400 - start_sec)] + split_days(next_date_spec(d), 0, to, (n - 1) as nat)
    }
}

/// The per-day contributions of the interval from `from` to `to`.
pub open spec fn interval_contribs(from: Timestamp, to: Timestamp) -> Seq<(Date, int)> {
    split_days(
        from.date,
        from.second_of_day(),
        to,
        (to.date.day_number() - from.date.day_number()) as nat,
    )
}

/// The fatal condition one entry raises under the given year, if any.
pub open spec fn entry_error(e: EntryView, year: int) -> Option<ReportError> {
    match (parse_datetime_spec(year, e.from), parse_datetime_spec(year, e.to)) {
        (Some(f), Some(t)) => if t.abs_seconds() < f.abs_seconds() {
            Some(ReportError::InvertedInterval)
        } else {
            None
        },
        _ => Some(ReportError::MalformedTimestamp),
    }
}

/// The contributions of one entry; none if the entry is in error.
pub open spec fn entry_contribs(e: EntryView, year: int) -> Seq<(Date, int)> {
    match (parse_datetime_spec(year, e.from), parse_datetime_spec(year, e.to)) {
        (Some(f), Some(t)) => if t.abs_seconds() < f.abs_seconds() {
            seq![]
        } else {
            interval_contribs(f, t)
        },
        _ => seq![],
    }
}

/// The first fatal condition among the entries, scanned in order.
pub open spec fn first_error(entries: Seq<EntryView>, year: int) -> Option<ReportError>
    decreases entries.len(),
{
    if entries.len() == 0 {
        None
    } else if entry_error(entries[0], year) is Some {
        entry_error(entries[0], year)
    } else {
        first_error(entries.drop_first(), year)
    }
}

/// The contributions of all entries up to the first one in error, in order.
pub open spec fn all_contribs(entries: Seq<EntryView>, year: int) -> Seq<(Date, int)>
    decreases entries.len(),
{
    if entries.len() == 0 {
        seq![]
    } else if entry_error(entries[0], year) is Some {
        seq![]
    } else {
        entry_contribs(entries[0], year) + all_contribs(entries.drop_first(), year)
    }
}

/// Seconds the contributions give to date `d`.
pub open spec fn total_for(cs: Seq<(Date, int)>, d: Date) -> int
    decreases cs.len(),
{
    if cs.len() == 0 {
        0
    } else {
        (if cs[0].0 == d {
            cs[0].1
        } else {
            0
        }) + total_for(cs.drop_first(), d)
    }
}

/// True when some contribution names date `d`.
pub open spec fn date_present(cs: Seq<(Date, int)>, d: Date) -> bool {
    exists|i: int| 0 <= i < cs.len() && cs[i].0 == d
}

/// True when no contribution is negative.
pub open spec fn contribs_nonneg(cs: Seq<(Date, int)>) -> bool {
    forall|i: int| 0 <= i < cs.len() ==> cs[i].1 >= 0
}

/// The seconds of all contributions together.
pub open spec fn sum_contribs(cs: Seq<(Date, int)>) -> int
    decreases cs.len(),
{
    if cs.len() == 0 {
        0
    } else {
        cs[0].1 + sum_contribs(cs.drop_first())
    }
}

/// The seconds of all day reports together.
pub open spec fn sum_seconds(rs: Seq<DayReport>) -> int
    decreases rs.len(),
{
    if rs.len() == 0 {
        0
    } else {
        rs[0].seconds + sum_seconds(rs.drop_first())
    }
}

/// The day totals that a contribution list determines: the one sequence
/// that stands in the `totals_for` relation to it.
pub open spec fn day_totals_of(cs: Seq<(Date, int)>) -> Seq<DayReport> {
    choose|rs: Seq<DayReport>| totals_for(rs, cs)
}

/// What it means for `rs` to be the day totals of the contributions `cs`:
/// strictly ascending valid dates, one report for each date that occurs,
/// holding exactly the seconds contributed to it.
pub open spec fn totals_for(rs: Seq<DayReport>, cs: Seq<(Date, int)>) -> bool {
    &&& forall|i: int, j: int|
        0 <= i < j < rs.len() ==> rs[i].date.day_number() < rs[j].date.day_number()
    &&& forall|i: int| 0 <= i < rs.len() ==> (#[trigger] rs[i].date).valid()
    &&& forall|i: int| 0 <= i < rs.len() ==> rs[i].seconds == total_for(cs, #[trigger] rs[i].date)
    &&& forall|i: int| 0 <= i < rs.len() ==> date_present(cs, #[trigger] rs[i].date)
    &&& forall|d: Date| #[trigger] date_present(cs, d) ==> exists|i: int|
        0 <= i < rs.len() && rs[i].date == d
}

/// Appending one contribution raises only its own date's total, by its seconds.
proof fn lemma_total_for_snoc(cs: Seq<(Date, int)>, c: (Date, int), d: Date)
    ensures
        total_for(cs.push(c), d) == total_for(cs, d) + if c.0 == d {
            c.1
        } else {
            0int
        },
    decreases cs.len(),
{
    if cs.len() == 0 {
        assert(cs.push(c).drop_first() =~= Seq::<(Date, int)>::empty());
        assert(cs.push(c)[0] == c);
        assert(total_for(cs.push(c), d) == (if cs.push(c)[0].0 == d {
            cs.push(c)[0].1
        } else {
            0int
        }) + total_for(cs.push(c).drop_first(), d));
    } else {
        assert(cs.push(c)[0] == cs[0]);
        assert(cs.push(c).drop_first() =~= cs.drop_first().push(c));
        lemma_total_for_snoc(cs.drop_first(), c, d);
        assert(total_for(cs.push(c), d) == (if cs.push(c)[0].0 == d {
            cs.push(c)[0].1
        } else {
            0int
        }) + total_for(cs.push(c).drop_first(), d));
    }
}

/// Appending one contribution adds its seconds to the sum.
proof fn lemma_sum_contribs_snoc(cs: Seq<(Date, int)>, c: (Date, int))
    ensures
        sum_contribs(cs.push(c)) == sum_contribs(cs) + c.1,
    decreases cs.len(),
{
    if cs.len() == 0 {
        assert(cs.push(c).drop_first() =~= Seq::<(Date, int)>::empty());
        assert(cs.push(c)[0] == c);
        assert(sum_contribs(cs.push(c)) == cs.push(c)[0].1 + sum_contribs(
            cs.push(c).drop_first(),
        ));
    } else {
        assert(cs.push(c)[0] == cs[0]);
        assert(cs.push(c).drop_first() =~= cs.drop_first().push(c));
        lemma_sum_contribs_snoc(cs.drop_first(), c);
        assert(sum_contribs(cs.push(c)) == cs.push(c)[0].1 + sum_contribs(
            cs.push(c).drop_first(),
        ));
    }
}

/// A date that no contribution names has total zero.
proof fn lemma_total_for_absent(cs: Seq<(Date, int)>, d: Date)
    requires
        !date_present(cs, d),
    ensures
        total_for(cs, d) == 0,
    decreases cs.len(),
{
    if cs.len() > 0 {
        assert(cs[0].0 != d);
        assert(forall|i: int|
            0 <= i < cs.drop_first().len() ==> #[trigger] cs.drop_first()[i] == cs[i + 1]);
        lemma_total_for_absent(cs.drop_first(), d);
    }
}

/// With no negative contribution, no date's total exceeds the total of all.
proof fn lemma_total_for_bounds(cs: Seq<(Date, int)>, d: Date)
    requires
        contribs_nonneg(cs),
    ensures
        0 <= total_for(cs, d) <= sum_contribs(cs),
    decreases cs.len(),
{
    if cs.len() > 0 {
        assert(forall|i: int|
            0 <= i < cs.drop_first().len() ==> #[trigger] cs.drop_first()[i] == cs[i + 1]);
        lemma_total_for_bounds(cs.drop_first(), d);
    }
}

/// Inserting a report adds its seconds to the sum.
proof fn lemma_sum_seconds_insert(rs: Seq<DayReport>, k: int, x: DayReport)
    requires
        0 <= k <= rs.len(),
    ensures
        sum_seconds(rs.insert(k, x)) == sum_seconds(rs) + x.seconds,
    decreases rs.len(),
{
    if k == 0 {
        assert(rs.insert(0, x).drop_first() =~= rs);
    } else {
        assert(rs.insert(k, x).drop_first() =~= rs.drop_first().insert(k - 1, x));
        lemma_sum_seconds_insert(rs.drop_first(), k - 1, x);
    }
}

/// Replacing a report shifts the sum by the difference in seconds.
proof fn lemma_sum_seconds_update(rs: Seq<DayReport>, k: int, x: DayReport)
    requires
        0 <= k < rs.len(),
    ensures
        sum_seconds(rs.update(k, x)) == sum_seconds(rs) - rs[k].seconds + x.seconds,
    decreases rs.len(),
{
    if k == 0 {
        assert(rs.update(0, x).drop_first() =~= rs.drop_first());
    } else {
        assert(rs.update(k, x).drop_first() =~= rs.drop_first().update(k - 1, x));
        assert(rs.update(k, x)[0] == rs[0]);
        lemma_sum_seconds_update(rs.drop_first(), k - 1, x);
    }
}

/// Concatenation adds the sums of seconds.
proof fn lemma_sum_contribs_concat(a: Seq<(Date, int)>, b: Seq<(Date, int)>)
    ensures
        sum_contribs(a + b) == sum_contribs(a) + sum_contribs(b),
    decreases a.len(),
{
    if a.len() == 0 {
        assert(a + b =~= b);
    } else {
        assert((a + b)[0] == a[0]);
        assert((a + b).drop_first() =~= a.drop_first() + b);
        lemma_sum_contribs_concat(a.drop_first(), b);
    }
}

/// The last representable date has the largest day number of any valid date.
proof fn lemma_not_last_date(d: Date, bound: int)
    requires
        d.valid(),
        d.day_number() < bound,
        bound <= 3652424,
    ensures
        !(d.year == 9999 && d.month == 12 && d.day == 31),
{
    if d.year == 9999 && d.month == 12 && d.day == 31 {
        assert(d.day_number() == 3652424);
    }
}

/// The shape of a split span: one contribution per day touched, on
/// consecutive valid dates; no contribution negative or above a day's
/// 86400 seconds; every day between the first and the last contributing
/// exactly 86400; and the seconds adding up to the whole span.
pub proof fn lemma_split_days_props(d: Date, start_sec: int, to: Timestamp, n: nat)
    requires
        d.valid(),
        to.valid(),
        0 <= start_sec <= 86400,
        to.date.day_number() == d.day_number() + n,
        n == 0 ==> start_sec <= to.second_of_day(),
    ensures
        split_days(d, start_sec, to, n).len() == n + 1,
        forall|i: int|
            0 <= i <= n ==> (#[trigger] split_days(d, start_sec, to, n)[i]).0.valid(),
        forall|i: int|
            0 <= i <= n ==> (#[trigger] split_days(d, start_sec, to, n)[i]).0.day_number()
                == d.day_number() + i,
        forall|i: int| 0 <= i <= n ==> 0 <= (#[trigger] split_days(d, start_sec, to, n)[i]).1
            <= 86400,
        forall|i: int| 1 <= i < n ==> (#[trigger] split_days(d, start_sec, to, n)[i]).1 == 86400,
        sum_contribs(split_days(d, start_sec, to, n)) == to.abs_seconds() - (d.day_number() * 86400
            + start_sec),
    decreases n,
{
    let s = split_days(d, start_sec, to, n);
    if n == 0 {
        assert(s.drop_first() =~= Seq::<(Date, int)>::empty());
        assert(sum_contribs(s) == s[0].1 + sum_contribs(s.drop_first()));
    } else {
        lemma_day_number_limit(to.date);
        lemma_not_last_date(d, to.date.day_number());
        lemma_next_date(d);
        let d2 = next_date_spec(d);
        lemma_split_days_props(d2, 0, to, (n - 1) as nat);
        let rest = split_days(d2, 0, to, (n - 1) as nat);
        assert(s[0] == (d, 86400 - start_sec));
        assert(s.drop_first() =~= rest);
        assert(forall|i: int| 1 <= i <= n ==> s[i] == rest[i - 1]);
        assert(sum_contribs(s) == s[0].1 + sum_contribs(s.drop_first()));
    }
}

/// A scan for the first fatal condition looks at a concatenation piecewise.
proof fn lemma_first_error_concat(a: Seq<EntryView>, b: Seq<EntryView>, y: int)
    ensures
        first_error(a + b, y) == if first_error(a, y) is Some {
            first_error(a, y)
        } else {
            first_error(b, y)
        },
    decreases a.len(),
{
    if a.len() == 0 {
        assert(a + b =~= b);
    } else {
        assert((a + b)[0] == a[0]);
        assert((a + b).drop_first() =~= a.drop_first() + b);
        lemma_first_error_concat(a.drop_first(), b, y);
    }
}

/// While no entry is in error, contributions of a concatenation concatenate.
proof fn lemma_all_contribs_concat(a: Seq<EntryView>, b: Seq<EntryView>, y: int)
    requires
        first_error(a, y) is None,
    ensures
        all_contribs(a + b, y) == all_contribs(a, y) + all_contribs(b, y),
    decreases a.len(),
{
    if a.len() == 0 {
        assert(a + b =~= b);
        assert(all_contribs(a, y) + all_contribs(b, y) =~= all_contribs(b, y));
    } else {
        assert((a + b)[0] == a[0]);
        assert((a + b).drop_first() =~= a.drop_first() + b);
        lemma_all_contribs_concat(a.drop_first(), b, y);
        assert(entry_contribs(a[0], y) + (all_contribs(a.drop_first(), y) + all_contribs(b, y))
            =~= (entry_contribs(a[0], y) + all_contribs(a.drop_first(), y)) + all_contribs(b, y));
    }
}

/// Adds `secs` to the total of `date`, creating the day's report in
/// chronological position if the date is new.
#[verifier::rlimit(100)]
fn add_contribution(
    reports: &mut Vec<DayReport>,
    date: Date,
    secs: i64,
    Ghost(cs): Ghost<Seq<(Date, int)>>,
)
    requires
        totals_for(old(reports)@, cs),
        contribs_nonneg(cs),
        date.valid(),
        0 <= secs,
        sum_contribs(cs) + secs <= i64::MAX,
        0 <= sum_contribs(cs),
    ensures
        totals_for(final(reports)@, cs.push((date, secs as int))),
        sum_seconds(final(reports)@) == sum_seconds(old(reports)@) + secs,
{
    let di = date_index(&date);
    let n = reports.len();
    let mut k: usize = 0;
    while k < n && reports[k].date.year < date.year || k < n && reports[k].date.year == date.year
        && (reports[k].date.month < date.month || reports[k].date.month == date.month
        && reports[k].date.day < date.day)
        invariant
            totals_for(reports@, cs),
            n == reports@.len(),
            date.valid(),
            0 <= k <= n,
            forall|j: int| 0 <= j < k ==> (#[trigger] reports@[j].date).lt(date),
        decreases n - k,
    {
        proof {
            crate::date::lemma_day_number_increases(reports@[k as int].date, date);
        }
        k = k + 1;
    }
    proof {
        if k < n {
            assert(!reports@[k as int].date.lt(date));
        }
    }
    if k < n && reports[k].date.year == date.year && reports[k].date.month == date.month
        && reports[k].date.day == date.day {
        // The date already has a report: raise its total.
        let old_secs = reports[k].seconds;
        proof {
            assert(reports@[k as int].date == date);
            lemma_total_for_bounds(cs, date);
        }
        reports[k] = DayReport { date, seconds: old_secs + secs };
        proof {
            let rs0 = old(reports)@;
            let rs = reports@;
            let cs2 = cs.push((date, secs as int));
            lemma_sum_seconds_update(rs0, k as int, rs[k as int]);
            assert forall|i: int| 0 <= i < rs.len() implies rs[i].seconds == total_for(
                cs2,
                #[trigger] rs[i].date,
            ) by {
                lemma_total_for_snoc(cs, (date, secs as int), rs[i].date);
                if i != k {
                    assert(rs[i] == rs0[i]);
                    if rs[i].date == date {
                        crate::date::lemma_day_number_injective(rs[i].date, rs0[k as int].date);
                    }
                }
            }
            assert forall|i: int| 0 <= i < rs.len() implies date_present(
                cs2,
                #[trigger] rs[i].date,
            ) by {
                if i == k {
                    assert(cs2[cs2.len() - 1].0 == rs[i].date);
                } else {
                    assert(date_present(cs, rs[i].date));
                    let w = choose|w: int| 0 <= w < cs.len() && cs[w].0 == rs[i].date;
                    assert(cs2[w].0 == rs[i].date);
                }
            }
            assert forall|d: Date| #[trigger] date_present(cs2, d) implies exists|i: int|
                0 <= i < rs.len() && rs[i].date == d by {
                let w = choose|w: int| 0 <= w < cs2.len() && cs2[w].0 == d;
                if w < cs.len() {
                    assert(date_present(cs, d));
                    let i = choose|i: int| 0 <= i < rs0.len() && rs0[i].date == d;
                    assert(rs[i].date == d);
                } else {
                    assert(rs[k as int].date == d);
                }
            }
        }
    } else {
        // A new date: insert its report where it keeps the order.
        proof {
            lemma_total_for_bounds(cs, date);
            if k < n {
                assert(!reports@[k as int].date.lt(date));
                if reports@[k as int].date == date {
                    assert(false);
                }
                assert(date.lt(reports@[k as int].date));
                crate::date::lemma_day_number_increases(date, reports@[k as int].date);
            }
            assert(!date_present(cs, date)) by {
                if date_present(cs, date) {
                    let i = choose|i: int|
                        0 <= i < old(reports)@.len() && old(reports)@[i].date == date;
                    assert(old(reports)@[i].date.lt(date) || old(reports)@[i].date == date
                        || date.lt(old(reports)@[i].date));
                    if i < k {
                        assert(old(reports)@[i].date.lt(date));
                        crate::date::lemma_day_number_increases(old(reports)@[i].date, date);
                        crate::date::lemma_day_number_injective(old(reports)@[i].date, date);
                    } else {
                        assert(k < n);
                        if i > k {
                            assert(old(reports)@[k as int].date.day_number()
                                < old(reports)@[i].date.day_number());
                        }
                        crate::date::lemma_day_number_increases(date, old(reports)@[k as int].date);
                    }
                }
            }
            lemma_total_for_absent(cs, date);
        }
        reports.insert(k, DayReport { date, seconds: secs });
        proof {
            let rs0 = old(reports)@;
            let rs = reports@;
            let cs2 = cs.push((date, secs as int));
            lemma_sum_seconds_insert(rs0, k as int, rs[k as int]);
            assert forall|i: int, j: int| 0 <= i < j < rs.len() implies rs[i].date.day_number()
                < rs[j].date.day_number() by {
                if j < k {
                    assert(rs[i] == rs0[i] && rs[j] == rs0[j]);
                } else if i > k {
                    assert(rs[i] == rs0[i - 1] && rs[j] == rs0[j - 1]);
                } else if i < k && j == k {
                    crate::date::lemma_day_number_increases(rs0[i].date, date);
                } else if i == k && j > k {
                    crate::date::lemma_day_number_increases(date, rs0[j - 1].date);
                } else if i < k && j > k {
                    assert(rs[i] == rs0[i] && rs[j] == rs0[j - 1]);
                }
            }
            assert forall|i: int| 0 <= i < rs.len() implies rs[i].seconds == total_for(
                cs2,
                #[trigger] rs[i].date,
            ) by {
                lemma_total_for_snoc(cs, (date, secs as int), rs[i].date);
                if i != k {
                    let i0 = if i < k {
                        i
                    } else {
                        i - 1
                    };
                    assert(rs[i] == rs0[i0]);
                    if rs[i].date == date {
                        assert(date_present(cs, date));
                    }
                }
            }
            assert forall|i: int| 0 <= i < rs.len() implies date_present(
                cs2,
                #[trigger] rs[i].date,
            ) by {
                if i == k {
                    assert(cs2[cs2.len() - 1].0 == rs[i].date);
                } else {
                    let i0 = if i < k {
                        i
                    } else {
                        i - 1
                    };
                    assert(date_present(cs, rs0[i0].date));
                    let w = choose|w: int| 0 <= w < cs.len() && cs[w].0 == rs[i].date;
                    assert(cs2[w].0 == rs[i].date);
                }
            }
            assert forall|d: Date| #[trigger] date_present(cs2, d) implies exists|i: int|
                0 <= i < rs.len() && rs[i].date == d by {
                let w = choose|w: int| 0 <= w < cs2.len() && cs2[w].0 == d;
                if w < cs.len() {
                    assert(date_present(cs, d));
                    let i = choose|i: int| 0 <= i < rs0.len() && rs0[i].date == d;
                    let i2 = if i < k {
                        i
                    } else {
                        i + 1
                    };
                    assert(rs[i2].date == d);
                } else {
                    assert(rs[k as int].date == d);
                }
            }
        }
    }
}

/// Law: an interval that starts and ends on the same date yields exactly one
/// contribution, equal to the wall-clock difference in seconds.
pub proof fn lemma_same_day_split(f: Timestamp, t: Timestamp)
    requires
        f.valid(),
        t.valid(),
        f.date == t.date,
        f.abs_seconds() <= t.abs_seconds(),
    ensures
        interval_contribs(f, t) =~= seq![(f.date, t.abs_seconds() - f.abs_seconds())],
{
}

/// Law: an interval crossing `n` midnights yields `n + 1` contributions, on
/// consecutive dates starting at the start date; every contribution between
/// the first and the last is exactly 86400 seconds; none is negative; and
/// together they sum to the interval's elapsed seconds.
pub proof fn lemma_split_shape(f: Timestamp, t: Timestamp)
    requires
        f.valid(),
        t.valid(),
        f.abs_seconds() <= t.abs_seconds(),
    ensures
        interval_contribs(f, t).len() == t.date.day_number() - f.date.day_number() + 1,
        forall|i: int|
            0 <= i < interval_contribs(f, t).len() ==> (#[trigger] interval_contribs(f, t)[i])
                .0.day_number() == f.date.day_number() + i,
        forall|i: int|
            1 <= i < interval_contribs(f, t).len() - 1 ==> (#[trigger] interval_contribs(f, t)[i])
                .1 == 86400,
        forall|i: int|
            0 <= i < interval_contribs(f, t).len() ==> 0 <= (#[trigger] interval_contribs(
                f,
                t,
            )[i]).1 <= 86400,
        sum_contribs(interval_contribs(f, t)) == t.abs_seconds() - f.abs_seconds(),
{
    assert(f.date.day_number() <= t.date.day_number()) by {
        assert((f.date.day_number() - t.date.day_number()) * 86400 <= t.second_of_day()
            - f.second_of_day());
    }
    let span = (t.date.day_number() - f.date.day_number()) as nat;
    lemma_split_days_props(f.date, f.second_of_day(), t, span);
}

/// Contributions left after taking out every one that names date `d`.
pub open spec fn remove_date(cs: Seq<(Date, int)>, d: Date) -> Seq<(Date, int)>
    decreases cs.len(),
{
    if cs.len() == 0 {
        seq![]
    } else if cs[0].0 == d {
        remove_date(cs.drop_first(), d)
    } else {
        seq![cs[0]] + remove_date(cs.drop_first(), d)
    }
}

/// Taking out one date's contributions leaves every other total unchanged.
proof fn lemma_remove_date_total(cs: Seq<(Date, int)>, d: Date, x: Date)
    requires
        x != d,
    ensures
        total_for(remove_date(cs, d), x) == total_for(cs, x),
    decreases cs.len(),
{
    if cs.len() > 0 {
        lemma_remove_date_total(cs.drop_first(), d, x);
        if cs[0].0 != d {
            let r = seq![cs[0]] + remove_date(cs.drop_first(), d);
            assert(r[0] == cs[0]);
            assert(r.drop_first() =~= remove_date(cs.drop_first(), d));
        }
    }
}

/// Taking out one date's contributions leaves the other dates present.
proof fn lemma_remove_date_present(cs: Seq<(Date, int)>, d: Date, x: Date)
    requires
        x != d,
    ensures
        date_present(remove_date(cs, d), x) == date_present(cs, x),
    decreases cs.len(),
{
    if cs.len() > 0 {
        assert(forall|i: int|
            0 <= i < cs.drop_first().len() ==> #[trigger] cs.drop_first()[i] == cs[i + 1]);
        lemma_remove_date_present(cs.drop_first(), d, x);
        if cs[0].0 != d {
            let r = seq![cs[0]] + remove_date(cs.drop_first(), d);
            assert(r[0] == cs[0]);
            assert(r.drop_first() =~= remove_date(cs.drop_first(), d));
            assert(forall|i: int|
                0 <= i < r.drop_first().len() ==> #[trigger] r.drop_first()[i] == r[i + 1]);
            if date_present(cs, x) {
                let w = choose|w: int| 0 <= w < cs.len() && cs[w].0 == x;
                if w == 0 {
                    assert(r[0].0 == x);
                } else {
                    assert(cs.drop_first()[w - 1].0 == x);
                    assert(date_present(cs.drop_first(), x));
                    let v = choose|v: int|
                        0 <= v < remove_date(cs.drop_first(), d).len() && remove_date(
                            cs.drop_first(),
                            d,
                        )[v].0 == x;
                    assert(r[v + 1].0 == x);
                }
            }
            if date_present(r, x) {
                let w = choose|w: int| 0 <= w < r.len() && r[w].0 == x;
                if w == 0 {
                    assert(cs[0].0 == x);
                } else {
                    assert(remove_date(cs.drop_first(), d)[w - 1].0 == x);
                    assert(date_present(cs.drop_first(), x));
                    let v = choose|v: int|
                        0 <= v < cs.drop_first().len() && cs.drop_first()[v].0 == x;
                    assert(cs[v + 1].0 == x);
                }
            }
        } else {
            if date_present(cs, x) {
                let w = choose|w: int| 0 <= w < cs.len() && cs[w].0 == x;
                assert(w != 0);
                assert(cs.drop_first()[w - 1].0 == x);
            }
            if date_present(cs.drop_first(), x) {
                let v = choose|v: int| 0 <= v < cs.drop_first().len() && cs.drop_first()[v].0 == x;
                assert(cs[v + 1].0 == x);
            }
        }
    }
}

/// The date taken out is present no more.
proof fn lemma_remove_date_gone(cs: Seq<(Date, int)>, d: Date)
    ensures
        !date_present(remove_date(cs, d), d),
    decreases cs.len(),
{
    if cs.len() > 0 {
        lemma_remove_date_gone(cs.drop_first(), d);
        if cs[0].0 != d {
            let r = seq![cs[0]] + remove_date(cs.drop_first(), d);
            if date_present(r, d) {
                let w = choose|w: int| 0 <= w < r.len() && r[w].0 == d;
                assert(w != 0);
                assert(remove_date(cs.drop_first(), d)[w - 1].0 == d);
            }
        }
    }
}

/// The tail of a total sequence totals the contributions without the head date.
proof fn lemma_totals_tail(rs: Seq<DayReport>, cs: Seq<(Date, int)>)
    requires
        totals_for(rs, cs),
        rs.len() > 0,
    ensures
        totals_for(rs.drop_first(), remove_date(cs, rs[0].date)),
{
    let d1 = rs[0].date;
    let cs2 = remove_date(cs, d1);
    lemma_remove_date_gone(cs, d1);
    let tail = rs.drop_first();
    assert(forall|i: int| 0 <= i < tail.len() ==> #[trigger] tail[i] == rs[i + 1]);
    assert forall|i: int| 0 <= i < tail.len() implies tail[i].seconds == total_for(
        cs2,
        #[trigger] tail[i].date,
    ) by {
        assert(rs[0].date.day_number() < rs[i + 1].date.day_number());
        lemma_remove_date_total(cs, d1, tail[i].date);
    }
    assert forall|i: int| 0 <= i < tail.len() implies date_present(
        cs2,
        #[trigger] tail[i].date,
    ) by {
        assert(rs[0].date.day_number() < rs[i + 1].date.day_number());
        lemma_remove_date_present(cs, d1, tail[i].date);
    }
    assert forall|d: Date| #[trigger] date_present(cs2, d) implies exists|i: int|
        0 <= i < tail.len() && tail[i].date == d by {
        assert(d != d1);
        lemma_remove_date_present(cs, d1, d);
        assert(date_present(cs, d));
        let i = choose|i: int| 0 <= i < rs.len() && rs[i].date == d;
        assert(i != 0);
        assert(tail[i - 1].date == d);
    }
}

/// Both total sequences of one contribution list begin with the same report:
/// the one of the earliest date present.
proof fn lemma_heads_equal(r1: Seq<DayReport>, r2: Seq<DayReport>, cs: Seq<(Date, int)>)
    requires
        totals_for(r1, cs),
        totals_for(r2, cs),
        r1.len() > 0,
        r2.len() > 0,
    ensures
        r1[0] == r2[0],
{
    let d1 = r1[0].date;
    let d2 = r2[0].date;
    assert(date_present(cs, d1));
    assert(date_present(cs, d2));
    let j = choose|j: int| 0 <= j < r2.len() && r2[j].date == d1;
    let i = choose|i: int| 0 <= i < r1.len() && r1[i].date == d2;
    if d1.day_number() < d2.day_number() {
        assert(j > 0);
        assert(r2[0].date.day_number() < r2[j].date.day_number());
        assert(false);
    }
    if d2.day_number() < d1.day_number() {
        assert(i > 0);
        assert(r1[0].date.day_number() < r1[i].date.day_number());
        assert(false);
    }
    crate::date::lemma_day_number_injective(d1, d2);
}

/// Law: the day totals of a contribution list are unique. Any two total
/// sequences that both stand in the `totals_for` relation to the same
/// contributions are equal: the report of a run is determined by its input.
#[verifier::rlimit(100)]
pub proof fn lemma_totals_unique(r1: Seq<DayReport>, r2: Seq<DayReport>, cs: Seq<(Date, int)>)
    requires
        totals_for(r1, cs),
        totals_for(r2, cs),
    ensures
        r1 == r2,
    decreases r1.len(),
{
    if r1.len() == 0 {
        if r2.len() > 0 {
            assert(date_present(cs, r2[0].date));
            assert(false);
        }
        assert(r1 =~= r2);
    } else {
        assert(date_present(cs, r1[0].date));
        assert(r2.len() > 0) by {
            if r2.len() == 0 {
                assert(false);
            }
        }
        let d1 = r1[0].date;
        lemma_heads_equal(r1, r2, cs);
        assert(r1[0] == r2[0]);
        let cs2 = remove_date(cs, d1);
        lemma_totals_tail(r1, cs);
        lemma_totals_tail(r2, cs);
        lemma_totals_unique(r1.drop_first(), r2.drop_first(), cs2);
        assert(r1.len() == r2.len());
        assert(forall|i: int| 1 <= i < r1.len() ==> #[trigger] r1[i] == r1.drop_first()[i - 1]);
        assert(forall|i: int| 1 <= i < r2.len() ==> #[trigger] r2[i] == r2.drop_first()[i - 1]);
        assert(r1 =~= r2);
    }
}

/// Splits the interval from `f` to `t` into per-day contributions and adds
/// each to its date's running total.
#[verifier::loop_isolation(false)]
#[verifier::rlimit(100)]
fn split_entry(
    reports: &mut Vec<DayReport>,
    f: Timestamp,
    t: Timestamp,
    Ghost(base): Ghost<Seq<(Date, int)>>,
)
    requires
        f.valid(),
        t.valid(),
        f.abs_seconds() <= t.abs_seconds(),
        totals_for(old(reports)@, base),
        contribs_nonneg(base),
        sum_seconds(old(reports)@) == sum_contribs(base),
        0 <= sum_contribs(base),
        sum_contribs(base) + abs_second_limit() <= i64::MAX,
    ensures
        totals_for(final(reports)@, base + interval_contribs(f, t)),
        contribs_nonneg(base + interval_contribs(f, t)),
        sum_seconds(final(reports)@) == sum_contribs(base + interval_contribs(f, t)),
        sum_contribs(interval_contribs(f, t)) == t.abs_seconds() - f.abs_seconds(),
{
    let ghost ec = interval_contribs(f, t);
    let ghost span = (t.date.day_number() - f.date.day_number()) as nat;
    let mut cd = f.date;
    let mut start_sec = second_of_day_of(&f);
    let ghost mut done: Seq<(Date, int)> = seq![];
    proof {
        lemma_day_number_limit(f.date);
        lemma_day_number_limit(t.date);
        assert(f.date.day_number() <= t.date.day_number()) by {
            assert((f.date.day_number() - t.date.day_number()) * 86400 <= t.second_of_day()
                - f.second_of_day());
        }
        lemma_split_days_props(f.date, f.second_of_day(), t, span);
        assert(ec == split_days(f.date, f.second_of_day(), t, span));
        assert(Seq::<(Date, int)>::empty() + split_days(cd, start_sec as int, t, span)
            =~= split_days(cd, start_sec as int, t, span));
        lemma_sum_contribs_concat(base, ec);
    }
    while date_index(&cd) < date_index(&t.date)
        invariant
            cd.valid(),
            0 <= start_sec <= 86340,
            cd.day_number() <= t.date.day_number(),
            cd.day_number() == t.date.day_number() ==> start_sec <= t.second_of_day(),
            ec == done + split_days(
                cd,
                start_sec as int,
                t,
                (t.date.day_number() - cd.day_number()) as nat,
            ),
            totals_for(reports@, base + done),
            contribs_nonneg(base + done),
            sum_seconds(reports@) == sum_contribs(base + done),
            sum_contribs(done) == cd.day_number() * 86400 + start_sec - f.abs_seconds(),
            0 <= sum_contribs(done),
        decreases t.date.day_number() - cd.day_number(),
    {
        let secs = 86400 - start_sec;
        proof {
            assert(abs_second_limit() == 315_569_520_000);
            lemma_sum_contribs_concat(base, done);
            assert(cd.day_number() < t.date.day_number());
            assert((cd.day_number() + 1) * 86400 <= t.date.day_number() * 86400);
            assert(sum_contribs(done) + secs <= t.abs_seconds() - f.abs_seconds());
            assert(t.abs_seconds() - f.abs_seconds() < abs_second_limit());
        }
        add_contribution(reports, cd, secs, Ghost(base + done));
        proof {
            let ghost m = (t.date.day_number() - cd.day_number()) as nat;
            assert(split_days(cd, start_sec as int, t, m) == seq![
                (cd, 86400 - start_sec as int),
            ] + split_days(next_date_spec(cd), 0, t, (m - 1) as nat));
            assert((base + done).push((cd, secs as int)) =~= base + done.push((cd, secs as int)));
            assert(done + (seq![(cd, 86400 - start_sec as int)] + split_days(
                next_date_spec(cd),
                0,
                t,
                (m - 1) as nat,
            )) =~= done.push((cd, secs as int)) + split_days(
                next_date_spec(cd),
                0,
                t,
                (m - 1) as nat,
            ));
            lemma_sum_contribs_snoc(done, (cd, secs as int));
            done = done.push((cd, secs as int));
            lemma_sum_contribs_concat(base, done);
            lemma_not_last_date(cd, t.date.day_number());
        }
        cd = next_date(&cd);
        start_sec = 0;
    }
    let t_sod = second_of_day_of(&t);
    proof {
        assert(cd.day_number() == t.date.day_number());
        lemma_sum_contribs_concat(base, done);
        assert(sum_contribs(done) + (t_sod - start_sec) == t.abs_seconds() - f.abs_seconds());
    }
    let secs = t_sod - start_sec;
    add_contribution(reports, cd, secs, Ghost(base + done));
    proof {
        assert(split_days(cd, start_sec as int, t, 0) =~= seq![(cd, t_sod - start_sec as int)]);
        assert((base + done).push((cd, secs as int)) =~= base + done.push((cd, secs as int)));
        assert(done + seq![(cd, t_sod - start_sec as int)] =~= done.push((cd, secs as int)));
        lemma_sum_contribs_snoc(done, (cd, secs as int));
        done = done.push((cd, secs as int));
        assert(ec =~= done);
        lemma_sum_contribs_concat(base, done);
    }
}

/// The mathematical image of a list of contributions.
pub open spec fn contribs_view(cs: Seq<(Date, i64)>) -> Seq<(Date, int)> {
    cs.map_values(|c: (Date, i64)| (c.0, c.1 as int))
}

/// Folds per-day contributions into one total per calendar date, in
/// chronological order: the aggregation step on its own.
#[verifier::loop_isolation(false)]
pub fn day_reports_from_contributions(contribs: &Vec<(Date, i64)>) -> (r: Vec<DayReport>)
    requires
        forall|i: int| 0 <= i < contribs@.len() ==> (#[trigger] contribs@[i]).0.valid(),
        forall|i: int| 0 <= i < contribs@.len() ==> 0 <= (#[trigger] contribs@[i]).1,
        sum_contribs(contribs_view(contribs@)) <= i64::MAX,
    ensures
        totals_for(r@, contribs_view(contribs@)),
        sum_seconds(r@) == sum_contribs(contribs_view(contribs@)),
{
    let ghost cs = contribs_view(contribs@);
    let mut reports: Vec<DayReport> = Vec::new();
    let n = contribs.len();
    let mut k: usize = 0;
    proof {
        assert(contribs_view(contribs@.take(0)) =~= Seq::<(Date, int)>::empty());
        lemma_sum_prefix_bound(contribs@, 0);
    }
    while k < n
        invariant
            k <= n,
            totals_for(reports@, contribs_view(contribs@.take(k as int))),
            contribs_nonneg(contribs_view(contribs@.take(k as int))),
            sum_seconds(reports@) == sum_contribs(contribs_view(contribs@.take(k as int))),
            0 <= sum_contribs(contribs_view(contribs@.take(k as int))),
        decreases n - k,
    {
        let c = contribs[k];
        proof {
            lemma_sum_prefix_bound(contribs@, k as int + 1);
            assert(contribs_view(contribs@.take(k as int + 1)) =~= contribs_view(
                contribs@.take(k as int),
            ).push((c.0, c.1 as int)));
            lemma_sum_contribs_snoc(contribs_view(contribs@.take(k as int)), (c.0, c.1 as int));
        }
        add_contribution(&mut reports, c.0, c.1, Ghost(contribs_view(contribs@.take(k as int))));
        k = k + 1;
    }
    proof {
        assert(contribs@.take(n as int) =~= contribs@);
    }
    reports
}

/// A prefix of non-negative contributions has a non-negative sum.
proof fn lemma_sum_prefix_nonneg(cs: Seq<(Date, i64)>, k: int)
    requires
        0 <= k <= cs.len(),
        forall|i: int| 0 <= i < cs.len() ==> 0 <= (#[trigger] cs[i]).1,
    ensures
        0 <= sum_contribs(contribs_view(cs.take(k))),
    decreases k,
{
    if k == 0 {
        assert(contribs_view(cs.take(0)) =~= Seq::<(Date, int)>::empty());
    } else {
        lemma_sum_prefix_nonneg(cs, k - 1);
        assert(contribs_view(cs.take(k)) =~= contribs_view(cs.take(k - 1)).push(
            (cs[k - 1].0, cs[k - 1].1 as int),
        ));
        lemma_sum_contribs_snoc(contribs_view(cs.take(k - 1)), (cs[k - 1].0, cs[k - 1].1 as int));
    }
}

/// A prefix of non-negative contributions sums below the whole list.
proof fn lemma_sum_prefix_bound(cs: Seq<(Date, i64)>, k: int)
    requires
        0 <= k <= cs.len(),
        forall|i: int| 0 <= i < cs.len() ==> 0 <= (#[trigger] cs[i]).1,
    ensures
        0 <= sum_contribs(contribs_view(cs.take(k))) <= sum_contribs(contribs_view(cs)),
    decreases cs.len() - k,
{
    lemma_sum_prefix_nonneg(cs, k);
    if k < cs.len() {
        lemma_sum_prefix_bound(cs, k + 1);
        assert(contribs_view(cs.take(k + 1)) =~= contribs_view(cs.take(k)).push(
            (cs[k].0, cs[k].1 as int),
        ));
        lemma_sum_contribs_snoc(contribs_view(cs.take(k)), (cs[k].0, cs[k].1 as int));
    } else {
        assert(cs.take(k) =~= cs);
    }
}

/// Splits every entry's interval into per-day contributions and folds them
/// into one total per calendar date, in chronological order. Fails on the
/// first entry whose `from` or `to` field does not parse under `year`, or
/// whose end precedes its start.
#[verifier::loop_isolation(false)]
#[verifier::rlimit(60)]
pub fn day_reports_from_entries(entries: &Vec<ReportEntry>, year: i32) -> (r: Result<
    Vec<DayReport>,
    ReportError,
>)
    requires
        1 <= year <= 9999,
        entries@.len() <= 20_000_000,
    ensures
        match r {
            Ok(v) => {
                &&& first_error(views_of(entries@), year as int) is None
                &&& totals_for(v@, all_contribs(views_of(entries@), year as int))
                &&& sum_seconds(v@) == sum_contribs(all_contribs(views_of(entries@), year as int))
                &&& contribs_nonneg(all_contribs(views_of(entries@), year as int))
                &&& 0 <= sum_contribs(all_contribs(views_of(entries@), year as int))
                    <= entries@.len() * 315_569_520_000
                &&& forall|i: int| 0 <= i < v@.len() ==> 0 <= (#[trigger] v@[i]).seconds
            },
            Err(e) => first_error(views_of(entries@), year as int) == Some(e),
        },
{
    let ghost views = views_of(entries@);
    let ghost y = year as int;
    let mut reports: Vec<DayReport> = Vec::new();
    let n = entries.len();
    let mut k: usize = 0;
    proof {
        assert(views.take(0) =~= Seq::<EntryView>::empty());
    }
    while k < n
        invariant
            k <= n,
            first_error(views.take(k as int), y) is None,
            totals_for(reports@, all_contribs(views.take(k as int), y)),
            contribs_nonneg(all_contribs(views.take(k as int), y)),
            sum_seconds(reports@) == sum_contribs(all_contribs(views.take(k as int), y)),
            0 <= sum_contribs(all_contribs(views.take(k as int), y)) <= k * 315_569_520_000,
        decreases n - k,
    {
        let e = &entries[k];
        proof {
            assert(views[k as int] == e@);
            assert(views =~= views.take(k as int) + views.skip(k as int));
            assert(views.skip(k as int)[0] == views[k as int]);
        }
        let from_opt = parse_datetime(year, &e.from);
        let to_opt = parse_datetime(year, &e.to);
        let (f, t) = match (from_opt, to_opt) {
            (Some(f), Some(t)) => (f, t),
            _ => {
                proof {
                    lemma_first_error_concat(views.take(k as int), views.skip(k as int), y);
                    assert(entry_error(views[k as int], y) == Some(
                        ReportError::MalformedTimestamp,
                    ));
                }
                return Err(ReportError::MalformedTimestamp);
            },
        };
        let f_abs = timestamp_abs(&f);
        let t_abs = timestamp_abs(&t);
        if t_abs < f_abs {
            proof {
                lemma_first_error_concat(views.take(k as int), views.skip(k as int), y);
                assert(entry_error(views[k as int], y) == Some(ReportError::InvertedInterval));
            }
            return Err(ReportError::InvertedInterval);
        }
        let ghost base = all_contribs(views.take(k as int), y);
        let ghost ec = entry_contribs(views[k as int], y);
        proof {
            assert(entry_error(views[k as int], y) is None);
            assert(ec == interval_contribs(f, t));
            assert(abs_second_limit() == 315_569_520_000);
        }
        split_entry(&mut reports, f, t, Ghost(base));
        proof {
            lemma_sum_contribs_concat(base, ec);
            // The prefix now covers this entry too.
            let take1 = views.take(k as int + 1);
            let one = seq![views[k as int]];
            assert(take1 =~= views.take(k as int) + one);
            lemma_first_error_concat(views.take(k as int), one, y);
            assert(one.drop_first() =~= Seq::<EntryView>::empty());
            assert(first_error(one, y) is None);
            assert(first_error(take1, y) is None);
            lemma_all_contribs_concat(views.take(k as int), one, y);
            assert(one[0] == views[k as int]);
            assert(all_contribs(one.drop_first(), y) =~= Seq::<(Date, int)>::empty());
            assert(all_contribs(one, y) =~= ec);
            assert(all_contribs(take1, y) =~= base + ec);
            lemma_sum_contribs_concat(base, ec);
            assert(abs_second_limit() == 315_569_520_000);
            assert(sum_contribs(base + ec) <= (k + 1) * 315_569_520_000);
        }
        k = k + 1;
    }
    proof {
        assert(views.take(n as int) =~= views);
        assert forall|i: int| 0 <= i < reports@.len() implies 0 <= (
        #[trigger] reports@[i]).seconds by {
            lemma_total_for_bounds(all_contribs(views, y), reports@[i].date);
        }
    }
    Ok(reports)
}

} // verus!
