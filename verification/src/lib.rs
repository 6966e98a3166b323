use vstd::prelude::*;
use vstd::string::StringSliceAdditionalSpecFns;

pub mod date;
pub mod parse;
pub mod render;
pub mod split;

use crate::parse::{read_report, report_entries, views_of, lemma_entries_from_count};
use crate::render::{chars_of_bytes, render_report, render_spec, lines_to_strings, reports_ok};
use crate::split::{
    all_contribs, day_reports_from_entries, day_totals_of, first_error, lemma_totals_unique,
    sum_seconds, totals_for, DayReport,
};

verus! {

/// Run configuration: input path, reporting granularity in minutes, and
/// whether rendered lines show the minutes discarded by rounding.
pub struct Config {
    pub input: String,
    pub minutes_per_unit: i64,
    pub verbose: bool,
}

/// The fatal conditions that abort a run: a `from`/`to` field that does not
/// match the expected "day month time" shape, or an interval whose end
/// precedes its start.
#[derive(Clone, Copy, PartialEq, Eq, Structural, Debug)]
pub enum ReportError {
    MalformedTimestamp,
    InvertedInterval,
}

impl ReportError {
    /// A human-readable description of the error, for the caller to print.
    pub fn message(&self) -> (r: &'static str)
        ensures
            *self is MalformedTimestamp ==> r@ == "malformed timestamp in report entry"@,
            *self is InvertedInterval ==> r@ == "report entry ends before it starts"@,
    {
        match self {
            ReportError::MalformedTimestamp => "malformed timestamp in report entry",
            ReportError::InvertedInterval => "report entry ends before it starts",
        }
    }
}

/// Runs the whole pipeline on a report text: reads the records, splits and
/// aggregates them into day totals, and renders the report lines. Fails with
/// the first fatal condition the entries raise under the reference year.
pub fn process_report(file_contents: &str, year: i32, unit: i64, verbose: bool) -> (r: Result<
    Vec<String>,
    ReportError,
>)
    requires
        1 <= year <= 9999,
        1 <= unit,
        file_contents.spec_bytes().len() < 20_000_000,
    ensures
        ({
            let cs = all_contribs(report_entries(file_contents.spec_bytes()), year as int);
            match r {
                Ok(lines) => {
                    &&& first_error(report_entries(file_contents.spec_bytes()), year as int)
                        is None
                    &&& totals_for(day_totals_of(cs), cs)
                    &&& lines@.len() == render_spec(day_totals_of(cs), unit as int, verbose).len()
                    &&& forall|j: int|
                        0 <= j < lines@.len() ==> (#[trigger] lines@[j])@ == chars_of_bytes(
                            render_spec(day_totals_of(cs), unit as int, verbose)[j],
                        )
                },
                Err(e) => first_error(report_entries(file_contents.spec_bytes()), year as int)
                    == Some(e),
            }
        }),
{
    let ghost bytes = file_contents.spec_bytes();
    let ghost y = year as int;
    let entries = read_report(file_contents);
    proof {
        lemma_entries_from_count(bytes, Seq::<u8>::empty());
        assert(views_of(entries@).len() == entries@.len());
    }
    let totals = match day_reports_from_entries(&entries, year) {
        Ok(v) => v,
        Err(e) => {
            return Err(e);
        },
    };
    let ghost cs = all_contribs(report_entries(bytes), y);
    proof {
        assert(views_of(entries@) == report_entries(bytes));
        assert(totals_for(totals@, cs));
        assert(sum_seconds(totals@) <= 20_000_000int * 315_569_520_000);
        assert(reports_ok(totals@));
        assert(totals_for(day_totals_of(cs), cs)) by {
            assert(exists|rs: Seq<DayReport>| totals_for(rs, cs)) by {
                assert(totals_for(totals@, cs));
            }
        }
        lemma_totals_unique(day_totals_of(cs), totals@, cs);
    }
    let lines = render_report(&totals, unit, verbose);
    let out = lines_to_strings(&lines);
    proof {
        assert(forall|j: int|
            0 <= j < lines@.len() ==> (#[trigger] crate::render::byte_views(lines@)[j]) == lines@[
                j
            ]@);
    }
    Ok(out)
}

} // verus!
