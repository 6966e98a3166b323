use vstd::prelude::*;
use vstd::string::StringSliceAdditionalSpecFns;
use crate::date::{Date, Timestamp, days_in_month, month_length};

verus! {

/// One raw record of the report: the five `;`-separated fields of a line,
/// kept as the bytes that appeared in the input.
pub struct ReportEntry {
    pub activity: Vec<u8>,
    pub duration: Vec<u8>,
    pub from: Vec<u8>,
    pub to: Vec<u8>,
    pub comment: Vec<u8>,
}

/// The mathematical image of a `ReportEntry`: its five fields as byte sequences.
pub ghost struct EntryView {
    pub activity: Seq<u8>,
    pub duration: Seq<u8>,
    pub from: Seq<u8>,
    pub to: Seq<u8>,
    pub comment: Seq<u8>,
}

impl View for ReportEntry {
    type V = EntryView;

    open spec fn view(&self) -> EntryView {
        EntryView {
            activity: self.activity@,
            duration: self.duration@,
            from: self.from@,
            to: self.to@,
            comment: self.comment@,
        }
    }
}

impl ReportEntry {
    /// Packs five field values into a record.
    pub fn new(activity: Vec<u8>, duration: Vec<u8>, from: Vec<u8>, to: Vec<u8>, comment: Vec<u8>)
        -> (e: ReportEntry)
        ensures
            e@ == (EntryView {
                activity: activity@,
                duration: duration@,
                from: from@,
                to: to@,
                comment: comment@,
            }),
    {
        ReportEntry { activity, duration, from, to, comment }
    }
}

/// The label that marks a header row, as bytes: "Activity type".
pub open spec fn header_label() -> Seq<u8> {
    seq![
        'A' as u8, 'c' as u8, 't' as u8, 'i' as u8, 'v' as u8, 'i' as u8, 't' as u8,
        'y' as u8, ' ' as u8, 't' as u8, 'y' as u8, 'p' as u8, 'e' as u8,
    ]
}

/// Splits the remainder `s` of a line on `;`, with `cur` the part of the
/// current field read so far.
pub open spec fn split_fields_from(s: Seq<u8>, cur: Seq<u8>) -> Seq<Seq<u8>>
    decreases s.len(),
{
    if s.len() == 0 {
        seq![cur]
    } else if s[0] == ';' as u8 {
        seq![cur] + split_fields_from(s.drop_first(), seq![])
    } else {
        split_fields_from(s.drop_first(), cur.push(s[0]))
    }
}

/// The `;`-separated fields of a line; a line with no `;` is one field.
pub open spec fn split_fields(line: Seq<u8>) -> Seq<Seq<u8>> {
    split_fields_from(line, seq![])
}

/// A line with a carriage return left before the line feed has it removed.
pub open spec fn strip_cr(line: Seq<u8>) -> Seq<u8> {
    if line.len() > 0 && line.last() == '\r' as u8 {
        line.drop_last()
    } else {
        line
    }
}

/// What a single line of the report means.
pub ghost enum LineKind {
    /// Not five fields: the table has ended, parsing stops here.
    Stop,
    /// The header row, skipped without ending the table.
    Header,
    /// A record.
    Entry(EntryView),
}

/// Classifies one line by its field count and first field.
pub open spec fn classify_line(line: Seq<u8>) -> LineKind {
    let fs = split_fields(line);
    if fs.len() != 5 {
        LineKind::Stop
    } else if fs[0] == header_label() {
        LineKind::Header
    } else {
        LineKind::Entry(
            EntryView {
                activity: fs[0],
                duration: fs[1],
                from: fs[2],
                to: fs[3],
                comment: fs[4],
            },
        )
    }
}

/// The records of the report text whose remainder is `s`, with `cur` the part
/// of the current line read so far. Lines end at a line feed, optionally
/// preceded by a carriage return; the final line needs no line ending.
pub open spec fn entries_from(s: Seq<u8>, cur: Seq<u8>) -> Seq<EntryView>
    decreases s.len(),
{
    if s.len() == 0 {
        match classify_line(cur) {
            LineKind::Entry(e) => seq![e],
            _ => seq![],
        }
    } else if s[0] == '\n' as u8 {
        match classify_line(strip_cr(cur)) {
            LineKind::Stop => seq![],
            LineKind::Header => entries_from(s.drop_first(), seq![]),
            LineKind::Entry(e) => seq![e] + entries_from(s.drop_first(), seq![]),
        }
    } else {
        entries_from(s.drop_first(), cur.push(s[0]))
    }
}

/// All records of a report text, in order of appearance.
pub open spec fn report_entries(s: Seq<u8>) -> Seq<EntryView> {
    entries_from(s, seq![])
}

/// A text of `n` bytes holds at most `n + 1` records.
pub proof fn lemma_entries_from_count(s: Seq<u8>, cur: Seq<u8>)
    ensures
        entries_from(s, cur).len() <= s.len() + 1,
    decreases s.len(),
{
    if s.len() == 0 {
    } else if s[0] == '\n' as u8 {
        lemma_entries_from_count(s.drop_first(), seq![]);
    } else {
        lemma_entries_from_count(s.drop_first(), cur.push(s[0]));
    }
}

/// The field views of a sequence of records.
pub open spec fn views_of(entries: Seq<ReportEntry>) -> Seq<EntryView> {
    entries.map_values(|e: ReportEntry| e@)
}

pub open spec fn is_digit(b: u8) -> bool {
    '0' as u8 <= b <= '9' as u8
}

pub open spec fn digit(b: u8) -> int {
    b - '0' as u8
}

/// The month number of a three-letter abbreviation, or 0 if it is none.
pub open spec fn month_of_bytes(b0: u8, b1: u8, b2: u8) -> int {
    if b0 == 'J' as u8 && b1 == 'a' as u8 && b2 == 'n' as u8 {
        1
    } else if b0 == 'F' as u8 && b1 == 'e' as u8 && b2 == 'b' as u8 {
        2
    } else if b0 == 'M' as u8 && b1 == 'a' as u8 && b2 == 'r' as u8 {
        3
    } else if b0 == 'A' as u8 && b1 == 'p' as u8 && b2 == 'r' as u8 {
        4
    } else if b0 == 'M' as u8 && b1 == 'a' as u8 && b2 == 'y' as u8 {
        5
    } else if b0 == 'J' as u8 && b1 == 'u' as u8 && b2 == 'n' as u8 {
        6
    } else if b0 == 'J' as u8 && b1 == 'u' as u8 && b2 == 'l' as u8 {
        7
    } else if b0 == 'A' as u8 && b1 == 'u' as u8 && b2 == 'g' as u8 {
        8
    } else if b0 == 'S' as u8 && b1 == 'e' as u8 && b2 == 'p' as u8 {
        9
    } else if b0 == 'O' as u8 && b1 == 'c' as u8 && b2 == 't' as u8 {
        10
    } else if b0 == 'N' as u8 && b1 == 'o' as u8 && b2 == 'v' as u8 {
        11
    } else if b0 == 'D' as u8 && b1 == 'e' as u8 && b2 == 'c' as u8 {
        12
    } else {
        0
    }
}

/// Meaning of the text that follows the day value: a space, a three-letter
/// month, a space, and a zero-padded "HH:MM" time, starting at offset `o`.
pub open spec fn parse_tail_spec(year: int, s: Seq<u8>, o: int, day: int) -> Option<Timestamp> {
    let m = month_of_bytes(s[o + 1], s[o + 2], s[o + 3]);
    if s[o] == ' ' as u8 && m != 0 && s[o + 4] == ' ' as u8 && is_digit(s[o + 5]) && is_digit(
        s[o + 6],
    ) && s[o + 7] == ':' as u8 && is_digit(s[o + 8]) && is_digit(s[o + 9]) {
        let hour = 10 * digit(s[o + 5]) + digit(s[o + 6]);
        let minute = 10 * digit(s[o + 8]) + digit(s[o + 9]);
        if hour <= 23 && minute <= 59 && 1 <= day <= days_in_month(year, m) {
            Some(
                Timestamp {
                    date: Date { year: year as i32, month: m as u8, day: day as u8 },
                    hour: hour as u8,
                    minute: minute as u8,
                },
            )
        } else {
            None
        }
    } else {
        None
    }
}

/// The timestamp that a "day month time" field denotes in the given year:
/// a one- or two-digit day, a three-letter month, and a "HH:MM" wall-clock
/// time, as in "2 Jan 09:15". Anything else denotes no timestamp.
pub open spec fn parse_datetime_spec(year: int, s: Seq<u8>) -> Option<Timestamp> {
    if s.len() == 11 && is_digit(s[0]) {
        parse_tail_spec(year, s, 1, digit(s[0]))
    } else if s.len() == 12 && is_digit(s[0]) && is_digit(s[1]) {
        parse_tail_spec(year, s, 2, 10 * digit(s[0]) + digit(s[1]))
    } else {
        None
    }
}

/// The month number of a three-letter abbreviation, 0 if it is none.
fn month_from_bytes(b0: u8, b1: u8, b2: u8) -> (m: u8)
    ensures
        m as int == month_of_bytes(b0, b1, b2),
{
    if b0 == 'J' as u8 && b1 == 'a' as u8 && b2 == 'n' as u8 {
        1
    } else if b0 == 'F' as u8 && b1 == 'e' as u8 && b2 == 'b' as u8 {
        2
    } else if b0 == 'M' as u8 && b1 == 'a' as u8 && b2 == 'r' as u8 {
        3
    } else if b0 == 'A' as u8 && b1 == 'p' as u8 && b2 == 'r' as u8 {
        4
    } else if b0 == 'M' as u8 && b1 == 'a' as u8 && b2 == 'y' as u8 {
        5
    } else if b0 == 'J' as u8 && b1 == 'u' as u8 && b2 == 'n' as u8 {
        6
    } else if b0 == 'J' as u8 && b1 == 'u' as u8 && b2 == 'l' as u8 {
        7
    } else if b0 == 'A' as u8 && b1 == 'u' as u8 && b2 == 'g' as u8 {
        8
    } else if b0 == 'S' as u8 && b1 == 'e' as u8 && b2 == 'p' as u8 {
        9
    } else if b0 == 'O' as u8 && b1 == 'c' as u8 && b2 == 't' as u8 {
        10
    } else if b0 == 'N' as u8 && b1 == 'o' as u8 && b2 == 'v' as u8 {
        11
    } else if b0 == 'D' as u8 && b1 == 'e' as u8 && b2 == 'c' as u8 {
        12
    } else {
        0
    }
}

/// Parses the " Mon HH:MM" tail of a timestamp field.
fn parse_tail(year: i32, s: &Vec<u8>, o: usize, day: u8) -> (r: Option<Timestamp>)
    requires
        1 <= year <= 9999,
        o + 10 == s@.len(),
    ensures
        r == parse_tail_spec(year as int, s@, o as int, day as int),
{
    let n = s.len();
    if !(s[o] == ' ' as u8) {
        return None;
    }
    let m = month_from_bytes(s[o + 1], s[o + 2], s[o + 3]);
    if m == 0 {
        return None;
    }
    if !(s[o + 4] == ' ' as u8) {
        return None;
    }
    let h1 = s[o + 5];
    let h2 = s[o + 6];
    if !('0' as u8 <= h1 && h1 <= '9' as u8 && '0' as u8 <= h2 && h2 <= '9' as u8) {
        return None;
    }
    if !(s[o + 7] == ':' as u8) {
        return None;
    }
    let m1 = s[o + 8];
    let m2 = s[o + 9];
    if !('0' as u8 <= m1 && m1 <= '9' as u8 && '0' as u8 <= m2 && m2 <= '9' as u8) {
        return None;
    }
    let hour = 10 * (h1 - '0' as u8) + (h2 - '0' as u8);
    let minute = 10 * (m1 - '0' as u8) + (m2 - '0' as u8);
    if hour <= 23 && minute <= 59 && 1 <= day && day <= month_length(year, m) {
        Some(Timestamp { date: Date { year, month: m, day }, hour, minute })
    } else {
        None
    }
}

/// Parses a "day month time" field, as in "2 Jan 09:15", against the given
/// reference year. Returns `None` when the field does not match that shape,
/// names an unknown month, or names a day, hour or minute that is out of
/// range for the month and year.
pub fn parse_datetime(year: i32, s: &Vec<u8>) -> (r: Option<Timestamp>)
    requires
        1 <= year <= 9999,
    ensures
        r == parse_datetime_spec(year as int, s@),
        r matches Some(t) ==> t.valid(),
{
    let n = s.len();
    if n == 11 {
        let d = s[0];
        if '0' as u8 <= d && d <= '9' as u8 {
            parse_tail(year, s, 1, d - '0' as u8)
        } else {
            None
        }
    } else if n == 12 {
        let d1 = s[0];
        let d2 = s[1];
        if '0' as u8 <= d1 && d1 <= '9' as u8 && '0' as u8 <= d2 && d2 <= '9' as u8 {
            parse_tail(year, s, 2, 10 * (d1 - '0' as u8) + (d2 - '0' as u8))
        } else {
            None
        }
    } else {
        None
    }
}

/// True when two byte vectors hold the same bytes.
fn vec_eq(a: &Vec<u8>, b: &Vec<u8>) -> (r: bool)
    ensures
        r == (a@ == b@),
{
    if a.len() != b.len() {
        return false;
    }
    let n = a.len();
    let mut i: usize = 0;
    while i < n
        invariant
            n == a@.len() == b@.len(),
            i <= n,
            forall|j: int| 0 <= j < i ==> a@[j] == b@[j],
        decreases n - i,
    {
        if a[i] != b[i] {
            return false;
        }
        i = i + 1;
    }
    proof {
        assert(a@ =~= b@);
    }
    true
}

/// The header label as a byte vector.
fn header_vec() -> (v: Vec<u8>)
    ensures
        v@ == header_label(),
{
    let mut v: Vec<u8> = Vec::new();
    v.push('A' as u8);
    v.push('c' as u8);
    v.push('t' as u8);
    v.push('i' as u8);
    v.push('v' as u8);
    v.push('i' as u8);
    v.push('t' as u8);
    v.push('y' as u8);
    v.push(' ' as u8);
    v.push('t' as u8);
    v.push('y' as u8);
    v.push('p' as u8);
    v.push('e' as u8);
    proof {
        assert(v@ =~= header_label());
    }
    v
}

/// What `parse_line` found a line to be.
enum ParsedLine {
    Stop,
    Header,
    Entry(ReportEntry),
}

impl View for ParsedLine {
    type V = LineKind;

    closed spec fn view(&self) -> LineKind {
        match self {
            ParsedLine::Stop => LineKind::Stop,
            ParsedLine::Header => LineKind::Header,
            ParsedLine::Entry(e) => LineKind::Entry(e@),
        }
    }
}

/// Splits one line into fields and classifies it.
fn parse_line(line: &Vec<u8>) -> (r: ParsedLine)
    ensures
        r@ == classify_line(line@),
{
    let mut fields: Vec<Vec<u8>> = Vec::new();
    let mut cur: Vec<u8> = Vec::new();
    let n = line.len();
    let mut i: usize = 0;
    proof {
        assert(line@.skip(0) =~= line@);
        assert(fields@.map_values(|f: Vec<u8>| f@) + split_fields_from(line@, cur@)
            =~= split_fields_from(line@, cur@));
    }
    while i < n
        invariant
            n == line@.len(),
            i <= n,
            split_fields(line@) == fields@.map_values(|f: Vec<u8>| f@) + split_fields_from(
                line@.skip(i as int),
                cur@,
            ),
        decreases n - i,
    {
        let b = line[i];
        proof {
            assert(line@.skip(i as int).drop_first() =~= line@.skip(i as int + 1));
            assert(line@.skip(i as int)[0] == line@[i as int]);
        }
        if b == ';' as u8 {
            let ghost old_fields = fields@.map_values(|f: Vec<u8>| f@);
            fields.push(cur);
            cur = Vec::new();
            proof {
                assert(fields@.map_values(|f: Vec<u8>| f@) =~= old_fields.push(
                    fields@[fields@.len() - 1]@,
                ));
                assert(old_fields + (seq![fields@[fields@.len() - 1]@] + split_fields_from(
                    line@.skip(i as int + 1),
                    seq![],
                )) =~= fields@.map_values(|f: Vec<u8>| f@) + split_fields_from(
                    line@.skip(i as int + 1),
                    seq![],
                ));
            }
        } else {
            cur.push(b);
        }
        i = i + 1;
    }
    proof {
        assert(line@.skip(n as int) =~= Seq::<u8>::empty());
    }
    let ghost old_fields = fields@.map_values(|f: Vec<u8>| f@);
    fields.push(cur);
    proof {
        assert(fields@.map_values(|f: Vec<u8>| f@) =~= old_fields.push(
            fields@[fields@.len() - 1]@,
        ));
        assert(split_fields(line@) =~= fields@.map_values(|f: Vec<u8>| f@));
    }
    if fields.len() != 5 {
        return ParsedLine::Stop;
    }
    let header = header_vec();
    if vec_eq(&fields[0], &header) {
        return ParsedLine::Header;
    }
    let f0 = fields.remove(0);
    let f1 = fields.remove(0);
    let f2 = fields.remove(0);
    let f3 = fields.remove(0);
    let f4 = fields.remove(0);
    ParsedLine::Entry(ReportEntry::new(f0, f1, f2, f3, f4))
}

/// Reads the raw records out of a report text. Lines are split on `;` into
/// exactly five fields; a header row whose first field is "Activity type" is
/// skipped; the first line with another field count ends the table, and the
/// rest of the text is dropped.
pub fn read_report(file_contents: &str) -> (entries: Vec<ReportEntry>)
    ensures
        views_of(entries@) == report_entries(file_contents.spec_bytes()),
{
    let bytes: &[u8] = file_contents.as_bytes();
    let ghost all = file_contents.spec_bytes();
    let mut entries: Vec<ReportEntry> = Vec::new();
    let mut cur: Vec<u8> = Vec::new();
    let n = bytes.len();
    let mut i: usize = 0;
    proof {
        assert(all.skip(0) =~= all);
        assert(views_of(entries@) + entries_from(all, cur@)
            =~= entries_from(all, cur@));
    }
    while i < n
        invariant
            all == file_contents.spec_bytes(),
            n == all.len(),
            bytes@ == all,
            i <= n,
            report_entries(all) == views_of(entries@) + entries_from(
                all.skip(i as int),
                cur@,
            ),
        decreases n - i,
    {
        let b = bytes[i];
        proof {
            assert(all.skip(i as int).drop_first() =~= all.skip(i as int + 1));
            assert(all.skip(i as int)[0] == all[i as int]);
        }
        if b == '\n' as u8 {
            // One line is complete: strip a trailing carriage return, classify.
            let ghost line0 = cur@;
            if cur.len() > 0 && cur[cur.len() - 1] == '\r' as u8 {
                cur.pop();
            }
            proof {
                assert(cur@ =~= strip_cr(line0));
            }
            match parse_line(&cur) {
                ParsedLine::Stop => {
                    proof {
                        assert(classify_line(strip_cr(line0)) is Stop);
                        assert(entries_from(all.skip(i as int), line0)
                            =~= Seq::<EntryView>::empty());
                        assert(views_of(entries@) + entries_from(
                            all.skip(i as int),
                            line0,
                        ) =~= views_of(entries@));
                    }
                    return entries;
                },
                ParsedLine::Header => {},
                ParsedLine::Entry(e) => {
                    let ghost old_entries = views_of(entries@);
                    entries.push(e);
                    proof {
                        assert(views_of(entries@) =~= old_entries.push(
                            entries@[entries@.len() - 1]@,
                        ));
                        assert(old_entries + (seq![entries@[entries@.len() - 1]@]
                            + entries_from(all.skip(i as int + 1), seq![]))
                            =~= views_of(entries@) + entries_from(
                            all.skip(i as int + 1),
                            seq![],
                        ));
                    }
                },
            }
            cur = Vec::new();
        } else {
            cur.push(b);
        }
        i = i + 1;
    }
    proof {
        assert(all.skip(n as int) =~= Seq::<u8>::empty());
    }
    match parse_line(&cur) {
        ParsedLine::Entry(e) => {
            let ghost old_entries = views_of(entries@);
            entries.push(e);
            proof {
                assert(views_of(entries@) =~= old_entries.push(
                    entries@[entries@.len() - 1]@,
                ));
            }
            entries
        },
        _ => {
            proof {
                assert(views_of(entries@) + entries_from(
                    Seq::<u8>::empty(),
                    cur@,
                ) =~= views_of(entries@));
            }
            entries
        },
    }
}

} // verus!
