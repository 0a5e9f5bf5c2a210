//! Calendar events drawn over the plots: their kinds, the dates they carry
//! (an ISO date, or a timestamp normalised to its UTC date), and the
//! validation of an events manifest.

use vstd::prelude::*;

use chrono::{Datelike, Timelike};

use crate::order::str_equal;
use crate::text::{chars_of, decimal, push_decimal, push_str, slice_chars, string_from_chars};

verus! {

/// What an event announces.
#[derive(Clone, Copy, Debug, PartialEq, Eq, Structural)]
pub enum EventKind {
    Announced,
    Available,
    Pilot,
    Default,
    Retired,
}

impl EventKind {
    /// The manifest spelling of the kind.
    pub open spec fn name(self) -> Seq<char> {
        match self {
            EventKind::Announced => "announced"@,
            EventKind::Available => "available"@,
            EventKind::Pilot => "pilot"@,
            EventKind::Default => "default"@,
            EventKind::Retired => "retired"@,
        }
    }

    /// Dash pattern of the kind's line: lengths of drawn and skipped runs,
    /// alternating; empty for a solid line.
    pub open spec fn dashes(self) -> Seq<i32> {
        match self {
            EventKind::Announced => seq![7, 5],
            EventKind::Available => Seq::empty(),
            EventKind::Pilot => seq![10, 4, 2, 4],
            EventKind::Default => seq![2, 4],
            EventKind::Retired => seq![10, 4, 2, 4, 2, 4],
        }
    }

    /// The kind spelled `value`; record `index` of the manifest is blamed
    /// otherwise.
    pub fn parse(value: &str, index: usize) -> (r: Result<EventKind, EventError>)
        ensures
            match r {
                Ok(k) => k.name() == value@,
                Err(e) => e == EventError::BadKind(index) && forall|k: EventKind| (#[trigger] k.name()) != value@,
            },
    {
        if str_equal(value, "announced") {
            Ok(EventKind::Announced)
        } else if str_equal(value, "available") {
            Ok(EventKind::Available)
        } else if str_equal(value, "pilot") {
            Ok(EventKind::Pilot)
        } else if str_equal(value, "default") {
            Ok(EventKind::Default)
        } else if str_equal(value, "retired") {
            Ok(EventKind::Retired)
        } else {
            assert forall|k: EventKind| (#[trigger] k.name()) != value@ by {
                match k {
                    EventKind::Announced => {},
                    EventKind::Available => {},
                    EventKind::Pilot => {},
                    EventKind::Default => {},
                    EventKind::Retired => {},
                }
            }
            Err(EventError::BadKind(index))
        }
    }

    /// The manifest spelling of the kind.
    pub fn as_str(self) -> (s: &'static str)
        ensures
            s@ == self.name(),
    {
        match self {
            EventKind::Announced => "announced",
            EventKind::Available => "available",
            EventKind::Pilot => "pilot",
            EventKind::Default => "default",
            EventKind::Retired => "retired",
        }
    }

    /// The dash pattern of the kind's line.
    pub fn pattern(self) -> (p: Vec<i32>)
        ensures
            p@ == self.dashes(),
    {
        match self {
            EventKind::Announced => vec![7, 5],
            EventKind::Available => Vec::new(),
            EventKind::Pilot => vec![10, 4, 2, 4],
            EventKind::Default => vec![2, 4],
            EventKind::Retired => vec![10, 4, 2, 4, 2, 4],
        }
    }
}

/// Distinct kinds are spelled differently, so `parse` gives back the kind
/// that `as_str` spelled.
pub proof fn lemma_kind_names_distinct(a: EventKind, b: EventKind)
    ensures
        a.name() == b.name() ==> a == b,
{
    reveal_strlit("announced");
    reveal_strlit("available");
    reveal_strlit("pilot");
    reveal_strlit("default");
    reveal_strlit("retired");
    if a != b {
        match a {
            EventKind::Announced => assert(a.name()[1] != b.name()[1] || a.name().len() != b.name().len()),
            EventKind::Available => assert(a.name()[1] != b.name()[1] || a.name().len() != b.name().len()),
            EventKind::Pilot => assert(a.name()[0] != b.name()[0]),
            EventKind::Default => assert(a.name()[0] != b.name()[0]),
            EventKind::Retired => assert(a.name()[0] != b.name()[0]),
        }
    }
}

/// Each kind has its own dash pattern.
pub proof fn lemma_kind_patterns_distinct(a: EventKind, b: EventKind)
    ensures
        a.dashes() == b.dashes() ==> a == b,
{
    if a != b {
        match a {
            EventKind::Announced => assert(a.dashes().len() != b.dashes().len() || a.dashes()[0] != b.dashes()[0]),
            EventKind::Available => assert(a.dashes().len() != b.dashes().len()),
            EventKind::Pilot => assert(a.dashes().len() != b.dashes().len()),
            EventKind::Default => assert(a.dashes().len() != b.dashes().len() || a.dashes()[0] != b.dashes()[0]),
            EventKind::Retired => assert(a.dashes().len() != b.dashes().len()),
        }
    }
}

/// A required field of an event record.
#[derive(Clone, Copy, Debug, PartialEq, Eq, Structural)]
pub enum Field {
    Date,
    Provider,
    Model,
    Event,
    Scope,
    Label,
    Source,
}

impl Field {
    /// The key of the field in a record.
    pub open spec fn key(self) -> Seq<char> {
        match self {
            Field::Date => "date"@,
            Field::Provider => "provider"@,
            Field::Model => "model"@,
            Field::Event => "event"@,
            Field::Scope => "scope"@,
            Field::Label => "label"@,
            Field::Source => "source"@,
        }
    }

    /// The key of the field in a record.
    pub fn as_str(self) -> (s: &'static str)
        ensures
            s@ == self.key(),
    {
        match self {
            Field::Date => "date",
            Field::Provider => "provider",
            Field::Model => "model",
            Field::Event => "event",
            Field::Scope => "scope",
            Field::Label => "label",
            Field::Source => "source",
        }
    }
}

/// Why a manifest or one of its records was rejected.
#[derive(Clone, Copy, Debug, PartialEq, Eq, Structural)]
pub enum EventError {
    /// The document is not a mapping.
    NotMapping,
    /// `schema_version` is present and not the integer 1.
    BadSchemaVersion,
    /// There is no `events` sequence.
    NoEventList,
    /// Record `i` is not a mapping.
    RecordNotMapping(usize),
    /// Record `i` lacks the field.
    MissingField(usize, Field),
    /// The field of record `i` is not a non-blank string.
    EmptyField(usize, Field),
    /// `notes` of record `i` is neither absent, null nor a string.
    BadNotes(usize),
    /// `event` of record `i` is not a known kind.
    BadKind(usize),
    /// `date` of record `i` is not an ISO date or timestamp.
    BadDate(usize),
}

/// `events[i]`, the way errors name a record.
pub open spec fn record_name(i: usize) -> Seq<char> {
    "events["@ + decimal(i as nat) + "]"@
}

impl EventError {
    /// The description of the error.
    pub open spec fn text(self) -> Seq<char> {
        match self {
            EventError::NotMapping => "events manifest must contain a YAML mapping"@,
            EventError::BadSchemaVersion => "events manifest schema_version must be 1"@,
            EventError::NoEventList => "events manifest must contain an events list"@,
            EventError::RecordNotMapping(i) => record_name(i) + " must be a YAML mapping"@,
            EventError::MissingField(i, f) => record_name(i) + " is missing required field: "@ + f.key(),
            EventError::EmptyField(i, f) => record_name(i) + "."@ + f.key() + " must be a non-empty string"@,
            EventError::BadNotes(i) => record_name(i) + ".notes must be a string when provided"@,
            EventError::BadKind(i) => record_name(i)
                + ".event must be one of: announced, available, default, pilot, retired"@,
            EventError::BadDate(i) => record_name(i) + ".date must be an ISO date or timestamp"@,
        }
    }

    /// Human-readable description.
    pub fn message(&self) -> (m: String)
        ensures
            m@ == self.text(),
    {
        let mut out: Vec<char> = Vec::new();
        match *self {
            EventError::NotMapping => push_str(&mut out, "events manifest must contain a YAML mapping"),
            EventError::BadSchemaVersion => push_str(&mut out, "events manifest schema_version must be 1"),
            EventError::NoEventList => push_str(&mut out, "events manifest must contain an events list"),
            EventError::RecordNotMapping(i) => {
                push_record_name(&mut out, i);
                push_str(&mut out, " must be a YAML mapping");
            },
            EventError::MissingField(i, f) => {
                push_record_name(&mut out, i);
                push_str(&mut out, " is missing required field: ");
                push_str(&mut out, f.as_str());
            },
            EventError::EmptyField(i, f) => {
                push_record_name(&mut out, i);
                push_str(&mut out, ".");
                push_str(&mut out, f.as_str());
                push_str(&mut out, " must be a non-empty string");
            },
            EventError::BadNotes(i) => {
                push_record_name(&mut out, i);
                push_str(&mut out, ".notes must be a string when provided");
            },
            EventError::BadKind(i) => {
                push_record_name(&mut out, i);
                push_str(&mut out, ".event must be one of: announced, available, default, pilot, retired");
            },
            EventError::BadDate(i) => {
                push_record_name(&mut out, i);
                push_str(&mut out, ".date must be an ISO date or timestamp");
            },
        }
        proof {
            match *self {
                EventError::NotMapping => assert(out@ =~= self.text()),
                EventError::BadSchemaVersion => assert(out@ =~= self.text()),
                EventError::NoEventList => assert(out@ =~= self.text()),
                _ => {},
            }
        }
        string_from_chars(out.as_slice())
    }
}

fn push_record_name(out: &mut Vec<char>, i: usize)
    ensures
        final(out)@ == old(out)@ + record_name(i),
{
    push_str(out, "events[");
    push_decimal(out, i as u64);
    push_str(out, "]");
    assert(out@ =~= old(out)@ + record_name(i));
}

/// A calendar date of the proleptic Gregorian calendar.
#[derive(Clone, Copy, Debug, PartialEq, Eq, Structural)]
pub struct Date {
    pub year: i32,
    pub month: u32,
    pub day: u32,
}

pub open spec fn is_leap(y: int) -> bool {
    y % 4 == 0 && (y % 100 != 0 || y % 400 == 0)
}

pub open spec fn days_in_month(y: int, m: int) -> int {
    if m == 2 {
        if is_leap(y) {
            29
        } else {
            28
        }
    } else if m == 4 || m == 6 || m == 9 || m == 11 {
        30
    } else {
        31
    }
}

/// The date exists in the calendar.
pub open spec fn valid_date(d: Date) -> bool {
    1 <= d.month <= 12 && 1 <= d.day <= days_in_month(d.year as int, d.month as int)
}

/// The day after `d`.
pub open spec fn following_day(d: Date) -> Date {
    if d.day < days_in_month(d.year as int, d.month as int) {
        Date { day: (d.day + 1) as u32, ..d }
    } else if d.month < 12 {
        Date { year: d.year, month: (d.month + 1) as u32, day: 1 }
    } else {
        Date { year: (d.year + 1) as i32, month: 1, day: 1 }
    }
}

pub open spec fn is_digit(c: char) -> bool {
    '0' <= c && c <= '9'
}

pub open spec fn all_digits(s: Seq<char>) -> bool {
    forall|i: int| 0 <= i < s.len() ==> is_digit(#[trigger] s[i])
}

/// The number written by the decimal digits `s`.
pub open spec fn digits_value(s: Seq<char>) -> int
    decreases s.len(),
{
    if s.len() == 0 {
        0
    } else {
        digits_value(s.drop_last()) * 10 + (s.last() as int - '0' as int)
    }
}

/// Two decimal digits of `n % 100`.
pub open spec fn two_digits(n: int) -> Seq<char> {
    seq![('0' as int + (n / 10) % 10) as char, ('0' as int + n % 10) as char]
}

/// `d` in ISO 8601 form, for years 0 to 10000: `YYYY-MM-DD`, with the year
/// signed (`+10000`) beyond four digits.
pub open spec fn iso_date_text(d: Date) -> Seq<char> {
    let y = d.year as int;
    let year = if y <= 9999 {
        two_digits(y / 100) + two_digits(y % 100)
    } else {
        seq!['+', '1', '0', '0', '0', '0']
    };
    year + seq!['-'] + two_digits(d.month as int) + seq!['-'] + two_digits(d.day as int)
}

/// Character `c` may stand at position `i` of `DDDD-DD-DD`.
pub open spec fn date_char_ok(c: char, i: int) -> bool {
    if i == 4 || i == 7 {
        c == '-'
    } else {
        is_digit(c)
    }
}

/// The first ten characters read `DDDD-DD-DD` with decimal digits.
pub open spec fn date_shape(p: Seq<char>) -> bool {
    p.len() >= 10 && forall|i: int| 0 <= i < 10 ==> #[trigger] date_char_ok(p[i], i)
}

/// The date written by the first ten characters `YYYY-MM-DD`.
pub open spec fn prefix_date(p: Seq<char>) -> Date {
    Date {
        year: digits_value(p.subrange(0, 4)) as i32,
        month: digits_value(p.subrange(5, 7)) as u32,
        day: digits_value(p.subrange(8, 10)) as u32,
    }
}

/// `chrono::NaiveDate::parse_from_str(prefix, "%Y-%m-%d")` on a text shaped
/// `DDDD-DD-DD`.  Claimed: the date it writes when that date exists, and
/// `None` otherwise.
#[verifier::external_body]
fn parse_ymd(prefix: &str) -> (r: Option<Date>)
    requires
        prefix@.len() == 10,
        date_shape(prefix@),
    ensures
        r == if valid_date(prefix_date(prefix@)) {
            Some(prefix_date(prefix@))
        } else {
            None
        },
{
    chrono::NaiveDate::parse_from_str(prefix, "%Y-%m-%d").ok().map(
        |d| Date { year: d.year(), month: d.month(), day: d.day() },
    )
}

/// `chrono::NaiveDate::succ_opt`.  Claimed: the following day, which exists
/// for every year up to 9999.
#[verifier::external_body]
fn next_day(d: Date) -> (r: Date)
    requires
        valid_date(d),
        0 <= d.year <= 9999,
    ensures
        r == following_day(d),
{
    let n = chrono::NaiveDate::from_ymd_opt(d.year, d.month, d.day).unwrap().succ_opt().unwrap();
    Date { year: n.year(), month: n.month(), day: n.day() }
}

/// `Display` of `chrono::NaiveDate`.  Claimed: `iso_date_text(d)`, as its
/// source writes years 0 to 9999 with four digits and others with a sign.
#[verifier::external_body]
pub(crate) fn date_text(d: Date) -> (r: String)
    requires
        valid_date(d),
        0 <= d.year <= 10000,
    ensures
        r@ == iso_date_text(d),
{
    chrono::NaiveDate::from_ymd_opt(d.year, d.month, d.day).unwrap().to_string()
}

/// `(year, month, day, nanosecond)` of the UTC time that
/// `chrono::NaiveDateTime::parse_from_str(text, "%Y-%m-%dT%H:%M:%S%.f")`
/// reads from `text`, taken as UTC.
pub uninterp spec fn naive_utc_parse(text: Seq<char>) -> Option<(i32, u32, u32, u32)>;

/// `(year, month, day, nanosecond)` in UTC of the time that
/// `chrono::DateTime::parse_from_str(text, "%Y-%m-%dT%H:%M:%S%.f%#z")` reads.
pub uninterp spec fn zoned_utc_parse(text: Seq<char>) -> Option<(i32, u32, u32, u32)>;

/// `chrono::NaiveDateTime::parse_from_str(text, "%Y-%m-%dT%H:%M:%S%.f")`,
/// read as UTC.  Claimed: the result is `naive_utc_parse(text)`, and a date
/// chrono holds exists in the calendar.
#[verifier::external_body]
fn parse_naive_utc(text: &str) -> (r: Option<(i32, u32, u32, u32)>)
    ensures
        r == naive_utc_parse(text@),
        r matches Some(t) ==> valid_date(Date { year: t.0, month: t.1, day: t.2 }),
{
    let t = chrono::NaiveDateTime::parse_from_str(text, "%Y-%m-%dT%H:%M:%S%.f").ok()?.and_utc();
    Some((t.year(), t.month(), t.day(), t.nanosecond()))
}

/// `chrono::DateTime::parse_from_str(text, "%Y-%m-%dT%H:%M:%S%.f%#z")`,
/// converted to UTC.  Claimed: the result is `zoned_utc_parse(text)`, and a
/// date chrono holds exists in the calendar.
#[verifier::external_body]
fn parse_zoned_utc(text: &str) -> (r: Option<(i32, u32, u32, u32)>)
    ensures
        r == zoned_utc_parse(text@),
        r matches Some(t) ==> valid_date(Date { year: t.0, month: t.1, day: t.2 }),
{
    let t = chrono::DateTime::parse_from_str(text, "%Y-%m-%dT%H:%M:%S%.f%#z").ok()?.with_timezone(&chrono::Utc);
    Some((t.year(), t.month(), t.day(), t.nanosecond()))
}

/// `c` starts the zone of a timestamp (`zone`) or its fraction of a second.
pub open spec fn is_mark(c: char, zone: bool) -> bool {
    if zone {
        c == 'Z' || c == 'z' || c == '+' || c == '-'
    } else {
        c == '.' || c == ','
    }
}

/// Position of the first mark of the kind in `s`; `s.len()` when none.
pub open spec fn first_mark(s: Seq<char>, zone: bool) -> int
    decreases s.len(),
{
    if s.len() == 0 {
        0
    } else {
        let k = first_mark(s.drop_last(), zone);
        if k < s.len() - 1 {
            k
        } else if is_mark(s.last(), zone) {
            s.len() - 1
        } else {
            s.len() as int
        }
    }
}

proof fn lemma_first_mark(s: Seq<char>, zone: bool, r: int)
    requires
        0 <= r <= s.len(),
        forall|j: int| 0 <= j < r ==> !is_mark(#[trigger] s[j], zone),
        r < s.len() ==> is_mark(s[r], zone),
    ensures
        first_mark(s, zone) == r,
    decreases s.len(),
{
    if s.len() > 0 {
        let d = s.drop_last();
        if r < s.len() {
            if r < d.len() {
                lemma_first_mark(d, zone, r);
            } else {
                assert forall|j: int| 0 <= j < d.len() implies !is_mark(#[trigger] d[j], zone) by {
                    assert(d[j] == s[j]);
                }
                lemma_first_mark(d, zone, d.len() as int);
            }
        } else {
            assert forall|j: int| 0 <= j < d.len() implies !is_mark(#[trigger] d[j], zone) by {
                assert(d[j] == s[j]);
            }
            lemma_first_mark(d, zone, d.len() as int);
        }
    }
}

/// Position of the first mark of the kind in `s`, `s.len()` when none.
fn find_mark(s: &Vec<char>, zone: bool) -> (r: usize)
    ensures
        r == first_mark(s@, zone),
{
    let mut i: usize = 0;
    while i < s.len()
        invariant
            i <= s@.len(),
            forall|j: int| 0 <= j < i ==> !is_mark(#[trigger] s@[j], zone),
        decreases s@.len() - i,
    {
        let c = s[i];
        let hit = if zone {
            c == 'Z' || c == 'z' || c == '+' || c == '-'
        } else {
            c == '.' || c == ','
        };
        if hit {
            proof {
                lemma_first_mark(s@, zone, i as int);
            }
            return i;
        }
        i += 1;
    }
    proof {
        lemma_first_mark(s@, zone, i as int);
    }
    i
}

/// The time of day `HH:MM:SS` written by the whole-seconds part `w` of a
/// timestamp: `HH`, `HHMM`, `HH:MM`, `HHMMSS` or `HH:MM:SS`.
pub open spec fn expand_time(w: Seq<char>) -> Option<Seq<char>> {
    if w.len() == 2 {
        Some(w + seq![':', '0', '0', ':', '0', '0'])
    } else if w.len() == 4 && all_digits(w) {
        Some(w.subrange(0, 2) + seq![':'] + w.subrange(2, 4) + seq![':', '0', '0'])
    } else if w.len() == 5 && w[2] == ':' {
        Some(w + seq![':', '0', '0'])
    } else if w.len() == 6 && all_digits(w) {
        Some(w.subrange(0, 2) + seq![':'] + w.subrange(2, 4) + seq![':'] + w.subrange(4, 6))
    } else if w.len() == 8 && w[2] == ':' && w[5] == ':' {
        Some(w)
    } else {
        None
    }
}

/// Digits everywhere but at positions 2 and 5, which hold `:`.
pub open spec fn time_shape(t: Seq<char>) -> bool {
    forall|i: int|
        0 <= i < t.len() ==> if i == 2 || i == 5 {
            t[i] == ':'
        } else {
            is_digit(#[trigger] t[i])
        }
}

/// A fraction of a second is a `.` or `,` and at least one digit, and only
/// follows seconds.
pub open spec fn fraction_ok(whole: Seq<char>, fraction: Seq<char>) -> bool {
    fraction.len() == 0 || ((whole.len() == 6 || whole.len() == 8) && fraction.len() > 1 && all_digits(fraction.skip(1)))
}

/// `t` followed by the fraction, as `.` and at most nine digits.
pub open spec fn with_fraction(t: Seq<char>, fraction: Seq<char>) -> Seq<char> {
    if fraction.len() == 0 {
        t
    } else {
        t + seq!['.'] + fraction.subrange(1, if fraction.len() < 10 { fraction.len() as int } else { 10 })
    }
}

/// The time reads `24:...`.
pub open spec fn at_hour_24(t: Seq<char>) -> bool {
    t.len() >= 3 && t[0] == '2' && t[1] == '4' && t[2] == ':'
}

/// After `24:` there are only zeros and separators.
pub open spec fn zero_after_hour(t: Seq<char>) -> bool {
    forall|i: int| 3 <= i < t.len() ==> (#[trigger] t[i] == '0' || t[i] == ':' || t[i] == '.')
}

/// The UTC date of the time that a parsed `(year, month, day, nanosecond)`
/// gives, when the year is in 1..=9999 and the time is no leap second.
pub open spec fn utc_date(parsed: Option<(i32, u32, u32, u32)>) -> Option<Date> {
    match parsed {
        Some((y, m, d, ns)) => if 1 <= y <= 9999 && ns < 1_000_000_000 {
            Some(Date { year: y, month: m, day: d })
        } else {
            None
        },
        None => None,
    }
}

/// The date a manifest gives as `value`: an ISO date `YYYY-MM-DD` (year 1 to
/// 9999), or such a date followed by `T`, `t` or a space and a time (hours,
/// optionally minutes and seconds, with or without `:`; an optional fraction
/// of a second after seconds; hour 24 only as the end of the day) and an
/// optional zone, in which case the UTC date of that time.
pub open spec fn event_date(value: Seq<char>) -> Option<Date> {
    if !date_shape(value) {
        None
    } else {
        let d0 = prefix_date(value);
        if !valid_date(d0) || !(1 <= d0.year <= 9999) {
            None
        } else if value.len() == 10 {
            Some(d0)
        } else if !(value[10] == 'T' || value[10] == 't' || value[10] == ' ') {
            None
        } else {
            let rest = value.skip(11);
            let zs = first_mark(rest, true);
            let time_part = rest.take(zs);
            let zone = rest.skip(zs);
            let fs = first_mark(time_part, false);
            let whole = time_part.take(fs);
            let fraction = time_part.skip(fs);
            match expand_time(whole) {
                None => None,
                Some(t) => if !time_shape(t) || !fraction_ok(whole, fraction) {
                    None
                } else {
                    let t1 = with_fraction(t, fraction);
                    if at_hour_24(t1) && !zero_after_hour(t1) {
                        None
                    } else {
                        let d1 = if at_hour_24(t1) { following_day(d0) } else { d0 };
                        let t2 = if at_hour_24(t1) { seq!['0', '0'] + t1.skip(2) } else { t1 };
                        let text = iso_date_text(d1) + seq!['T'] + t2 + zone;
                        utc_date(if zone.len() == 0 { naive_utc_parse(text) } else { zoned_utc_parse(text) })
                    }
                },
            }
        }
    }
}

fn digit_at(s: &Vec<char>, i: usize) -> (r: bool)
    requires
        i < s@.len(),
    ensures
        r == is_digit(s@[i as int]),
{
    '0' <= s[i] && s[i] <= '9'
}

/// Whether `s[from..]` are all decimal digits.
fn digits_from(s: &Vec<char>, from: usize) -> (r: bool)
    requires
        from <= s@.len(),
    ensures
        r == all_digits(s@.skip(from as int)),
{
    let mut i = from;
    while i < s.len()
        invariant
            from <= i <= s@.len(),
            forall|j: int| from <= j < i ==> is_digit(#[trigger] s@[j]),
        decreases s@.len() - i,
    {
        if !digit_at(s, i) {
            assert(!is_digit(s@.skip(from as int)[i - from]));
            return false;
        }
        i += 1;
    }
    assert forall|j: int| 0 <= j < s@.skip(from as int).len() implies is_digit(#[trigger] s@.skip(from as int)[j]) by {
        assert(s@.skip(from as int)[j] == s@[j + from]);
    }
    true
}

/// Appends `s` to `out`.
fn append_chars(out: &mut Vec<char>, s: &Vec<char>)
    ensures
        final(out)@ == old(out)@ + s@,
{
    let mut i: usize = 0;
    while i < s.len()
        invariant
            i <= s@.len(),
            out@ == old(out)@ + s@.take(i as int),
        decreases s@.len() - i,
    {
        out.push(s[i]);
        assert(old(out)@ + s@.take(i + 1) =~= (old(out)@ + s@.take(i as int)).push(s@[i as int]));
        i += 1;
    }
    assert(s@.take(s@.len() as int) =~= s@);
}

/// The `HH:MM:SS` form of the whole-seconds part of a timestamp.
fn expand_whole(w: &Vec<char>) -> (r: Option<Vec<char>>)
    ensures
        match r {
            Some(t) => expand_time(w@) == Some(t@),
            None => expand_time(w@) is None,
        },
{
    let n = w.len();
    if n == 2 {
        let mut t = slice_chars(w, 0, 2);
        t.push(':');
        t.push('0');
        t.push('0');
        t.push(':');
        t.push('0');
        t.push('0');
        assert(t@ =~= w@ + seq![':', '0', '0', ':', '0', '0']);
        Some(t)
    } else if n == 4 && digits_from(w, 0) {
        assert(w@.skip(0) =~= w@);
        let mut t = slice_chars(w, 0, 2);
        t.push(':');
        t.push(w[2]);
        t.push(w[3]);
        t.push(':');
        t.push('0');
        t.push('0');
        assert(t@ =~= w@.subrange(0, 2) + seq![':'] + w@.subrange(2, 4) + seq![':', '0', '0']);
        Some(t)
    } else if n == 5 && w[2] == ':' {
        assert(n == 4 ==> !all_digits(w@)) by {
            assert(w@.skip(0) =~= w@);
        }
        let mut t = slice_chars(w, 0, 5);
        t.push(':');
        t.push('0');
        t.push('0');
        assert(t@ =~= w@ + seq![':', '0', '0']);
        Some(t)
    } else if n == 6 && digits_from(w, 0) {
        assert(w@.skip(0) =~= w@);
        let mut t = slice_chars(w, 0, 2);
        t.push(':');
        t.push(w[2]);
        t.push(w[3]);
        t.push(':');
        t.push(w[4]);
        t.push(w[5]);
        assert(t@ =~= w@.subrange(0, 2) + seq![':'] + w@.subrange(2, 4) + seq![':'] + w@.subrange(4, 6));
        Some(t)
    } else if n == 8 && w[2] == ':' && w[5] == ':' {
        assert(n == 4 || n == 6 ==> !all_digits(w@)) by {
            assert(w@.skip(0) =~= w@);
        }
        Some(slice_chars(w, 0, 8))
    } else {
        assert(!all_digits(w@) || (n != 4 && n != 6)) by {
            assert(w@.skip(0) =~= w@);
        }
        None
    }
}

/// Whether `t` has digits everywhere but `:` at positions 2 and 5.
fn check_time_shape(t: &Vec<char>) -> (r: bool)
    ensures
        r == time_shape(t@),
{
    let mut i: usize = 0;
    while i < t.len()
        invariant
            i <= t@.len(),
            forall|j: int|
                0 <= j < i ==> if j == 2 || j == 5 {
                    t@[j] == ':'
                } else {
                    is_digit(#[trigger] t@[j])
                },
        decreases t@.len() - i,
    {
        let ok = if i == 2 || i == 5 {
            t[i] == ':'
        } else {
            digit_at(t, i)
        };
        if !ok {
            return false;
        }
        i += 1;
    }
    true
}

/// Whether `t` holds only zeros and separators after its first three
/// characters.
fn check_zero_after_hour(t: &Vec<char>) -> (r: bool)
    ensures
        r == zero_after_hour(t@),
{
    let mut i: usize = 3;
    while i < t.len()
        invariant
            3 <= i,
            forall|j: int| 3 <= j < i && j < t@.len() ==> (#[trigger] t@[j] == '0' || t@[j] == ':' || t@[j] == '.'),
        decreases t@.len() - i,
    {
        let c = t[i];
        if !(c == '0' || c == ':' || c == '.') {
            return false;
        }
        i += 1;
    }
    true
}

/// The date a manifest record gives (see `event_date`); record `index` is
/// blamed when there is none.
pub fn parse_date(value: &str, index: usize) -> (r: Result<Date, EventError>)
    ensures
        match r {
            Ok(d) => event_date(value@) == Some(d) && valid_date(d) && 1 <= d.year <= 9999,
            Err(e) => event_date(value@) is None && e == EventError::BadDate(index),
        },
{
    let v = chars_of(value);
    if v.len() < 10 {
        return Err(EventError::BadDate(index));
    }
    let mut i: usize = 0;
    while i < 10
        invariant
            i <= 10 <= v@.len(),
            v@ == value@,
            forall|j: int| 0 <= j < i ==> #[trigger] date_char_ok(v@[j], j),
        decreases 10 - i,
    {
        let ok = if i == 4 || i == 7 {
            v[i] == '-'
        } else {
            digit_at(&v, i)
        };
        if !ok {
            assert(!date_char_ok(v@[i as int], i as int));
            return Err(EventError::BadDate(index));
        }
        i += 1;
    }
    assert(date_shape(v@));
    let prefix = string_from_chars(slice_chars(&v, 0, 10).as_slice());
    assert(prefix@ =~= v@.subrange(0, 10));
    assert(prefix_date(prefix@) == prefix_date(v@)) by {
        assert(prefix@.subrange(0, 4) =~= v@.subrange(0, 4));
        assert(prefix@.subrange(5, 7) =~= v@.subrange(5, 7));
        assert(prefix@.subrange(8, 10) =~= v@.subrange(8, 10));
    }
    let d0 = match parse_ymd(prefix.as_str()) {
        Some(d) => d,
        None => {
            return Err(EventError::BadDate(index));
        },
    };
    if !(1 <= d0.year && d0.year <= 9999) {
        return Err(EventError::BadDate(index));
    }
    if v.len() == 10 {
        return Ok(d0);
    }
    let sep = v[10];
    if !(sep == 'T' || sep == 't' || sep == ' ') {
        return Err(EventError::BadDate(index));
    }
    let rest = slice_chars(&v, 11, v.len());
    let zs = find_mark(&rest, true);
    proof {
        lemma_first_mark_bound(rest@, true);
    }
    let time_part = slice_chars(&rest, 0, zs);
    let zone = slice_chars(&rest, zs, rest.len());
    let fs = find_mark(&time_part, false);
    proof {
        lemma_first_mark_bound(time_part@, false);
    }
    let whole = slice_chars(&time_part, 0, fs);
    let fraction = slice_chars(&time_part, fs, time_part.len());
    proof {
        assert(rest@ =~= v@.skip(11));
        assert(time_part@ =~= rest@.take(zs as int));
        assert(zone@ =~= rest@.skip(zs as int));
        assert(whole@ =~= time_part@.take(fs as int));
        assert(fraction@ =~= time_part@.skip(fs as int));
    }
    let mut t = match expand_whole(&whole) {
        Some(t) => t,
        None => {
            return Err(EventError::BadDate(index));
        },
    };
    if !check_time_shape(&t) {
        return Err(EventError::BadDate(index));
    }
    let ghost t0 = t@;
    if fraction.len() > 0 {
        let fits = (whole.len() == 6 || whole.len() == 8) && fraction.len() > 1 && digits_from(&fraction, 1);
        if !fits {
            return Err(EventError::BadDate(index));
        }
        t.push('.');
        let end = if fraction.len() < 10 { fraction.len() } else { 10 };
        let digits = slice_chars(&fraction, 1, end);
        append_chars(&mut t, &digits);
    }
    assert(t@ =~= with_fraction(t0, fraction@));
    let hour_24 = t.len() >= 3 && t[0] == '2' && t[1] == '4' && t[2] == ':';
    let mut d1 = d0;
    if hour_24 {
        if !check_zero_after_hour(&t) {
            assert(at_hour_24(with_fraction(t0, fraction@)) && !zero_after_hour(with_fraction(t0, fraction@)));
            return Err(EventError::BadDate(index));
        }
        d1 = next_day(d0);
        t.set(0, '0');
        t.set(1, '0');
        assert(t@ =~= seq!['0', '0'] + with_fraction(t0, fraction@).skip(2));
    }
    let ghost t1 = with_fraction(t0, fraction@);
    assert(hour_24 == at_hour_24(t1));
    assert(d1 == if at_hour_24(t1) { following_day(d0) } else { d0 });
    assert(t@ == if at_hour_24(t1) { seq!['0', '0'] + t1.skip(2) } else { t1 });
    let mut text = chars_of(date_text(d1).as_str());
    text.push('T');
    append_chars(&mut text, &t);
    append_chars(&mut text, &zone);
    let normalized = string_from_chars(text.as_slice());
    assert(normalized@ =~= iso_date_text(d1) + seq!['T'] + t@ + zone@);
    assert(expand_time(whole@) == Some(t0));
    assert(time_shape(t0));
    assert(fraction_ok(whole@, fraction@));
    let parsed = if zone.len() == 0 {
        parse_naive_utc(normalized.as_str())
    } else {
        parse_zoned_utc(normalized.as_str())
    };
    match parsed {
        Some((y, m, d, ns)) => {
            if 1 <= y && y <= 9999 && ns < 1_000_000_000 {
                Ok(Date { year: y, month: m, day: d })
            } else {
                Err(EventError::BadDate(index))
            }
        },
        None => Err(EventError::BadDate(index)),
    }
}

proof fn lemma_first_mark_bound(s: Seq<char>, zone: bool)
    ensures
        0 <= first_mark(s, zone) <= s.len(),
    decreases s.len(),
{
    if s.len() > 0 {
        lemma_first_mark_bound(s.drop_last(), zone);
    }
}

/// A YAML value, as far as an events manifest is read.
#[derive(Debug)]
pub enum Yaml {
    Null,
    Bool(bool),
    /// A number: its value when it is an integer that fits in `u64`.
    Number(Option<u64>),
    Str(String),
    List(Vec<Yaml>),
    Mapping(Vec<(Yaml, Yaml)>),
    /// A value with a tag.
    Tagged(Box<Yaml>),
}

/// `c` has the Unicode `White_Space` property.
pub open spec fn white_space(c: char) -> bool {
    ('\u{9}' <= c && c <= '\u{d}') || c == ' ' || c == '\u{85}' || c == '\u{a0}' || c == '\u{1680}' || ('\u{2000}' <= c
        && c <= '\u{200a}') || c == '\u{2028}' || c == '\u{2029}' || c == '\u{202f}' || c == '\u{205f}' || c == '\u{3000}'
}

/// Whether `c` has the Unicode `White_Space` property (what
/// `char::is_whitespace` tests).
pub(crate) fn char_is_whitespace(c: char) -> (r: bool)
    ensures
        r == white_space(c),
{
    ('\u{9}' <= c && c <= '\u{d}') || c == ' ' || c == '\u{85}' || c == '\u{a0}' || c == '\u{1680}' || ('\u{2000}' <= c
        && c <= '\u{200a}') || c == '\u{2028}' || c == '\u{2029}' || c == '\u{202f}' || c == '\u{205f}' || c == '\u{3000}'
}

/// Nothing but white space (what trims to the empty string).
pub open spec fn blank(s: Seq<char>) -> bool {
    forall|i: int| 0 <= i < s.len() ==> white_space(#[trigger] s[i])
}

fn is_blank(s: &str) -> (r: bool)
    ensures
        r == blank(s@),
{
    let cs = chars_of(s);
    let mut i: usize = 0;
    while i < cs.len()
        invariant
            i <= cs@.len(),
            cs@ == s@,
            forall|j: int| 0 <= j < i ==> white_space(#[trigger] cs@[j]),
        decreases cs@.len() - i,
    {
        if !char_is_whitespace(cs[i]) {
            return false;
        }
        i += 1;
    }
    true
}

/// `k` is the string `name`.
pub open spec fn key_is(k: Yaml, name: Seq<char>) -> bool {
    k matches Yaml::Str(s) && s@ == name
}

/// Value of the first entry of `m` keyed by the string `name`.
pub open spec fn lookup(m: Seq<(Yaml, Yaml)>, name: Seq<char>) -> Option<Yaml>
    decreases m.len(),
{
    if m.len() == 0 {
        None
    } else if key_is(m[0].0, name) {
        Some(m[0].1)
    } else {
        lookup(m.drop_first(), name)
    }
}

proof fn lemma_lookup_at(m: Seq<(Yaml, Yaml)>, name: Seq<char>, i: int)
    requires
        0 <= i <= m.len(),
        forall|j: int| 0 <= j < i ==> !key_is(#[trigger] m[j].0, name),
        i < m.len() ==> key_is(m[i].0, name),
    ensures
        lookup(m, name) == if i < m.len() {
            Some(m[i].1)
        } else {
            None
        },
    decreases m.len(),
{
    if m.len() > 0 && i > 0 {
        assert(!key_is(m[0].0, name));
        assert forall|j: int| 0 <= j < i - 1 implies !key_is(#[trigger] m.drop_first()[j].0, name) by {
            assert(m.drop_first()[j] == m[j + 1]);
        }
        lemma_lookup_at(m.drop_first(), name, i - 1);
    }
}

/// The value keyed `name` in the mapping entries `m`.
fn get<'a>(m: &'a Vec<(Yaml, Yaml)>, name: &str) -> (r: Option<&'a Yaml>)
    ensures
        match r {
            Some(v) => lookup(m@, name@) == Some(*v),
            None => lookup(m@, name@) is None,
        },
{
    let mut i: usize = 0;
    while i < m.len()
        invariant
            i <= m@.len(),
            forall|j: int| 0 <= j < i ==> !key_is(#[trigger] m@[j].0, name@),
        decreases m@.len() - i,
    {
        let hit = match &m[i].0 {
            Yaml::Str(k) => str_equal(k.as_str(), name),
            _ => false,
        };
        if hit {
            proof {
                lemma_lookup_at(m@, name@, i as int);
            }
            return Some(&m[i].1);
        }
        i += 1;
    }
    proof {
        lemma_lookup_at(m@, name@, i as int);
    }
    None
}

/// `y` with any tags around it removed (as serde_yaml_ng's `as_str`,
/// `as_sequence` and `as_mapping` look through tags).
pub open spec fn untag(y: Yaml) -> Yaml
    decreases y,
{
    match y {
        Yaml::Tagged(b) => untag(*b),
        _ => y,
    }
}

fn untagged(y: &Yaml) -> (r: &Yaml)
    ensures
        *r == untag(*y),
    decreases y,
{
    match y {
        Yaml::Tagged(b) => untagged(&**b),
        _ => y,
    }
}

/// The text of field `f` of the record with entries `m`: a string that is
/// not blank.
pub open spec fn field_text(m: Seq<(Yaml, Yaml)>, f: Field, index: usize) -> Result<Seq<char>, EventError> {
    match lookup(m, f.key()) {
        None => Err(EventError::MissingField(index, f)),
        Some(v) => match untag(v) {
            Yaml::Str(s) => if blank(s@) {
                Err(EventError::EmptyField(index, f))
            } else {
                Ok(s@)
            },
            _ => Err(EventError::EmptyField(index, f)),
        },
    }
}

/// The notes of a record: absent or null, or a string.
pub open spec fn notes_text(m: Seq<(Yaml, Yaml)>, index: usize) -> Result<Option<Seq<char>>, EventError> {
    match lookup(m, "notes"@) {
        None => Ok(None),
        Some(Yaml::Null) => Ok(None),
        Some(Yaml::Str(s)) => Ok(Some(s@)),
        Some(_) => Err(EventError::BadNotes(index)),
    }
}

/// The kind spelled `t`.
pub open spec fn kind_named(t: Seq<char>) -> Option<EventKind> {
    if t == EventKind::Announced.name() {
        Some(EventKind::Announced)
    } else if t == EventKind::Available.name() {
        Some(EventKind::Available)
    } else if t == EventKind::Pilot.name() {
        Some(EventKind::Pilot)
    } else if t == EventKind::Default.name() {
        Some(EventKind::Default)
    } else if t == EventKind::Retired.name() {
        Some(EventKind::Retired)
    } else {
        None
    }
}

/// The error field `f` raises, if any.
pub open spec fn field_error(m: Seq<(Yaml, Yaml)>, f: Field, index: usize) -> Option<EventError> {
    match field_text(m, f, index) {
        Err(e) => Some(e),
        Ok(_) => None,
    }
}

/// The first fault of record `index`, checked in the order notes, date,
/// provider, model, event, scope, label, source.
pub open spec fn record_error(r: Yaml, index: usize) -> Option<EventError> {
    match untag(r) {
        Yaml::Mapping(m) => {
            let m = m@;
            if notes_text(m, index) is Err {
                Some(EventError::BadNotes(index))
            } else if field_error(m, Field::Date, index) is Some {
                field_error(m, Field::Date, index)
            } else if event_date(field_text(m, Field::Date, index)->Ok_0) is None {
                Some(EventError::BadDate(index))
            } else if field_error(m, Field::Provider, index) is Some {
                field_error(m, Field::Provider, index)
            } else if field_error(m, Field::Model, index) is Some {
                field_error(m, Field::Model, index)
            } else if field_error(m, Field::Event, index) is Some {
                field_error(m, Field::Event, index)
            } else if kind_named(field_text(m, Field::Event, index)->Ok_0) is None {
                Some(EventError::BadKind(index))
            } else if field_error(m, Field::Scope, index) is Some {
                field_error(m, Field::Scope, index)
            } else if field_error(m, Field::Label, index) is Some {
                field_error(m, Field::Label, index)
            } else {
                field_error(m, Field::Source, index)
            }
        },
        _ => Some(EventError::RecordNotMapping(index)),
    }
}

/// An event of the calendar.
#[derive(Debug)]
pub struct Event {
    pub date: Date,
    pub provider: String,
    pub model: String,
    pub event: EventKind,
    pub scope: String,
    pub label: String,
    pub source: String,
    pub notes: Option<String>,
}

/// `e` is the event that the (faultless) record `r` describes.
pub open spec fn event_from(e: Event, r: Yaml) -> bool {
    match untag(r) {
        Yaml::Mapping(m) => {
            let m = m@;
            &&& event_date(field_text(m, Field::Date, 0)->Ok_0) == Some(e.date)
            &&& e.provider@ == field_text(m, Field::Provider, 0)->Ok_0
            &&& e.model@ == field_text(m, Field::Model, 0)->Ok_0
            &&& kind_named(field_text(m, Field::Event, 0)->Ok_0) == Some(e.event)
            &&& e.scope@ == field_text(m, Field::Scope, 0)->Ok_0
            &&& e.label@ == field_text(m, Field::Label, 0)->Ok_0
            &&& e.source@ == field_text(m, Field::Source, 0)->Ok_0
            &&& match e.notes {
                None => notes_text(m, 0) == Ok::<Option<Seq<char>>, EventError>(None),
                Some(n) => notes_text(m, 0) == Ok::<Option<Seq<char>>, EventError>(Some(n@)),
            }
        },
        _ => false,
    }
}

/// The non-blank string of field `f` of record `index`.
fn required_string(m: &Vec<(Yaml, Yaml)>, f: Field, index: usize) -> (r: Result<String, EventError>)
    ensures
        match r {
            Ok(s) => field_text(m@, f, index) == Ok::<Seq<char>, EventError>(s@),
            Err(e) => field_text(m@, f, index) == Err::<Seq<char>, EventError>(e),
        },
{
    match get(m, f.as_str()) {
        None => Err(EventError::MissingField(index, f)),
        Some(v) => match untagged(v) {
            Yaml::Str(s) => {
                if is_blank(s.as_str()) {
                    Err(EventError::EmptyField(index, f))
                } else {
                    Ok(s.clone())
                }
            },
            _ => Err(EventError::EmptyField(index, f)),
        },
    }
}

proof fn lemma_field_text_index(m: Seq<(Yaml, Yaml)>, f: Field, index: usize)
    ensures
        field_text(m, f, index) is Ok <==> field_text(m, f, 0) is Ok,
        field_text(m, f, index) is Ok ==> field_text(m, f, index) == field_text(m, f, 0),
        notes_text(m, index) is Ok <==> notes_text(m, 0) is Ok,
        notes_text(m, index) is Ok ==> notes_text(m, index) == notes_text(m, 0),
{
}

/// The event record `r` (number `index` of its manifest) describes.
fn parse_record(r: &Yaml, index: usize) -> (res: Result<Event, EventError>)
    ensures
        match res {
            Ok(e) => record_error(*r, index) is None && event_from(e, *r),
            Err(err) => record_error(*r, index) == Some(err),
        },
{
    let m = match untagged(r) {
        Yaml::Mapping(m) => m,
        _ => {
            return Err(EventError::RecordNotMapping(index));
        },
    };
    let notes = match get(m, "notes") {
        None => None,
        Some(Yaml::Null) => None,
        Some(Yaml::Str(n)) => Some(n.clone()),
        Some(_) => {
            return Err(EventError::BadNotes(index));
        },
    };
    let date_text = required_string(m, Field::Date, index)?;
    let date = match parse_date(date_text.as_str(), index) {
        Ok(d) => d,
        Err(e) => {
            return Err(e);
        },
    };
    let provider = required_string(m, Field::Provider, index)?;
    let model = required_string(m, Field::Model, index)?;
    let kind_text = required_string(m, Field::Event, index)?;
    let event = EventKind::parse(kind_text.as_str(), index)?;
    proof {
        if kind_named(kind_text@) is None {
        } else {
            assert(kind_named(kind_text@) == Some(event)) by {
                lemma_kind_names_distinct(kind_named(kind_text@)->Some_0, event);
            }
        }
    }
    let scope = required_string(m, Field::Scope, index)?;
    let label = required_string(m, Field::Label, index)?;
    let source = required_string(m, Field::Source, index)?;
    proof {
        lemma_field_text_index(m@, Field::Date, index);
        lemma_field_text_index(m@, Field::Provider, index);
        lemma_field_text_index(m@, Field::Model, index);
        lemma_field_text_index(m@, Field::Event, index);
        lemma_field_text_index(m@, Field::Scope, index);
        lemma_field_text_index(m@, Field::Label, index);
        lemma_field_text_index(m@, Field::Source, index);
    }
    Ok(Event { date, provider, model, event, scope, label, source, notes })
}

/// `schema_version`, when present, is the integer 1.
pub open spec fn schema_ok(m: Seq<(Yaml, Yaml)>) -> bool {
    match lookup(m, "schema_version"@) {
        None => true,
        Some(v) => v == Yaml::Number(Some(1u64)),
    }
}

/// The `events` list of a manifest's entries.
pub open spec fn event_records(m: Seq<(Yaml, Yaml)>) -> Option<Seq<Yaml>> {
    match lookup(m, "events"@) {
        Some(v) => match untag(v) {
            Yaml::List(rs) => Some(rs@),
            _ => None,
        },
        None => None,
    }
}

/// The first fault among the first `n` records.
pub open spec fn first_record_error(rs: Seq<Yaml>, n: int) -> Option<EventError>
    decreases n,
{
    if n <= 0 {
        None
    } else {
        match first_record_error(rs, n - 1) {
            Some(e) => Some(e),
            None => record_error(rs[n - 1], (n - 1) as usize),
        }
    }
}

proof fn lemma_first_error_stays(rs: Seq<Yaml>, n: int, m: int)
    requires
        n <= m,
        first_record_error(rs, n) is Some,
    ensures
        first_record_error(rs, m) == first_record_error(rs, n),
    decreases m - n,
{
    if n < m {
        lemma_first_error_stays(rs, n, m - 1);
    }
}

/// The first fault of a manifest: not a mapping, a wrong schema version, no
/// events list, or the first faulty record.
pub open spec fn manifest_error(doc: Yaml) -> Option<EventError> {
    match untag(doc) {
        Yaml::Mapping(m) => if !schema_ok(m@) {
            Some(EventError::BadSchemaVersion)
        } else {
            match event_records(m@) {
                None => Some(EventError::NoEventList),
                Some(rs) => first_record_error(rs, rs.len() as int),
            }
        },
        _ => Some(EventError::NotMapping),
    }
}

/// The records of a faultless manifest.
pub open spec fn manifest_records(doc: Yaml) -> Seq<Yaml> {
    match untag(doc) {
        Yaml::Mapping(m) => event_records(m@)->Some_0,
        _ => Seq::empty(),
    }
}

/// The events of a manifest, in record order.
pub fn events_in_order(doc: &Yaml) -> (r: Result<Vec<Event>, EventError>)
    ensures
        match r {
            Ok(v) => manifest_error(*doc) is None && v@.len() == manifest_records(*doc).len() && forall|i: int|
                0 <= i < v@.len() ==> event_from(#[trigger] v@[i], manifest_records(*doc)[i]),
            Err(e) => manifest_error(*doc) == Some(e),
        },
{
    let m = match untagged(doc) {
        Yaml::Mapping(m) => m,
        _ => {
            return Err(EventError::NotMapping);
        },
    };
    match get(m, "schema_version") {
        Some(v) => {
            let ok = match v {
                Yaml::Number(Some(n)) => *n == 1,
                _ => false,
            };
            if !ok {
                return Err(EventError::BadSchemaVersion);
            }
        },
        None => {},
    }
    let records = match get(m, "events") {
        Some(v) => match untagged(v) {
            Yaml::List(rs) => rs,
            _ => {
                return Err(EventError::NoEventList);
            },
        },
        None => {
            return Err(EventError::NoEventList);
        },
    };
    let mut out: Vec<Event> = Vec::new();
    let mut i: usize = 0;
    assert(manifest_error(*doc) == first_record_error(records@, records@.len() as int));
    while i < records.len()
        invariant
            i <= records@.len(),
            manifest_records(*doc) == records@,
            manifest_error(*doc) == first_record_error(records@, records@.len() as int),
            out@.len() == i,
            first_record_error(records@, i as int) is None,
            forall|j: int| 0 <= j < i ==> event_from(#[trigger] out@[j], records@[j]),
        decreases records@.len() - i,
    {
        match parse_record(&records[i], i) {
            Ok(e) => out.push(e),
            Err(err) => {
                proof {
                    lemma_first_error_stays(records@, i + 1, records@.len() as int);
                }
                return Err(err);
            },
        }
        i += 1;
    }
    Ok(out)
}

/// `a` falls on or before `b`.
pub open spec fn date_le(a: Date, b: Date) -> bool {
    a.year < b.year || (a.year == b.year && (a.month < b.month || (a.month == b.month && a.day <= b.day)))
}

fn date_not_after(a: Date, b: Date) -> (r: bool)
    ensures
        r == date_le(a, b),
{
    a.year < b.year || (a.year == b.year && (a.month < b.month || (a.month == b.month && a.day <= b.day)))
}

/// Events in order of date.
pub open spec fn date_sorted(s: Seq<Event>) -> bool {
    forall|i: int, j: int| 0 <= i < j < s.len() ==> date_le((#[trigger] s[i]).date, (#[trigger] s[j]).date)
}

/// The events of `s` on day `d`, in their order in `s`.
pub open spec fn on_day(s: Seq<Event>, d: Date) -> Seq<Event>
    decreases s.len(),
{
    if s.len() == 0 {
        s
    } else if s.last().date == d {
        on_day(s.drop_last(), d).push(s.last())
    } else {
        on_day(s.drop_last(), d)
    }
}

/// `out` is `inp` sorted by date, events of one day keeping their order.
pub open spec fn stable_date_sort_of(out: Seq<Event>, inp: Seq<Event>) -> bool {
    date_sorted(out) && forall|d: Date| #[trigger] on_day(out, d) == on_day(inp, d)
}

proof fn lemma_on_day_concat(a: Seq<Event>, b: Seq<Event>, d: Date)
    ensures
        on_day(a + b, d) == on_day(a, d) + on_day(b, d),
    decreases b.len(),
{
    if b.len() == 0 {
        assert(a + b =~= a);
        assert(on_day(a, d) + on_day(b, d) =~= on_day(a, d));
    } else {
        lemma_on_day_concat(a, b.drop_last(), d);
        assert((a + b).drop_last() =~= a + b.drop_last());
        assert((a + b).last() == b.last());
        if b.last().date == d {
            assert(on_day(a, d) + on_day(b.drop_last(), d).push(b.last()) =~= (on_day(a, d) + on_day(
                b.drop_last(),
                d,
            )).push(b.last()));
        }
    }
}

proof fn lemma_on_day_none(s: Seq<Event>, d: Date)
    requires
        forall|i: int| 0 <= i < s.len() ==> (#[trigger] s[i]).date != d,
    ensures
        on_day(s, d) == Seq::<Event>::empty(),
    decreases s.len(),
{
    if s.len() > 0 {
        assert(s.last() == s[s.len() - 1]);
        lemma_on_day_none(s.drop_last(), d);
    }
}

proof fn lemma_on_day_single(x: Event, d: Date)
    ensures
        on_day(seq![x], d) == if x.date == d {
            seq![x]
        } else {
            Seq::<Event>::empty()
        },
{
    assert(seq![x].drop_last() =~= Seq::<Event>::empty());
    assert(on_day(Seq::<Event>::empty(), d) == Seq::<Event>::empty());
}

/// Sorts events by date, stably.
pub fn sort_events(events: Vec<Event>) -> (out: Vec<Event>)
    ensures
        stable_date_sort_of(out@, events@),
{
    let ghost inp = events@;
    let mut rest = events;
    let mut out: Vec<Event> = Vec::new();
    assert(out@ =~= inp.take(0));
    assert(rest@ =~= inp.skip(0));
    while rest.len() > 0
        invariant
            rest@.len() <= inp.len(),
            rest@ == inp.skip(inp.len() - rest@.len()),
            stable_date_sort_of(out@, inp.take(inp.len() - rest@.len())),
        decreases rest@.len(),
    {
        let ghost k = inp.len() - rest@.len();
        let x = rest.remove(0);
        assert(x == inp[k]);
        assert(rest@ =~= inp.skip(k + 1));
        let mut p: usize = out.len();
        while p > 0 && !date_not_after(out[p - 1].date, x.date)
            invariant
                p <= out@.len(),
                forall|q: int| p <= q < out@.len() ==> !date_le((#[trigger] out@[q]).date, x.date),
            decreases p,
        {
            p -= 1;
        }
        let ghost old_out = out@;
        proof {
            assert forall|q: int| 0 <= q < p implies date_le((#[trigger] old_out[q]).date, x.date) by {
                if p > 0 {
                    assert(date_le(old_out[p - 1].date, x.date));
                    if q < p - 1 {
                        assert(date_le(old_out[q].date, old_out[p - 1].date));
                    }
                }
            }
        }
        out.insert(p, x);
        proof {
            let a = old_out.take(p as int);
            let b = old_out.skip(p as int);
            assert(old_out =~= a + b);
            assert(out@ =~= a + seq![x] + b);
            assert(inp.take(k + 1) =~= inp.take(k) + seq![x]);
            assert forall|d: Date| #[trigger] on_day(out@, d) == on_day(inp.take(k + 1), d) by {
                lemma_on_day_concat(a + seq![x], b, d);
                lemma_on_day_concat(a, seq![x], d);
                lemma_on_day_concat(a, b, d);
                lemma_on_day_concat(inp.take(k), seq![x], d);
                lemma_on_day_single(x, d);
                if d == x.date {
                    assert forall|i: int| 0 <= i < b.len() implies (#[trigger] b[i]).date != d by {
                        assert(b[i] == old_out[p + i]);
                    }
                    lemma_on_day_none(b, d);
                    assert(on_day(a, d) + on_day(b, d) =~= on_day(a, d));
                    assert(on_day(a + seq![x], d) + on_day(b, d) =~= on_day(a + seq![x], d));
                } else {
                    assert(on_day(a, d) + Seq::<Event>::empty() =~= on_day(a, d));
                    assert(on_day(inp.take(k), d) + Seq::<Event>::empty() =~= on_day(inp.take(k), d));
                }
            }
            assert forall|i: int, j: int| 0 <= i < j < out@.len() implies date_le(
                (#[trigger] out@[i]).date,
                (#[trigger] out@[j]).date,
            ) by {
                if j < p {
                    assert(out@[i] == old_out[i] && out@[j] == old_out[j]);
                } else if i > p {
                    assert(out@[i] == old_out[i - 1] && out@[j] == old_out[j - 1]);
                } else if i == p {
                    assert(out@[j] == old_out[j - 1]);
                    assert(!date_le(old_out[j - 1].date, x.date));
                } else if j == p {
                    assert(out@[i] == old_out[i]);
                } else {
                    assert(out@[i] == old_out[i] && out@[j] == old_out[j - 1]);
                }
            }
        }
    }
    assert(inp.take(inp.len() as int) =~= inp);
    out
}

/// `u` lists the events that the records `rs` describe, in order.
pub open spec fn events_of_records(u: Seq<Event>, rs: Seq<Yaml>) -> bool {
    u.len() == rs.len() && forall|i: int| 0 <= i < u.len() ==> event_from(#[trigger] u[i], rs[i])
}

/// The events of a manifest, sorted by date with events of one day in
/// record order; fails with the manifest's first fault (see
/// `manifest_error`).
pub fn events_from_yaml(doc: &Yaml) -> (r: Result<Vec<Event>, EventError>)
    ensures
        match r {
            Ok(v) => manifest_error(*doc) is None && exists|u: Seq<Event>|
                #[trigger] events_of_records(u, manifest_records(*doc)) && stable_date_sort_of(v@, u),
            Err(e) => manifest_error(*doc) == Some(e),
        },
{
    let events = match events_in_order(doc) {
        Ok(v) => v,
        Err(e) => {
            return Err(e);
        },
    };
    let ghost u = events@;
    let sorted = sort_events(events);
    assert(manifest_error(*doc) is None);
    assert(events_of_records(u, manifest_records(*doc)));
    assert(stable_date_sort_of(sorted@, u));
    Ok(sorted)
}

#[verifier::external_type_specification]
#[verifier::external_body]
pub struct ExYamlValue(serde_yaml_ng::Value);

/// The YAML document in `bytes`, as serde_yaml_ng reads it, in the
/// library's form (see `yaml_of`); `None` when `bytes` is not YAML.
pub uninterp spec fn yaml_document(bytes: Seq<u8>) -> Option<Yaml>;

/// The library's form of a `serde_yaml_ng::Value`: each variant becomes its
/// counterpart, a number keeps its value when `Number::as_u64` gives one,
/// and a tagged value keeps the value under its tag.
#[verifier::external_body]
fn yaml_of(v: &serde_yaml_ng::Value) -> Yaml {
    match v {
        serde_yaml_ng::Value::Null => Yaml::Null,
        serde_yaml_ng::Value::Bool(b) => Yaml::Bool(*b),
        serde_yaml_ng::Value::Number(n) => Yaml::Number(n.as_u64()),
        serde_yaml_ng::Value::String(s) => Yaml::Str(s.clone()),
        serde_yaml_ng::Value::Sequence(items) => Yaml::List(items.iter().map(yaml_of).collect()),
        serde_yaml_ng::Value::Mapping(m) => Yaml::Mapping(m.iter().map(|(k, v)| (yaml_of(k), yaml_of(v))).collect()),
        serde_yaml_ng::Value::Tagged(t) => Yaml::Tagged(Box::new(yaml_of(&t.value))),
    }
}

/// `serde_yaml_ng::from_slice::<serde_yaml_ng::Value>`, converted by
/// `yaml_of`, or the parser's message.  Claimed: the document is
/// `yaml_document(bytes)`, and it fails exactly when that is `None`.
#[verifier::external_body]
fn parse_yaml(bytes: &[u8]) -> (r: Result<Yaml, String>)
    ensures
        match r {
            Ok(d) => yaml_document(bytes@) == Some(d),
            Err(_) => yaml_document(bytes@) is None,
        },
{
    match serde_yaml_ng::from_slice::<serde_yaml_ng::Value>(bytes) {
        Ok(v) => Ok(yaml_of(&v)),
        Err(e) => Err(format!("{e}")),
    }
}

/// Why an events manifest could not be read.
#[derive(Debug)]
pub enum ManifestError {
    /// The bytes are not YAML; the parser's message.
    Syntax(String),
    /// The YAML is not a valid manifest.
    Content(EventError),
}

/// The events of the manifest in `bytes`, sorted by date with events of
/// one day in record order (see `events_from_yaml`); fails when the bytes
/// are not YAML, or with the manifest's first fault.
pub fn events_from_bytes(bytes: &[u8]) -> (r: Result<Vec<Event>, ManifestError>)
    ensures
        match yaml_document(bytes@) {
            None => r matches Err(ManifestError::Syntax(_)),
            Some(doc) => match r {
                Ok(v) => manifest_error(doc) is None && exists|u: Seq<Event>|
                    #[trigger] events_of_records(u, manifest_records(doc)) && stable_date_sort_of(v@, u),
                Err(ManifestError::Content(e)) => manifest_error(doc) == Some(e),
                Err(ManifestError::Syntax(_)) => false,
            },
        },
{
    match parse_yaml(bytes) {
        Err(e) => Err(ManifestError::Syntax(e)),
        Ok(doc) => match events_from_yaml(&doc) {
            Ok(v) => Ok(v),
            Err(e) => Err(ManifestError::Content(e)),
        },
    }
}

/// A date that `Event` can carry: it exists and its year has four digits.
pub open spec fn well_dated(d: Date) -> bool {
    valid_date(d) && 1 <= d.year <= 9999
}

impl Event {
    /// The text shown when hovering over the event.
    pub open spec fn tooltip(&self) -> Seq<char> {
        self.label@ + "\nDate: "@ + iso_date_text(self.date) + "\nProvider: "@ + self.provider@ + "\nModel: "@
            + self.model@ + "\nEvent: "@ + self.event.name() + "\nScope: "@ + self.scope@ + "\nSource: "@
            + self.source@ + match self.notes {
            Some(n) => if n@.len() > 0 {
                "\nNotes: "@ + n@
            } else {
                Seq::empty()
            },
            None => Seq::empty(),
        }
    }

    /// The text shown when hovering over the event: label, date, provider,
    /// model, kind, scope and source on lines of their own, and the notes
    /// when there are any.
    pub fn tooltip_text(&self) -> (t: String)
        requires
            well_dated(self.date),
        ensures
            t@ == self.tooltip(),
    {
        let mut t = self.label.clone();
        t.append("\nDate: ");
        t.append(date_text(self.date).as_str());
        t.append("\nProvider: ");
        t.append(self.provider.as_str());
        t.append("\nModel: ");
        t.append(self.model.as_str());
        t.append("\nEvent: ");
        t.append(self.event.as_str());
        t.append("\nScope: ");
        t.append(self.scope.as_str());
        t.append("\nSource: ");
        t.append(self.source.as_str());
        match &self.notes {
            Some(n) => {
                if chars_of(n.as_str()).len() > 0 {
                    t.append("\nNotes: ");
                    t.append(n.as_str());
                }
            },
            None => {},
        }
        t
    }
}

/// First byte of the SHA-256 digest of the UTF-8 encoding of `text`.
pub uninterp spec fn sha256_first_byte(text: Seq<char>) -> u8;

/// `sha2::Sha256::digest(text.as_bytes())[0]`.  Claimed: the result is
/// `sha256_first_byte(text)`.
#[verifier::external_body]
fn digest_first_byte(text: &str) -> (r: u8)
    ensures
        r == sha256_first_byte(text@),
{
    <sha2::Sha256 as sha2::Digest>::digest(text.as_bytes())[0]
}

/// The ten colours providers are drawn in, as `(red, green, blue)`.
pub open spec fn palette(i: int) -> (u8, u8, u8) {
    if i == 0 {
        (31, 119, 180)
    } else if i == 1 {
        (255, 127, 14)
    } else if i == 2 {
        (44, 160, 44)
    } else if i == 3 {
        (214, 39, 40)
    } else if i == 4 {
        (148, 103, 189)
    } else if i == 5 {
        (140, 86, 75)
    } else if i == 6 {
        (227, 119, 194)
    } else if i == 7 {
        (127, 127, 127)
    } else if i == 8 {
        (188, 189, 34)
    } else {
        (23, 190, 207)
    }
}

/// The colour of a provider: the palette entry picked by the first byte of
/// the SHA-256 digest of its name, so it depends on the name alone.
pub fn provider_color(provider: &str) -> (c: (u8, u8, u8))
    ensures
        c == palette((sha256_first_byte(provider@) % 10) as int),
{
    let i = digest_first_byte(provider) % 10;
    if i == 0 {
        (31, 119, 180)
    } else if i == 1 {
        (255, 127, 14)
    } else if i == 2 {
        (44, 160, 44)
    } else if i == 3 {
        (214, 39, 40)
    } else if i == 4 {
        (148, 103, 189)
    } else if i == 5 {
        (140, 86, 75)
    } else if i == 6 {
        (227, 119, 194)
    } else if i == 7 {
        (127, 127, 127)
    } else if i == 8 {
        (188, 189, 34)
    } else {
        (23, 190, 207)
    }
}

/// Days from 0001-01-01 to January 1 of year `y` (`y >= 1`): 365 a year
/// and one more for each leap year before it.
pub open spec fn days_before_year(y: int) -> int {
    365 * (y - 1) + (y - 1) / 4 - (y - 1) / 100 + (y - 1) / 400
}

/// Days from January 1 of year `y` to the first of month `m`.
pub open spec fn days_before_month(y: int, m: int) -> int
    decreases m,
{
    if m <= 1 {
        0
    } else {
        days_before_month(y, m - 1) + days_in_month(y, m - 1)
    }
}

/// Seconds since the epoch of midnight UTC at the start of `d`; 1970-01-01
/// is 719162 days after 0001-01-01.
pub open spec fn utc_midnight(d: Date) -> int {
    (days_before_year(d.year as int) + days_before_month(d.year as int, d.month as int) + d.day - 1 - 719162) * 86400
}

fn month_length(y: i32, m: u32) -> (n: i64)
    requires
        1 <= y,
    ensures
        n == days_in_month(y as int, m as int),
{
    if m == 2 {
        if y % 4 == 0 && (y % 100 != 0 || y % 400 == 0) {
            29
        } else {
            28
        }
    } else if m == 4 || m == 6 || m == 9 || m == 11 {
        30
    } else {
        31
    }
}

/// Midnight UTC at the start of `d`, in seconds since the epoch.
fn midnight_seconds(d: Date) -> (r: i64)
    requires
        valid_date(d),
        1 <= d.year <= 9999,
    ensures
        r == utc_midnight(d),
{
    let y: i64 = d.year as i64 - 1;
    let mut days: i64 = 365 * y + y / 4 - y / 100 + y / 400;
    let mut m: u32 = 1;
    while m < d.month
        invariant
            valid_date(d),
            1 <= d.year <= 9999,
            y == d.year - 1,
            1 <= m <= d.month,
            days == days_before_year(d.year as int) + days_before_month(d.year as int, m as int),
            0 <= days <= days_before_year(d.year as int) + 31 * (m - 1),
        decreases d.month - m,
    {
        days = days + month_length(d.year, m);
        m += 1;
    }
    (days + d.day as i64 - 1 - 719162) * 86400
}

/// The events whose midnight UTC falls within `[t_min, t_max]`, in order.
pub fn events_in_range(events: Vec<Event>, t_min: i64, t_max: i64) -> (r: Vec<Event>)
    requires
        forall|i: int| 0 <= i < events@.len() ==> well_dated(#[trigger] events@[i].date),
    ensures
        r@ == events@.filter(|e: Event| t_min <= utc_midnight(e.date) <= t_max),
{
    let ghost inp = events@;
    let mut rest = events;
    let mut out: Vec<Event> = Vec::new();
    let ghost keep = |e: Event| t_min <= utc_midnight(e.date) <= t_max;
    assert(inp.take(0).filter(keep) =~= Seq::<Event>::empty()) by {
        reveal(Seq::filter);
    }
    while rest.len() > 0
        invariant
            rest@.len() <= inp.len(),
            rest@ == inp.skip(inp.len() - rest@.len()),
            forall|i: int| 0 <= i < inp.len() ==> well_dated(#[trigger] inp[i].date),
            out@ == inp.take(inp.len() - rest@.len()).filter(keep),
            keep == (|e: Event| t_min <= utc_midnight(e.date) <= t_max),
        decreases rest@.len(),
    {
        let ghost k = inp.len() - rest@.len();
        let e = rest.remove(0);
        assert(e == inp[k]);
        assert(rest@ =~= inp.skip(k + 1));
        assert(inp.take(k + 1).drop_last() =~= inp.take(k));
        let t = midnight_seconds(e.date);
        assert(inp.take(k + 1).last() == e);
        assert(keep(e) == (t_min <= t && t <= t_max));
        let ghost before = out@;
        proof {
            reveal(Seq::filter);
            let sub = inp.take(k + 1).drop_last().filter(keep);
            assert(sub == inp.take(k).filter(keep));
            assert(inp.take(k + 1).filter(keep) == if keep(inp.take(k + 1).last()) {
                sub.push(inp.take(k + 1).last())
            } else {
                sub
            });
        }
        if t_min <= t && t <= t_max {
            out.push(e);
        }
    }
    assert(inp.take(inp.len() as int) =~= inp);
    out
}

} // verus!
