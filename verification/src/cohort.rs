//! Text forms of UTC times: cohort labels (`strftime`-style formats) and the
//! sample times written with the curves.

use vstd::prelude::*;

use std::fmt::Write;

use crate::curve::curve_timestamp;

verus! {

/// The UTC time `secs` (seconds since the epoch) written with the
/// `strftime`-style `format`; `None` when the time is outside chrono's range
/// or the format holds an invalid directive.
pub uninterp spec fn strftime_utc(secs: i64, format: Seq<char>) -> Option<Seq<char>>;

/// Seconds since the epoch of the times in years 1 to 9999:
/// 0001-01-01T00:00:00 to 9999-12-31T23:59:59 UTC.
pub open spec fn four_digit_year_time(secs: int) -> bool {
    -62135596800 <= secs <= 253402300799
}

/// `chrono`: `DateTime::<Utc>::from_timestamp(secs, 0)`, formatted with the
/// items that `StrftimeItems::new(format).parse()` yields.  Claimed: the text
/// is `strftime_utc(secs, format)`, `None` exactly when it is `None`; the
/// text depends on the two arguments alone (no locale or time zone of the
/// machine enters UTC formatting).  Also claimed: a time in years 1 to 9999
/// written as `%Y-%m-%dT%H:%M:%S` is written, and reads back, through
/// `NaiveDateTime::parse_from_str` with that format (`curve_timestamp`), as
/// the same second (`%Y` writes such years with four digits, and a whole
/// second is never a leap second).
#[verifier::external_body]
fn format_utc(secs: i64, format: &str) -> (r: Option<String>)
    ensures
        match r {
            Some(s) => strftime_utc(secs, format@) == Some(s@),
            None => strftime_utc(secs, format@) is None,
        },
        format@ == sample_time_format() && four_digit_year_time(secs as int) ==> r is Some,
        r matches Some(s) ==> (format@ == sample_time_format() && four_digit_year_time(secs as int) ==> curve_timestamp(s@) == Some(secs)),
{
    let t = chrono::DateTime::from_timestamp(secs, 0)?;
    let items = chrono::format::StrftimeItems::new(format).parse().ok()?;
    let mut out = String::new();
    write!(out, "{}", t.format_with_items(items.iter())).ok()?;
    Some(out)
}

/// A cohort format that cannot be applied.
#[derive(Debug)]
pub struct CohortError {
    pub format: String,
}

impl CohortError {
    /// Human-readable description.
    pub fn message(&self) -> (m: String)
        ensures
            m@ == "invalid cohort format string: "@ + self.format@,
    {
        let mut m = String::from_str("invalid cohort format string: ");
        m.append(self.format.as_str());
        m
    }
}

/// The cohort label of a commit made at `secs`: its UTC time written with
/// the `strftime`-style `format` (`"%Y"` gives the year).
pub fn format_cohort(secs: i64, format: &str) -> (r: Result<String, CohortError>)
    ensures
        match r {
            Ok(s) => strftime_utc(secs, format@) == Some(s@),
            Err(e) => strftime_utc(secs, format@) is None && e.format@ == format@,
        },
{
    match format_utc(secs, format) {
        Some(s) => Ok(s),
        None => Err(CohortError { format: String::from_str(format) }),
    }
}

/// Format of the sample times written with the curves.
pub open spec fn sample_time_format() -> Seq<char> {
    "%Y-%m-%dT%H:%M:%S"@
}

/// The sample time `secs` as written with the curves: naive ISO 8601
/// without a zone suffix.
pub fn sample_time_text(secs: i64) -> (r: Option<String>)
    ensures
        match r {
            Some(s) => strftime_utc(secs, sample_time_format()) == Some(s@),
            None => strftime_utc(secs, sample_time_format()) is None,
        },
        four_digit_year_time(secs as int) ==> (r matches Some(s) && curve_timestamp(s@) == Some(secs)),
{
    proof {
        reveal_strlit("%Y-%m-%dT%H:%M:%S");
    }
    format_utc(secs, "%Y-%m-%dT%H:%M:%S")
}

} // verus!
