//! What the curve files hold: one row of counts per label, in label order,
//! the sample times as text, and the labels as shown.

use vstd::prelude::*;

use crate::cohort::{four_digit_year_time, sample_time_format, sample_time_text, strftime_utc};
use crate::curve::curve_timestamp;
use crate::labelmap::LabelMap;

verus! {

/// Contents of one curve file.
#[derive(Debug)]
pub struct CurveOutput {
    pub y: Vec<Vec<u64>>,
    pub ts: Vec<String>,
    pub labels: Vec<String>,
}

/// The label shown for curve `l`: a cohort reads "Code added in <cohort>".
pub open spec fn shown_label(l: Seq<char>, cohort: bool) -> Seq<char> {
    if cohort {
        "Code added in "@ + l
    } else {
        l
    }
}

/// The contents of a curve file for `series` sampled at `timestamps`;
/// `None` when some sample time cannot be written.
pub fn curve_output(series: &LabelMap<Vec<u64>>, timestamps: &Vec<i64>, cohort: bool) -> (r: Option<CurveOutput>)
    ensures
        r is None <==> exists|i: int|
            0 <= i < timestamps@.len() && (#[trigger] strftime_utc(timestamps@[i], sample_time_format())) is None,
        r matches Some(o) ==> {
            &&& o.y@.len() == series.entries@.len()
            &&& o.labels@.len() == series.entries@.len()
            &&& forall|i: int| 0 <= i < series.entries@.len() ==> (#[trigger] o.y@[i])@ == series.entries@[i].1@
            &&& forall|i: int|
                0 <= i < series.entries@.len() ==> (#[trigger] o.labels@[i])@ == shown_label(series.entries@[i].0@, cohort)
            &&& o.ts@.len() == timestamps@.len()
            &&& forall|i: int| 0 <= i < timestamps@.len() ==> strftime_utc(timestamps@[i], sample_time_format()) == Some((#[trigger] o.ts@[i])@)
            &&& forall|i: int|
                0 <= i < timestamps@.len() && four_digit_year_time(timestamps@[i] as int) ==> curve_timestamp(
                    (#[trigger] o.ts@[i])@,
                ) == Some(timestamps@[i])
        },
        (forall|i: int| 0 <= i < timestamps@.len() ==> four_digit_year_time(#[trigger] timestamps@[i] as int)) ==> r is Some,
{
    let mut ts: Vec<String> = Vec::new();
    let mut i: usize = 0;
    while i < timestamps.len()
        invariant
            i <= timestamps@.len(),
            ts@.len() == i,
            forall|j: int| 0 <= j < i ==> strftime_utc(timestamps@[j], sample_time_format()) == Some((#[trigger] ts@[j])@),
            forall|j: int|
                0 <= j < i && four_digit_year_time(timestamps@[j] as int) ==> curve_timestamp((#[trigger] ts@[j])@) == Some(
                    timestamps@[j],
                ),
        decreases timestamps@.len() - i,
    {
        match sample_time_text(timestamps[i]) {
            Some(s) => ts.push(s),
            None => {
                assert(!four_digit_year_time(timestamps@[i as int] as int));
                return None;
            },
        }
        i += 1;
    }
    assert forall|j: int| 0 <= j < timestamps@.len() implies !((#[trigger] strftime_utc(timestamps@[j], sample_time_format())) is None) by {
        assert(strftime_utc(timestamps@[j], sample_time_format()) == Some(ts@[j]@));
    }
    let mut y: Vec<Vec<u64>> = Vec::new();
    let mut labels: Vec<String> = Vec::new();
    let mut k: usize = 0;
    while k < series.entries.len()
        invariant
            k <= series.entries@.len(),
            y@.len() == k,
            labels@.len() == k,
            forall|j: int| 0 <= j < k ==> (#[trigger] y@[j])@ == series.entries@[j].1@,
            forall|j: int| 0 <= j < k ==> (#[trigger] labels@[j])@ == shown_label(series.entries@[j].0@, cohort),
        decreases series.entries@.len() - k,
    {
        let row = &series.entries[k].1;
        let mut copy: Vec<u64> = Vec::new();
        let mut t: usize = 0;
        while t < row.len()
            invariant
                t <= row@.len(),
                copy@ == row@.take(t as int),
            decreases row@.len() - t,
        {
            copy.push(row[t]);
            assert(row@.take(t + 1) =~= row@.take(t as int).push(row@[t as int]));
            t += 1;
        }
        assert(row@.take(row@.len() as int) =~= row@);
        y.push(copy);
        if cohort {
            let mut l = String::from_str("Code added in ");
            l.append(series.entries[k].0.as_str());
            labels.push(l);
        } else {
            labels.push(series.entries[k].0.clone());
        }
        k += 1;
    }
    Some(CurveOutput { y, ts, labels })
}

} // verus!
