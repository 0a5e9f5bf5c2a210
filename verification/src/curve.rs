//! Curves read back from the analysis output: one row of line counts per
//! label, one column per sample time.  Loading validates the shape, several
//! inputs are aligned onto one timeline, and rows can be trimmed to the
//! largest ones.

use vstd::prelude::*;

use crate::order::{chars_equal, label_less, label_lt, lemma_label_lt_irreflexive, lemma_label_lt_total, lemma_label_lt_transitive};
use crate::text::{chars_of, decimal, push_decimal, push_str, string_from_chars};
use crate::timeline::{carry_forward, insert_times, strictly_increasing, value_at};

verus! {

/// Seconds since the Unix epoch of the `YYYY-MM-DDTHH:MM:SS` time `s`, read
/// as UTC, when it parses.  A leap second (`:60`) counts as the second
/// before it, since only whole seconds are kept.
pub uninterp spec fn curve_timestamp(s: Seq<char>) -> Option<i64>;

/// Parses a curve timestamp with
/// `chrono::NaiveDateTime::parse_from_str(s, "%Y-%m-%dT%H:%M:%S")` and
/// converts the result to seconds since the epoch (`and_utc().timestamp()`).
/// Claimed: the result is `curve_timestamp(s)`, a function of `s` alone.
#[verifier::external_body]
fn parse_curve_timestamp(s: &str) -> (r: Option<i64>)
    ensures
        r == curve_timestamp(s@),
{
    chrono::NaiveDateTime::parse_from_str(s, "%Y-%m-%dT%H:%M:%S").ok().map(|t| t.and_utc().timestamp())
}

/// One row per label, one column per sample time (`ts`, unix seconds).
#[derive(Debug)]
pub struct Curve {
    pub y: Vec<Vec<u64>>,
    pub ts: Vec<i64>,
    pub labels: Vec<String>,
}

/// Why a curve could not be built.
#[derive(Debug, PartialEq, Eq)]
pub enum CurveError {
    /// A sample time does not parse.
    BadTimestamp(String),
    /// The numbers of rows and of labels differ.
    RowCount { rows: usize, labels: usize },
    /// Row `row` has `points` values for `ts` sample times.
    RowLength { row: usize, points: usize, ts: usize },
    /// No input was given.
    NoInputs,
}

impl CurveError {
    /// The description of the error.
    pub open spec fn text(&self) -> Seq<char> {
        match self {
            CurveError::BadTimestamp(s) => "parsing timestamp \""@ + s@ + "\""@,
            CurveError::RowCount { rows, labels } => "curve file has "@ + decimal(*rows as nat) + " y-rows but "@
                + decimal(*labels as nat) + " labels"@,
            CurveError::RowLength { row, points, ts } => "y["@ + decimal(*row as nat) + "] has "@ + decimal(
                *points as nat,
            ) + " points but ts has "@ + decimal(*ts as nat),
            CurveError::NoInputs => "at least one input file is required"@,
        }
    }

    /// Human-readable description.
    pub fn message(&self) -> (m: String)
        ensures
            m@ == self.text(),
    {
        let mut out: Vec<char> = Vec::new();
        match self {
            CurveError::BadTimestamp(s) => {
                push_str(&mut out, "parsing timestamp \"");
                push_str(&mut out, s.as_str());
                push_str(&mut out, "\"");
            },
            CurveError::RowCount { rows, labels } => {
                push_str(&mut out, "curve file has ");
                push_decimal(&mut out, *rows as u64);
                push_str(&mut out, " y-rows but ");
                push_decimal(&mut out, *labels as u64);
                push_str(&mut out, " labels");
            },
            CurveError::RowLength { row, points, ts } => {
                push_str(&mut out, "y[");
                push_decimal(&mut out, *row as u64);
                push_str(&mut out, "] has ");
                push_decimal(&mut out, *points as u64);
                push_str(&mut out, " points but ts has ");
                push_decimal(&mut out, *ts as u64);
            },
            CurveError::NoInputs => {
                push_str(&mut out, "at least one input file is required");
            },
        }
        assert(out@ =~= self.text());
        string_from_chars(&out)
    }
}

/// Position of the first timestamp that does not parse, if any.
pub open spec fn first_bad_timestamp(ts: Seq<String>) -> int
    decreases ts.len(),
{
    if ts.len() == 0 {
        -1
    } else if first_bad_timestamp(ts.drop_last()) >= 0 {
        first_bad_timestamp(ts.drop_last())
    } else if curve_timestamp(ts.last()@) is None {
        ts.len() - 1
    } else {
        -1
    }
}

/// Position of the first row whose length differs from `n`, if any.
pub open spec fn first_bad_row(y: Seq<Vec<u64>>, n: int) -> int
    decreases y.len(),
{
    if y.len() == 0 {
        -1
    } else if first_bad_row(y.drop_last(), n) >= 0 {
        first_bad_row(y.drop_last(), n)
    } else if y.last()@.len() != n {
        y.len() - 1
    } else {
        -1
    }
}

impl Curve {
    /// As many labels as rows, and a value per sample time in each row.
    pub open spec fn wf(&self) -> bool {
        &&& self.y@.len() == self.labels@.len()
        &&& forall|i: int| 0 <= i < self.y@.len() ==> (#[trigger] self.y@[i])@.len() == self.ts@.len()
    }

    /// Builds a curve from the fields of a curve file: timestamps are parsed
    /// first (the first that does not parse is reported), then the number of
    /// rows is checked against the number of labels, then each row's length
    /// against the number of timestamps (the first bad row is reported).
    #[verifier::loop_isolation(false)]
    pub fn from_parts(y: Vec<Vec<u64>>, ts: Vec<String>, labels: Vec<String>) -> (r: Result<
        Curve,
        CurveError,
    >)
        ensures
            first_bad_timestamp(ts@) >= 0 ==> r == Err::<Curve, CurveError>(
                CurveError::BadTimestamp(ts@[first_bad_timestamp(ts@)]),
            ),
            first_bad_timestamp(ts@) < 0 && y@.len() != labels@.len() ==> r == Err::<
                Curve,
                CurveError,
            >(CurveError::RowCount { rows: y@.len() as usize, labels: labels@.len() as usize }),
            first_bad_timestamp(ts@) < 0 && y@.len() == labels@.len() && first_bad_row(
                y@,
                ts@.len() as int,
            ) >= 0 ==> r == Err::<Curve, CurveError>(
                CurveError::RowLength {
                    row: first_bad_row(y@, ts@.len() as int) as usize,
                    points: y@[first_bad_row(y@, ts@.len() as int)]@.len() as usize,
                    ts: ts@.len() as usize,
                },
            ),
            r is Ok <==> (first_bad_timestamp(ts@) < 0 && y@.len() == labels@.len() && first_bad_row(
                y@,
                ts@.len() as int,
            ) < 0),
            r matches Ok(c) ==> {
                &&& c.wf()
                &&& c.y == y
                &&& c.labels == labels
                &&& c.ts@.len() == ts@.len()
                &&& forall|i: int|
                    0 <= i < ts@.len() ==> curve_timestamp(#[trigger] ts@[i]@) == Some(c.ts@[i])
            },
    {
        let mut parsed: Vec<i64> = Vec::new();
        let mut i: usize = 0;
        while i < ts.len()
            invariant
                i <= ts@.len(),
                parsed@.len() == i,
                first_bad_timestamp(ts@.take(i as int)) == -1,
                forall|q: int| 0 <= q < i ==> curve_timestamp(#[trigger] ts@[q]@) == Some(parsed@[q]),
            decreases ts@.len() - i,
        {
            assert(ts@.take(i + 1).drop_last() =~= ts@.take(i as int));
            match parse_curve_timestamp(ts[i].as_str()) {
                Some(t) => parsed.push(t),
                None => {
                    proof {
                        lemma_first_bad_timestamp_prefix(ts@, i + 1);
                    }
                    return Err(CurveError::BadTimestamp(ts[i].clone()));
                },
            }
            i += 1;
        }
        assert(ts@.take(ts@.len() as int) =~= ts@);
        if y.len() != labels.len() {
            return Err(CurveError::RowCount { rows: y.len(), labels: labels.len() });
        }
        let mut j: usize = 0;
        while j < y.len()
            invariant
                j <= y@.len(),
                first_bad_row(y@.take(j as int), ts@.len() as int) == -1,
                forall|q: int| 0 <= q < j ==> (#[trigger] y@[q])@.len() == ts@.len(),
            decreases y@.len() - j,
        {
            assert(y@.take(j + 1).drop_last() =~= y@.take(j as int));
            if y[j].len() != ts.len() {
                proof {
                    lemma_first_bad_row_prefix(y@, ts@.len() as int, j + 1);
                }
                return Err(CurveError::RowLength { row: j, points: y[j].len(), ts: ts.len() });
            }
            j += 1;
        }
        assert(y@.take(y@.len() as int) =~= y@);
        Ok(Curve { y, ts: parsed, labels })
    }
}

proof fn lemma_first_bad_timestamp_prefix(s: Seq<String>, k: int)
    requires
        0 <= k <= s.len(),
        first_bad_timestamp(s.take(k)) >= 0,
    ensures
        first_bad_timestamp(s) == first_bad_timestamp(s.take(k)),
        0 <= first_bad_timestamp(s) < k,
    decreases s.len(),
{
    if k < s.len() {
        assert(s.drop_last().take(k) =~= s.take(k));
        lemma_first_bad_timestamp_prefix(s.drop_last(), k);
    } else {
        assert(s.take(k) =~= s);
        lemma_first_bad_timestamp_bound(s);
    }
}

proof fn lemma_first_bad_timestamp_bound(s: Seq<String>)
    ensures
        first_bad_timestamp(s) < s.len(),
    decreases s.len(),
{
    if s.len() > 0 {
        lemma_first_bad_timestamp_bound(s.drop_last());
    }
}

proof fn lemma_first_bad_row_prefix(y: Seq<Vec<u64>>, n: int, k: int)
    requires
        0 <= k <= y.len(),
        first_bad_row(y.take(k), n) >= 0,
    ensures
        first_bad_row(y, n) == first_bad_row(y.take(k), n),
        0 <= first_bad_row(y, n) < k,
    decreases y.len(),
{
    if k < y.len() {
        assert(y.drop_last().take(k) =~= y.take(k));
        lemma_first_bad_row_prefix(y.drop_last(), n, k);
    } else {
        assert(y.take(k) =~= y);
        lemma_first_bad_row_bound(y, n);
    }
}

proof fn lemma_first_bad_row_bound(y: Seq<Vec<u64>>, n: int)
    ensures
        first_bad_row(y, n) < y.len(),
    decreases y.len(),
{
    if y.len() > 0 {
        lemma_first_bad_row_bound(y.drop_last(), n);
    }
}

/// The label of a row taken from input `source`: `"<source>: <label>"`.
pub open spec fn prefixed(source: Seq<char>, label: Seq<char>) -> Seq<char> {
    source + seq![':', ' '] + label
}

pub open spec fn label_views(v: Seq<String>) -> Seq<Seq<char>> {
    v.map_values(|s: String| s@)
}

pub open spec fn row_views(v: Seq<Vec<u64>>) -> Seq<Seq<u64>> {
    v.map_values(|r: Vec<u64>| r@)
}

/// Labels of the aligned curve: every input's labels, prefixed with its name,
/// in input order.
pub open spec fn aligned_labels(inputs: Seq<(String, Curve)>) -> Seq<Seq<char>>
    decreases inputs.len(),
{
    if inputs.len() == 0 {
        Seq::empty()
    } else {
        let last = inputs.last();
        aligned_labels(inputs.drop_last()) + label_views(last.1.labels@).map_values(
            |l: Seq<char>| prefixed(last.0@, l),
        )
    }
}

/// A row sampled at `src` re-sampled at `ts` with its last value carried forward.
pub open spec fn resampled(src: Seq<i64>, row: Seq<u64>, ts: Seq<i64>) -> Seq<u64> {
    Seq::new(ts.len(), |i: int| value_at(src, row, ts[i]) as u64)
}

/// Rows of the aligned curve: every input's rows re-sampled onto `ts`, in
/// input order.
pub open spec fn aligned_rows(inputs: Seq<(String, Curve)>, ts: Seq<i64>) -> Seq<Seq<u64>>
    decreases inputs.len(),
{
    if inputs.len() == 0 {
        Seq::empty()
    } else {
        let last = inputs.last();
        aligned_rows(inputs.drop_last(), ts) + row_views(last.1.y@).map_values(
            |r: Seq<u64>| resampled(last.1.ts@, r, ts),
        )
    }
}

/// Some input is sampled at `t`.
pub open spec fn sampled_in_some(inputs: Seq<(String, Curve)>, t: i64) -> bool {
    exists|k: int| 0 <= k < inputs.len() && (#[trigger] inputs[k]).1.ts@.contains(t)
}

/// Aligns curves loaded from several inputs, each named by `source`.  A single
/// input is returned as it is.  With several, the timeline is the sorted union
/// of all sample times; each row is re-sampled onto it by carrying its last
/// known value forward (0 before the input's first sample), and its label is
/// prefixed with the input's name (`"<source>: <label>"`).
pub fn align_curves(inputs: Vec<(String, Curve)>) -> (r: Result<Curve, CurveError>)
    requires
        forall|k: int| 0 <= k < inputs@.len() ==> (#[trigger] inputs@[k]).1.wf(),
    ensures
        inputs@.len() == 0 ==> r == Err::<Curve, CurveError>(CurveError::NoInputs),
        inputs@.len() == 1 ==> r == Ok::<Curve, CurveError>(inputs@[0].1),
        inputs@.len() > 1 ==> (r matches Ok(c) && {
            &&& strictly_increasing(c.ts@)
            &&& forall|t: i64| #[trigger] c.ts@.contains(t) <==> sampled_in_some(inputs@, t)
            &&& label_views(c.labels@) == aligned_labels(inputs@)
            &&& row_views(c.y@) == aligned_rows(inputs@, c.ts@)
            &&& c.wf()
        }),
{
    if inputs.len() == 0 {
        return Err(CurveError::NoInputs);
    }
    if inputs.len() == 1 {
        let mut inputs = inputs;
        let (_, c) = inputs.remove(0);
        return Ok(c);
    }
    let mut ts: Vec<i64> = Vec::new();
    let mut k: usize = 0;
    while k < inputs.len()
        invariant
            k <= inputs@.len(),
            strictly_increasing(ts@),
            forall|t: i64| #[trigger] ts@.contains(t) <==> sampled_in_some(inputs@.take(k as int), t),
        decreases inputs@.len() - k,
    {
        insert_times(&mut ts, &inputs[k].1.ts);
        assert forall|t: i64| #[trigger] ts@.contains(t) <==> sampled_in_some(inputs@.take(k + 1), t) by {
            let p = inputs@.take(k as int);
            let q = inputs@.take(k + 1);
            if sampled_in_some(q, t) {
                let j = choose|j: int| 0 <= j < q.len() && (#[trigger] q[j]).1.ts@.contains(t);
                if j < k {
                    assert(p[j] == q[j]);
                }
            }
            if sampled_in_some(p, t) {
                let j = choose|j: int| 0 <= j < p.len() && (#[trigger] p[j]).1.ts@.contains(t);
                assert(p[j] == q[j]);
            }
            assert(q[k as int] == inputs@[k as int]);
        }
        k += 1;
    }
    assert(inputs@.take(inputs@.len() as int) =~= inputs@);
    let mut y: Vec<Vec<u64>> = Vec::new();
    let mut labels: Vec<String> = Vec::new();
    let mut k: usize = 0;
    while k < inputs.len()
        invariant
            k <= inputs@.len(),
            forall|q: int| 0 <= q < inputs@.len() ==> (#[trigger] inputs@[q]).1.wf(),
            label_views(labels@) == aligned_labels(inputs@.take(k as int)),
            row_views(y@) == aligned_rows(inputs@.take(k as int), ts@),
            forall|q: int| 0 <= q < y@.len() ==> (#[trigger] y@[q])@.len() == ts@.len(),
        decreases inputs@.len() - k,
    {
        let source = &inputs[k].0;
        let c = &inputs[k].1;
        let ghost l0 = label_views(labels@);
        let ghost y0 = row_views(y@);
        let mut j: usize = 0;
        while j < c.y.len()
            invariant
                k < inputs@.len(),
                *c == inputs@[k as int].1,
                *source == inputs@[k as int].0,
                c.wf(),
                j <= c.y@.len(),
                label_views(labels@) == l0 + label_views(c.labels@).take(j as int).map_values(
                    |l: Seq<char>| prefixed(source@, l),
                ),
                row_views(y@) == y0 + row_views(c.y@).take(j as int).map_values(
                    |r: Seq<u64>| resampled(c.ts@, r, ts@),
                ),
                forall|q: int| 0 <= q < y@.len() ==> (#[trigger] y@[q])@.len() == ts@.len(),
            decreases c.y@.len() - j,
        {
            let mut name: Vec<char> = Vec::new();
            push_str(&mut name, source.as_str());
            push_str(&mut name, ": ");
            push_str(&mut name, c.labels[j].as_str());
            let row = carry_forward(&c.ts, &c.y[j], &ts);
            proof {
                reveal_strlit(": ");
                assert(name@ == prefixed(source@, c.labels@[j as int]@));
                assert(row@ =~= resampled(c.ts@, c.y@[j as int]@, ts@));
            }
            let ghost lb = labels@;
            let ghost yb = y@;
            let label = string_from_chars(&name);
            labels.push(label);
            y.push(row);
            proof {
                let fl = |l: Seq<char>| prefixed(source@, l);
                let fr = |r: Seq<u64>| resampled(c.ts@, r, ts@);
                assert(label_views(labels@) =~= label_views(lb).push(label@));
                assert(row_views(y@) =~= row_views(yb).push(row@));
                assert(label_views(c.labels@).take(j + 1).map_values(fl) =~= label_views(c.labels@).take(
                    j as int,
                ).map_values(fl).push(fl(c.labels@[j as int]@)));
                assert(row_views(c.y@).take(j + 1).map_values(fr) =~= row_views(c.y@).take(
                    j as int,
                ).map_values(fr).push(fr(c.y@[j as int]@)));
                assert(label_views(labels@) =~= l0 + label_views(c.labels@).take(j + 1).map_values(
                    |l: Seq<char>| prefixed(source@, l),
                ));
                assert(row_views(y@) =~= y0 + row_views(c.y@).take(j + 1).map_values(
                    |r: Seq<u64>| resampled(c.ts@, r, ts@),
                ));
            }
            j += 1;
        }
        proof {
            assert(inputs@.take(k + 1).drop_last() =~= inputs@.take(k as int));
            assert(inputs@.take(k + 1).last() == inputs@[k as int]);
            assert(label_views(c.labels@).take(c.y@.len() as int) =~= label_views(c.labels@));
            assert(row_views(c.y@).take(c.y@.len() as int) =~= row_views(c.y@));
        }
        k += 1;
    }
    assert(inputs@.take(inputs@.len() as int) =~= inputs@);
    let out = Curve { y, ts, labels };
    proof {
        lemma_aligned_lengths(inputs@, out.ts@);
        assert(label_views(out.labels@).len() == out.labels@.len());
        assert(row_views(out.y@).len() == out.y@.len());
    }
    Ok(out)
}

proof fn lemma_aligned_lengths(inputs: Seq<(String, Curve)>, ts: Seq<i64>)
    requires
        forall|k: int| 0 <= k < inputs.len() ==> (#[trigger] inputs[k]).1.wf(),
    ensures
        aligned_labels(inputs).len() == aligned_rows(inputs, ts).len(),
    decreases inputs.len(),
{
    if inputs.len() > 0 {
        assert forall|k: int| 0 <= k < inputs.drop_last().len() implies (#[trigger] inputs.drop_last()[k]).1.wf() by {
            assert(inputs.drop_last()[k] == inputs[k]);
        }
        lemma_aligned_lengths(inputs.drop_last(), ts);
        assert(inputs.last() == inputs[inputs.len() - 1]);
    }
}

/// Largest value of a row (0 for an empty row).
pub open spec fn row_max(r: Seq<u64>) -> int
    decreases r.len(),
{
    if r.len() == 0 {
        0
    } else {
        let m = row_max(r.drop_last());
        if r.last() > m {
            r.last() as int
        } else {
            m
        }
    }
}

/// Row `a` ranks before row `b` by size: a larger maximum, or an equal one
/// and an earlier position.
pub open spec fn size_before(keys: Seq<u64>, a: int, b: int) -> bool {
    keys[a] > keys[b] || (keys[a] == keys[b] && a < b)
}

/// Order of kept rows: by label, rows with equal labels by size rank.
pub open spec fn index_before(by_label: bool, keys: Seq<u64>, labels: Seq<Seq<char>>, a: int, b: int) -> bool {
    if by_label {
        label_lt(labels[a], labels[b]) || (labels[a] == labels[b] && size_before(keys, a, b))
    } else {
        size_before(keys, a, b)
    }
}

proof fn lemma_index_before_order(by_label: bool, keys: Seq<u64>, labels: Seq<Seq<char>>, a: int, b: int, c: int)
    ensures
        !index_before(by_label, keys, labels, a, a),
        a != b ==> index_before(by_label, keys, labels, a, b) || index_before(by_label, keys, labels, b, a),
        !(index_before(by_label, keys, labels, a, b) && index_before(by_label, keys, labels, b, a)),
        index_before(by_label, keys, labels, a, b) && index_before(by_label, keys, labels, b, c)
            ==> index_before(by_label, keys, labels, a, c),
{
    if by_label {
        lemma_label_lt_irreflexive(labels[a]);
        lemma_label_lt_total(labels[a], labels[b]);
        if index_before(by_label, keys, labels, a, b) && index_before(by_label, keys, labels, b, c) {
            if label_lt(labels[a], labels[b]) && label_lt(labels[b], labels[c]) {
                lemma_label_lt_transitive(labels[a], labels[b], labels[c]);
            }
        }
    }
}

/// Largest value of a row.
/// A row's size key is its largest value: no value of the row exceeds it,
/// and it is one of the row's values (0 for an empty row).
pub proof fn lemma_row_max_is_largest(r: Seq<u64>)
    ensures
        forall|i: int| 0 <= i < r.len() ==> r[i] <= row_max(r),
        r.len() > 0 ==> exists|i: int| 0 <= i < r.len() && r[i] == row_max(r),
        r.len() == 0 ==> row_max(r) == 0,
    decreases r.len(),
{
    if r.len() > 0 {
        let d = r.drop_last();
        lemma_row_max_is_largest(d);
        assert forall|i: int| 0 <= i < r.len() implies r[i] <= row_max(r) by {
            if i < r.len() - 1 {
                assert(r[i] == d[i]);
            }
        }
        if r.last() > row_max(d) {
            assert(r[r.len() - 1] == row_max(r));
        } else if d.len() > 0 {
            let i = choose|i: int| 0 <= i < d.len() && d[i] == row_max(d);
            assert(r[i] == d[i]);
        } else {
            assert(r[0] == r.last());
        }
    }
}

/// Every kept row ranks at least as high as every dropped row: each value of
/// a dropped row is at most some value of each kept row.
pub proof fn lemma_kept_rows_dominate(c: Curve, max_n: int, sel: Seq<usize>, p: int, j: int, x: int)
    requires
        c.wf(),
        top_selection(c, max_n, sel),
        0 <= p < max_n,
        0 <= j < c.y@.len(),
        !sel.contains(j as usize),
        0 <= x < c.y@[j]@.len(),
    ensures
        exists|z: int| 0 <= z < c.y@[sel[p] as int]@.len() && c.y@[sel[p] as int]@[z] >= c.y@[j]@[x],
{
    let kept = c.y@[sel[p] as int]@;
    let dropped = c.y@[j]@;
    assert(size_before(size_keys(c.y@), sel[p] as int, j));
    lemma_row_max_is_largest(kept);
    lemma_row_max_is_largest(dropped);
    assert(dropped[x] <= row_max(dropped));
    assert(row_max(dropped) <= u64::MAX);
    assert(row_max(kept) <= u64::MAX) by {
        if kept.len() > 0 {
            let z = choose|z: int| 0 <= z < kept.len() && kept[z] == row_max(kept);
        }
    }
    assert(size_keys(c.y@)[j] == row_max(dropped));
    assert(size_keys(c.y@)[sel[p] as int] == row_max(kept));
    assert(kept.len() == dropped.len());
    let z = choose|z: int| 0 <= z < kept.len() && kept[z] == row_max(kept);
    assert(kept[z] >= dropped[x]);
}

fn max_of_row(r: &Vec<u64>) -> (m: u64)
    ensures
        m == row_max(r@),
        forall|i: int| 0 <= i < r@.len() ==> r@[i] <= m,
        r@.len() > 0 ==> exists|i: int| 0 <= i < r@.len() && r@[i] == m,
{
    let mut m: u64 = 0;
    let mut i: usize = 0;
    while i < r.len()
        invariant
            i <= r@.len(),
            m == row_max(r@.take(i as int)),
        decreases r@.len() - i,
    {
        assert(r@.take(i + 1).drop_last() =~= r@.take(i as int));
        if r[i] > m {
            m = r[i];
        }
        i += 1;
    }
    assert(r@.take(r@.len() as int) =~= r@);
    proof {
        lemma_row_max_is_largest(r@);
    }
    m
}

fn index_before_exec(by_label: bool, keys: &Vec<u64>, labels: &Vec<String>, a: usize, b: usize) -> (r: bool)
    requires
        a < keys@.len(),
        b < keys@.len(),
        keys@.len() == labels@.len(),
    ensures
        r == index_before(by_label, keys@, label_views(labels@), a as int, b as int),
{
    let size = keys[a] > keys[b] || (keys[a] == keys[b] && a < b);
    if !by_label {
        return size;
    }
    let la = chars_of(labels[a].as_str());
    let lb = chars_of(labels[b].as_str());
    label_less(&la, &lb) || (chars_equal(&la, &lb) && size)
}

/// Sorts the distinct positions `idx` by `index_before`.
fn sort_indices(idx: &Vec<usize>, by_label: bool, keys: &Vec<u64>, labels: &Vec<String>) -> (out: Vec<usize>)
    requires
        keys@.len() == labels@.len(),
        forall|p: int| 0 <= p < idx@.len() ==> #[trigger] idx@[p] < keys@.len(),
        idx@.no_duplicates(),
    ensures
        out@.len() == idx@.len(),
        out@.no_duplicates(),
        forall|x: usize| #[trigger] out@.contains(x) <==> idx@.contains(x),
        forall|p: int, q: int|
            0 <= p < q < out@.len() ==> index_before(
                by_label,
                keys@,
                label_views(labels@),
                #[trigger] out@[p] as int,
                #[trigger] out@[q] as int,
            ),
{
    let ghost lv = label_views(labels@);
    let mut out: Vec<usize> = Vec::new();
    let mut k: usize = 0;
    while k < idx.len()
        invariant
            k <= idx@.len(),
            keys@.len() == labels@.len(),
            lv == label_views(labels@),
            forall|p: int| 0 <= p < idx@.len() ==> #[trigger] idx@[p] < keys@.len(),
            idx@.no_duplicates(),
            out@.len() == k,
            out@.no_duplicates(),
            forall|x: usize| #[trigger] out@.contains(x) <==> idx@.take(k as int).contains(x),
            forall|p: int, q: int|
                0 <= p < q < out@.len() ==> index_before(by_label, keys@, lv, #[trigger] out@[p] as int, #[trigger] out@[q] as int),
        decreases idx@.len() - k,
    {
        let x = idx[k];
        assert forall|p: int| 0 <= p < out@.len() implies #[trigger] out@[p] < keys@.len() by {
            assert(out@.contains(out@[p]));
            let i = choose|i: int| 0 <= i < k && #[trigger] idx@.take(k as int)[i] == out@[p];
            assert(idx@[i] == out@[p]);
        }
        assert(!out@.contains(x)) by {
            if out@.contains(x) {
                let i = choose|i: int| 0 <= i < k && #[trigger] idx@.take(k as int)[i] == x;
                assert(idx@[i] == idx@[k as int]);
            }
        }
        let mut p: usize = out.len();
        while p > 0 && index_before_exec(by_label, keys, labels, x, out[p - 1])
            invariant
                p <= out@.len(),
                x < keys@.len(),
                keys@.len() == labels@.len(),
                lv == label_views(labels@),
                forall|q: int| 0 <= q < out@.len() ==> #[trigger] out@[q] < keys@.len(),
                forall|q: int| p <= q < out@.len() ==> index_before(by_label, keys@, lv, x as int, #[trigger] out@[q] as int),
            decreases p,
        {
            p -= 1;
        }
        let ghost old_out = out@;
        proof {
            assert forall|q: int| 0 <= q < p implies index_before(by_label, keys@, lv, #[trigger] old_out[q] as int, x as int) by {
                let last = old_out[p - 1] as int;
                lemma_index_before_order(by_label, keys@, lv, last, x as int, last);
                assert(old_out.contains(old_out[p - 1]));
                assert(old_out[p - 1] != x);
                if q < p - 1 {
                    lemma_index_before_order(by_label, keys@, lv, old_out[q] as int, last, x as int);
                }
            }
        }
        out.insert(p, x);
        proof {
            assert forall|a: int, b: int| 0 <= a < b < out@.len() implies index_before(by_label, keys@, lv, #[trigger] out@[a] as int, #[trigger] out@[b] as int) by {
                if b < p {
                    assert(out@[a] == old_out[a] && out@[b] == old_out[b]);
                } else if a > p {
                    assert(out@[a] == old_out[a - 1] && out@[b] == old_out[b - 1]);
                } else if a == p {
                    assert(out@[b] == old_out[b - 1]);
                } else if b == p {
                    assert(out@[a] == old_out[a]);
                } else {
                    assert(out@[a] == old_out[a] && out@[b] == old_out[b - 1]);
                }
            }
            assert forall|y: usize| #[trigger] out@.contains(y) <==> idx@.take(k + 1).contains(y) by {
                if out@.contains(y) {
                    let i = choose|i: int| 0 <= i < out@.len() && #[trigger] out@[i] == y;
                    if i < p {
                        assert(old_out[i] == y);
                        assert(old_out.contains(y));
                        let j = choose|j: int| 0 <= j < k && #[trigger] idx@.take(k as int)[j] == y;
                        assert(idx@.take(k + 1)[j] == y);
                    } else if i > p {
                        assert(old_out[i - 1] == y);
                        assert(old_out.contains(y));
                        let j = choose|j: int| 0 <= j < k && #[trigger] idx@.take(k as int)[j] == y;
                        assert(idx@.take(k + 1)[j] == y);
                    } else {
                        assert(idx@.take(k + 1)[k as int] == y);
                    }
                }
                if idx@.take(k + 1).contains(y) {
                    let j = choose|j: int| 0 <= j < k + 1 && #[trigger] idx@.take(k + 1)[j] == y;
                    if j < k {
                        assert(idx@.take(k as int)[j] == y);
                        assert(old_out.contains(y));
                        let i = choose|i: int| 0 <= i < old_out.len() && #[trigger] old_out[i] == y;
                        if i < p {
                            assert(out@[i] == y);
                        } else {
                            assert(out@[i + 1] == y);
                        }
                    } else {
                        assert(out@[p as int] == y);
                    }
                }
            }
            assert forall|a: int, b: int| 0 <= a < out@.len() && 0 <= b < out@.len() && a != b implies out@[a] != out@[b] by {
                if a != p as int && b != p as int {
                    let a2 = if a < p { a } else { a - 1 };
                    let b2 = if b < p { b } else { b - 1 };
                    assert(out@[a] == old_out[a2] && out@[b] == old_out[b2]);
                } else if a == p as int {
                    let b2 = if b < p { b } else { b - 1 };
                    assert(out@[b] == old_out[b2]);
                    assert(old_out.contains(old_out[b2]));
                } else {
                    let a2 = if a < p { a } else { a - 1 };
                    assert(out@[a] == old_out[a2]);
                    assert(old_out.contains(old_out[a2]));
                }
            }
        }
        k += 1;
    }
    assert(idx@.take(idx@.len() as int) =~= idx@);
    out
}

/// Sum of column `i` over the rows whose positions are not in `kept`.
pub open spec fn dropped_total(y: Seq<Vec<u64>>, kept: Seq<usize>, i: int) -> int
    decreases y.len(),
{
    if y.len() == 0 {
        0
    } else {
        dropped_total(y.drop_last(), kept, i) + if kept.contains((y.len() - 1) as usize) {
            0
        } else {
            y.last()@[i] as int
        }
    }
}

/// Sum of column `i` over all rows.
pub open spec fn column_total(y: Seq<Vec<u64>>, i: int) -> int
    decreases y.len(),
{
    if y.len() == 0 {
        0
    } else {
        column_total(y.drop_last(), i) + y.last()@[i] as int
    }
}

proof fn lemma_dropped_le_total(y: Seq<Vec<u64>>, kept: Seq<usize>, i: int, k: int)
    requires
        0 <= k <= y.len(),
    ensures
        0 <= dropped_total(y.take(k), kept, i) <= column_total(y, i),
    decreases y.len(),
{
    if k == y.len() {
        assert(y.take(k) =~= y);
        lemma_dropped_le_total_full(y, kept, i);
    } else {
        assert(y.drop_last().take(k) =~= y.take(k));
        lemma_dropped_le_total(y.drop_last(), kept, i, k);
    }
}

proof fn lemma_dropped_le_total_full(y: Seq<Vec<u64>>, kept: Seq<usize>, i: int)
    ensures
        0 <= dropped_total(y, kept, i) <= column_total(y, i),
    decreases y.len(),
{
    if y.len() > 0 {
        lemma_dropped_le_total_full(y.drop_last(), kept, i);
    }
}

proof fn lemma_column_total_prefix(y: Seq<Vec<u64>>, i: int, k: int)
    requires
        0 <= k <= y.len(),
    ensures
        0 <= column_total(y.take(k), i) <= column_total(y, i),
    decreases y.len(),
{
    if k == y.len() {
        assert(y.take(k) =~= y);
        lemma_column_total_nonneg(y, i);
    } else {
        assert(y.drop_last().take(k) =~= y.take(k));
        lemma_column_total_prefix(y.drop_last(), i, k);
    }
}

proof fn lemma_column_total_nonneg(y: Seq<Vec<u64>>, i: int)
    ensures
        0 <= column_total(y, i),
    decreases y.len(),
{
    if y.len() > 0 {
        lemma_column_total_nonneg(y.drop_last(), i);
    }
}

/// The size ranking keys: each row's maximum.
pub open spec fn size_keys(y: Seq<Vec<u64>>) -> Seq<u64> {
    Seq::new(y.len(), |j: int| row_max(y[j]@) as u64)
}

/// `sel` lists the `max_n` rows that rank first by size (largest maximum,
/// ties by position), ordered by label (equal labels by size rank).
pub open spec fn top_selection(c: Curve, max_n: int, sel: Seq<usize>) -> bool {
    let n = c.y@.len();
    let keys = size_keys(c.y@);
    &&& sel.len() == max_n
    &&& sel.no_duplicates()
    &&& forall|p: int| 0 <= p < max_n ==> #[trigger] sel[p] < n
    &&& forall|p: int, j: int|
        0 <= p < max_n && 0 <= j < n && !sel.contains(j as usize) ==> #[trigger] size_before(keys, sel[p] as int, j)
    &&& forall|p: int, q: int|
        0 <= p < q < max_n ==> index_before(true, keys, label_views(c.labels@), #[trigger] sel[p] as int, #[trigger] sel[q] as int)
}

fn copy_row(r: &Vec<u64>) -> (out: Vec<u64>)
    ensures
        out@ == r@,
{
    let mut out: Vec<u64> = Vec::new();
    let mut i: usize = 0;
    while i < r.len()
        invariant
            i <= r@.len(),
            out@ == r@.take(i as int),
        decreases r@.len() - i,
    {
        out.push(r[i]);
        assert(r@.take(i + 1) =~= r@.take(i as int).push(r@[i as int]));
        i += 1;
    }
    assert(r@.take(r@.len() as int) =~= r@);
    out
}

impl Curve {
    /// Column-wise sums of the rows.
    pub fn column_sums(&self) -> (sums: Vec<u64>)
        requires
            self.wf(),
            forall|i: int| 0 <= i < self.ts@.len() ==> #[trigger] column_total(self.y@, i) <= u64::MAX,
        ensures
            sums@.len() == self.ts@.len(),
            forall|i: int| 0 <= i < self.ts@.len() ==> #[trigger] sums@[i] == column_total(self.y@, i),
    {
        let n = self.ts.len();
        let mut sums: Vec<u64> = Vec::new();
        let mut i: usize = 0;
        while i < n
            invariant
                n == self.ts@.len(),
                i <= n,
                sums@.len() == i,
                forall|q: int| 0 <= q < i ==> #[trigger] sums@[q] == 0,
            decreases n - i,
        {
            sums.push(0);
            i += 1;
        }
        assert forall|q: int| 0 <= q < n implies #[trigger] sums@[q] == column_total(self.y@.take(0), q) by {}
        let mut r: usize = 0;
        while r < self.y.len()
            invariant
                self.wf(),
                n == self.ts@.len(),
                r <= self.y@.len(),
                sums@.len() == n,
                forall|q: int| 0 <= q < n ==> #[trigger] column_total(self.y@, q) <= u64::MAX,
                forall|q: int| 0 <= q < n ==> #[trigger] sums@[q] == column_total(self.y@.take(r as int), q),
            decreases self.y@.len() - r,
        {
            let row = &self.y[r];
            assert(row@.len() == n);
            let mut i: usize = 0;
            while i < n
                invariant
                    self.wf(),
                    n == self.ts@.len(),
                    r < self.y@.len(),
                    *row == self.y@[r as int],
                    row@.len() == n,
                    i <= n,
                    sums@.len() == n,
                    forall|q: int| 0 <= q < n ==> #[trigger] column_total(self.y@, q) <= u64::MAX,
                    forall|q: int| 0 <= q < i ==> #[trigger] sums@[q] == column_total(self.y@.take(r + 1), q),
                    forall|q: int| i <= q < n ==> #[trigger] sums@[q] == column_total(self.y@.take(r as int), q),
                decreases n - i,
            {
                proof {
                    assert(self.y@.take(r + 1).drop_last() =~= self.y@.take(r as int));
                    lemma_column_total_prefix(self.y@, i as int, r + 1);
                }
                let v = sums[i] + row[i];
                sums.set(i, v);
                i += 1;
            }
            r += 1;
        }
        assert(self.y@.take(self.y@.len() as int) =~= self.y@);
        sums
    }

    /// Column-wise sums of the rows, or `None` when some column's sum does
    /// not fit in `u64`.
    pub fn checked_column_sums(&self) -> (r: Option<Vec<u64>>)
        requires
            self.wf(),
        ensures
            r is None <==> exists|i: int| 0 <= i < self.ts@.len() && #[trigger] column_total(self.y@, i) > u64::MAX,
            r matches Some(sums) ==> sums@.len() == self.ts@.len() && forall|i: int|
                0 <= i < self.ts@.len() ==> #[trigger] sums@[i] == column_total(self.y@, i),
    {
        let t = self.ts.len();
        let n = self.y.len();
        let mut sums: Vec<u64> = Vec::new();
        let mut i: usize = 0;
        while i < t
            invariant
                i <= t,
                sums@.len() == i,
                forall|q: int| 0 <= q < i ==> #[trigger] sums@[q] == 0,
            decreases t - i,
        {
            sums.push(0);
            i += 1;
        }
        assert(self.y@.take(0) =~= Seq::<Vec<u64>>::empty());
        let mut j: usize = 0;
        while j < n
            invariant
                self.wf(),
                n == self.y@.len(),
                t == self.ts@.len(),
                j <= n,
                sums@.len() == t,
                forall|q: int| 0 <= q < t ==> #[trigger] sums@[q] == column_total(self.y@.take(j as int), q),
            decreases n - j,
        {
            let row = &self.y[j];
            let mut i: usize = 0;
            while i < t
                invariant
                    self.wf(),
                    j < n == self.y@.len(),
                    t == self.ts@.len(),
                    *row == self.y@[j as int],
                    i <= t,
                    sums@.len() == t,
                    forall|q: int| 0 <= q < i ==> #[trigger] sums@[q] == column_total(self.y@.take(j + 1), q),
                    forall|q: int| i <= q < t ==> #[trigger] sums@[q] == column_total(self.y@.take(j as int), q),
                decreases t - i,
            {
                proof {
                    assert(self.y@.take(j + 1).drop_last() =~= self.y@.take(j as int));
                    assert(self.y@.take(j + 1).last() == self.y@[j as int]);
                }
                match sums[i].checked_add(row[i]) {
                    None => {
                        proof {
                            lemma_column_prefix_le(self.y@, j + 1, i as int);
                        }
                        return None;
                    },
                    Some(v) => {
                        sums.set(i, v);
                    },
                }
                i += 1;
            }
            j += 1;
        }
        assert(self.y@.take(n as int) =~= self.y@);
        assert forall|i: int| 0 <= i < self.ts@.len() implies #[trigger] column_total(self.y@, i) <= u64::MAX by {
            assert(sums@[i] == column_total(self.y@, i));
        }
        Some(sums)
    }

    /// Keeps the `max_n` rows with the largest maxima (ties by position),
    /// ordered by label; with `aggregate_other` the dropped rows are summed
    /// into a final row labelled `"other"`.  A curve with at most `max_n`
    /// rows is returned unchanged.
    pub fn top_n(self, max_n: usize, aggregate_other: bool) -> (out: Curve)
        requires
            self.wf(),
            aggregate_other ==> forall|i: int| 0 <= i < self.ts@.len() ==> #[trigger] column_total(self.y@, i) <= u64::MAX,
        ensures
            self.y@.len() <= max_n ==> out == self,
            self.y@.len() > max_n ==> exists|sel: Seq<usize>| {
                &&& #[trigger] top_selection(self, max_n as int, sel)
                &&& out.ts == self.ts
                &&& out.y@.len() == out.labels@.len()
                &&& out.y@.len() == if aggregate_other { max_n + 1 } else { max_n as int }
                &&& forall|p: int| 0 <= p < max_n ==> (#[trigger] out.y@[p])@ == self.y@[sel[p] as int]@
                &&& forall|p: int| 0 <= p < max_n ==> (#[trigger] out.labels@[p])@ == self.labels@[sel[p] as int]@
                &&& aggregate_other ==> {
                    &&& out.labels@[max_n as int]@ == seq!['o', 't', 'h', 'e', 'r']
                    &&& out.y@[max_n as int]@.len() == self.ts@.len()
                    &&& forall|i: int| 0 <= i < self.ts@.len() ==> #[trigger] out.y@[max_n as int]@[i] == dropped_total(self.y@, sel, i)
                }
            },
            aggregate_other ==> forall|i: int| 0 <= i < self.ts@.len() ==> #[trigger] column_total(out.y@, i) == column_total(self.y@, i),
            out.wf(),
    {
        let n = self.y.len();
        if n <= max_n {
            return self;
        }
        let mut keys: Vec<u64> = Vec::new();
        let mut all: Vec<usize> = Vec::new();
        let mut j: usize = 0;
        while j < n
            invariant
                n == self.y@.len(),
                j <= n,
                keys@ == size_keys(self.y@).take(j as int),
                all@.len() == j,
                forall|q: int| 0 <= q < j ==> #[trigger] all@[q] == q,
            decreases n - j,
        {
            let m = max_of_row(&self.y[j]);
            keys.push(m);
            all.push(j);
            assert(keys@ =~= size_keys(self.y@).take(j + 1));
            j += 1;
        }
        assert(keys@ =~= size_keys(self.y@));
        assert(all@.no_duplicates());
        let order = sort_indices(&all, false, &keys, &self.labels);
        let mut top: Vec<usize> = Vec::new();
        let mut p: usize = 0;
        while p < max_n
            invariant
                p <= max_n < n,
                order@.len() == n,
                top@ == order@.take(p as int),
            decreases max_n - p,
        {
            top.push(order[p]);
            assert(top@ =~= order@.take(p + 1));
            p += 1;
        }
        assert forall|a: int, b: int| 0 <= a < top@.len() && 0 <= b < top@.len() && a != b implies top@[a] != top@[b] by {
            assert(top@[a] == order@[a] && top@[b] == order@[b]);
        }
        assert forall|q: int| 0 <= q < top@.len() implies #[trigger] top@[q] < keys@.len() by {
            assert(top@[q] == order@[q]);
            assert(order@.contains(order@[q]));
            let i = choose|i: int| 0 <= i < all@.len() && #[trigger] all@[i] == order@[q];
        }
        let sel = sort_indices(&top, true, &keys, &self.labels);
        proof {
            assert forall|q: int, j: int|
                0 <= q < max_n && 0 <= j < n && !sel@.contains(j as usize) implies #[trigger] size_before(keys@, sel@[q] as int, j) by {
                assert(all@[j] == j as usize);
                assert(all@.contains(j as usize));
                assert(order@.contains(j as usize));
                let jj = choose|i: int| 0 <= i < order@.len() && #[trigger] order@[i] == j as usize;
                if jj < max_n {
                    assert(top@[jj] == j as usize);
                    assert(top@.contains(j as usize));
                }
                assert(sel@.contains(sel@[q]));
                assert(top@.contains(sel@[q]));
                let qq = choose|i: int| 0 <= i < top@.len() && #[trigger] top@[i] == sel@[q];
                assert(order@[qq] == sel@[q]);
                assert(index_before(false, keys@, label_views(self.labels@), order@[qq] as int, order@[jj] as int));
            }
            assert forall|q: int| 0 <= q < max_n implies #[trigger] sel@[q] < n by {
                assert(sel@.contains(sel@[q]));
            }
        }
        let mut kept: Vec<bool> = Vec::new();
        let mut j: usize = 0;
        while j < n
            invariant
                j <= n,
                kept@.len() == j,
                forall|q: int| 0 <= q < j ==> #[trigger] kept@[q] == sel@.contains(q as usize),
            decreases n - j,
        {
            let mut found = false;
            let mut q: usize = 0;
            while q < sel.len()
                invariant
                    q <= sel@.len(),
                    found == sel@.take(q as int).contains(j),
                decreases sel@.len() - q,
            {
                proof {
                    assert forall|x: usize| sel@.take(q + 1).contains(x) <==> (sel@.take(q as int).contains(x) || x == sel@[q as int]) by {
                        if sel@.take(q + 1).contains(x) {
                            let i = choose|i: int| 0 <= i < q + 1 && #[trigger] sel@.take(q + 1)[i] == x;
                            if i < q {
                                assert(sel@.take(q as int)[i] == x);
                            }
                        }
                        if sel@.take(q as int).contains(x) {
                            let i = choose|i: int| 0 <= i < q && #[trigger] sel@.take(q as int)[i] == x;
                            assert(sel@.take(q + 1)[i] == x);
                        }
                        if x == sel@[q as int] {
                            assert(sel@.take(q + 1)[q as int] == x);
                        }
                    }
                }
                if sel[q] == j {
                    found = true;
                }
                q += 1;
            }
            assert(sel@.take(sel@.len() as int) =~= sel@);
            kept.push(found);
            j += 1;
        }
        let ghost orig = self;
        let mut new_y: Vec<Vec<u64>> = Vec::new();
        let mut new_labels: Vec<String> = Vec::new();
        let mut p: usize = 0;
        while p < max_n
            invariant
                orig == self,
                self.wf(),
                n == self.y@.len(),
                p <= max_n < n,
                sel@.len() == max_n,
                forall|q: int| 0 <= q < max_n ==> #[trigger] sel@[q] < n,
                new_y@.len() == p,
                new_labels@.len() == p,
                forall|q: int| 0 <= q < p ==> (#[trigger] new_y@[q])@ == self.y@[sel@[q] as int]@,
                forall|q: int| 0 <= q < p ==> (#[trigger] new_labels@[q])@ == self.labels@[sel@[q] as int]@,
            decreases max_n - p,
        {
            let j = sel[p];
            new_y.push(copy_row(&self.y[j]));
            new_labels.push(self.labels[j].clone());
            p += 1;
        }
        if aggregate_other {
            let t = self.ts.len();
            let mut acc: Vec<u64> = Vec::new();
            let mut i: usize = 0;
            while i < t
                invariant
                    i <= t,
                    acc@.len() == i,
                    forall|q: int| 0 <= q < i ==> #[trigger] acc@[q] == 0,
                decreases t - i,
            {
                acc.push(0);
                i += 1;
            }
            let mut j: usize = 0;
            while j < n
                invariant
                    self.wf(),
                    n == self.y@.len(),
                    t == self.ts@.len(),
                    j <= n,
                    kept@.len() == n,
                    forall|q: int| 0 <= q < n ==> #[trigger] kept@[q] == sel@.contains(q as usize),
                    forall|i: int| 0 <= i < t ==> #[trigger] column_total(self.y@, i) <= u64::MAX,
                    acc@.len() == t,
                    forall|q: int| 0 <= q < t ==> #[trigger] acc@[q] == dropped_total(self.y@.take(j as int), sel@, q),
                decreases n - j,
            {
                proof {
                    assert(self.y@.take(j + 1).drop_last() =~= self.y@.take(j as int));
                }
                if !kept[j] {
                    let row = &self.y[j];
                    let mut i: usize = 0;
                    while i < t
                        invariant
                            self.wf(),
                            j < n == self.y@.len(),
                            t == self.ts@.len(),
                            *row == self.y@[j as int],
                            !sel@.contains(j as usize),
                            i <= t,
                            acc@.len() == t,
                            forall|i: int| 0 <= i < t ==> #[trigger] column_total(self.y@, i) <= u64::MAX,
                            forall|q: int| 0 <= q < i ==> #[trigger] acc@[q] == dropped_total(self.y@.take(j + 1), sel@, q),
                            forall|q: int| i <= q < t ==> #[trigger] acc@[q] == dropped_total(self.y@.take(j as int), sel@, q),
                        decreases t - i,
                    {
                        proof {
                            assert(self.y@.take(j + 1).drop_last() =~= self.y@.take(j as int));
                            lemma_dropped_le_total(self.y@, sel@, i as int, j + 1);
                        }
                        let v = acc[i] + row[i];
                        acc.set(i, v);
                        i += 1;
                    }
                }
                j += 1;
            }
            assert(self.y@.take(n as int) =~= self.y@);
            new_y.push(acc);
            new_labels.push(String::from_str("other"));
            proof {
                reveal_strlit("other");
            }
        }
        let out = Curve { y: new_y, ts: self.ts, labels: new_labels };
        proof {
            assert(top_selection(orig, max_n as int, sel@));
            assert forall|i: int| 0 <= i < out.y@.len() implies (#[trigger] out.y@[i])@.len() == out.ts@.len() by {
                if i < max_n {
                    assert(orig.y@[sel@[i] as int]@.len() == orig.ts@.len());
                }
            }
            if aggregate_other {
                assert forall|i: int| 0 <= i < orig.ts@.len() implies #[trigger] column_total(out.y@, i) == column_total(orig.y@, i) by {
                    lemma_other_keeps_column_totals(orig, max_n as int, sel@, out, i);
                }
            }
        }
        out
    }
}

proof fn lemma_column_prefix_le(y: Seq<Vec<u64>>, k: int, i: int)
    requires
        0 <= k <= y.len(),
    ensures
        column_total(y.take(k), i) <= column_total(y, i),
    decreases y.len(),
{
    if k == y.len() {
        assert(y.take(k) =~= y);
    } else {
        assert(y.drop_last().take(k) =~= y.take(k));
        lemma_column_prefix_le(y.drop_last(), k, i);
    }
}

/// Sum of column `i` over the rows listed in `sel`, in list order.
pub open spec fn listed_total(y: Seq<Vec<u64>>, sel: Seq<usize>, i: int) -> int
    decreases sel.len(),
{
    if sel.len() == 0 {
        0
    } else {
        listed_total(y, sel.drop_last(), i) + y[sel.last() as int]@[i] as int
    }
}

/// Sum of column `i` over the rows that `sel` lists.
pub open spec fn kept_total(y: Seq<Vec<u64>>, sel: Seq<usize>, i: int) -> int
    decreases y.len(),
{
    if y.len() == 0 {
        0
    } else {
        kept_total(y.drop_last(), sel, i) + if sel.contains((y.len() - 1) as usize) {
            y.last()@[i] as int
        } else {
            0
        }
    }
}

proof fn lemma_kept_plus_dropped(y: Seq<Vec<u64>>, sel: Seq<usize>, i: int)
    ensures
        column_total(y, i) == kept_total(y, sel, i) + dropped_total(y, sel, i),
    decreases y.len(),
{
    if y.len() > 0 {
        lemma_kept_plus_dropped(y.drop_last(), sel, i);
    }
}

proof fn lemma_kept_same_members(y: Seq<Vec<u64>>, a: Seq<usize>, b: Seq<usize>, i: int)
    requires
        forall|j: usize| j < y.len() ==> (#[trigger] a.contains(j) <==> b.contains(j)),
    ensures
        kept_total(y, a, i) == kept_total(y, b, i),
    decreases y.len(),
{
    if y.len() > 0 {
        lemma_kept_same_members(y.drop_last(), a, b, i);
        assert(a.contains((y.len() - 1) as usize) <==> b.contains((y.len() - 1) as usize));
    }
}

proof fn lemma_listed_same_rows(y: Seq<Vec<u64>>, z: Seq<Vec<u64>>, sel: Seq<usize>, i: int)
    requires
        forall|p: int| 0 <= p < sel.len() ==> (#[trigger] sel[p]) < y.len() && sel[p] < z.len() && y[sel[p] as int] == z[sel[p] as int],
    ensures
        listed_total(y, sel, i) == listed_total(z, sel, i),
    decreases sel.len(),
{
    if sel.len() > 0 {
        assert forall|p: int| 0 <= p < sel.drop_last().len() implies (#[trigger] sel.drop_last()[p]) < y.len()
            && sel.drop_last()[p] < z.len() && y[sel.drop_last()[p] as int] == z[sel.drop_last()[p] as int] by {
            assert(sel.drop_last()[p] == sel[p]);
        }
        lemma_listed_same_rows(y, z, sel.drop_last(), i);
        assert(sel.last() == sel[sel.len() - 1]);
    }
}

proof fn lemma_listed_remove(y: Seq<Vec<u64>>, sel: Seq<usize>, p: int, i: int)
    requires
        0 <= p < sel.len(),
    ensures
        listed_total(y, sel, i) == listed_total(y, sel.remove(p), i) + y[sel[p] as int]@[i] as int,
    decreases sel.len(),
{
    if p == sel.len() - 1 {
        assert(sel.remove(p) =~= sel.drop_last());
    } else {
        assert(sel.remove(p).drop_last() =~= sel.drop_last().remove(p));
        assert(sel.remove(p).last() == sel.last());
        assert(sel.drop_last()[p] == sel[p]);
        lemma_listed_remove(y, sel.drop_last(), p, i);
    }
}

proof fn lemma_listed_is_kept(y: Seq<Vec<u64>>, sel: Seq<usize>, i: int)
    requires
        y.len() <= usize::MAX,
        sel.no_duplicates(),
        forall|p: int| 0 <= p < sel.len() ==> (#[trigger] sel[p]) < y.len(),
    ensures
        listed_total(y, sel, i) == kept_total(y, sel, i),
    decreases y.len(),
{
    if y.len() == 0 {
        if sel.len() > 0 {
            assert(sel[0] < y.len());
        }
    } else {
        let m = (y.len() - 1) as usize;
        let rest = y.drop_last();
        if sel.contains(m) {
            let p = sel.index_of(m);
            let s2 = sel.remove(p);
            lemma_listed_remove(y, sel, p, i);
            assert(s2.no_duplicates()) by {
                assert forall|a: int, b: int| 0 <= a < b < s2.len() implies s2[a] != s2[b] by {
                    let a0 = if a < p { a } else { a + 1 };
                    let b0 = if b < p { b } else { b + 1 };
                    assert(s2[a] == sel[a0]);
                    assert(s2[b] == sel[b0]);
                }
            }
            assert forall|q: int| 0 <= q < s2.len() implies (#[trigger] s2[q]) < rest.len() by {
                let q0 = if q < p { q } else { q + 1 };
                assert(s2[q] == sel[q0]);
                assert(q0 != p);
            }
            assert forall|q: int| 0 <= q < s2.len() implies (#[trigger] s2[q]) < y.len() && s2[q] < rest.len()
                && y[s2[q] as int] == rest[s2[q] as int] by {}
            lemma_listed_same_rows(y, rest, s2, i);
            lemma_listed_is_kept(rest, s2, i);
            assert forall|j: usize| j < rest.len() implies (#[trigger] s2.contains(j) <==> sel.contains(j)) by {
                if sel.contains(j) {
                    let q = sel.index_of(j);
                    assert(q != p);
                    let q2 = if q < p { q } else { q - 1 };
                    assert(s2[q2] == j);
                }
                if s2.contains(j) {
                    let q = s2.index_of(j);
                    let q0 = if q < p { q } else { q + 1 };
                    assert(sel[q0] == j);
                }
            }
            lemma_kept_same_members(rest, s2, sel, i);
        } else {
            assert forall|q: int| 0 <= q < sel.len() implies (#[trigger] sel[q]) < rest.len() by {
                assert(sel[q] != m);
            }
            assert forall|q: int| 0 <= q < sel.len() implies (#[trigger] sel[q]) < y.len() && sel[q] < rest.len()
                && y[sel[q] as int] == rest[sel[q] as int] by {}
            lemma_listed_same_rows(y, rest, sel, i);
            lemma_listed_is_kept(rest, sel, i);
        }
    }
}

proof fn lemma_prefix_totals(out: Seq<Vec<u64>>, y: Seq<Vec<u64>>, sel: Seq<usize>, k: int, i: int)
    requires
        0 <= k <= sel.len(),
        k <= out.len(),
        forall|p: int| 0 <= p < sel.len() && p < out.len() ==> (#[trigger] out[p])@ == y[sel[p] as int]@,
    ensures
        column_total(out.take(k), i) == listed_total(y, sel.take(k), i),
    decreases k,
{
    if k > 0 {
        assert(out.take(k).drop_last() =~= out.take(k - 1));
        assert(sel.take(k).drop_last() =~= sel.take(k - 1));
        lemma_prefix_totals(out, y, sel, k - 1, i);
        assert(out.take(k).last() == out[k - 1]);
        assert(sel.take(k).last() == sel[k - 1]);
    }
}

/// Trimming with an `"other"` row keeps every column's total: the kept rows
/// and the `"other"` row add up to all the rows, so shares of the trimmed
/// curve's column totals are shares of the whole.
pub proof fn lemma_other_keeps_column_totals(c: Curve, max_n: int, sel: Seq<usize>, out: Curve, i: int)
    requires
        c.y@.len() <= usize::MAX,
        top_selection(c, max_n, sel),
        out.y@.len() == max_n + 1,
        forall|p: int| 0 <= p < max_n ==> (#[trigger] out.y@[p])@ == c.y@[sel[p] as int]@,
        out.y@[max_n]@[i] == dropped_total(c.y@, sel, i),
    ensures
        column_total(out.y@, i) == column_total(c.y@, i),
{
    let y = c.y@;
    assert(out.y@.drop_last() =~= out.y@.take(max_n));
    lemma_prefix_totals(out.y@, y, sel, max_n, i);
    assert(sel.take(max_n) =~= sel);
    lemma_listed_is_kept(y, sel, i);
    lemma_kept_plus_dropped(y, sel, i);
}

/// The name an input's curves are shown under: the name of its directory,
/// else its file stem, else `"input"`.
pub open spec fn source_name(dir_name: Option<Seq<char>>, file_stem: Option<Seq<char>>) -> Seq<char> {
    match dir_name {
        Some(d) if d.len() > 0 => d,
        _ => match file_stem {
            Some(s) => s,
            None => "input"@,
        },
    }
}

/// The name an input's curves are shown under (see `source_name`).
pub fn input_source(dir_name: Option<&str>, file_stem: Option<&str>) -> (r: String)
    ensures
        r@ == source_name(
            match dir_name {
                Some(d) => Some(d@),
                None => None,
            },
            match file_stem {
                Some(s) => Some(s@),
                None => None,
            },
        ),
{
    match dir_name {
        Some(d) => {
            if chars_of(d).len() > 0 {
                return String::from_str(d);
            }
        },
        None => {},
    }
    match file_stem {
        Some(s) => String::from_str(s),
        None => String::from_str("input"),
    }
}

} // verus!
