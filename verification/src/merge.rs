//! Results of analysing one repository, and the merge of several results
//! onto one shared timeline.

use vstd::prelude::*;

use crate::labelmap::{lemma_pos_of_entry, LabelMap};
use crate::text::chars_of;
use crate::timeline::{
    apply_positions, carry_positions, insert_time, latest_index, stable_sort_by_time,
    stable_time_sort_of, strictly_increasing, value_at,
};

verus! {

/// `[(unix_time, surviving_lines), ...]` for the lines of one commit.
pub type SurvivalSeries = Vec<(i64, u64)>;

/// The groupings of lines that curves are kept for.
#[derive(Clone, Copy, Debug, PartialEq, Eq, Structural)]
pub enum Category {
    Cohort,
    Ext,
    Author,
    Dir,
    Domain,
}

/// Curves of surviving lines per label, sampled at `timestamps` (unix
/// seconds), and the survival history of every commit, keyed by its id.
#[derive(Debug)]
pub struct AnalyzeResult {
    pub timestamps: Vec<i64>,
    pub cohorts: LabelMap<Vec<u64>>,
    pub exts: LabelMap<Vec<u64>>,
    pub authors: LabelMap<Vec<u64>>,
    pub dirs: LabelMap<Vec<u64>>,
    pub domains: LabelMap<Vec<u64>>,
    pub survival: LabelMap<SurvivalSeries>,
}

/// Errors of `merge_results`.
#[derive(Debug, PartialEq, Eq, Structural)]
pub enum MergeError {
    /// There was no result to merge.
    NoResults,
}

impl MergeError {
    /// Human-readable description.
    pub fn message(&self) -> (m: String)
        ensures
            m@ == "at least one result is required to merge"@,
    {
        String::from_str("at least one result is required to merge")
    }
}

impl AnalyzeResult {
    pub open spec fn curves_of(&self, c: Category) -> LabelMap<Vec<u64>> {
        match c {
            Category::Cohort => self.cohorts,
            Category::Ext => self.exts,
            Category::Author => self.authors,
            Category::Dir => self.dirs,
            Category::Domain => self.domains,
        }
    }

    /// The curves of one category.
    pub fn curves(&self, c: Category) -> (r: &LabelMap<Vec<u64>>)
        ensures
            *r == self.curves_of(c),
    {
        match c {
            Category::Cohort => &self.cohorts,
            Category::Ext => &self.exts,
            Category::Author => &self.authors,
            Category::Dir => &self.dirs,
            Category::Domain => &self.domains,
        }
    }

    /// Maps are sorted by label and every curve has a value for each sample
    /// time.
    pub open spec fn mergeable(&self) -> bool {
        &&& self.survival.wf()
        &&& forall|c: Category|
            {
                &&& (#[trigger] self.curves_of(c)).wf()
                &&& forall|k: int|
                    0 <= k < self.curves_of(c).entries@.len() ==> (#[trigger] self.curves_of(
                        c,
                    ).entries@[k]).1@.len() >= self.timestamps@.len()
            }
    }
}

/// Sum over `rs` of each result's curve for `l`, carried forward to time `t`.
pub open spec fn merged_value(rs: Seq<AnalyzeResult>, c: Category, l: Seq<char>, t: i64) -> int
    decreases rs.len(),
{
    if rs.len() == 0 {
        0
    } else {
        let m = rs.last().curves_of(c);
        merged_value(rs.drop_last(), c, l, t) + if m.has(l) {
            value_at(rs.last().timestamps@, m.at(l)@, t)
        } else {
            0
        }
    }
}

/// Concatenation, in result order, of the histories recorded under `sha`.
pub open spec fn merged_history(rs: Seq<AnalyzeResult>, sha: Seq<char>) -> Seq<(i64, u64)>
    decreases rs.len(),
{
    if rs.len() == 0 {
        Seq::empty()
    } else {
        merged_history(rs.drop_last(), sha) + if rs.last().survival.has(sha) {
            rs.last().survival.at(sha)@
        } else {
            Seq::empty()
        }
    }
}

/// Some result holds a sample at time `t`.
pub open spec fn sampled_somewhere(rs: Seq<AnalyzeResult>, t: i64) -> bool {
    exists|r: int| 0 <= r < rs.len() && (#[trigger] rs[r]).timestamps@.contains(t)
}

/// Some result has a curve labelled `l` in category `c`.
pub open spec fn labelled_somewhere(rs: Seq<AnalyzeResult>, c: Category, l: Seq<char>) -> bool {
    exists|r: int| 0 <= r < rs.len() && (#[trigger] rs[r]).curves_of(c).has(l)
}

/// Some result has a survival history for `sha`.
pub open spec fn tracked_somewhere(rs: Seq<AnalyzeResult>, sha: Seq<char>) -> bool {
    exists|r: int| 0 <= r < rs.len() && (#[trigger] rs[r]).survival.has(sha)
}

proof fn lemma_merged_value_monotone(rs: Seq<AnalyzeResult>, c: Category, l: Seq<char>, t: i64, a: int)
    requires
        0 <= a <= rs.len(),
    ensures
        0 <= merged_value(rs.take(a), c, l, t) <= merged_value(rs, c, l, t),
    decreases rs.len(),
{
    if a == rs.len() {
        assert(rs.take(a) =~= rs);
        lemma_merged_value_nonneg(rs, c, l, t);
    } else {
        assert(rs.drop_last().take(a) =~= rs.take(a));
        lemma_merged_value_monotone(rs.drop_last(), c, l, t, a);
        lemma_value_nonneg(rs.last(), c, l, t);
    }
}

proof fn lemma_value_nonneg(r: AnalyzeResult, c: Category, l: Seq<char>, t: i64)
    ensures
        r.curves_of(c).has(l) ==> value_at(r.timestamps@, r.curves_of(c).at(l)@, t) >= 0,
{
}

proof fn lemma_merged_value_nonneg(rs: Seq<AnalyzeResult>, c: Category, l: Seq<char>, t: i64)
    ensures
        merged_value(rs, c, l, t) >= 0,
    decreases rs.len(),
{
    if rs.len() > 0 {
        lemma_merged_value_nonneg(rs.drop_last(), c, l, t);
        lemma_value_nonneg(rs.last(), c, l, t);
    }
}

/// Sorted union of the sample times of all results.
fn merge_timestamps(results: &[AnalyzeResult]) -> (ts: Vec<i64>)
    ensures
        strictly_increasing(ts@),
        forall|t: i64| ts@.contains(t) <==> sampled_somewhere(results@, t),
{
    let mut ts: Vec<i64> = Vec::new();
    let mut r: usize = 0;
    while r < results.len()
        invariant
            r <= results@.len(),
            strictly_increasing(ts@),
            forall|t: i64| ts@.contains(t) <==> sampled_somewhere(results@.take(r as int), t),
        decreases results@.len() - r,
    {
        let src = &results[r].timestamps;
        let mut q: usize = 0;
        assert(src@.take(0) =~= Seq::<i64>::empty());
        while q < src.len()
            invariant
                r < results@.len(),
                *src == results@[r as int].timestamps,
                q <= src@.len(),
                strictly_increasing(ts@),
                forall|t: i64|
                    ts@.contains(t) <==> (sampled_somewhere(results@.take(r as int), t)
                        || src@.take(q as int).contains(t)),
            decreases src@.len() - q,
        {
            let ghost before = ts@;
            insert_time(&mut ts, src[q]);
            assert forall|t: i64| src@.take(q + 1).contains(t) <==> (src@.take(q as int).contains(t)
                || t == src@[q as int]) by {
                if src@.take(q + 1).contains(t) {
                    let i = choose|i: int| 0 <= i < q + 1 && #[trigger] src@.take(q + 1)[i] == t;
                    if i < q {
                        assert(src@.take(q as int)[i] == t);
                    }
                }
                if src@.take(q as int).contains(t) {
                    let i = choose|i: int| 0 <= i < q && #[trigger] src@.take(q as int)[i] == t;
                    assert(src@.take(q + 1)[i] == t);
                }
                if t == src@[q as int] {
                    assert(src@.take(q + 1)[q as int] == t);
                }
            }
            assert forall|t: i64|
                ts@.contains(t) <==> (sampled_somewhere(results@.take(r as int), t)
                    || src@.take(q + 1).contains(t)) by {
                assert(ts@.contains(t) <==> (before.contains(t) || t == src@[q as int]));
            }
            q += 1;
        }
        assert(src@.take(src@.len() as int) =~= src@);
        assert forall|t: i64| sampled_somewhere(results@.take(r + 1), t) <==> (sampled_somewhere(
            results@.take(r as int),
            t,
        ) || src@.contains(t)) by {
            if sampled_somewhere(results@.take(r + 1), t) {
                let j = choose|j: int|
                    0 <= j < r + 1 && (#[trigger] results@.take(r + 1)[j]).timestamps@.contains(t);
                if j < r {
                    assert(results@.take(r as int)[j] == results@.take(r + 1)[j]);
                }
            }
            if sampled_somewhere(results@.take(r as int), t) {
                let j = choose|j: int|
                    0 <= j < r && (#[trigger] results@.take(r as int)[j]).timestamps@.contains(t);
                assert(results@.take(r as int)[j] == results@.take(r + 1)[j]);
            }
            if src@.contains(t) {
                assert(results@.take(r + 1)[r as int] == results@[r as int]);
            }
        }
        r += 1;
    }
    assert(results@.take(results@.len() as int) =~= results@);
    ts
}

/// One of the first `e` entries of `m` is labelled `l`.
pub open spec fn among_first<V>(m: LabelMap<V>, e: int, l: Seq<char>) -> bool {
    exists|i: int| 0 <= i < e && #[trigger] m.entries@[i].0@ == l
}

/// Adds the labels of `m` to the label set `u`.
fn add_labels<V>(u: &mut LabelMap<()>, m: &LabelMap<V>)
    requires
        old(u).wf(),
    ensures
        final(u).wf(),
        forall|l: Seq<char>| final(u).has(l) <==> (old(u).has(l) || m.has(l)),
{
    let mut e: usize = 0;
    while e < m.entries.len()
        invariant
            e <= m.entries@.len(),
            u.wf(),
            forall|l: Seq<char>| u.has(l) <==> (old(u).has(l) || among_first(*m, e as int, l)),
        decreases m.entries@.len() - e,
    {
        let key = chars_of(m.entries[e].0.as_str());
        let ghost before = *u;
        assert(key@ == m.entries@[e as int].0@);
        match u.search(&key) {
            Ok(j) => {
                assert(u.entries@[j as int].0@ == key@);
                assert(u.has(key@));
                assert forall|l: Seq<char>| u.has(l) <==> (before.has(l) || l == key@) by {}
            },
            Err(i) => {
                u.insert_at(i, m.entries[e].0.clone(), ());
                assert forall|l: Seq<char>| u.has(l) <==> (before.has(l) || l == key@) by {
                    if u.has(l) {
                        let j = choose|j: int| 0 <= j < u.entries@.len() && #[trigger] u.entries@[j].0@ == l;
                        if j < i {
                            assert(before.entries@[j] == u.entries@[j]);
                        } else if j > i {
                            assert(before.entries@[j - 1] == u.entries@[j]);
                        }
                    }
                    if before.has(l) {
                        let j = choose|j: int| 0 <= j < before.entries@.len() && #[trigger] before.entries@[j].0@ == l;
                        if j < i {
                            assert(before.entries@[j] == u.entries@[j]);
                        } else {
                            assert(before.entries@[j] == u.entries@[j + 1]);
                        }
                    }
                    if l == key@ {
                        assert(u.entries@[i as int].0@ == l);
                    }
                }
            },
        }
        assert forall|l: Seq<char>|
            #[trigger] among_first(*m, e + 1, l) <==> (among_first(*m, e as int, l) || l == key@) by {
            if l == key@ {
                assert(m.entries@[e as int].0@ == l);
            }
        }
        assert forall|l: Seq<char>| u.has(l) <==> (old(u).has(l) || among_first(*m, e + 1, l)) by {
            assert(u.has(l) <==> (before.has(l) || l == key@));
            assert(before.has(l) <==> (old(u).has(l) || among_first(*m, e as int, l)));
            assert(among_first(*m, e + 1, l) <==> (among_first(*m, e as int, l) || l == key@));
        }
        e += 1;
    }
    assert forall|l: Seq<char>| among_first(*m, m.entries@.len() as int, l) <==> m.has(l) by {}
}

/// Sum, over all results, of the curve labelled `label` carried forward onto
/// `ts`.
#[verifier::loop_isolation(false)]
fn merged_row(
    results: &[AnalyzeResult],
    c: Category,
    label: &Vec<char>,
    ts: &Vec<i64>,
    positions: &Vec<Vec<Option<usize>>>,
) -> (row: Vec<u64>)
    requires
        forall|r: int| 0 <= r < results@.len() ==> (#[trigger] results@[r]).mergeable(),
        forall|t: i64| #[trigger] merged_value(results@, c, label@, t) <= u64::MAX,
        positions@.len() == results@.len(),
        forall|r: int|
            0 <= r < results@.len() ==> (#[trigger] positions@[r])@.len() == ts@.len() && forall|
                i: int,
            |
                0 <= i < ts@.len() ==> match #[trigger] positions@[r]@[i] {
                    Some(k) => k == latest_index(results@[r].timestamps@, ts@[i]),
                    None => latest_index(results@[r].timestamps@, ts@[i]) == -1,
                },
    ensures
        row@.len() == ts@.len(),
        forall|i: int| 0 <= i < ts@.len() ==> #[trigger] row@[i] == merged_value(results@, c, label@, ts@[i]),
{
    let mut row: Vec<u64> = Vec::new();
    let mut i: usize = 0;
    while i < ts.len()
        invariant
            i <= ts@.len(),
            row@.len() == i,
            forall|q: int| 0 <= q < i ==> #[trigger] row@[q] == 0,
        decreases ts@.len() - i,
    {
        row.push(0);
        i += 1;
    }
    let mut r: usize = 0;
    while r < results.len()
        invariant
            r <= results@.len(),
            row@.len() == ts@.len(),
            forall|q: int|
                0 <= q < ts@.len() ==> #[trigger] row@[q] == merged_value(results@.take(r as int), c, label@, ts@[q]),
        decreases results@.len() - r,
    {
        let m = results[r].curves(c);
        proof {
            assert(results@.take(r + 1).drop_last() =~= results@.take(r as int));
            assert(results@.take(r + 1).last() == results@[r as int]);
            assert(results@[r as int].mergeable());
            assert(m.wf());
        }
        match m.search(label) {
            Ok(k) => {
                proof {
                    lemma_pos_of_entry(m, k as int);
                    assert(m.entries@[k as int].1@.len() >= results@[r as int].timestamps@.len());
                }
                let add = apply_positions(&results[r].timestamps, &m.entries[k].1, ts, &positions[r]);
                let mut i: usize = 0;
                while i < row.len()
                    invariant
                        r < results@.len(),
                        i <= row@.len(),
                        row@.len() == ts@.len(),
                        add@.len() == ts@.len(),
                        m.has(label@),
                        *m == results@[r as int].curves_of(c),
                        forall|t: i64| #[trigger] merged_value(results@, c, label@, t) <= u64::MAX,
                        forall|q: int| 0 <= q < ts@.len() ==> #[trigger] add@[q] == value_at(results@[r as int].timestamps@, m.at(label@)@, ts@[q]),
                        forall|q: int|
                            0 <= q < i ==> #[trigger] row@[q] == merged_value(results@.take(r + 1), c, label@, ts@[q]),
                        forall|q: int|
                            i <= q < ts@.len() ==> #[trigger] row@[q] == merged_value(results@.take(r as int), c, label@, ts@[q]),
                    decreases row@.len() - i,
                {
                    proof {
                        assert(results@.take(r + 1).drop_last() =~= results@.take(r as int));
                        assert(results@.take(r + 1).last() == results@[r as int]);
                        lemma_merged_value_monotone(results@, c, label@, ts@[i as int], r + 1);
                        assert(merged_value(results@, c, label@, ts@[i as int]) <= u64::MAX);
                    }
                    let v = row[i] + add[i];
                    row.set(i, v);
                    i += 1;
                }
            },
            Err(_) => {
                proof {
                    if m.has(label@) {
                        let j = choose|j: int| 0 <= j < m.entries@.len() && #[trigger] m.entries@[j].0@ == label@;
                        crate::order::lemma_label_lt_irreflexive(label@);
                        assert(false);
                    }
                    assert forall|q: int| 0 <= q < ts@.len() implies #[trigger] row@[q] == merged_value(results@.take(r + 1), c, label@, ts@[q]) by {}
                }
            },
        }
        r += 1;
    }
    assert(results@.take(results@.len() as int) =~= results@);
    row
}

/// The set of labels that some result has in category `c` (or, for `None`,
/// in its survival histories).
fn label_union(results: &[AnalyzeResult], c: Option<Category>) -> (u: LabelMap<()>)
    ensures
        u.wf(),
        forall|l: Seq<char>|
            #[trigger] u.has(l) <==> match c {
                Some(c) => labelled_somewhere(results@, c, l),
                None => tracked_somewhere(results@, l),
            },
{
    let mut u: LabelMap<()> = LabelMap::new();
    let mut r: usize = 0;
    while r < results.len()
        invariant
            r <= results@.len(),
            u.wf(),
            forall|l: Seq<char>|
                #[trigger] u.has(l) <==> match c {
                    Some(c) => labelled_somewhere(results@.take(r as int), c, l),
                    None => tracked_somewhere(results@.take(r as int), l),
                },
        decreases results@.len() - r,
    {
        let ghost before = u;
        match c {
            Some(cat) => add_labels(&mut u, results[r].curves(cat)),
            None => add_labels(&mut u, &results[r].survival),
        }
        assert forall|l: Seq<char>|
            #[trigger] u.has(l) <==> match c {
                Some(c) => labelled_somewhere(results@.take(r + 1), c, l),
                None => tracked_somewhere(results@.take(r + 1), l),
            } by {
            let p = results@.take(r as int);
            let q = results@.take(r + 1);
            assert(q[r as int] == results@[r as int]);
            assert forall|j: int| 0 <= j < r implies #[trigger] q[j] == p[j] by {}
            match c {
                Some(cc) => {
                    if labelled_somewhere(q, cc, l) {
                        let j = choose|j: int| 0 <= j < q.len() && (#[trigger] q[j]).curves_of(cc).has(l);
                        if j < r {
                            assert(p[j] == q[j]);
                        }
                    }
                    if labelled_somewhere(p, cc, l) {
                        let j = choose|j: int| 0 <= j < p.len() && (#[trigger] p[j]).curves_of(cc).has(l);
                        assert(p[j] == q[j]);
                    }
                },
                None => {
                    if tracked_somewhere(q, l) {
                        let j = choose|j: int| 0 <= j < q.len() && (#[trigger] q[j]).survival.has(l);
                        if j < r {
                            assert(p[j] == q[j]);
                        }
                    }
                    if tracked_somewhere(p, l) {
                        let j = choose|j: int| 0 <= j < p.len() && (#[trigger] p[j]).survival.has(l);
                        assert(p[j] == q[j]);
                    }
                },
            }
        }
        r += 1;
    }
    assert(results@.take(results@.len() as int) =~= results@);
    u
}

/// The curves of category `c` of all results merged onto `ts`.
fn merge_curves(results: &[AnalyzeResult], c: Category, ts: &Vec<i64>) -> (out: LabelMap<Vec<u64>>)
    requires
        forall|r: int| 0 <= r < results@.len() ==> (#[trigger] results@[r]).mergeable(),
        forall|l: Seq<char>, t: i64| #[trigger] merged_value(results@, c, l, t) <= u64::MAX,
    ensures
        out.wf(),
        forall|l: Seq<char>| #[trigger] out.has(l) <==> labelled_somewhere(results@, c, l),
        forall|k: int|
            0 <= k < out.entries@.len() ==> (#[trigger] out.entries@[k]).1@.len() == ts@.len(),
        forall|k: int, i: int|
            0 <= k < out.entries@.len() && 0 <= i < ts@.len() ==> (#[trigger] out.entries@[k]).1@[i]
                == merged_value(results@, c, out.entries@[k].0@, #[trigger] ts@[i]),
{
    let mut positions: Vec<Vec<Option<usize>>> = Vec::new();
    let mut r: usize = 0;
    while r < results.len()
        invariant
            r <= results@.len(),
            positions@.len() == r,
            forall|q: int|
                0 <= q < r ==> (#[trigger] positions@[q])@.len() == ts@.len() && forall|i: int|
                    0 <= i < ts@.len() ==> match #[trigger] positions@[q]@[i] {
                        Some(k) => k == latest_index(results@[q].timestamps@, ts@[i]),
                        None => latest_index(results@[q].timestamps@, ts@[i]) == -1,
                    },
        decreases results@.len() - r,
    {
        positions.push(carry_positions(&results[r].timestamps, ts));
        r += 1;
    }
    let u = label_union(results, Some(c));
    let mut out: LabelMap<Vec<u64>> = LabelMap::new();
    let mut k: usize = 0;
    while k < u.entries.len()
        invariant
            k <= u.entries@.len(),
            u.wf(),
            forall|l: Seq<char>| #[trigger] u.has(l) <==> labelled_somewhere(results@, c, l),
            out.entries@.len() == k,
            forall|q: int| 0 <= q < k ==> (#[trigger] out.entries@[q]).0@ == u.entries@[q].0@,
            forall|q: int| 0 <= q < k ==> (#[trigger] out.entries@[q]).1@.len() == ts@.len(),
            forall|q: int, i: int|
                0 <= q < k && 0 <= i < ts@.len() ==> (#[trigger] out.entries@[q]).1@[i]
                    == merged_value(results@, c, out.entries@[q].0@, #[trigger] ts@[i]),
            forall|r: int| 0 <= r < results@.len() ==> (#[trigger] results@[r]).mergeable(),
            forall|l: Seq<char>, t: i64| #[trigger] merged_value(results@, c, l, t) <= u64::MAX,
            positions@.len() == results@.len(),
            forall|q: int|
                0 <= q < results@.len() ==> (#[trigger] positions@[q])@.len() == ts@.len() && forall|i: int|
                    0 <= i < ts@.len() ==> match #[trigger] positions@[q]@[i] {
                        Some(k) => k == latest_index(results@[q].timestamps@, ts@[i]),
                        None => latest_index(results@[q].timestamps@, ts@[i]) == -1,
                    },
        decreases u.entries@.len() - k,
    {
        let key = chars_of(u.entries[k].0.as_str());
        let row = merged_row(results, c, &key, ts, &positions);
        out.entries.push((u.entries[k].0.clone(), row));
        k += 1;
    }
    proof {
        assert forall|a: int, b: int| 0 <= a < b < out.labels().len() implies crate::order::label_lt(
            #[trigger] out.labels()[a],
            #[trigger] out.labels()[b],
        ) by {
            assert(u.labels()[a] == out.labels()[a]);
            assert(u.labels()[b] == out.labels()[b]);
        }
        assert forall|l: Seq<char>| #[trigger] out.has(l) <==> u.has(l) by {
            if out.has(l) {
                let j = choose|j: int| 0 <= j < out.entries@.len() && #[trigger] out.entries@[j].0@ == l;
                assert(u.entries@[j].0@ == l);
            }
            if u.has(l) {
                let j = choose|j: int| 0 <= j < u.entries@.len() && #[trigger] u.entries@[j].0@ == l;
                assert(out.entries@[j].0@ == l);
            }
        }
    }
    out
}

/// Appends a copy of `src` to `dst`.
fn append_history(dst: &mut SurvivalSeries, src: &SurvivalSeries)
    ensures
        final(dst)@ == old(dst)@ + src@,
{
    let mut i: usize = 0;
    while i < src.len()
        invariant
            i <= src@.len(),
            dst@ == old(dst)@ + src@.take(i as int),
        decreases src@.len() - i,
    {
        dst.push(src[i]);
        assert(old(dst)@ + src@.take(i + 1) =~= (old(dst)@ + src@.take(i as int)).push(src@[i as int]));
        i += 1;
    }
    assert(src@.take(src@.len() as int) =~= src@);
}

/// The survival histories of all results, merged per commit id.
fn merge_survival(results: &[AnalyzeResult]) -> (out: LabelMap<SurvivalSeries>)
    requires
        forall|r: int| 0 <= r < results@.len() ==> (#[trigger] results@[r]).mergeable(),
    ensures
        out.wf(),
        forall|l: Seq<char>| #[trigger] out.has(l) <==> tracked_somewhere(results@, l),
        forall|k: int|
            0 <= k < out.entries@.len() ==> stable_time_sort_of(
                (#[trigger] out.entries@[k]).1@,
                merged_history(results@, out.entries@[k].0@),
            ),
{
    let u = label_union(results, None);
    let mut out: LabelMap<SurvivalSeries> = LabelMap::new();
    let mut k: usize = 0;
    while k < u.entries.len()
        invariant
            k <= u.entries@.len(),
            u.wf(),
            forall|l: Seq<char>| #[trigger] u.has(l) <==> tracked_somewhere(results@, l),
            out.entries@.len() == k,
            forall|q: int| 0 <= q < k ==> (#[trigger] out.entries@[q]).0@ == u.entries@[q].0@,
            forall|q: int|
                0 <= q < k ==> stable_time_sort_of(
                    (#[trigger] out.entries@[q]).1@,
                    merged_history(results@, out.entries@[q].0@),
                ),
            forall|r: int| 0 <= r < results@.len() ==> (#[trigger] results@[r]).mergeable(),
        decreases u.entries@.len() - k,
    {
        let key = chars_of(u.entries[k].0.as_str());
        let mut all: SurvivalSeries = Vec::new();
        let mut r: usize = 0;
        while r < results.len()
            invariant
                r <= results@.len(),
                all@ == merged_history(results@.take(r as int), key@),
                forall|r: int| 0 <= r < results@.len() ==> (#[trigger] results@[r]).mergeable(),
            decreases results@.len() - r,
        {
            let m = &results[r].survival;
            proof {
                assert(results@.take(r + 1).drop_last() =~= results@.take(r as int));
                assert(results@.take(r + 1).last() == results@[r as int]);
                assert(results@[r as int].mergeable());
            }
            match m.search(&key) {
                Ok(j) => {
                    proof {
                        lemma_pos_of_entry(m, j as int);
                    }
                    append_history(&mut all, &m.entries[j].1);
                    assert(all@ =~= merged_history(results@.take(r + 1), key@));
                },
                Err(_) => {
                    proof {
                        if m.has(key@) {
                            let j = choose|j: int| 0 <= j < m.entries@.len() && #[trigger] m.entries@[j].0@ == key@;
                            crate::order::lemma_label_lt_irreflexive(key@);
                            assert(false);
                        }
                        assert(all@ =~= merged_history(results@.take(r + 1), key@));
                    }
                },
            }
            r += 1;
        }
        assert(results@.take(results@.len() as int) =~= results@);
        let sorted = stable_sort_by_time(&all);
        out.entries.push((u.entries[k].0.clone(), sorted));
        k += 1;
    }
    proof {
        assert forall|a: int, b: int| 0 <= a < b < out.labels().len() implies crate::order::label_lt(
            #[trigger] out.labels()[a],
            #[trigger] out.labels()[b],
        ) by {
            assert(u.labels()[a] == out.labels()[a]);
            assert(u.labels()[b] == out.labels()[b]);
        }
        assert forall|l: Seq<char>| #[trigger] out.has(l) <==> u.has(l) by {
            if out.has(l) {
                let j = choose|j: int| 0 <= j < out.entries@.len() && #[trigger] out.entries@[j].0@ == l;
                assert(u.entries@[j].0@ == l);
            }
            if u.has(l) {
                let j = choose|j: int| 0 <= j < u.entries@.len() && #[trigger] u.entries@[j].0@ == l;
                assert(out.entries@[j].0@ == l);
            }
        }
    }
    out
}

/// `m` combines the results `rs`: its timeline is the sorted union of their
/// sample times; each label of a category that some result has gets one curve,
/// the sum over the results holding that label of their curves, each carried
/// forward onto the shared timeline (0 before that result's first sample);
/// each commit id gets the concatenation of its histories in result order,
/// sorted stably by time.
pub open spec fn is_merge_of(m: AnalyzeResult, rs: Seq<AnalyzeResult>) -> bool {
    &&& strictly_increasing(m.timestamps@)
    &&& forall|t: i64| #[trigger] m.timestamps@.contains(t) <==> sampled_somewhere(rs, t)
    &&& forall|c: Category|
        {
            &&& (#[trigger] m.curves_of(c)).wf()
            &&& forall|l: Seq<char>| #[trigger] m.curves_of(c).has(l) <==> labelled_somewhere(rs, c, l)
            &&& forall|k: int|
                0 <= k < m.curves_of(c).entries@.len() ==> (#[trigger] m.curves_of(c).entries@[k]).1@.len()
                    == m.timestamps@.len()
            &&& forall|k: int, i: int|
                0 <= k < m.curves_of(c).entries@.len() && 0 <= i < m.timestamps@.len() ==> (
                #[trigger] m.curves_of(c).entries@[k]).1@[i] == merged_value(
                    rs,
                    c,
                    m.curves_of(c).entries@[k].0@,
                    #[trigger] m.timestamps@[i],
                )
        }
    &&& m.survival.wf()
    &&& forall|l: Seq<char>| #[trigger] m.survival.has(l) <==> tracked_somewhere(rs, l)
    &&& forall|k: int|
        0 <= k < m.survival.entries@.len() ==> stable_time_sort_of(
            (#[trigger] m.survival.entries@[k]).1@,
            merged_history(rs, m.survival.entries@[k].0@),
        )
}

/// Combines several repositories' results into one (see `is_merge_of`).
/// Fails when there is no result.
pub fn merge_results(results: &[AnalyzeResult]) -> (r: Result<AnalyzeResult, MergeError>)
    requires
        forall|i: int| 0 <= i < results@.len() ==> (#[trigger] results@[i]).mergeable(),
        forall|c: Category, l: Seq<char>, t: i64| #[trigger] merged_value(results@, c, l, t) <= u64::MAX,
    ensures
        results@.len() == 0 ==> r == Err::<AnalyzeResult, MergeError>(MergeError::NoResults),
        results@.len() > 0 ==> (r matches Ok(m) && is_merge_of(m, results@)),
{
    if results.len() == 0 {
        return Err(MergeError::NoResults);
    }
    let timestamps = merge_timestamps(results);
    let cohorts = merge_curves(results, Category::Cohort, &timestamps);
    let exts = merge_curves(results, Category::Ext, &timestamps);
    let authors = merge_curves(results, Category::Author, &timestamps);
    let dirs = merge_curves(results, Category::Dir, &timestamps);
    let domains = merge_curves(results, Category::Domain, &timestamps);
    let survival = merge_survival(results);
    let m = AnalyzeResult { timestamps, cohorts, exts, authors, dirs, domains, survival };
    assert forall|c: Category| #[trigger] m.curves_of(c).wf() by {}
    Ok(m)
}

} // verus!
