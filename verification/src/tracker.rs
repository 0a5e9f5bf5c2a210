//! Running state of an analysis while it walks the sampled commits in
//! chronological order: the line counts of every file still present, their
//! sum, and the curves and survival histories recorded so far.

use vstd::prelude::*;

use crate::analysis::{
    blame_list, changed, distinct_paths, lemma_blame_list_distinct, lemma_blame_list_paths, lemma_lookup_found,
    lemma_lookup_some, lemma_replaced_contains, lemma_vanished_contains, lookup, path_views, plan_of,
    replaced_paths, vanished_paths, CommitPlan, TreeEntry,
};
use crate::histogram::{lemma_seen_all, lemma_seen_step, seen_in, Histogram, KeyKind};
use crate::labelmap::{
    label_set, lemma_insert_at_value, lemma_insert_has, lemma_pos_of_entry, lemma_search_absent, LabelMap,
};
use crate::text::chars_of;
use crate::merge::{AnalyzeResult, Category};
use crate::timeline::strictly_increasing;

verus! {

/// The key kind a curve category counts under.
pub open spec fn kind_of(c: Category) -> KeyKind {
    match c {
        Category::Cohort => KeyKind::Cohort,
        Category::Ext => KeyKind::Ext,
        Category::Author => KeyKind::Author,
        Category::Dir => KeyKind::Dir,
        Category::Domain => KeyKind::Domain,
    }
}

/// Lines counted under `(k, l)` summed over the file histograms `files`.
pub open spec fn live_total(files: Seq<(String, Histogram)>, k: KeyKind, l: Seq<char>) -> int
    decreases files.len(),
{
    if files.len() == 0 {
        0
    } else {
        live_total(files.drop_last(), k, l) + files.last().1.count(k, l)
    }
}

/// The files whose path is not in `gone`, in their order.
pub open spec fn kept(files: Seq<(String, Histogram)>, gone: Seq<Seq<char>>) -> Seq<(String, Histogram)>
    decreases files.len(),
{
    if files.len() == 0 {
        Seq::empty()
    } else if gone.contains(files.last().0@) {
        kept(files.drop_last(), gone)
    } else {
        kept(files.drop_last(), gone).push(files.last())
    }
}

/// No blamed file is still present once the `gone` paths are withdrawn, and
/// no two blamed files share a path.
pub open spec fn fresh(live: LabelMap<Histogram>, gone: Seq<Seq<char>>, blamed: Seq<(String, Histogram)>) -> bool {
    &&& forall|i: int|
        0 <= i < blamed.len() ==> !(live.has((#[trigger] blamed[i]).0@) && !gone.contains(blamed[i].0@))
    &&& forall|i: int, j: int|
        0 <= i < j < blamed.len() ==> (#[trigger] blamed[i]).0@ != (#[trigger] blamed[j]).0@
}

pub proof fn lemma_live_total_nonneg(files: Seq<(String, Histogram)>, k: KeyKind, l: Seq<char>)
    ensures
        live_total(files, k, l) >= 0,
    decreases files.len(),
{
    if files.len() > 0 {
        lemma_live_total_nonneg(files.drop_last(), k, l);
    }
}

pub proof fn lemma_live_total_concat(a: Seq<(String, Histogram)>, b: Seq<(String, Histogram)>, k: KeyKind, l: Seq<char>)
    ensures
        live_total(a + b, k, l) == live_total(a, k, l) + live_total(b, k, l),
    decreases b.len(),
{
    if b.len() > 0 {
        assert((a + b).drop_last() =~= a + b.drop_last());
        assert((a + b).last() == b.last());
        lemma_live_total_concat(a, b.drop_last(), k, l);
    } else {
        assert(a + b =~= a);
    }
}

pub proof fn lemma_live_total_insert(s: Seq<(String, Histogram)>, i: int, x: (String, Histogram), k: KeyKind, l: Seq<char>)
    requires
        0 <= i <= s.len(),
    ensures
        live_total(s.insert(i, x), k, l) == live_total(s, k, l) + x.1.count(k, l),
{
    assert(s =~= s.take(i) + s.skip(i));
    assert(s.insert(i, x) =~= s.take(i) + (seq![x] + s.skip(i)));
    lemma_live_total_concat(s.take(i), s.skip(i), k, l);
    lemma_live_total_concat(s.take(i), seq![x] + s.skip(i), k, l);
    lemma_live_total_concat(seq![x], s.skip(i), k, l);
    lemma_live_total_single(x, k, l);
}

proof fn lemma_live_total_single(x: (String, Histogram), k: KeyKind, l: Seq<char>)
    ensures
        live_total(seq![x], k, l) == x.1.count(k, l),
{
    assert(seq![x].drop_last() =~= Seq::<(String, Histogram)>::empty());
    assert(live_total(Seq::<(String, Histogram)>::empty(), k, l) == 0);
}

pub proof fn lemma_live_total_skip(s: Seq<(String, Histogram)>, q: int, k: KeyKind, l: Seq<char>)
    requires
        0 <= q < s.len(),
    ensures
        live_total(s.skip(q), k, l) == s[q].1.count(k, l) + live_total(s.skip(q + 1), k, l),
{
    assert(s.skip(q) =~= seq![s[q]] + s.skip(q + 1));
    lemma_live_total_concat(seq![s[q]], s.skip(q + 1), k, l);
    lemma_live_total_single(s[q], k, l);
}

impl Tracker {
    /// The tracked state is consistent: the live files are keyed by distinct
    /// sorted paths, `totals` is the sum of their histograms, every curve has
    /// one value per recorded sample time, and every recorded survival count
    /// is positive.
    pub open spec fn wf(&self) -> bool {
        &&& self.live.wf()
        &&& forall|i: int| 0 <= i < self.live.entries@.len() ==> (#[trigger] self.live.entries@[i]).1.wf()
        &&& self.totals.wf()
        &&& forall|k: KeyKind, l: Seq<char>| #[trigger] self.totals.count(k, l) == live_total(self.live.entries@, k, l)
        &&& self.result.survival.wf()
        &&& forall|q: int, j: int|
            0 <= q < self.result.survival.entries@.len() && 0 <= j < self.result.survival.entries@[q].1@.len()
                ==> (#[trigger] self.result.survival.entries@[q].1@[j]).1 > 0
        &&& forall|c: Category|
            {
                &&& (#[trigger] self.result.curves_of(c)).wf()
                &&& forall|q: int|
                    0 <= q < self.result.curves_of(c).entries@.len() ==> (#[trigger] self.result.curves_of(c).entries@[q]).1@.len()
                        == self.result.timestamps@.len()
            }
    }
}

/// The state of an analysis between sampled commits.
#[derive(Debug)]
pub struct Tracker {
    /// Line counts of each file present at the last sampled commit, by path.
    pub live: LabelMap<Histogram>,
    /// Sum of the live files' counts.
    pub totals: Histogram,
    /// Curves and survival histories recorded so far.
    pub result: AnalyzeResult,
}

/// One empty curve for each distinct label of `labels`.
fn empty_rows(labels: &Vec<String>) -> (m: LabelMap<Vec<u64>>)
    ensures
        m.wf(),
        forall|l: Seq<char>| #[trigger] m.has(l) <==> exists|i: int| 0 <= i < labels@.len() && #[trigger] labels@[i]@ == l,
        forall|q: int| 0 <= q < m.entries@.len() ==> (#[trigger] m.entries@[q]).1@.len() == 0,
{
    let s = label_set(labels);
    let mut entries: Vec<(String, Vec<u64>)> = Vec::new();
    let mut i: usize = 0;
    while i < s.entries.len()
        invariant
            i <= s.entries@.len(),
            entries@.len() == i,
            forall|j: int| 0 <= j < i ==> (#[trigger] entries@[j]).0@ == s.entries@[j].0@ && entries@[j].1@.len() == 0,
        decreases s.entries@.len() - i,
    {
        entries.push((s.entries[i].0.clone(), Vec::new()));
        i += 1;
    }
    let m = LabelMap { entries };
    assert(m.labels() =~= s.labels());
    assert forall|l: Seq<char>| #[trigger] m.has(l) <==> s.has(l) by {
        if m.has(l) {
            let j = choose|j: int| 0 <= j < m.entries@.len() && #[trigger] m.entries@[j].0@ == l;
            assert(s.entries@[j].0@ == l);
        }
        if s.has(l) {
            let j = choose|j: int| 0 <= j < s.entries@.len() && #[trigger] s.entries@[j].0@ == l;
            assert(m.entries@[j].0@ == l);
        }
    }
    m
}

impl Tracker {
    /// A tracker before the first sampled commit, with one (empty) curve per
    /// distinct label given for each category.
    pub fn new(
        cohorts: &Vec<String>,
        exts: &Vec<String>,
        authors: &Vec<String>,
        dirs: &Vec<String>,
        domains: &Vec<String>,
    ) -> (t: Tracker)
        ensures
            t.wf(),
            chronological(t),
            t.live.entries@.len() == 0,
            t.result.timestamps@.len() == 0,
            t.result.survival.entries@.len() == 0,
            forall|l: Seq<char>| #[trigger] t.result.cohorts.has(l) <==> exists|i: int| 0 <= i < cohorts@.len() && #[trigger] cohorts@[i]@ == l,
            forall|l: Seq<char>| #[trigger] t.result.exts.has(l) <==> exists|i: int| 0 <= i < exts@.len() && #[trigger] exts@[i]@ == l,
            forall|l: Seq<char>| #[trigger] t.result.authors.has(l) <==> exists|i: int| 0 <= i < authors@.len() && #[trigger] authors@[i]@ == l,
            forall|l: Seq<char>| #[trigger] t.result.dirs.has(l) <==> exists|i: int| 0 <= i < dirs@.len() && #[trigger] dirs@[i]@ == l,
            forall|l: Seq<char>| #[trigger] t.result.domains.has(l) <==> exists|i: int| 0 <= i < domains@.len() && #[trigger] domains@[i]@ == l,
    {
        let result = AnalyzeResult {
            timestamps: Vec::new(),
            cohorts: empty_rows(cohorts),
            exts: empty_rows(exts),
            authors: empty_rows(authors),
            dirs: empty_rows(dirs),
            domains: empty_rows(domains),
            survival: LabelMap::new(),
        };
        let t = Tracker { live: LabelMap::new(), totals: Histogram::new(), result };
        assert forall|c: Category| #[trigger] t.result.curves_of(c).wf() by {}
        t
    }
}

/// Whether `l` is a label of `m`.
fn holds<V>(m: &LabelMap<V>, l: &Vec<char>) -> (r: bool)
    requires
        m.wf(),
    ensures
        r == m.has(l@),
{
    match m.search(l) {
        Ok(i) => {
            assert(m.entries@[i as int].0@ == l@);
            true
        },
        Err(i) => {
            proof {
                lemma_search_absent(*m, l@, i as int);
            }
            false
        },
    }
}

impl Tracker {
    /// Whether the blamed files satisfy `fresh` against the live files, with
    /// `gone` holding the withdrawn paths.
    fn check_fresh(&self, removed: &Vec<String>, gone: &LabelMap<()>, blamed: &Vec<(String, Histogram)>) -> (r: bool)
        requires
            self.live.wf(),
            gone.wf(),
            forall|p: Seq<char>| #[trigger] gone.has(p) <==> path_views(removed@).contains(p),
        ensures
            r == fresh(self.live, path_views(removed@), blamed@),
    {
        let ghost gone_paths = path_views(removed@);
        let mut seen: LabelMap<()> = LabelMap::new();
        let mut i: usize = 0;
        while i < blamed.len()
            invariant
                i <= blamed@.len(),
                self.live.wf(),
                gone.wf(),
                seen.wf(),
                gone_paths == path_views(removed@),
                forall|p: Seq<char>| #[trigger] gone.has(p) <==> gone_paths.contains(p),
                forall|p: Seq<char>| #[trigger] seen.has(p) <==> exists|j: int| 0 <= j < i && #[trigger] blamed@[j].0@ == p,
                forall|j: int| 0 <= j < i ==> !(self.live.has((#[trigger] blamed@[j]).0@) && !gone_paths.contains(blamed@[j].0@)),
                forall|a: int, b: int| 0 <= a < b < i ==> (#[trigger] blamed@[a]).0@ != (#[trigger] blamed@[b]).0@,
            decreases blamed@.len() - i,
        {
            let key = chars_of(blamed[i].0.as_str());
            let live_hit = holds(&self.live, &key);
            let gone_hit = holds(gone, &key);
            if live_hit && !gone_hit {
                assert(self.live.has(blamed@[i as int].0@) && !gone_paths.contains(blamed@[i as int].0@));
                return false;
            }
            match seen.search(&key) {
                Ok(_) => {
                    proof {
                        assert(seen.has(key@));
                        let j = choose|j: int| 0 <= j < i && #[trigger] blamed@[j].0@ == key@;
                        assert(blamed@[j].0@ == blamed@[i as int].0@);
                    }
                    return false;
                },
                Err(p) => {
                    let ghost before = seen;
                    seen.insert_at(p, blamed[i].0.clone(), ());
                    assert forall|l: Seq<char>| #[trigger] seen.has(l) <==> exists|j: int| 0 <= j < i + 1 && #[trigger] blamed@[j].0@ == l by {
                        lemma_insert_has(before, seen, p as int, (blamed@[i as int].0, ()), l);
                        if l == blamed@[i as int].0@ {
                            assert(blamed@[i as int].0@ == l);
                        }
                        if exists|j: int| 0 <= j < i + 1 && #[trigger] blamed@[j].0@ == l {
                            let j = choose|j: int| 0 <= j < i + 1 && #[trigger] blamed@[j].0@ == l;
                            if j < i {
                                assert(blamed@[j].0@ == l);
                            }
                        }
                    }
                    assert forall|a: int, b: int| 0 <= a < b < i + 1 implies (#[trigger] blamed@[a]).0@ != (#[trigger] blamed@[b]).0@ by {
                        if b == i && blamed@[a].0@ == blamed@[b].0@ {
                            assert(before.has(key@)) by {
                                assert(blamed@[a].0@ == key@);
                            }
                            lemma_search_absent(before, key@, p as int);
                        }
                    }
                },
            }
            i += 1;
        }
        true
    }
}

/// The files' total does not exceed the total of a longer list.
proof fn lemma_live_total_prefix(a: Seq<(String, Histogram)>, b: Seq<(String, Histogram)>, j: int, k: KeyKind, l: Seq<char>)
    requires
        0 <= j <= b.len(),
    ensures
        live_total(a + b.take(j), k, l) <= live_total(a + b, k, l),
{
    assert(b =~= b.take(j) + b.skip(j));
    lemma_live_total_concat(a, b.take(j), k, l);
    lemma_live_total_concat(a, b, k, l);
    lemma_live_total_concat(b.take(j), b.skip(j), k, l);
    lemma_live_total_nonneg(b.skip(j), k, l);
}

impl Tracker {
    /// The totals once the `gone` paths are withdrawn and the blamed files
    /// added; `None` when some count would not fit in `u64`.
    fn next_totals(&self, removed: &Vec<String>, gone: &LabelMap<()>, blamed: &Vec<(String, Histogram)>) -> (r: Option<Histogram>)
        requires
            self.wf(),
            gone.wf(),
            forall|p: Seq<char>| #[trigger] gone.has(p) <==> path_views(removed@).contains(p),
            forall|i: int| 0 <= i < blamed@.len() ==> (#[trigger] blamed@[i]).1.wf(),
        ensures
            r is None <==> exists|k: KeyKind, l: Seq<char>|
                #[trigger] live_total(kept(self.live.entries@, path_views(removed@)) + blamed@, k, l) > u64::MAX,
            r matches Some(t) ==> t.wf() && forall|k: KeyKind, l: Seq<char>|
                #[trigger] t.count(k, l) == live_total(kept(self.live.entries@, path_views(removed@)) + blamed@, k, l),
    {
        let ghost g = path_views(removed@);
        let ghost old_e = self.live.entries@;
        let mut t = self.totals.copy();
        let mut q: usize = 0;
        proof {
            assert(old_e.take(0) =~= Seq::<(String, Histogram)>::empty());
            assert(old_e.skip(0) =~= old_e);
        }
        while q < self.live.entries.len()
            invariant
                self.wf(),
                gone.wf(),
                g == path_views(removed@),
                old_e == self.live.entries@,
                forall|p: Seq<char>| #[trigger] gone.has(p) <==> g.contains(p),
                q <= old_e.len(),
                t.wf(),
                forall|k: KeyKind, l: Seq<char>|
                    #[trigger] t.count(k, l) == live_total(kept(old_e.take(q as int), g), k, l) + live_total(old_e.skip(q as int), k, l),
            decreases old_e.len() - q,
        {
            let e = &self.live.entries[q as usize];
            let key = chars_of(e.0.as_str());
            proof {
                assert(old_e.take(q + 1).drop_last() =~= old_e.take(q as int));
                assert(old_e.take(q + 1).last() == old_e[q as int]);
                assert(e.1.wf());
            }
            if holds(gone, &key) {
                assert forall|k: KeyKind, l: Seq<char>| #[trigger] t.count(k, l) >= e.1.count(k, l) by {
                    lemma_live_total_skip(old_e, q as int, k, l);
                    lemma_live_total_nonneg(kept(old_e.take(q as int), g), k, l);
                    lemma_live_total_nonneg(old_e.skip(q + 1), k, l);
                }
                t.sub_counts(&e.1);
                assert forall|k: KeyKind, l: Seq<char>|
                    #[trigger] t.count(k, l) == live_total(kept(old_e.take(q + 1), g), k, l) + live_total(old_e.skip(q + 1), k, l) by {
                    lemma_live_total_skip(old_e, q as int, k, l);
                }
            } else {
                assert forall|k: KeyKind, l: Seq<char>|
                    #[trigger] t.count(k, l) == live_total(kept(old_e.take(q + 1), g), k, l) + live_total(old_e.skip(q + 1), k, l) by {
                    lemma_live_total_skip(old_e, q as int, k, l);
                    assert(kept(old_e.take(q + 1), g).drop_last() =~= kept(old_e.take(q as int), g));
                }
            }
            q += 1;
        }
        let ghost base = kept(old_e, g);
        proof {
            assert(old_e.take(old_e.len() as int) =~= old_e);
            assert(old_e.skip(old_e.len() as int) =~= Seq::<(String, Histogram)>::empty());
            assert(blamed@.take(0) =~= Seq::<(String, Histogram)>::empty());
            assert(base + blamed@.take(0) =~= base);
        }
        let mut i: usize = 0;
        while i < blamed.len()
            invariant
                i <= blamed@.len(),
                t.wf(),
                base == kept(self.live.entries@, path_views(removed@)),
                forall|j: int| 0 <= j < blamed@.len() ==> (#[trigger] blamed@[j]).1.wf(),
                forall|k: KeyKind, l: Seq<char>| #[trigger] t.count(k, l) == live_total(base + blamed@.take(i as int), k, l),
            decreases blamed@.len() - i,
        {
            proof {
                assert(blamed@[i as int].1.wf());
                assert((base + blamed@.take(i + 1)).drop_last() =~= base + blamed@.take(i as int));
                assert((base + blamed@.take(i + 1)).last() == blamed@[i as int]);
            }
            if !t.can_add(&blamed[i].1) {
                proof {
                    let (k, l) = choose|k: KeyKind, l: Seq<char>| !(#[trigger] t.count(k, l) + blamed@[i as int].1.count(k, l) <= u64::MAX);
                    lemma_live_total_prefix(base, blamed@, i + 1, k, l);
                    assert(live_total(base + blamed@, k, l) > u64::MAX);
                }
                return None;
            }
            t.add_counts(&blamed[i].1);
            i += 1;
        }
        proof {
            assert(blamed@.take(blamed@.len() as int) =~= blamed@);
            assert forall|k: KeyKind, l: Seq<char>| !(#[trigger] live_total(base + blamed@, k, l) > u64::MAX) by {
                assert(t.count(k, l) == live_total(base + blamed@, k, l));
            }
        }
        Some(t)
    }
}

/// Appends to each curve of `m` the count its label has in `totals` under
/// key kind `k`.
fn push_counts(m: &mut LabelMap<Vec<u64>>, totals: &Histogram, k: KeyKind)
    requires
        old(m).wf(),
        totals.wf(),
    ensures
        final(m).wf(),
        final(m).entries@.len() == old(m).entries@.len(),
        forall|q: int|
            0 <= q < old(m).entries@.len() ==> (#[trigger] final(m).entries@[q]).0 == old(m).entries@[q].0
                && final(m).entries@[q].1@ == old(m).entries@[q].1@.push(totals.count(k, old(m).entries@[q].0@) as u64),
{
    let ghost start = *m;
    let mut q: usize = 0;
    while q < m.entries.len()
        invariant
            totals.wf(),
            q <= m.entries@.len(),
            m.entries@.len() == start.entries@.len(),
            forall|j: int| 0 <= j < m.entries@.len() ==> (#[trigger] m.entries@[j]).0 == start.entries@[j].0,
            forall|j: int| 0 <= j < q ==> (#[trigger] m.entries@[j]).1@ == start.entries@[j].1@.push(totals.count(k, start.entries@[j].0@) as u64),
            forall|j: int| q <= j < m.entries@.len() ==> (#[trigger] m.entries@[j]).1@ == start.entries@[j].1@,
        decreases m.entries@.len() - q,
    {
        let c = totals.get(k, m.entries[q].0.as_str());
        m.entries[q].1.push(c);
        q += 1;
    }
    assert(m.labels() =~= start.labels());
}

/// Drops from `live` the files whose path `gone` holds, keeping the order of
/// the others.
fn withdraw_paths(live: &mut LabelMap<Histogram>, removed: &Vec<String>, gone: &LabelMap<()>)
    requires
        old(live).wf(),
        forall|i: int| 0 <= i < old(live).entries@.len() ==> (#[trigger] old(live).entries@[i]).1.wf(),
        gone.wf(),
        forall|p: Seq<char>| #[trigger] gone.has(p) <==> path_views(removed@).contains(p),
    ensures
        final(live).wf(),
        forall|i: int| 0 <= i < final(live).entries@.len() ==> (#[trigger] final(live).entries@[i]).1.wf(),
        final(live).entries@ == kept(old(live).entries@, path_views(removed@)),
{
    let ghost g = path_views(removed@);
    let ghost old_e = live.entries@;
    let n = live.entries.len();
    let mut q: usize = 0;
    let mut w: usize = 0;
    proof {
        assert(old_e.take(0) =~= Seq::<(String, Histogram)>::empty());
        assert(old_e.skip(0) =~= old_e);
        assert(kept(old_e.take(0), g) + old_e.skip(0) =~= old_e);
    }
    while q < n
        invariant
            live.wf(),
            gone.wf(),
            g == path_views(removed@),
            forall|p: Seq<char>| #[trigger] gone.has(p) <==> g.contains(p),
            n == old_e.len(),
            q <= n,
            forall|i: int| 0 <= i < old_e.len() ==> (#[trigger] old_e[i]).1.wf(),
            live.entries@ == kept(old_e.take(q as int), g) + old_e.skip(q as int),
            w == kept(old_e.take(q as int), g).len(),
        decreases n - q,
    {
        proof {
            assert(old_e.take(q + 1).drop_last() =~= old_e.take(q as int));
            assert(old_e.take(q + 1).last() == old_e[q as int]);
            assert(live.entries@[w as int] == old_e[q as int]);
        }
        // Read the length so that `w + 1` is known to fit in `usize`.
        let live_len = live.entries.len();
        let key = chars_of(live.entries[w].0.as_str());
        if holds(gone, &key) {
            live.remove_at(w);
            assert(live.entries@ =~= kept(old_e.take(q + 1), g) + old_e.skip(q + 1));
        } else {
            assert(kept(old_e.take(q as int), g).push(old_e[q as int]) + old_e.skip(q + 1) =~= kept(old_e.take(q as int), g) + old_e.skip(q as int));
            assert(w < live_len);
            w += 1;
        }
        q += 1;
    }
    proof {
        assert(old_e.take(n as int) =~= old_e);
        assert(live.entries@ =~= kept(old_e, g));
        assert forall|i: int| 0 <= i < live.entries@.len() implies (#[trigger] live.entries@[i]).1.wf() by {
            lemma_kept_from(old_e, g, i);
        }
    }
}

/// Every kept file is one of the files.
proof fn lemma_kept_from(files: Seq<(String, Histogram)>, gone: Seq<Seq<char>>, i: int)
    requires
        0 <= i < kept(files, gone).len(),
    ensures
        exists|j: int| 0 <= j < files.len() && files[j] == #[trigger] kept(files, gone)[i],
    decreases files.len(),
{
    if files.len() > 0 {
        let d = files.drop_last();
        if i < kept(d, gone).len() {
            lemma_kept_from(d, gone, i);
            let j = choose|j: int| 0 <= j < d.len() && d[j] == #[trigger] kept(d, gone)[i];
            assert(files[j] == kept(files, gone)[i]);
        } else {
            assert(files[files.len() - 1] == kept(files, gone)[i]);
        }
    }
}

/// Adds the blamed files, none of them present yet and no two with the same
/// path, to `live`.
fn admit_files(live: &mut LabelMap<Histogram>, blamed: Vec<(String, Histogram)>)
    requires
        old(live).wf(),
        forall|i: int| 0 <= i < old(live).entries@.len() ==> (#[trigger] old(live).entries@[i]).1.wf(),
        forall|i: int| 0 <= i < blamed@.len() ==> (#[trigger] blamed@[i]).1.wf(),
        forall|i: int| 0 <= i < blamed@.len() ==> !old(live).has((#[trigger] blamed@[i]).0@),
        forall|i: int, j: int| 0 <= i < j < blamed@.len() ==> (#[trigger] blamed@[i]).0@ != (#[trigger] blamed@[j]).0@,
    ensures
        final(live).wf(),
        forall|i: int| 0 <= i < final(live).entries@.len() ==> (#[trigger] final(live).entries@[i]).1.wf(),
        forall|k: KeyKind, l: Seq<char>|
            #[trigger] live_total(final(live).entries@, k, l) == live_total(old(live).entries@, k, l) + live_total(blamed@, k, l),
        forall|p: Seq<char>|
            #[trigger] final(live).has(p) <==> (old(live).has(p) || exists|i: int| 0 <= i < blamed@.len() && #[trigger] blamed@[i].0@ == p),
        forall|i: int| 0 <= i < blamed@.len() ==> #[trigger] final(live).at(blamed@[i].0@) == blamed@[i].1,
        forall|p: Seq<char>| old(live).has(p) ==> #[trigger] final(live).at(p) == old(live).at(p),
{
    let ghost orig = blamed@;
    let ghost start = *live;
    let mut blamed = blamed;
    proof {
        assert(orig.take(orig.len() as int) =~= orig);
        assert(orig.skip(orig.len() as int) =~= Seq::<(String, Histogram)>::empty());
    }
    while blamed.len() > 0
        invariant
            blamed@ == orig.take(blamed@.len() as int),
            blamed@.len() <= orig.len(),
            live.wf(),
            start.wf(),
            forall|i: int| 0 <= i < live.entries@.len() ==> (#[trigger] live.entries@[i]).1.wf(),
            forall|i: int| 0 <= i < orig.len() ==> (#[trigger] orig[i]).1.wf(),
            forall|i: int| 0 <= i < orig.len() ==> !start.has((#[trigger] orig[i]).0@),
            forall|i: int, j: int| 0 <= i < j < orig.len() ==> (#[trigger] orig[i]).0@ != (#[trigger] orig[j]).0@,
            forall|k: KeyKind, l: Seq<char>|
                #[trigger] live_total(live.entries@, k, l) == live_total(start.entries@, k, l) + live_total(orig.skip(blamed@.len() as int), k, l),
            forall|p: Seq<char>|
                #[trigger] live.has(p) <==> (start.has(p) || exists|i: int| blamed@.len() <= i < orig.len() && #[trigger] orig[i].0@ == p),
            forall|i: int| blamed@.len() <= i < orig.len() ==> #[trigger] live.at(orig[i].0@) == orig[i].1,
            forall|p: Seq<char>| start.has(p) ==> #[trigger] live.at(p) == start.at(p),
        decreases blamed@.len(),
    {
        let ghost b = blamed@.len() - 1;
        let e = blamed.pop().unwrap();
        proof {
            assert(e == orig[b]);
            assert(blamed@ =~= orig.take(b));
        }
        let key = chars_of(e.0.as_str());
        match live.search(&key) {
            Ok(i) => {
                proof {
                    assert(live.has(key@)) by {
                        assert(live.entries@[i as int].0@ == key@);
                    }
                    let j = choose|j: int| b + 1 <= j < orig.len() && #[trigger] orig[j].0@ == key@;
                    assert(orig[b].0@ != orig[j].0@);
                }
            },
            Err(p) => {
                let ghost before = *live;
                live.insert_at(p, e.0, e.1);
                proof {
                    assert forall|k: KeyKind, l: Seq<char>|
                        #[trigger] live_total(live.entries@, k, l) == live_total(start.entries@, k, l) + live_total(orig.skip(b), k, l) by {
                        lemma_live_total_insert(before.entries@, p as int, orig[b], k, l);
                        lemma_live_total_skip(orig, b, k, l);
                    }
                    assert forall|l: Seq<char>|
                        #[trigger] live.has(l) <==> (start.has(l) || exists|i: int| b <= i < orig.len() && #[trigger] orig[i].0@ == l) by {
                        lemma_insert_has(before, *live, p as int, orig[b], l);
                        if l == orig[b].0@ {
                            assert(orig[b].0@ == l);
                        }
                        if exists|i: int| b <= i < orig.len() && #[trigger] orig[i].0@ == l {
                            let i = choose|i: int| b <= i < orig.len() && #[trigger] orig[i].0@ == l;
                            if i > b {
                                assert(orig[i].0@ == l);
                            }
                        }
                    }
                    assert forall|i: int| b <= i < orig.len() implies #[trigger] live.at(orig[i].0@) == orig[i].1 by {
                        if i == b {
                            lemma_pos_of_entry(live, p as int);
                        } else {
                            assert(orig[b].0@ != orig[i].0@);
                            assert(before.has(orig[i].0@)) by {
                                assert(orig[i].0@ == orig[i].0@);
                            }
                            lemma_insert_at_value(before, *live, p as int, orig[b], orig[i].0@);
                        }
                    }
                    assert forall|l: Seq<char>| start.has(l) implies #[trigger] live.at(l) == start.at(l) by {
                        assert(before.has(l));
                        if l == orig[b].0@ {
                            assert(!start.has(orig[b].0@));
                        }
                        lemma_insert_at_value(before, *live, p as int, orig[b], l);
                    }
                    assert forall|i: int| 0 <= i < live.entries@.len() implies (#[trigger] live.entries@[i]).1.wf() by {
                        if i < p {
                            assert(live.entries@[i] == before.entries@[i]);
                        } else if i > p {
                            assert(live.entries@[i] == before.entries@[i - 1]);
                        }
                    }
                }
            },
        }
    }
}

/// History recorded for `l` before a sample, empty when there was none.
pub open spec fn history_before(surv: LabelMap<Vec<(i64, u64)>>, l: Seq<char>) -> Seq<(i64, u64)> {
    if surv.has(l) {
        surv.at(l)@
    } else {
        Seq::empty()
    }
}

/// The point a sample at `ts` adds to the history of commit `l`: none when
/// no line of that commit survives.
pub open spec fn survival_point(totals: Histogram, ts: i64, l: Seq<char>) -> Seq<(i64, u64)> {
    if totals.count(KeyKind::Sha, l) > 0 {
        seq![(ts, totals.count(KeyKind::Sha, l) as u64)]
    } else {
        Seq::empty()
    }
}

/// Appends `(ts, n)` to the history of every commit with `n > 0` surviving
/// lines in `totals`.
fn record_survival(surv: &mut LabelMap<Vec<(i64, u64)>>, totals: &Histogram, ts: i64)
    requires
        old(surv).wf(),
        totals.wf(),
        forall|q: int, j: int|
            0 <= q < old(surv).entries@.len() && 0 <= j < old(surv).entries@[q].1@.len() ==> (#[trigger] old(surv).entries@[q].1@[j]).1 > 0,
    ensures
        final(surv).wf(),
        forall|l: Seq<char>| #[trigger] final(surv).has(l) <==> (old(surv).has(l) || totals.count(KeyKind::Sha, l) > 0),
        forall|l: Seq<char>|
            #[trigger] final(surv).has(l) ==> final(surv).at(l)@ == history_before(*old(surv), l) + survival_point(*totals, ts, l),
        forall|q: int, j: int|
            0 <= q < final(surv).entries@.len() && 0 <= j < final(surv).entries@[q].1@.len() ==> (#[trigger] final(surv).entries@[q].1@[j]).1 > 0,
{
    let ghost start = *surv;
    let shas = totals.map(KeyKind::Sha);
    assert(shas.wf());
    let mut e: usize = 0;
    while e < shas.entries.len()
        invariant
            totals.wf(),
            *shas == totals.of(KeyKind::Sha),
            shas.wf(),
            start.wf(),
            surv.wf(),
            e <= shas.entries@.len(),
            forall|l: Seq<char>| #[trigger] surv.has(l) <==> (start.has(l) || (seen_in(*shas, e as int, l) && totals.count(KeyKind::Sha, l) > 0)),
            forall|l: Seq<char>|
                #[trigger] surv.has(l) ==> surv.at(l)@ == history_before(start, l) + if seen_in(*shas, e as int, l) {
                    survival_point(*totals, ts, l)
                } else {
                    Seq::empty()
                },
            forall|q: int, j: int|
                0 <= q < surv.entries@.len() && 0 <= j < surv.entries@[q].1@.len() ==> (#[trigger] surv.entries@[q].1@[j]).1 > 0,
        decreases shas.entries@.len() - e,
    {
        let n = shas.entries[e].1;
        let ghost label = shas.entries@[e as int].0@;
        proof {
            lemma_pos_of_entry(shas, e as int);
            assert(totals.count(KeyKind::Sha, label) == n);
        }
        let ghost before = *surv;
        if n > 0 {
            let key = chars_of(shas.entries[e].0.as_str());
            match surv.search(&key) {
                Ok(i) => {
                    surv.entries[i].1.push((ts, n));
                    proof {
                        assert(surv.labels() =~= before.labels());
                        lemma_pos_of_entry(&before, i as int);
                        lemma_pos_of_entry(surv, i as int);
                        assert forall|l: Seq<char>| #[trigger] surv.has(l) == before.has(l) by {
                            if surv.has(l) {
                                let j = choose|j: int| 0 <= j < surv.entries@.len() && #[trigger] surv.entries@[j].0@ == l;
                                assert(before.entries@[j].0@ == l);
                            }
                            if before.has(l) {
                                let j = choose|j: int| 0 <= j < before.entries@.len() && #[trigger] before.entries@[j].0@ == l;
                                assert(surv.entries@[j].0@ == l);
                            }
                        }
                        assert forall|l: Seq<char>| before.has(l) && l != label implies #[trigger] surv.at(l) == before.at(l) by {
                            let j = before.pos(l);
                            lemma_pos_of_entry(&before, j);
                            assert(surv.entries@[j] == before.entries@[j]);
                            lemma_pos_of_entry(surv, j);
                        }
                    }
                },
                Err(p) => {
                    let mut series: Vec<(i64, u64)> = Vec::new();
                    series.push((ts, n));
                    surv.insert_at(p, shas.entries[e].0.clone(), series);
                    proof {
                        lemma_search_absent(before, label, p as int);
                        lemma_pos_of_entry(surv, p as int);
                        assert forall|l: Seq<char>| #[trigger] surv.has(l) == (before.has(l) || l == label) by {
                            lemma_insert_has(before, *surv, p as int, surv.entries@[p as int], l);
                        }
                        assert forall|l: Seq<char>| before.has(l) && l != label implies #[trigger] surv.at(l) == before.at(l) by {
                            lemma_insert_at_value(before, *surv, p as int, surv.entries@[p as int], l);
                        }
                    }
                },
            }
        }
        proof {
            assert forall|l: Seq<char>| #[trigger] surv.has(l) <==> (start.has(l) || (seen_in(*shas, e + 1, l) && totals.count(KeyKind::Sha, l) > 0)) by {
                lemma_seen_step(*shas, e as int, l);
            }
            assert forall|l: Seq<char>|
                #[trigger] surv.has(l) implies surv.at(l)@ == history_before(start, l) + if seen_in(*shas, e + 1, l) {
                    survival_point(*totals, ts, l)
                } else {
                    Seq::empty()
                } by {
                lemma_seen_step(*shas, e as int, l);
                if l != label {
                    assert(before.has(l));
                } else if n > 0 {
                    assert(!seen_in(*shas, e as int, l));
                    if before.has(l) {
                        assert(before.at(l)@ == history_before(start, l) + Seq::<(i64, u64)>::empty());
                    }
                } else {
                    assert(before.has(l));
                    assert(survival_point(*totals, ts, l) =~= Seq::<(i64, u64)>::empty());
                }
            }
        }
        e += 1;
    }
    proof {
        assert forall|l: Seq<char>| #[trigger] surv.has(l) <==> (start.has(l) || totals.count(KeyKind::Sha, l) > 0) by {
            lemma_seen_all(*shas, l);
            if totals.count(KeyKind::Sha, l) > 0 {
                assert(shas.has(l));
            }
        }
        assert forall|l: Seq<char>| #[trigger] surv.has(l) implies surv.at(l)@ == history_before(start, l) + survival_point(*totals, ts, l) by {
            lemma_seen_all(*shas, l);
            if !shas.has(l) {
                assert(survival_point(*totals, ts, l) =~= Seq::<(i64, u64)>::empty());
            }
        }
    }
}

/// A file is kept exactly when some file has its path and the path is not
/// gone; a kept file is the file of that path.
proof fn lemma_kept_has(files: Seq<(String, Histogram)>, gone: Seq<Seq<char>>, p: Seq<char>)
    ensures
        (exists|i: int| 0 <= i < kept(files, gone).len() && #[trigger] kept(files, gone)[i].0@ == p) <==> ((exists|j: int|
            0 <= j < files.len() && #[trigger] files[j].0@ == p) && !gone.contains(p)),
    decreases files.len(),
{
    if files.len() > 0 {
        let d = files.drop_last();
        lemma_kept_has(d, gone, p);
        let kf = kept(files, gone);
        let kd = kept(d, gone);
        if exists|i: int| 0 <= i < kf.len() && #[trigger] kf[i].0@ == p {
            let i = choose|i: int| 0 <= i < kf.len() && #[trigger] kf[i].0@ == p;
            if i < kd.len() {
                assert(kd[i].0@ == p);
                let j = choose|j: int| 0 <= j < d.len() && #[trigger] d[j].0@ == p;
                assert(files[j].0@ == p);
            } else {
                assert(files[files.len() - 1].0@ == p);
            }
        }
        if (exists|j: int| 0 <= j < files.len() && #[trigger] files[j].0@ == p) && !gone.contains(p) {
            let j = choose|j: int| 0 <= j < files.len() && #[trigger] files[j].0@ == p;
            if j < d.len() {
                assert(d[j].0@ == p);
                let i = choose|i: int| 0 <= i < kd.len() && #[trigger] kd[i].0@ == p;
                assert(kf[i].0@ == p);
            } else {
                assert(kf[kf.len() - 1].0@ == p);
            }
        }
    }
}

/// Removing the `gone` paths from a map leaves the other labels with their
/// values.
proof fn lemma_withdrawn_map(before: LabelMap<Histogram>, after: LabelMap<Histogram>, gone: Seq<Seq<char>>, p: Seq<char>)
    requires
        before.wf(),
        after.wf(),
        after.entries@ == kept(before.entries@, gone),
    ensures
        after.has(p) <==> (before.has(p) && !gone.contains(p)),
        after.has(p) ==> after.at(p) == before.at(p),
{
    lemma_kept_has(before.entries@, gone, p);
    if after.has(p) {
        let i = after.pos(p);
        crate::labelmap::lemma_pos_of_entry(&after, i);
        lemma_kept_from(before.entries@, gone, i);
        let j = choose|j: int| 0 <= j < before.entries@.len() && before.entries@[j] == #[trigger] kept(before.entries@, gone)[i];
        lemma_pos_of_entry(&before, j);
    }
}

/// Errors of `Tracker::record`.
#[derive(Debug, PartialEq, Eq, Structural)]
pub enum RecordError {
    /// A blamed file is still present, or two blamed files share a path.
    AlreadyLive,
    /// A line count does not fit in `u64`.
    Overflow,
}

impl RecordError {
    /// Human-readable description.
    pub fn message(&self) -> (m: String)
        ensures
            m@ == match self {
                RecordError::AlreadyLive => "a blamed file is already counted"@,
                RecordError::Overflow => "a line count does not fit in 64 bits"@,
            },
    {
        match self {
            RecordError::AlreadyLive => String::from_str("a blamed file is already counted"),
            RecordError::Overflow => String::from_str("a line count does not fit in 64 bits"),
        }
    }
}

/// Adding the blamed files to the kept ones would push some count past
/// `u64::MAX`.
pub open spec fn overflows(live: LabelMap<Histogram>, gone: Seq<Seq<char>>, blamed: Seq<(String, Histogram)>) -> bool {
    exists|k: KeyKind, l: Seq<char>| #[trigger] live_total(kept(live.entries@, gone) + blamed, k, l) > u64::MAX
}

/// `after` is `before` once the sampled commit at time `ts` is recorded: the
/// `gone` paths are withdrawn and the blamed files added; totals are the sum
/// over the files now present; each curve gains the current count of its
/// label; each commit with surviving lines gains the point `(ts, lines)`.
pub open spec fn recorded(before: Tracker, after: Tracker, ts: i64, gone: Seq<Seq<char>>, blamed: Seq<(String, Histogram)>) -> bool {
    &&& after.wf()
    &&& forall|p: Seq<char>|
        #[trigger] after.live.has(p) <==> ((before.live.has(p) && !gone.contains(p)) || exists|i: int|
            0 <= i < blamed.len() && #[trigger] blamed[i].0@ == p)
    &&& forall|i: int| 0 <= i < blamed.len() ==> #[trigger] after.live.at(blamed[i].0@) == blamed[i].1
    &&& forall|p: Seq<char>| before.live.has(p) && !gone.contains(p) ==> #[trigger] after.live.at(p) == before.live.at(p)
    &&& forall|k: KeyKind, l: Seq<char>|
        #[trigger] after.totals.count(k, l) == live_total(kept(before.live.entries@, gone) + blamed, k, l)
    &&& after.result.timestamps@ == before.result.timestamps@.push(ts)
    &&& forall|c: Category|
        {
            &&& (#[trigger] after.result.curves_of(c)).entries@.len() == before.result.curves_of(c).entries@.len()
            &&& forall|q: int|
                0 <= q < before.result.curves_of(c).entries@.len() ==> (#[trigger] after.result.curves_of(c).entries@[q]).0
                    == before.result.curves_of(c).entries@[q].0 && after.result.curves_of(c).entries@[q].1@
                    == before.result.curves_of(c).entries@[q].1@.push(
                    after.totals.count(kind_of(c), before.result.curves_of(c).entries@[q].0@) as u64,
                )
        }
    &&& forall|l: Seq<char>|
        #[trigger] after.result.survival.has(l) <==> (before.result.survival.has(l) || after.totals.count(KeyKind::Sha, l) > 0)
    &&& forall|l: Seq<char>|
        #[trigger] after.result.survival.has(l) ==> after.result.survival.at(l)@ == history_before(before.result.survival, l)
            + survival_point(after.totals, ts, l)
}

impl Tracker {
    /// Records the sampled commit at time `ts`: withdraws the counts of the
    /// files at the `removed` paths, adds the blamed files' histograms, and
    /// appends the resulting counts to every curve and survival history.
    /// Nothing changes when a blamed file is already present once the
    /// removals are done (`AlreadyLive`) or a count would overflow.
    pub fn record(&mut self, ts: i64, removed: &Vec<String>, blamed: Vec<(String, Histogram)>) -> (r: Result<(), RecordError>)
        requires
            old(self).wf(),
            forall|i: int| 0 <= i < blamed@.len() ==> (#[trigger] blamed@[i]).1.wf(),
        ensures
            !fresh(old(self).live, path_views(removed@), blamed@) ==> r == Err::<(), RecordError>(RecordError::AlreadyLive)
                && *final(self) == *old(self),
            fresh(old(self).live, path_views(removed@), blamed@) && overflows(old(self).live, path_views(removed@), blamed@)
                ==> r == Err::<(), RecordError>(RecordError::Overflow) && *final(self) == *old(self),
            fresh(old(self).live, path_views(removed@), blamed@) && !overflows(old(self).live, path_views(removed@), blamed@)
                ==> r is Ok && recorded(*old(self), *final(self), ts, path_views(removed@), blamed@),
    {
        let ghost g = path_views(removed@);
        let gone = label_set(removed);
        assert forall|p: Seq<char>| #[trigger] gone.has(p) <==> g.contains(p) by {
            if gone.has(p) {
                let i = choose|i: int| 0 <= i < removed@.len() && #[trigger] removed@[i]@ == p;
                assert(g[i] == p);
            }
            if g.contains(p) {
                let i = choose|i: int| 0 <= i < g.len() && g[i] == p;
                assert(removed@[i]@ == p);
            }
        }
        if !self.check_fresh(removed, &gone, &blamed) {
            return Err(RecordError::AlreadyLive);
        }
        let totals = match self.next_totals(removed, &gone, &blamed) {
            None => {
                return Err(RecordError::Overflow);
            },
            Some(t) => t,
        };
        let ghost before = *self;
        withdraw_paths(&mut self.live, removed, &gone);
        let ghost mid = self.live;
        proof {
            assert forall|i: int| 0 <= i < blamed@.len() implies !mid.has((#[trigger] blamed@[i]).0@) by {
                lemma_withdrawn_map(before.live, mid, g, blamed@[i].0@);
            }
        }
        admit_files(&mut self.live, blamed);
        self.totals = totals;
        proof {
            assert forall|k: KeyKind, l: Seq<char>| #[trigger] self.totals.count(k, l) == live_total(self.live.entries@, k, l) by {
                lemma_live_total_concat(kept(before.live.entries@, g), blamed@, k, l);
            }
            assert forall|p: Seq<char>|
                #[trigger] self.live.has(p) <==> ((before.live.has(p) && !g.contains(p)) || exists|i: int|
                    0 <= i < blamed@.len() && #[trigger] blamed@[i].0@ == p) by {
                lemma_withdrawn_map(before.live, mid, g, p);
            }
            assert forall|p: Seq<char>| before.live.has(p) && !g.contains(p) implies #[trigger] self.live.at(p) == before.live.at(p) by {
                lemma_withdrawn_map(before.live, mid, g, p);
            }
        }
        take_sample(&mut self.result, &self.totals, ts);
        Ok(())
    }

    /// The curves and survival histories recorded so far.
    pub fn finish(self) -> (r: AnalyzeResult)
        ensures
            r == self.result,
    {
        self.result
    }
}

/// Appends the sample at time `ts` of the counts `totals` to `result`.
fn take_sample(result: &mut AnalyzeResult, totals: &Histogram, ts: i64)
    requires
        totals.wf(),
        old(result).survival.wf(),
        forall|q: int, j: int|
            0 <= q < old(result).survival.entries@.len() && 0 <= j < old(result).survival.entries@[q].1@.len()
                ==> (#[trigger] old(result).survival.entries@[q].1@[j]).1 > 0,
        forall|c: Category| (#[trigger] old(result).curves_of(c)).wf(),
    ensures
        final(result).survival.wf(),
        forall|q: int, j: int|
            0 <= q < final(result).survival.entries@.len() && 0 <= j < final(result).survival.entries@[q].1@.len()
                ==> (#[trigger] final(result).survival.entries@[q].1@[j]).1 > 0,
        final(result).timestamps@ == old(result).timestamps@.push(ts),
        forall|c: Category|
            {
                &&& (#[trigger] final(result).curves_of(c)).wf()
                &&& final(result).curves_of(c).entries@.len() == old(result).curves_of(c).entries@.len()
                &&& forall|q: int|
                    0 <= q < old(result).curves_of(c).entries@.len() ==> (#[trigger] final(result).curves_of(c).entries@[q]).0
                        == old(result).curves_of(c).entries@[q].0 && final(result).curves_of(c).entries@[q].1@
                        == old(result).curves_of(c).entries@[q].1@.push(
                        totals.count(kind_of(c), old(result).curves_of(c).entries@[q].0@) as u64,
                    )
            },
        forall|l: Seq<char>|
            #[trigger] final(result).survival.has(l) <==> (old(result).survival.has(l) || totals.count(KeyKind::Sha, l) > 0),
        forall|l: Seq<char>|
            #[trigger] final(result).survival.has(l) ==> final(result).survival.at(l)@ == history_before(old(result).survival, l)
                + survival_point(*totals, ts, l),
{
    proof {
        assert(old(result).curves_of(Category::Cohort).wf());
        assert(old(result).curves_of(Category::Ext).wf());
        assert(old(result).curves_of(Category::Author).wf());
        assert(old(result).curves_of(Category::Dir).wf());
        assert(old(result).curves_of(Category::Domain).wf());
    }
    result.timestamps.push(ts);
    push_counts(&mut result.cohorts, totals, KeyKind::Cohort);
    push_counts(&mut result.exts, totals, KeyKind::Ext);
    push_counts(&mut result.authors, totals, KeyKind::Author);
    push_counts(&mut result.dirs, totals, KeyKind::Dir);
    push_counts(&mut result.domains, totals, KeyKind::Domain);
    record_survival(&mut result.survival, totals, ts);
    assert forall|c: Category| #[trigger] result.curves_of(c).wf() by {}
}

/// The sample times increase, and each survival history lists its points in
/// increasing time, each taken at one of the sample times.
pub open spec fn chronological(t: Tracker) -> bool {
    let surv = t.result.survival.entries@;
    &&& strictly_increasing(t.result.timestamps@)
    &&& forall|q: int, i: int, j: int|
        0 <= q < surv.len() && 0 <= i < j < surv[q].1@.len() ==> (#[trigger] surv[q].1@[i]).0 < (#[trigger] surv[q].1@[j]).0
    &&& forall|q: int, i: int|
        0 <= q < surv.len() && 0 <= i < surv[q].1@.len() ==> t.result.timestamps@.contains((#[trigger] surv[q].1@[i]).0)
}

/// A tracker's result can be merged with others.
pub proof fn lemma_tracker_result_mergeable(t: Tracker)
    requires
        t.wf(),
    ensures
        t.result.mergeable(),
{
}

/// Recording samples in increasing time keeps every survival history in
/// chronological order.
pub proof fn lemma_record_chronological(
    before: Tracker,
    after: Tracker,
    ts: i64,
    gone: Seq<Seq<char>>,
    blamed: Seq<(String, Histogram)>,
)
    requires
        before.wf(),
        chronological(before),
        recorded(before, after, ts, gone, blamed),
        before.result.timestamps@.len() == 0 || before.result.timestamps@.last() < ts,
    ensures
        chronological(after),
{
    let bt = before.result.timestamps@;
    let at = after.result.timestamps@;
    assert forall|i: int, j: int| 0 <= i < j < at.len() implies #[trigger] at[i] < #[trigger] at[j] by {
        if j == at.len() - 1 && i < j {
            assert(bt[i] <= bt.last());
        }
    }
    let surv = after.result.survival.entries@;
    assert forall|q: int, i: int, j: int|
        0 <= q < surv.len() && 0 <= i < j < surv[q].1@.len() implies (#[trigger] surv[q].1@[i]).0 < (#[trigger] surv[q].1@[j]).0 by {
        lemma_history_chronological(before, after, ts, gone, blamed, q);
    }
    assert forall|q: int, i: int|
        0 <= q < surv.len() && 0 <= i < surv[q].1@.len() implies at.contains((#[trigger] surv[q].1@[i]).0) by {
        lemma_history_chronological(before, after, ts, gone, blamed, q);
    }
}

proof fn lemma_history_chronological(
    before: Tracker,
    after: Tracker,
    ts: i64,
    gone: Seq<Seq<char>>,
    blamed: Seq<(String, Histogram)>,
    q: int,
)
    requires
        before.wf(),
        chronological(before),
        recorded(before, after, ts, gone, blamed),
        before.result.timestamps@.len() == 0 || before.result.timestamps@.last() < ts,
        0 <= q < after.result.survival.entries@.len(),
    ensures
        forall|i: int, j: int|
            0 <= i < j < after.result.survival.entries@[q].1@.len() ==> (#[trigger] after.result.survival.entries@[q].1@[i]).0
                < (#[trigger] after.result.survival.entries@[q].1@[j]).0,
        forall|i: int|
            0 <= i < after.result.survival.entries@[q].1@.len() ==> after.result.timestamps@.contains(
                (#[trigger] after.result.survival.entries@[q].1@[i]).0,
            ),
{
    let bt = before.result.timestamps@;
    let at = after.result.timestamps@;
    let surv = after.result.survival.entries@;
    let l = surv[q].0@;
    lemma_pos_of_entry(&after.result.survival, q);
    assert(after.result.survival.has(l));
    let s = surv[q].1@;
    assert(s == history_before(before.result.survival, l) + survival_point(after.totals, ts, l));
    let h = history_before(before.result.survival, l);
    if before.result.survival.has(l) {
        let p = before.result.survival.pos(l);
        lemma_pos_of_entry(&before.result.survival, p);
        assert(h == before.result.survival.entries@[p].1@);
        assert forall|i: int| 0 <= i < h.len() implies (#[trigger] h[i]).0 < ts && at.contains(h[i].0) by {
            assert(bt.contains(before.result.survival.entries@[p].1@[i].0));
            let m = choose|m: int| 0 <= m < bt.len() && bt[m] == h[i].0;
            assert(bt[m] <= bt.last());
            assert(at[m] == bt[m]);
        }
        assert forall|i: int, j: int| 0 <= i < j < h.len() implies (#[trigger] h[i]).0 < (#[trigger] h[j]).0 by {
            assert(before.result.survival.entries@[p].1@[i] == h[i]);
            assert(before.result.survival.entries@[p].1@[j] == h[j]);
        }
    } else {
        assert(h.len() == 0);
    }
    assert forall|i: int, j: int| 0 <= i < j < s.len() implies (#[trigger] s[i]).0 < (#[trigger] s[j]).0 by {
        if j < h.len() {
            assert(s[i] == h[i]);
            assert(s[j] == h[j]);
        } else {
            assert(s[j].0 == ts);
            assert(s[i] == h[i]);
        }
    }
    assert forall|i: int| 0 <= i < s.len() implies at.contains((#[trigger] s[i]).0) by {
        if i < h.len() {
            assert(s[i] == h[i]);
        } else {
            assert(s[i].0 == ts);
            assert(at[at.len() - 1] == ts);
        }
    }
}

/// The blamed files are those of a commit plan, in order.
pub open spec fn blames_plan(blamed: Seq<(String, Histogram)>, plan: CommitPlan) -> bool {
    blamed.len() == plan.to_blame@.len() && forall|i: int| 0 <= i < blamed.len() ==> (#[trigger] blamed[i]).0@ == plan.to_blame@[i].path@
}

/// When the live files are those of the previous commit, recording the next
/// commit's fast-diff plan never meets a blamed file that is still counted.
pub proof fn lemma_plan_is_fresh(
    prev: Seq<TreeEntry>,
    cur: Seq<TreeEntry>,
    plan: CommitPlan,
    live: LabelMap<Histogram>,
    blamed: Seq<(String, Histogram)>,
)
    requires
        distinct_paths(cur),
        plan_of(plan, prev, cur),
        forall|p: Seq<char>| #[trigger] live.has(p) <==> lookup(prev, p) is Some,
        blames_plan(blamed, plan),
    ensures
        fresh(live, path_views(plan.paths_to_remove@), blamed),
{
    let gone = path_views(plan.paths_to_remove@);
    let bl = blame_list(prev, cur);
    assert forall|i: int| 0 <= i < blamed.len() implies !(live.has((#[trigger] blamed[i]).0@) && !gone.contains(
        blamed[i].0@,
    )) by {
        let p = blamed[i].0@;
        assert(bl[i].path@ == p);
        lemma_blame_list_paths(prev, cur, p);
        let j = choose|j: int| 0 <= j < cur.len() && (#[trigger] cur[j]).path@ == p && changed(prev, cur[j]);
        if live.has(p) {
            lemma_replaced_contains(prev, cur, p);
            let r = replaced_paths(prev, cur);
            let k = choose|k: int| 0 <= k < r.len() && r[k] == p;
            assert(gone == r + vanished_paths(prev, cur));
            assert(gone[k] == p);
        }
    }
    lemma_blame_list_distinct(prev, cur);
    assert forall|i: int, j: int| 0 <= i < j < blamed.len() implies (#[trigger] blamed[i]).0@ != (#[trigger] blamed[j]).0@ by {
        assert(bl[i].path@ == blamed[i].0@);
        assert(bl[j].path@ == blamed[j].0@);
    }
}

/// Recording a commit with its fast-diff plan, when the live files were
/// those of the previous commit, leaves exactly the commit's files live:
/// skipping unchanged blobs loses no file and keeps no stale one.
pub proof fn lemma_plan_tracks_commit_files(
    prev: Seq<TreeEntry>,
    cur: Seq<TreeEntry>,
    plan: CommitPlan,
    before: Tracker,
    after: Tracker,
    ts: i64,
    blamed: Seq<(String, Histogram)>,
)
    requires
        distinct_paths(prev),
        distinct_paths(cur),
        plan_of(plan, prev, cur),
        forall|p: Seq<char>| #[trigger] before.live.has(p) <==> lookup(prev, p) is Some,
        blames_plan(blamed, plan),
        recorded(before, after, ts, path_views(plan.paths_to_remove@), blamed),
    ensures
        forall|p: Seq<char>| #[trigger] after.live.has(p) <==> lookup(cur, p) is Some,
{
    let gone = path_views(plan.paths_to_remove@);
    let bl = blame_list(prev, cur);
    assert forall|p: Seq<char>| #[trigger] after.live.has(p) <==> lookup(cur, p) is Some by {
        lemma_lookup_some(cur, p);
        lemma_lookup_some(prev, p);
        lemma_blame_list_paths(prev, cur, p);
        lemma_replaced_contains(prev, cur, p);
        lemma_vanished_contains(prev, cur, p);
        let r = replaced_paths(prev, cur);
        let v = vanished_paths(prev, cur);
        assert(gone == r + v);
        assert(gone.contains(p) <==> (r.contains(p) || v.contains(p))) by {
            if gone.contains(p) {
                let k = choose|k: int| 0 <= k < gone.len() && gone[k] == p;
                if k < r.len() {
                    assert(r[k] == p);
                } else {
                    assert(v[k - r.len()] == p);
                }
            }
            if r.contains(p) {
                let k = choose|k: int| 0 <= k < r.len() && r[k] == p;
                assert(gone[k] == p);
            }
            if v.contains(p) {
                let k = choose|k: int| 0 <= k < v.len() && v[k] == p;
                assert(gone[r.len() + k] == p);
            }
        }
        let in_blamed = exists|i: int| 0 <= i < blamed.len() && #[trigger] blamed[i].0@ == p;
        assert(in_blamed <==> exists|i: int| 0 <= i < bl.len() && (#[trigger] bl[i]).path@ == p) by {
            if in_blamed {
                let i = choose|i: int| 0 <= i < blamed.len() && #[trigger] blamed[i].0@ == p;
                assert(bl[i].path@ == p);
            }
            if exists|i: int| 0 <= i < bl.len() && (#[trigger] bl[i]).path@ == p {
                let i = choose|i: int| 0 <= i < bl.len() && (#[trigger] bl[i]).path@ == p;
                assert(blamed[i].0@ == p);
            }
        }
        if lookup(cur, p) is Some {
            let j = choose|j: int| 0 <= j < cur.len() && (#[trigger] cur[j]).path@ == p;
            if !changed(prev, cur[j]) {
                lemma_lookup_found(cur, j);
                assert(before.live.has(p));
                if r.contains(p) {
                    let j2 = choose|j2: int|
                        0 <= j2 < cur.len() && (#[trigger] cur[j2]).path@ == p && lookup(prev, p) is Some && changed(prev, cur[j2]);
                    assert(j2 == j);
                }
            }
        } else {
            if in_blamed {
                let j = choose|j: int| 0 <= j < cur.len() && (#[trigger] cur[j]).path@ == p && changed(prev, cur[j]);
            }
        }
    }
}

} // verus!
