//! Decisions of the analysis that do not touch the repository: which commits
//! of the first-parent chain are sampled, which files each sampled commit has
//! to blame again (fast diff), how one file's blame turns into line counts per
//! label, and how those counts accumulate into curves and survival histories.

use vstd::prelude::*;

use crate::histogram::{Histogram, KeyKind};
use crate::labelmap::{lemma_pos_of_entry, LabelMap};
use crate::paths::{
    extension, extract_domain, is_top_dir_of, lemma_top_dir_is_first_component, lemma_top_dir_unique, spec_domain,
    spec_extension, spec_top_dir, top_dir,
};
use crate::order::{lemma_label_lt_irreflexive, lemma_label_lt_total};
use crate::order::str_equal;
use crate::text::chars_of;

verus! {

/// Indices (into `dates`, head first) of the commits sampled when walking the
/// first-parent chain from the head: the head, then every commit more than
/// `interval` seconds older than the last one sampled.  Listed in walk order.
pub open spec fn walk_samples(dates: Seq<i64>, interval: i64) -> Seq<int>
    decreases dates.len(),
{
    if dates.len() == 0 {
        Seq::empty()
    } else {
        let prev = walk_samples(dates.drop_last(), interval);
        let j = dates.len() - 1;
        if prev.len() == 0 || (dates[j] as int) < (dates[prev.last()] as int) - (interval as int) {
            prev.push(j)
        } else {
            prev
        }
    }
}

/// Sampling keeps the head, and each commit it keeps after the head is more
/// than `interval` seconds older than the one kept before it.
pub proof fn lemma_samples_spaced(dates: Seq<i64>, interval: i64)
    ensures
        dates.len() > 0 ==> walk_samples(dates, interval).len() > 0 && walk_samples(dates, interval)[0] == 0,
        forall|q: int|
            0 <= q < walk_samples(dates, interval).len() ==> 0 <= #[trigger] walk_samples(dates, interval)[q] < dates.len(),
        forall|q: int|
            0 <= q < walk_samples(dates, interval).len() - 1 ==> (dates[walk_samples(dates, interval)[q + 1]] as int) < (
            #[trigger] dates[walk_samples(dates, interval)[q]] as int) - (interval as int),
    decreases dates.len(),
{
    if dates.len() > 0 {
        let prev = walk_samples(dates.drop_last(), interval);
        lemma_samples_spaced(dates.drop_last(), interval);
        assert forall|q: int| 0 <= q < prev.len() implies dates.drop_last()[prev[q]] == dates[prev[q]] by {}
        if dates.len() == 1 {
            assert(prev.len() == 0);
        }
    }
}

/// The sampled commits in chronological order: positions in `dates` (the
/// first-parent chain, head first, by commit time) of the head and of every
/// commit more than `interval` seconds older than the previously sampled one,
/// oldest first.
pub fn sample_commits(dates: &Vec<i64>, interval: i64) -> (r: Vec<usize>)
    ensures
        r@.len() == walk_samples(dates@, interval).len(),
        forall|p: int| 0 <= p < r@.len() ==> #[trigger] r@[p] as int == walk_samples(dates@, interval)[r@.len() - 1 - p],
{
    let mut walk: Vec<usize> = Vec::new();
    let mut j: usize = 0;
    while j < dates.len()
        invariant
            j <= dates@.len(),
            walk@.len() == walk_samples(dates@.take(j as int), interval).len(),
            forall|p: int| 0 <= p < walk@.len() ==> #[trigger] walk@[p] as int == walk_samples(dates@.take(j as int), interval)[p],
            forall|p: int| 0 <= p < walk@.len() ==> #[trigger] walk@[p] < j,
        decreases dates@.len() - j,
    {
        proof {
            assert(dates@.take(j + 1).drop_last() =~= dates@.take(j as int));
        }
        let take = if walk.len() == 0 {
            true
        } else {
            let last = dates[walk[walk.len() - 1]];
            (dates[j] as i128) < (last as i128) - (interval as i128)
        };
        if take {
            walk.push(j);
        }
        proof {
            let s = walk_samples(dates@.take(j + 1), interval);
            if walk@.len() > 0 && !take {
                assert(dates@.take(j + 1)[walk@[walk@.len() - 1] as int] == dates@[walk@[walk@.len() - 1] as int]);
            }
            if take && walk@.len() > 1 {
                assert(dates@.take(j + 1)[walk@[walk@.len() - 2] as int] == dates@[walk@[walk@.len() - 2] as int]);
            }
            assert(walk@.len() == s.len());
        }
        j += 1;
    }
    assert(dates@.take(dates@.len() as int) =~= dates@);
    let mut r: Vec<usize> = Vec::new();
    let mut p: usize = walk.len();
    while p > 0
        invariant
            p <= walk@.len(),
            r@.len() == walk@.len() - p,
            forall|q: int| 0 <= q < r@.len() ==> #[trigger] r@[q] == walk@[walk@.len() - 1 - q],
        decreases p,
    {
        p -= 1;
        r.push(walk[p]);
    }
    r
}

/// A blob of a sampled commit's tree: its repository path and object id.
#[derive(Debug)]
pub struct TreeEntry {
    pub path: String,
    pub blob: String,
}

impl TreeEntry {
    pub fn copy(&self) -> (r: TreeEntry)
        ensures
            r == *self,
    {
        TreeEntry { path: self.path.clone(), blob: self.blob.clone() }
    }
}

/// What one sampled commit changes relative to the previous one: the paths
/// whose counts must be withdrawn, and the entries that must be blamed.
#[derive(Debug)]
pub struct CommitPlan {
    pub paths_to_remove: Vec<String>,
    pub to_blame: Vec<TreeEntry>,
}

/// No two entries share a path.
pub open spec fn distinct_paths(es: Seq<TreeEntry>) -> bool {
    forall|i: int, j: int| 0 <= i < j < es.len() ==> (#[trigger] es[i]).path@ != (#[trigger] es[j]).path@
}

/// Object id recorded for path `p` (the last entry with that path).
pub open spec fn lookup(es: Seq<TreeEntry>, p: Seq<char>) -> Option<Seq<char>>
    decreases es.len(),
{
    if es.len() == 0 {
        None
    } else if es.last().path@ == p {
        Some(es.last().blob@)
    } else {
        lookup(es.drop_last(), p)
    }
}

/// Entry `e` is not present with the same object id in `prev`.
pub open spec fn changed(prev: Seq<TreeEntry>, e: TreeEntry) -> bool {
    lookup(prev, e.path@) != Some(e.blob@)
}

/// Entries of `cur` to blame: those whose path is new or whose blob changed.
pub open spec fn blame_list(prev: Seq<TreeEntry>, cur: Seq<TreeEntry>) -> Seq<TreeEntry>
    decreases cur.len(),
{
    if cur.len() == 0 {
        Seq::empty()
    } else if changed(prev, cur.last()) {
        blame_list(prev, cur.drop_last()).push(cur.last())
    } else {
        blame_list(prev, cur.drop_last())
    }
}

/// Paths of `cur` that `prev` had with another blob.
pub open spec fn replaced_paths(prev: Seq<TreeEntry>, cur: Seq<TreeEntry>) -> Seq<Seq<char>>
    decreases cur.len(),
{
    if cur.len() == 0 {
        Seq::empty()
    } else if lookup(prev, cur.last().path@) is Some && changed(prev, cur.last()) {
        replaced_paths(prev, cur.drop_last()).push(cur.last().path@)
    } else {
        replaced_paths(prev, cur.drop_last())
    }
}

/// Paths of `prev` that `cur` no longer has.
pub open spec fn vanished_paths(prev: Seq<TreeEntry>, cur: Seq<TreeEntry>) -> Seq<Seq<char>>
    decreases prev.len(),
{
    if prev.len() == 0 {
        Seq::empty()
    } else if lookup(cur, prev.last().path@) is None {
        vanished_paths(prev.drop_last(), cur).push(prev.last().path@)
    } else {
        vanished_paths(prev.drop_last(), cur)
    }
}

pub open spec fn path_views(v: Seq<String>) -> Seq<Seq<char>> {
    v.map_values(|s: String| s@)
}

/// The plan of a commit with entries `cur` following one with entries
/// `prev`: blame the new and changed entries; withdraw the replaced paths,
/// then the vanished ones.
pub open spec fn plan_of(plan: CommitPlan, prev: Seq<TreeEntry>, cur: Seq<TreeEntry>) -> bool {
    &&& plan.to_blame@ == blame_list(prev, cur)
    &&& path_views(plan.paths_to_remove@) == replaced_paths(prev, cur) + vanished_paths(prev, cur)
}

pub proof fn lemma_lookup_found(es: Seq<TreeEntry>, i: int)
    requires
        distinct_paths(es),
        0 <= i < es.len(),
    ensures
        lookup(es, es[i].path@) == Some(es[i].blob@),
    decreases es.len(),
{
    if i < es.len() - 1 {
        assert(es.last() == es[es.len() - 1]);
        assert(es.drop_last()[i] == es[i]);
        assert forall|a: int, b: int| 0 <= a < b < es.drop_last().len() implies (#[trigger] es.drop_last()[a]).path@ != (#[trigger] es.drop_last()[b]).path@ by {
            assert(es.drop_last()[a] == es[a] && es.drop_last()[b] == es[b]);
        }
        lemma_lookup_found(es.drop_last(), i);
    }
}

proof fn lemma_lookup_missing(es: Seq<TreeEntry>, p: Seq<char>)
    requires
        forall|i: int| 0 <= i < es.len() ==> (#[trigger] es[i]).path@ != p,
    ensures
        lookup(es, p) is None,
    decreases es.len(),
{
    if es.len() > 0 {
        assert(es.last() == es[es.len() - 1]);
        assert forall|i: int| 0 <= i < es.drop_last().len() implies (#[trigger] es.drop_last()[i]).path@ != p by {
            assert(es.drop_last()[i] == es[i]);
        }
        lemma_lookup_missing(es.drop_last(), p);
    }
}

/// `lookup` finds a path exactly when some entry has it.
pub proof fn lemma_lookup_some(es: Seq<TreeEntry>, p: Seq<char>)
    ensures
        lookup(es, p) is Some <==> exists|i: int| 0 <= i < es.len() && (#[trigger] es[i]).path@ == p,
    decreases es.len(),
{
    if es.len() > 0 {
        let d = es.drop_last();
        lemma_lookup_some(d, p);
        if exists|i: int| 0 <= i < d.len() && (#[trigger] d[i]).path@ == p {
            let i = choose|i: int| 0 <= i < d.len() && (#[trigger] d[i]).path@ == p;
            assert(es[i] == d[i]);
        }
        if exists|i: int| 0 <= i < es.len() && (#[trigger] es[i]).path@ == p {
            let i = choose|i: int| 0 <= i < es.len() && (#[trigger] es[i]).path@ == p;
            if i < es.len() - 1 {
                assert(d[i] == es[i]);
            }
        }
    }
}

/// The blamed entries are the entries of `cur` that changed, in order.
pub proof fn lemma_blame_list_paths(prev: Seq<TreeEntry>, cur: Seq<TreeEntry>, p: Seq<char>)
    ensures
        (exists|i: int| 0 <= i < blame_list(prev, cur).len() && (#[trigger] blame_list(prev, cur)[i]).path@ == p)
            <==> (exists|j: int| 0 <= j < cur.len() && (#[trigger] cur[j]).path@ == p && changed(prev, cur[j])),
    decreases cur.len(),
{
    if cur.len() > 0 {
        let d = cur.drop_last();
        lemma_blame_list_paths(prev, d, p);
        let bd = blame_list(prev, d);
        let b = blame_list(prev, cur);
        if exists|i: int| 0 <= i < b.len() && (#[trigger] b[i]).path@ == p {
            let i = choose|i: int| 0 <= i < b.len() && (#[trigger] b[i]).path@ == p;
            if i < bd.len() {
                assert(b[i] == bd[i]);
                let j = choose|j: int| 0 <= j < d.len() && (#[trigger] d[j]).path@ == p && changed(prev, d[j]);
                assert(cur[j] == d[j]);
            } else {
                assert(cur[cur.len() - 1].path@ == p);
            }
        }
        if exists|j: int| 0 <= j < cur.len() && (#[trigger] cur[j]).path@ == p && changed(prev, cur[j]) {
            let j = choose|j: int| 0 <= j < cur.len() && (#[trigger] cur[j]).path@ == p && changed(prev, cur[j]);
            if j < d.len() {
                assert(d[j] == cur[j]);
                let i = choose|i: int| 0 <= i < bd.len() && (#[trigger] bd[i]).path@ == p;
                assert(b[i] == bd[i]);
            } else {
                assert(b[b.len() - 1] == cur.last());
            }
        }
    }
}

/// Blamed entries of distinct entries have distinct paths.
pub proof fn lemma_blame_list_distinct(prev: Seq<TreeEntry>, cur: Seq<TreeEntry>)
    requires
        distinct_paths(cur),
    ensures
        distinct_paths(blame_list(prev, cur)),
    decreases cur.len(),
{
    if cur.len() > 0 {
        let d = cur.drop_last();
        assert forall|a: int, b: int| 0 <= a < b < d.len() implies (#[trigger] d[a]).path@ != (#[trigger] d[b]).path@ by {
            assert(d[a] == cur[a] && d[b] == cur[b]);
        }
        lemma_blame_list_distinct(prev, d);
        let bd = blame_list(prev, d);
        let bl = blame_list(prev, cur);
        if changed(prev, cur.last()) {
            assert forall|a: int, b: int| 0 <= a < b < bl.len() implies (#[trigger] bl[a]).path@ != (#[trigger] bl[b]).path@ by {
                if b == bl.len() - 1 {
                    assert(bl[a] == bd[a]);
                    if bl[a].path@ == cur.last().path@ {
                        lemma_blame_list_paths(prev, d, cur.last().path@);
                        let j = choose|j: int| 0 <= j < d.len() && (#[trigger] d[j]).path@ == cur.last().path@ && changed(prev, d[j]);
                        assert(cur[j] == d[j]);
                        assert(cur[cur.len() - 1] == cur.last());
                    }
                } else {
                    assert(bl[a] == bd[a] && bl[b] == bd[b]);
                }
            }
        }
    }
}

/// The replaced paths are the paths of `cur` that `prev` had with another
/// blob.
pub proof fn lemma_replaced_contains(prev: Seq<TreeEntry>, cur: Seq<TreeEntry>, p: Seq<char>)
    ensures
        replaced_paths(prev, cur).contains(p) <==> (exists|j: int|
            0 <= j < cur.len() && (#[trigger] cur[j]).path@ == p && lookup(prev, p) is Some && changed(prev, cur[j])),
    decreases cur.len(),
{
    if cur.len() > 0 {
        let d = cur.drop_last();
        lemma_replaced_contains(prev, d, p);
        let rd = replaced_paths(prev, d);
        let r = replaced_paths(prev, cur);
        if r.contains(p) {
            let i = choose|i: int| 0 <= i < r.len() && r[i] == p;
            if i < rd.len() {
                assert(rd[i] == r[i]);
                let j = choose|j: int|
                    0 <= j < d.len() && (#[trigger] d[j]).path@ == p && lookup(prev, p) is Some && changed(prev, d[j]);
                assert(cur[j] == d[j]);
            } else {
                assert(cur[cur.len() - 1].path@ == p);
            }
        }
        if exists|j: int| 0 <= j < cur.len() && (#[trigger] cur[j]).path@ == p && lookup(prev, p) is Some && changed(prev, cur[j]) {
            let j = choose|j: int|
                0 <= j < cur.len() && (#[trigger] cur[j]).path@ == p && lookup(prev, p) is Some && changed(prev, cur[j]);
            if j < d.len() {
                assert(d[j] == cur[j]);
                assert(rd.contains(p));
                let i = choose|i: int| 0 <= i < rd.len() && rd[i] == p;
                assert(r[i] == rd[i]);
            } else {
                assert(r[r.len() - 1] == p);
            }
        }
    }
}

/// The vanished paths are the paths of `prev` that `cur` lacks.
pub proof fn lemma_vanished_contains(prev: Seq<TreeEntry>, cur: Seq<TreeEntry>, p: Seq<char>)
    ensures
        vanished_paths(prev, cur).contains(p) <==> ((exists|j: int| 0 <= j < prev.len() && (#[trigger] prev[j]).path@ == p)
            && lookup(cur, p) is None),
    decreases prev.len(),
{
    if prev.len() > 0 {
        let d = prev.drop_last();
        lemma_vanished_contains(d, cur, p);
        let vd = vanished_paths(d, cur);
        let v = vanished_paths(prev, cur);
        if v.contains(p) {
            let i = choose|i: int| 0 <= i < v.len() && v[i] == p;
            if i < vd.len() {
                assert(vd[i] == v[i]);
                let j = choose|j: int| 0 <= j < d.len() && (#[trigger] d[j]).path@ == p;
                assert(prev[j] == d[j]);
            } else {
                assert(prev[prev.len() - 1].path@ == p);
            }
        }
        if (exists|j: int| 0 <= j < prev.len() && (#[trigger] prev[j]).path@ == p) && lookup(cur, p) is None {
            let j = choose|j: int| 0 <= j < prev.len() && (#[trigger] prev[j]).path@ == p;
            if j < d.len() {
                assert(d[j] == prev[j]);
                assert(vd.contains(p));
                let i = choose|i: int| 0 <= i < vd.len() && vd[i] == p;
                assert(v[i] == vd[i]);
            } else {
                assert(v[v.len() - 1] == p);
            }
        }
    }
}

/// Sorted index `path -> blob` of entries with distinct paths.
fn index_entries(es: &Vec<TreeEntry>) -> (m: LabelMap<String>)
    requires
        distinct_paths(es@),
    ensures
        m.wf(),
        forall|p: Seq<char>| #[trigger] m.has(p) <==> lookup(es@, p) is Some,
        forall|p: Seq<char>| m.has(p) ==> Some(#[trigger] m.at(p)@) == lookup(es@, p),
{
    let mut m: LabelMap<String> = LabelMap::new();
    let mut k: usize = 0;
    while k < es.len()
        invariant
            k <= es@.len(),
            distinct_paths(es@),
            m.wf(),
            forall|i: int| 0 <= i < m.entries@.len() ==> exists|j: int| 0 <= j < k && (#[trigger] m.entries@[i]).0@ == es@[j].path@ && m.entries@[i].1@ == es@[j].blob@,
            forall|j: int| 0 <= j < k ==> exists|i: int| 0 <= i < m.entries@.len() && (#[trigger] m.entries@[i]).0@ == (#[trigger] es@[j]).path@,
        decreases es@.len() - k,
    {
        let key = chars_of(es[k].path.as_str());
        let ghost before = m;
        match m.search(&key) {
            Ok(i) => {
                proof {
                    let j = choose|j: int| 0 <= j < k && (#[trigger] m.entries@[i as int]).0@ == es@[j].path@ && m.entries@[i as int].1@ == es@[j].blob@;
                    assert(es@[j].path@ == es@[k as int].path@);
                    assert(false);
                }
            },
            Err(i) => {
                m.insert_at(i, es[k].path.clone(), es[k].blob.clone());
                proof {
                    assert forall|a: int| 0 <= a < m.entries@.len() implies exists|j: int| 0 <= j < k + 1 && (#[trigger] m.entries@[a]).0@ == es@[j].path@ && m.entries@[a].1@ == es@[j].blob@ by {
                        if a < i {
                            assert(m.entries@[a] == before.entries@[a]);
                        } else if a > i {
                            assert(m.entries@[a] == before.entries@[a - 1]);
                        } else {
                            assert(m.entries@[a].0@ == es@[k as int].path@);
                        }
                    }
                    assert forall|j: int| 0 <= j < k + 1 implies exists|a: int| 0 <= a < m.entries@.len() && (#[trigger] m.entries@[a]).0@ == (#[trigger] es@[j]).path@ by {
                        if j < k {
                            let a = choose|a: int| 0 <= a < before.entries@.len() && (#[trigger] before.entries@[a]).0@ == es@[j].path@;
                            if a < i {
                                assert(m.entries@[a] == before.entries@[a]);
                            } else {
                                assert(m.entries@[a + 1] == before.entries@[a]);
                            }
                        } else {
                            assert(m.entries@[i as int].0@ == es@[k as int].path@);
                        }
                    }
                }
            },
        }
        k += 1;
    }
    proof {
        assert forall|p: Seq<char>| #[trigger] m.has(p) <==> lookup(es@, p) is Some by {
            if m.has(p) {
                let i = choose|i: int| 0 <= i < m.entries@.len() && #[trigger] m.entries@[i].0@ == p;
                let j = choose|j: int| 0 <= j < es@.len() && (#[trigger] m.entries@[i]).0@ == es@[j].path@ && m.entries@[i].1@ == es@[j].blob@;
                lemma_lookup_found(es@, j);
            } else {
                assert forall|j: int| 0 <= j < es@.len() implies (#[trigger] es@[j]).path@ != p by {
                    if es@[j].path@ == p {
                        let a = choose|a: int| 0 <= a < m.entries@.len() && (#[trigger] m.entries@[a]).0@ == es@[j].path@;
                    }
                }
                lemma_lookup_missing(es@, p);
            }
        }
        assert forall|p: Seq<char>| m.has(p) implies Some(#[trigger] m.at(p)@) == lookup(es@, p) by {
            crate::labelmap::lemma_pos_of_entry(&m, m.pos(p));
            let i = m.pos(p);
            let j = choose|j: int| 0 <= j < es@.len() && (#[trigger] m.entries@[i]).0@ == es@[j].path@ && m.entries@[i].1@ == es@[j].blob@;
            lemma_lookup_found(es@, j);
        }
    }
    m
}

/// Plan of one commit given the previous commit's entries and indexes.
fn plan_commit(
    prev: &Vec<TreeEntry>,
    prev_idx: &LabelMap<String>,
    cur: &Vec<TreeEntry>,
    cur_idx: &LabelMap<String>,
) -> (plan: CommitPlan)
    requires
        prev_idx.wf(),
        cur_idx.wf(),
        forall|p: Seq<char>| #[trigger] prev_idx.has(p) <==> lookup(prev@, p) is Some,
        forall|p: Seq<char>| prev_idx.has(p) ==> Some(#[trigger] prev_idx.at(p)@) == lookup(prev@, p),
        forall|p: Seq<char>| #[trigger] cur_idx.has(p) <==> lookup(cur@, p) is Some,
    ensures
        plan_of(plan, prev@, cur@),
{
    let mut to_blame: Vec<TreeEntry> = Vec::new();
    let mut removes: Vec<String> = Vec::new();
    let mut k: usize = 0;
    while k < cur.len()
        invariant
            k <= cur@.len(),
            prev_idx.wf(),
            forall|p: Seq<char>| #[trigger] prev_idx.has(p) <==> lookup(prev@, p) is Some,
            forall|p: Seq<char>| prev_idx.has(p) ==> Some(#[trigger] prev_idx.at(p)@) == lookup(prev@, p),
            to_blame@ == blame_list(prev@, cur@.take(k as int)),
            path_views(removes@) == replaced_paths(prev@, cur@.take(k as int)),
        decreases cur@.len() - k,
    {
        let e = &cur[k];
        let key = chars_of(e.path.as_str());
        proof {
            assert(cur@.take(k + 1).drop_last() =~= cur@.take(k as int));
            assert(cur@.take(k + 1).last() == cur@[k as int]);
        }
        let ghost rb = removes@;
        match prev_idx.search(&key) {
            Ok(i) => {
                proof {
                    crate::labelmap::lemma_pos_of_entry(prev_idx, i as int);
                }
                if !str_equal(prev_idx.entries[i].1.as_str(), e.blob.as_str()) {
                    to_blame.push(e.copy());
                    removes.push(e.path.clone());
                    assert(path_views(removes@) =~= path_views(rb).push(e.path@));
                }
            },
            Err(_) => {
                proof {
                    if prev_idx.has(key@) {
                        let j = choose|j: int| 0 <= j < prev_idx.entries@.len() && #[trigger] prev_idx.entries@[j].0@ == key@;
                        lemma_label_lt_irreflexive(key@);
                        assert(false);
                    }
                }
                to_blame.push(e.copy());
            },
        }
        k += 1;
    }
    assert(cur@.take(cur@.len() as int) =~= cur@);
    let ghost replaced = path_views(removes@);
    let mut j: usize = 0;
    while j < prev.len()
        invariant
            j <= prev@.len(),
            cur_idx.wf(),
            forall|p: Seq<char>| #[trigger] cur_idx.has(p) <==> lookup(cur@, p) is Some,
            replaced == replaced_paths(prev@, cur@),
            path_views(removes@) == replaced + vanished_paths(prev@.take(j as int), cur@),
        decreases prev@.len() - j,
    {
        let key = chars_of(prev[j].path.as_str());
        proof {
            assert(prev@.take(j + 1).drop_last() =~= prev@.take(j as int));
            assert(prev@.take(j + 1).last() == prev@[j as int]);
        }
        let ghost rb = removes@;
        match cur_idx.search(&key) {
            Ok(i) => {
                assert(cur_idx.has(key@));
            },
            Err(_) => {
                proof {
                    if cur_idx.has(key@) {
                        let a = choose|a: int| 0 <= a < cur_idx.entries@.len() && #[trigger] cur_idx.entries@[a].0@ == key@;
                        lemma_label_lt_irreflexive(key@);
                        assert(false);
                    }
                }
                removes.push(prev[j].path.clone());
                assert(path_views(removes@) =~= path_views(rb).push(prev@[j as int].path@));
            },
        }
        j += 1;
    }
    assert(prev@.take(prev@.len() as int) =~= prev@);
    CommitPlan { paths_to_remove: removes, to_blame }
}

/// Fast-diff plans for a sequence of sampled commits, each given by its
/// tree's blob entries (paths distinct within a commit): the first commit
/// blames every entry; each later one blames its new and changed entries and
/// withdraws the paths that were replaced or vanished since the previous one.
pub fn plan_commits(entries_per_commit: &Vec<Vec<TreeEntry>>) -> (plans: Vec<CommitPlan>)
    requires
        forall|k: int| 0 <= k < entries_per_commit@.len() ==> distinct_paths((#[trigger] entries_per_commit@[k])@),
    ensures
        plans@.len() == entries_per_commit@.len(),
        entries_per_commit@.len() > 0 ==> plan_of(plans@[0], Seq::empty(), entries_per_commit@[0]@),
        forall|k: int|
            0 < k < entries_per_commit@.len() ==> plan_of(#[trigger] plans@[k], entries_per_commit@[k - 1]@, entries_per_commit@[k]@),
{
    let mut plans: Vec<CommitPlan> = Vec::new();
    let empty: Vec<TreeEntry> = Vec::new();
    let mut prev_idx: LabelMap<String> = LabelMap::new();
    let mut k: usize = 0;
    while k < entries_per_commit.len()
        invariant
            k <= entries_per_commit@.len(),
            forall|q: int| 0 <= q < entries_per_commit@.len() ==> distinct_paths((#[trigger] entries_per_commit@[q])@),
            empty@.len() == 0,
            prev_idx.wf(),
            forall|p: Seq<char>| #[trigger] prev_idx.has(p) <==> lookup(if k == 0 { empty@ } else { entries_per_commit@[k - 1]@ }, p) is Some,
            forall|p: Seq<char>| prev_idx.has(p) ==> Some(#[trigger] prev_idx.at(p)@) == lookup(if k == 0 { empty@ } else { entries_per_commit@[k - 1]@ }, p),
            plans@.len() == k,
            k > 0 ==> plan_of(plans@[0], Seq::empty(), entries_per_commit@[0]@),
            forall|q: int| 0 < q < k ==> plan_of(#[trigger] plans@[q], entries_per_commit@[q - 1]@, entries_per_commit@[q]@),
        decreases entries_per_commit@.len() - k,
    {
        let cur = &entries_per_commit[k];
        let cur_idx = index_entries(cur);
        let prev = if k == 0 { &empty } else { &entries_per_commit[k - 1] };
        let plan = plan_commit(prev, &prev_idx, cur, &cur_idx);
        plans.push(plan);
        prev_idx = cur_idx;
        proof {
            if k == 0 {
                assert(empty@ =~= Seq::<TreeEntry>::empty());
            }
        }
        k += 1;
    }
    plans
}

/// A run of lines of a blamed file that last changed in one commit.
#[derive(Debug)]
pub struct BlameHunk {
    pub lines: u64,
    /// Id of the commit the lines come from.
    pub commit: String,
    pub author_name: String,
    pub author_email: String,
}

/// Cohort label used for lines whose commit is not on the analysed branch.
pub open spec fn missing_cohort() -> Seq<char> {
    seq!['M', 'I', 'S', 'S', 'I', 'N', 'G']
}

/// The key of kind `k` that the lines of hunk `h` of the file at `path` are
/// counted under; commit ids are keys only for commits on the analysed
/// branch (those with a cohort).
pub open spec fn hunk_key(path: Seq<char>, h: BlameHunk, cohort_of: LabelMap<String>, k: KeyKind) -> Option<Seq<char>> {
    match k {
        KeyKind::Cohort => Some(if cohort_of.has(h.commit@) { cohort_of.at(h.commit@)@ } else { missing_cohort() }),
        KeyKind::Ext => Some(spec_extension(path)),
        KeyKind::Author => Some(h.author_name@),
        KeyKind::Dir => Some(spec_top_dir(path)),
        KeyKind::Domain => Some(spec_domain(h.author_email@)),
        KeyKind::Sha => if cohort_of.has(h.commit@) { Some(h.commit@) } else { None },
    }
}

/// Lines of `hunks` counted under `(k, l)`.
pub open spec fn hunk_total(path: Seq<char>, hunks: Seq<BlameHunk>, cohort_of: LabelMap<String>, k: KeyKind, l: Seq<char>) -> int
    decreases hunks.len(),
{
    if hunks.len() == 0 {
        0
    } else {
        hunk_total(path, hunks.drop_last(), cohort_of, k, l) + if hunk_key(path, hunks.last(), cohort_of, k) == Some(l) {
            hunks.last().lines as int
        } else {
            0
        }
    }
}

/// All lines of `hunks`.
pub open spec fn lines_total(hunks: Seq<BlameHunk>) -> int
    decreases hunks.len(),
{
    if hunks.len() == 0 {
        0
    } else {
        lines_total(hunks.drop_last()) + hunks.last().lines
    }
}

proof fn lemma_hunk_total_bound(path: Seq<char>, hunks: Seq<BlameHunk>, cohort_of: LabelMap<String>, k: KeyKind, l: Seq<char>)
    ensures
        0 <= hunk_total(path, hunks, cohort_of, k, l) <= lines_total(hunks),
    decreases hunks.len(),
{
    if hunks.len() > 0 {
        lemma_hunk_total_bound(path, hunks.drop_last(), cohort_of, k, l);
    }
}

proof fn lemma_lines_total_prefix(hunks: Seq<BlameHunk>, i: int)
    requires
        0 <= i <= hunks.len(),
    ensures
        0 <= lines_total(hunks.take(i)) <= lines_total(hunks),
    decreases hunks.len(),
{
    if i == hunks.len() {
        assert(hunks.take(i) =~= hunks);
        lemma_lines_total_nonneg(hunks);
    } else {
        assert(hunks.drop_last().take(i) =~= hunks.take(i));
        lemma_lines_total_prefix(hunks.drop_last(), i);
    }
}

proof fn lemma_lines_total_nonneg(hunks: Seq<BlameHunk>)
    ensures
        0 <= lines_total(hunks),
    decreases hunks.len(),
{
    if hunks.len() > 0 {
        lemma_lines_total_nonneg(hunks.drop_last());
    }
}

proof fn lemma_dir_total(path: Seq<char>, hunks: Seq<BlameHunk>, cohort_of: LabelMap<String>, l: Seq<char>)
    ensures
        hunk_total(path, hunks, cohort_of, KeyKind::Dir, l) == if is_top_dir_of(path, l) {
            lines_total(hunks)
        } else {
            0
        },
    decreases hunks.len(),
{
    lemma_top_dir_is_first_component(path);
    if is_top_dir_of(path, l) {
        lemma_top_dir_unique(path, l, spec_top_dir(path));
    }
    if hunks.len() > 0 {
        lemma_dir_total(path, hunks.drop_last(), cohort_of, l);
    }
}

/// All lines of a file are counted under its top-level directory (the
/// start of its path up to the first `/`, or `"/"` for a file at the root),
/// and no lines under any other directory.
pub proof fn lemma_lines_grouped_by_top_dir(
    path: Seq<char>,
    hunks: Seq<BlameHunk>,
    cohort_of: LabelMap<String>,
    h: Histogram,
    l: Seq<char>,
)
    requires
        forall|k: KeyKind, l2: Seq<char>| #[trigger] h.count(k, l2) == hunk_total(path, hunks, cohort_of, k, l2),
    ensures
        h.count(KeyKind::Dir, l) == if is_top_dir_of(path, l) {
            lines_total(hunks)
        } else {
            0
        },
{
    lemma_dir_total(path, hunks, cohort_of, l);
    assert(h.count(KeyKind::Dir, l) == hunk_total(path, hunks, cohort_of, KeyKind::Dir, l));
}

/// Adds `n` to the count of `(k, label)`.
fn bump(h: &mut Histogram, k: KeyKind, label: &str, n: u64)
    requires
        old(h).wf(),
        old(h).count(k, label@) + n <= u64::MAX,
    ensures
        final(h).wf(),
        final(h).count(k, label@) == old(h).count(k, label@) + n,
        forall|k2: KeyKind, l: Seq<char>|
            (k2 != k || l != label@) ==> #[trigger] final(h).count(k2, l) == old(h).count(k2, l),
        final(h).kind_total(k) == old(h).kind_total(k) + n,
        forall|k2: KeyKind| k2 != k ==> #[trigger] final(h).kind_total(k2) == old(h).kind_total(k2),
{
    let c = h.get(k, label);
    h.set(k, label, c + n);
}

/// Line counts of one blamed file: each hunk's lines are counted under its
/// cohort (`"MISSING"` for commits off the branch), the file's extension, its
/// author, the file's top-level directory, the author's e-mail domain, and
/// its commit when that commit is on the branch.
pub fn file_histogram(path: &str, hunks: &Vec<BlameHunk>, cohort_of: &LabelMap<String>) -> (h: Histogram)
    requires
        cohort_of.wf(),
        lines_total(hunks@) <= u64::MAX,
    ensures
        h.wf(),
        forall|k: KeyKind, l: Seq<char>| #[trigger] h.count(k, l) == hunk_total(path@, hunks@, *cohort_of, k, l),
        forall|k: KeyKind| k != KeyKind::Sha ==> #[trigger] h.kind_total(k) == lines_total(hunks@),
        forall|l: Seq<char>|
            #[trigger] h.count(KeyKind::Dir, l) == if is_top_dir_of(path@, l) {
                lines_total(hunks@)
            } else {
                0
            },
{
    let ext = extension(path);
    let dir = top_dir(path);
    let mut h = Histogram::new();
    let mut i: usize = 0;
    while i < hunks.len()
        invariant
            i <= hunks@.len(),
            cohort_of.wf(),
            lines_total(hunks@) <= u64::MAX,
            ext@ == spec_extension(path@),
            dir@ == spec_top_dir(path@),
            h.wf(),
            forall|k: KeyKind, l: Seq<char>| #[trigger] h.count(k, l) == hunk_total(path@, hunks@.take(i as int), *cohort_of, k, l),
            forall|k: KeyKind| k != KeyKind::Sha ==> #[trigger] h.kind_total(k) == lines_total(hunks@.take(i as int)),
        decreases hunks@.len() - i,
    {
        let hunk = &hunks[i];
        let n = hunk.lines;
        let ghost prefix = hunks@.take(i as int);
        let ghost next = hunks@.take(i + 1);
        proof {
            assert(next.drop_last() =~= prefix);
            assert(next.last() == hunks@[i as int]);
            lemma_lines_total_prefix(hunks@, i + 1);
            assert forall|k: KeyKind, l: Seq<char>| hunk_total(path@, prefix, *cohort_of, k, l) + n <= u64::MAX by {
                lemma_hunk_total_bound(path@, prefix, *cohort_of, k, l);
            }
        }
        if n > 0 {
            let key = chars_of(hunk.commit.as_str());
            let (cohort, on_branch) = match cohort_of.search(&key) {
                Ok(j) => {
                    proof {
                        lemma_pos_of_entry(cohort_of, j as int);
                    }
                    (cohort_of.entries[j].1.clone(), true)
                },
                Err(_) => {
                    proof {
                        if cohort_of.has(key@) {
                            let a = choose|a: int| 0 <= a < cohort_of.entries@.len() && #[trigger] cohort_of.entries@[a].0@ == key@;
                            lemma_label_lt_irreflexive(key@);
                            assert(false);
                        }
                    }
                    proof {
                        reveal_strlit("MISSING");
                    }
                    (String::from_str("MISSING"), false)
                },
            };
            let domain = extract_domain(hunk.author_email.as_str());
            let ghost h0 = h;
            assert(cohort@ == hunk_key(path@, hunks@[i as int], *cohort_of, KeyKind::Cohort).unwrap());
            assert(on_branch == cohort_of.has(hunk.commit@));
            bump(&mut h, KeyKind::Cohort, cohort.as_str(), n);
            let ghost h1 = h;
            bump(&mut h, KeyKind::Ext, ext.as_str(), n);
            let ghost h2 = h;
            bump(&mut h, KeyKind::Author, hunk.author_name.as_str(), n);
            let ghost h3 = h;
            bump(&mut h, KeyKind::Dir, dir.as_str(), n);
            let ghost h4 = h;
            bump(&mut h, KeyKind::Domain, domain.as_str(), n);
            let ghost h5 = h;
            if on_branch {
                bump(&mut h, KeyKind::Sha, hunk.commit.as_str(), n);
            }
            proof {
                assert(lines_total(next) == lines_total(prefix) + n);
                assert forall|k: KeyKind| k != KeyKind::Sha implies #[trigger] h.kind_total(k) == lines_total(next) by {
                    assert(h.kind_total(k) == h5.kind_total(k));
                    match k {
                        KeyKind::Cohort => {
                            assert(h5.kind_total(k) == h1.kind_total(k));
                            assert(h1.kind_total(k) == h0.kind_total(k) + n);
                        },
                        KeyKind::Ext => {
                            assert(h5.kind_total(k) == h2.kind_total(k));
                            assert(h2.kind_total(k) == h1.kind_total(k) + n);
                            assert(h1.kind_total(k) == h0.kind_total(k));
                        },
                        KeyKind::Author => {
                            assert(h5.kind_total(k) == h3.kind_total(k));
                            assert(h3.kind_total(k) == h2.kind_total(k) + n);
                            assert(h2.kind_total(k) == h0.kind_total(k));
                        },
                        KeyKind::Dir => {
                            assert(h5.kind_total(k) == h4.kind_total(k));
                            assert(h4.kind_total(k) == h3.kind_total(k) + n);
                            assert(h3.kind_total(k) == h0.kind_total(k));
                        },
                        KeyKind::Domain => {
                            assert(h5.kind_total(k) == h4.kind_total(k) + n);
                            assert(h4.kind_total(k) == h0.kind_total(k));
                        },
                        KeyKind::Sha => {},
                    }
                }
                assert forall|k: KeyKind, l: Seq<char>| #[trigger] h.count(k, l) == hunk_total(path@, next, *cohort_of, k, l) by {
                    let hk = hunk_key(path@, hunks@[i as int], *cohort_of, k);
                    let add: int = if hk == Some(l) { n as int } else { 0 };
                    match k {
                        KeyKind::Cohort => {
                            assert(h.count(k, l) == h1.count(k, l));
                            assert(h1.count(k, l) == h0.count(k, l) + add);
                        },
                        KeyKind::Ext => {
                            assert(h.count(k, l) == h2.count(k, l));
                            assert(h2.count(k, l) == h1.count(k, l) + add);
                            assert(h1.count(k, l) == h0.count(k, l));
                        },
                        KeyKind::Author => {
                            assert(h.count(k, l) == h3.count(k, l));
                            assert(h3.count(k, l) == h2.count(k, l) + add);
                            assert(h2.count(k, l) == h0.count(k, l));
                        },
                        KeyKind::Dir => {
                            assert(h.count(k, l) == h4.count(k, l));
                            assert(h4.count(k, l) == h3.count(k, l) + add);
                            assert(h3.count(k, l) == h0.count(k, l));
                        },
                        KeyKind::Domain => {
                            assert(h.count(k, l) == h5.count(k, l));
                            assert(h5.count(k, l) == h4.count(k, l) + add);
                            assert(h4.count(k, l) == h0.count(k, l));
                        },
                        KeyKind::Sha => {
                            assert(h5.count(k, l) == h0.count(k, l));
                            assert(h.count(k, l) == h5.count(k, l) + add);
                        },
                    }
                }
            }
        } else {
            assert forall|k: KeyKind, l: Seq<char>| #[trigger] h.count(k, l) == hunk_total(path@, next, *cohort_of, k, l) by {}
            assert(lines_total(next) == lines_total(prefix));
        }
        i += 1;
    }
    assert(hunks@.take(hunks@.len() as int) =~= hunks@);
    proof {
        assert forall|l: Seq<char>|
            #[trigger] h.count(KeyKind::Dir, l) == if is_top_dir_of(path@, l) {
                lines_total(hunks@)
            } else {
                0
            } by {
            lemma_lines_grouped_by_top_dir(path@, hunks@, *cohort_of, h, l);
        }
    }
    h
}

} // verus!
