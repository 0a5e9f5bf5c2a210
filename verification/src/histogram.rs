//! Line counts per label for each kind of key: the histogram of one blamed
//! file, and sums of histograms.

use vstd::prelude::*;

use crate::labelmap::{lemma_pos_of_entry, LabelMap};
use crate::order::lemma_label_lt_irreflexive;
use crate::text::chars_of;

verus! {

/// The kinds of keys lines are counted under.
#[derive(Clone, Copy, Debug, PartialEq, Eq, Structural)]
pub enum KeyKind {
    Cohort,
    Ext,
    Author,
    Dir,
    Domain,
    Sha,
}

/// Counts per label, one map per key kind.
#[derive(Debug)]
pub struct Histogram {
    pub cohorts: LabelMap<u64>,
    pub exts: LabelMap<u64>,
    pub authors: LabelMap<u64>,
    pub dirs: LabelMap<u64>,
    pub domains: LabelMap<u64>,
    pub shas: LabelMap<u64>,
}

impl Histogram {
    pub open spec fn of(&self, k: KeyKind) -> LabelMap<u64> {
        match k {
            KeyKind::Cohort => self.cohorts,
            KeyKind::Ext => self.exts,
            KeyKind::Author => self.authors,
            KeyKind::Dir => self.dirs,
            KeyKind::Domain => self.domains,
            KeyKind::Sha => self.shas,
        }
    }

    /// Lines counted under key `(k, l)`; 0 when the key is absent.
    pub open spec fn count(&self, k: KeyKind, l: Seq<char>) -> int {
        if self.of(k).has(l) {
            self.of(k).at(l) as int
        } else {
            0
        }
    }

    pub open spec fn wf(&self) -> bool {
        forall|k: KeyKind| (#[trigger] self.of(k)).wf()
    }

    /// Lines counted under all keys of kind `k`.
    pub open spec fn kind_total(&self, k: KeyKind) -> int {
        map_total(self.of(k).entries@)
    }

    /// A histogram without counts.
    pub fn new() -> (h: Histogram)
        ensures
            h.wf(),
            forall|k: KeyKind| (#[trigger] h.of(k)).entries@.len() == 0,
            forall|k: KeyKind, l: Seq<char>| #[trigger] h.count(k, l) == 0,
    {
        let h = Histogram {
            cohorts: LabelMap::new(),
            exts: LabelMap::new(),
            authors: LabelMap::new(),
            dirs: LabelMap::new(),
            domains: LabelMap::new(),
            shas: LabelMap::new(),
        };
        assert forall|k: KeyKind| #[trigger] h.of(k).wf() by {}
        h
    }

    pub fn map(&self, k: KeyKind) -> (m: &LabelMap<u64>)
        ensures
            *m == self.of(k),
    {
        match k {
            KeyKind::Cohort => &self.cohorts,
            KeyKind::Ext => &self.exts,
            KeyKind::Author => &self.authors,
            KeyKind::Dir => &self.dirs,
            KeyKind::Domain => &self.domains,
            KeyKind::Sha => &self.shas,
        }
    }

    /// Lines counted under `(k, label)`.
    pub fn get(&self, k: KeyKind, label: &str) -> (n: u64)
        requires
            self.wf(),
        ensures
            n == self.count(k, label@),
    {
        let m = self.map(k);
        assert(m.wf());
        let key = chars_of(label);
        match m.search(&key) {
            Ok(i) => {
                proof {
                    lemma_pos_of_entry(m, i as int);
                }
                m.entries[i].1
            },
            Err(_) => {
                proof {
                    if m.has(key@) {
                        let j = choose|j: int| 0 <= j < m.entries@.len() && #[trigger] m.entries@[j].0@ == key@;
                        lemma_label_lt_irreflexive(key@);
                        assert(false);
                    }
                }
                0
            },
        }
    }

    /// Sets the count of `(k, label)` to `n`, leaving every other key alone.
    pub fn set(&mut self, k: KeyKind, label: &str, n: u64)
        requires
            old(self).wf(),
        ensures
            final(self).wf(),
            final(self).count(k, label@) == n,
            forall|k2: KeyKind, l: Seq<char>|
                (k2 != k || l != label@) ==> #[trigger] final(self).count(k2, l) == old(self).count(k2, l),
            forall|k2: KeyKind| k2 != k ==> #[trigger] final(self).of(k2) == old(self).of(k2),
            final(self).kind_total(k) == old(self).kind_total(k) - old(self).count(k, label@) + n,
    {
        proof {
            assert(old(self).of(KeyKind::Cohort).wf());
            assert(old(self).of(KeyKind::Ext).wf());
            assert(old(self).of(KeyKind::Author).wf());
            assert(old(self).of(KeyKind::Dir).wf());
            assert(old(self).of(KeyKind::Domain).wf());
            assert(old(self).of(KeyKind::Sha).wf());
        }
        match k {
            KeyKind::Cohort => set_in_map(&mut self.cohorts, label, n),
            KeyKind::Ext => set_in_map(&mut self.exts, label, n),
            KeyKind::Author => set_in_map(&mut self.authors, label, n),
            KeyKind::Dir => set_in_map(&mut self.dirs, label, n),
            KeyKind::Domain => set_in_map(&mut self.domains, label, n),
            KeyKind::Sha => set_in_map(&mut self.shas, label, n),
        }
        assert forall|k2: KeyKind| #[trigger] self.of(k2).wf() by {}
    }
}

/// An entry-for-entry copy of `m`.
fn copy_map(m: &LabelMap<u64>) -> (r: LabelMap<u64>)
    ensures
        r.entries@ == m.entries@,
{
    let mut entries: Vec<(String, u64)> = Vec::new();
    let mut i: usize = 0;
    while i < m.entries.len()
        invariant
            i <= m.entries@.len(),
            entries@ == m.entries@.take(i as int),
        decreases m.entries@.len() - i,
    {
        entries.push((m.entries[i].0.clone(), m.entries[i].1));
        assert(m.entries@.take(i + 1) =~= m.entries@.take(i as int).push(m.entries@[i as int]));
        i += 1;
    }
    assert(m.entries@.take(m.entries@.len() as int) =~= m.entries@);
    LabelMap { entries }
}

impl Histogram {
    /// A copy holding the same entries.
    pub fn copy(&self) -> (r: Histogram)
        ensures
            forall|k: KeyKind| (#[trigger] r.of(k)).entries@ == self.of(k).entries@,
            self.wf() ==> r.wf(),
            forall|k: KeyKind, l: Seq<char>| #[trigger] r.count(k, l) == self.count(k, l),
    {
        let r = Histogram {
            cohorts: copy_map(&self.cohorts),
            exts: copy_map(&self.exts),
            authors: copy_map(&self.authors),
            dirs: copy_map(&self.dirs),
            domains: copy_map(&self.domains),
            shas: copy_map(&self.shas),
        };
        assert forall|k: KeyKind| (#[trigger] r.of(k)).entries@ == self.of(k).entries@ by {}
        assert forall|k: KeyKind| self.wf() implies #[trigger] r.of(k).wf() by {
            assert(r.of(k).labels() =~= self.of(k).labels());
            assert(self.of(k).wf());
        }
        r
    }
}

/// Sum of the counts of `es`.
pub open spec fn map_total(es: Seq<(String, u64)>) -> int
    decreases es.len(),
{
    if es.len() == 0 {
        0
    } else {
        map_total(es.drop_last()) + es.last().1
    }
}

proof fn lemma_total_update(es: Seq<(String, u64)>, i: int, e: (String, u64))
    requires
        0 <= i < es.len(),
    ensures
        map_total(es.update(i, e)) == map_total(es) - es[i].1 + e.1,
    decreases es.len(),
{
    if i == es.len() - 1 {
        assert(es.update(i, e).drop_last() =~= es.drop_last());
    } else {
        assert(es.update(i, e).drop_last() =~= es.drop_last().update(i, e));
        lemma_total_update(es.drop_last(), i, e);
    }
}

proof fn lemma_total_insert(es: Seq<(String, u64)>, i: int, e: (String, u64))
    requires
        0 <= i <= es.len(),
    ensures
        map_total(es.insert(i, e)) == map_total(es) + e.1,
    decreases es.len(),
{
    if i == es.len() {
        assert(es.insert(i, e).drop_last() =~= es);
    } else {
        assert(es.insert(i, e).drop_last() =~= es.drop_last().insert(i, e));
        assert(es.insert(i, e).last() == es.last());
        lemma_total_insert(es.drop_last(), i, e);
    }
}

/// Sets the value of `label` in `m` to `n`.
fn set_in_map(m: &mut LabelMap<u64>, label: &str, n: u64)
    requires
        old(m).wf(),
    ensures
        final(m).wf(),
        final(m).has(label@),
        final(m).at(label@) == n,
        forall|l: Seq<char>| l != label@ ==> (#[trigger] final(m).has(l) == old(m).has(l)),
        forall|l: Seq<char>| l != label@ && old(m).has(l) ==> #[trigger] final(m).at(l) == old(m).at(l),
        map_total(final(m).entries@) == map_total(old(m).entries@) - (if old(m).has(label@) {
            old(m).at(label@) as int
        } else {
            0
        }) + n,
{
    let key = chars_of(label);
    let ghost before = *m;
    match m.search(&key) {
        Ok(i) => {
            let name = m.entries[i].0.clone();
            m.entries.set(i, (name, n));
            proof {
                lemma_pos_of_entry(&before, i as int);
                lemma_total_update(before.entries@, i as int, m.entries@[i as int]);
                assert(m.labels() =~= before.labels());
                lemma_pos_of_entry(m, i as int);
                assert forall|l: Seq<char>| l != label@ implies (#[trigger] m.has(l) == before.has(l)) by {
                    if m.has(l) {
                        let j = choose|j: int| 0 <= j < m.entries@.len() && #[trigger] m.entries@[j].0@ == l;
                        assert(before.entries@[j].0@ == l);
                    }
                    if before.has(l) {
                        let j = choose|j: int| 0 <= j < before.entries@.len() && #[trigger] before.entries@[j].0@ == l;
                        assert(m.entries@[j].0@ == l);
                    }
                }
                assert forall|l: Seq<char>| l != label@ && before.has(l) implies #[trigger] m.at(l) == before.at(l) by {
                    let j = before.pos(l);
                    lemma_pos_of_entry(&before, j);
                    assert(m.entries@[j].0@ == l);
                    lemma_pos_of_entry(m, j);
                }
            }
        },
        Err(i) => {
            m.insert_at(i, String::from_str(label), n);
            proof {
                lemma_total_insert(before.entries@, i as int, m.entries@[i as int]);
                if before.has(label@) {
                    let j = choose|j: int| 0 <= j < before.entries@.len() && #[trigger] before.entries@[j].0@ == label@;
                    lemma_label_lt_irreflexive(label@);
                }
                lemma_pos_of_entry(m, i as int);
                assert forall|l: Seq<char>| l != label@ implies (#[trigger] m.has(l) == before.has(l)) by {
                    if m.has(l) {
                        let j = choose|j: int| 0 <= j < m.entries@.len() && #[trigger] m.entries@[j].0@ == l;
                        if j < i {
                            assert(before.entries@[j].0@ == l);
                        } else {
                            assert(before.entries@[j - 1].0@ == l);
                        }
                    }
                    if before.has(l) {
                        let j = choose|j: int| 0 <= j < before.entries@.len() && #[trigger] before.entries@[j].0@ == l;
                        if j < i {
                            assert(m.entries@[j].0@ == l);
                        } else {
                            assert(m.entries@[j + 1].0@ == l);
                        }
                    }
                }
                assert forall|l: Seq<char>| l != label@ && before.has(l) implies #[trigger] m.at(l) == before.at(l) by {
                    let j = before.pos(l);
                    lemma_pos_of_entry(&before, j);
                    if j < i {
                        assert(m.entries@[j] == before.entries@[j]);
                        lemma_pos_of_entry(m, j);
                    } else {
                        assert(m.entries@[j + 1] == before.entries@[j]);
                        lemma_pos_of_entry(m, j + 1);
                    }
                }
            }
        },
    }
}

/// Position of a key kind in the processing order.
pub open spec fn kind_index(k: KeyKind) -> int {
    match k {
        KeyKind::Cohort => 0,
        KeyKind::Ext => 1,
        KeyKind::Author => 2,
        KeyKind::Dir => 3,
        KeyKind::Domain => 4,
        KeyKind::Sha => 5,
    }
}

/// One of the first `e` entries of `m` is labelled `l`.
pub open spec fn seen_in<V>(m: LabelMap<V>, e: int, l: Seq<char>) -> bool {
    exists|i: int| 0 <= i < e && #[trigger] m.entries@[i].0@ == l
}

pub proof fn lemma_seen_all<V>(m: LabelMap<V>, l: Seq<char>)
    ensures
        seen_in(m, m.entries@.len() as int, l) == m.has(l),
{
}

pub proof fn lemma_seen_step<V>(m: LabelMap<V>, e: int, l: Seq<char>)
    requires
        m.wf(),
        0 <= e < m.entries@.len(),
    ensures
        seen_in(m, e + 1, l) == (seen_in(m, e, l) || l == m.entries@[e].0@),
        l == m.entries@[e].0@ ==> !seen_in(m, e, l),
{
    if seen_in(m, e + 1, l) && l != m.entries@[e].0@ {
        let i = choose|i: int| 0 <= i < e + 1 && #[trigger] m.entries@[i].0@ == l;
        assert(i < e);
    }
    if l == m.entries@[e].0@ && seen_in(m, e, l) {
        let i = choose|i: int| 0 <= i < e && #[trigger] m.entries@[i].0@ == l;
        crate::labelmap::lemma_label_position_unique(&m, i, e);
    }
    if l == m.entries@[e].0@ {
        assert(m.entries@[e].0@ == l);
    }
}

impl Histogram {
    /// Counts of `self` plus counts of `h` stay within `u64`.
    pub open spec fn fits_with(&self, h: Histogram) -> bool {
        forall|k: KeyKind, l: Seq<char>| #[trigger] self.count(k, l) + h.count(k, l) <= u64::MAX
    }

    /// Whether adding `h` keeps every count within `u64`.
    pub fn can_add(&self, h: &Histogram) -> (r: bool)
        requires
            self.wf(),
            h.wf(),
        ensures
            r == self.fits_with(*h),
    {
        let kinds = [KeyKind::Cohort, KeyKind::Ext, KeyKind::Author, KeyKind::Dir, KeyKind::Domain, KeyKind::Sha];
        let mut q: usize = 0;
        while q < 6
            invariant
                self.wf(),
                h.wf(),
                q <= 6,
                kinds@ == seq![KeyKind::Cohort, KeyKind::Ext, KeyKind::Author, KeyKind::Dir, KeyKind::Domain, KeyKind::Sha],
                forall|j: int, l: Seq<char>| 0 <= j < q ==> #[trigger] self.count(kinds@[j], l) + h.count(kinds@[j], l) <= u64::MAX,
            decreases 6 - q,
        {
            let k = kinds[q];
            let m = h.map(k);
            assert(m.wf());
            let mut e: usize = 0;
            while e < m.entries.len()
                invariant
                    self.wf(),
                    h.wf(),
                    *m == h.of(k),
                    m.wf(),
                    e <= m.entries@.len(),
                    forall|l: Seq<char>| seen_in(*m, e as int, l) ==> #[trigger] self.count(k, l) + h.count(k, l) <= u64::MAX,
                decreases m.entries@.len() - e,
            {
                let c = self.get(k, m.entries[e].0.as_str());
                proof {
                    lemma_pos_of_entry(m, e as int);
                }
                if c > u64::MAX - m.entries[e].1 {
                    return false;
                }
                proof {
                    assert forall|l: Seq<char>| seen_in(*m, e + 1, l) implies #[trigger] self.count(k, l) + h.count(k, l) <= u64::MAX by {
                        lemma_seen_step(*m, e as int, l);
                    }
                }
                e += 1;
            }
            proof {
                assert forall|l: Seq<char>| #[trigger] self.count(k, l) + h.count(k, l) <= u64::MAX by {
                    lemma_seen_all(*m, l);
                }
            }
            q += 1;
        }
        assert forall|k: KeyKind, l: Seq<char>| #[trigger] self.count(k, l) + h.count(k, l) <= u64::MAX by {
            let j: int = match k {
                KeyKind::Cohort => 0,
                KeyKind::Ext => 1,
                KeyKind::Author => 2,
                KeyKind::Dir => 3,
                KeyKind::Domain => 4,
                KeyKind::Sha => 5,
            };
            assert(kinds@[j] == k);
        }
        true
    }

    /// Adds the counts of `h`.
    pub fn add_counts(&mut self, h: &Histogram)
        requires
            old(self).wf(),
            h.wf(),
            old(self).fits_with(*h),
        ensures
            final(self).wf(),
            forall|k: KeyKind, l: Seq<char>| #[trigger] final(self).count(k, l) == old(self).count(k, l) + h.count(k, l),
    {
        self.combine(h, true);
    }

    /// Withdraws the counts of `h`, which must not exceed the present ones.
    pub fn sub_counts(&mut self, h: &Histogram)
        requires
            old(self).wf(),
            h.wf(),
            forall|k: KeyKind, l: Seq<char>| #[trigger] old(self).count(k, l) >= h.count(k, l),
        ensures
            final(self).wf(),
            forall|k: KeyKind, l: Seq<char>| #[trigger] final(self).count(k, l) == old(self).count(k, l) - h.count(k, l),
    {
        self.combine(h, false);
    }

    fn combine(&mut self, h: &Histogram, adding: bool)
        requires
            old(self).wf(),
            h.wf(),
            adding ==> old(self).fits_with(*h),
            !adding ==> forall|k: KeyKind, l: Seq<char>| #[trigger] old(self).count(k, l) >= h.count(k, l),
        ensures
            final(self).wf(),
            forall|k: KeyKind, l: Seq<char>| #[trigger] final(self).count(k, l) == if adding {
                old(self).count(k, l) + h.count(k, l)
            } else {
                old(self).count(k, l) - h.count(k, l)
            },
    {
        let kinds = [KeyKind::Cohort, KeyKind::Ext, KeyKind::Author, KeyKind::Dir, KeyKind::Domain, KeyKind::Sha];
        let mut q: usize = 0;
        while q < 6
            invariant
                self.wf(),
                h.wf(),
                q <= 6,
                kinds@ == seq![KeyKind::Cohort, KeyKind::Ext, KeyKind::Author, KeyKind::Dir, KeyKind::Domain, KeyKind::Sha],
                adding ==> old(self).fits_with(*h),
                !adding ==> forall|k: KeyKind, l: Seq<char>| #[trigger] old(self).count(k, l) >= h.count(k, l),
                forall|k: KeyKind, l: Seq<char>| #[trigger] self.count(k, l) == if kind_index(k) < q {
                    if adding { old(self).count(k, l) + h.count(k, l) } else { old(self).count(k, l) - h.count(k, l) }
                } else {
                    old(self).count(k, l)
                },
            decreases 6 - q,
        {
            let k = kinds[q];
            let m = h.map(k);
            assert(m.wf());
            let ghost start = *self;
            assert(kind_index(k) == q) by {
                assert(kinds@[q as int] == k);
            }
            let mut e: usize = 0;
            while e < m.entries.len()
                invariant
                    self.wf(),
                    h.wf(),
                    *m == h.of(k),
                    m.wf(),
                    e <= m.entries@.len(),
                    adding ==> old(self).fits_with(*h),
                    !adding ==> forall|k: KeyKind, l: Seq<char>| #[trigger] old(self).count(k, l) >= h.count(k, l),
                    forall|l: Seq<char>| #[trigger] start.count(k, l) == old(self).count(k, l),
                    forall|k2: KeyKind, l: Seq<char>| k2 != k ==> #[trigger] self.count(k2, l) == start.count(k2, l),
                    forall|l: Seq<char>| #[trigger] self.count(k, l) == if seen_in(*m, e as int, l) {
                        if adding { start.count(k, l) + h.count(k, l) } else { start.count(k, l) - h.count(k, l) }
                    } else {
                        start.count(k, l)
                    },
                decreases m.entries@.len() - e,
            {
                let label = &m.entries[e].0;
                let n = m.entries[e].1;
                proof {
                    lemma_pos_of_entry(m, e as int);
                    lemma_seen_step(*m, e as int, label@);
                }
                let c = self.get(k, label.as_str());
                let v = if adding { c + n } else { c - n };
                let ghost before = *self;
                self.set(k, label.as_str(), v);
                proof {
                    assert forall|l: Seq<char>| #[trigger] self.count(k, l) == if seen_in(*m, e + 1, l) {
                        if adding { start.count(k, l) + h.count(k, l) } else { start.count(k, l) - h.count(k, l) }
                    } else {
                        start.count(k, l)
                    } by {
                        lemma_seen_step(*m, e as int, l);
                    }
                }
                e += 1;
            }
            proof {
                assert forall|k2: KeyKind, l: Seq<char>| #[trigger] self.count(k2, l) == if kind_index(k2) < q + 1 {
                    if adding { old(self).count(k2, l) + h.count(k2, l) } else { old(self).count(k2, l) - h.count(k2, l) }
                } else {
                    old(self).count(k2, l)
                } by {
                    lemma_seen_all(*m, l);
                    if k2 != k {
                        assert(kind_index(k2) != q);
                    }
                }
            }
            q += 1;
        }
    }
}

} // verus!
