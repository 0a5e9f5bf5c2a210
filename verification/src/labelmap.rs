//! A map from string labels to values, held as a vector of entries sorted
//! strictly by label.  Iterating the entries therefore visits the labels in
//! ascending order, as a sorted map would.

use vstd::prelude::*;

use crate::order::{
    label_less, label_lt, lemma_label_lt_irreflexive, lemma_label_lt_total,
    lemma_label_lt_transitive, strictly_sorted,
};
use crate::text::chars_of;

verus! {

/// Entries sorted strictly by label.
#[derive(Debug)]
pub struct LabelMap<V> {
    pub entries: Vec<(String, V)>,
}

impl<V> LabelMap<V> {
    /// The labels, in entry order.
    pub open spec fn labels(&self) -> Seq<Seq<char>> {
        Seq::new(self.entries@.len(), |i: int| self.entries@[i].0@)
    }

    /// The labels are strictly increasing, hence distinct.
    pub open spec fn wf(&self) -> bool {
        strictly_sorted(self.labels())
    }

    pub open spec fn has(&self, l: Seq<char>) -> bool {
        exists|i: int| 0 <= i < self.entries@.len() && #[trigger] self.entries@[i].0@ == l
    }

    /// Position of label `l`.
    pub open spec fn pos(&self, l: Seq<char>) -> int {
        choose|i: int| 0 <= i < self.entries@.len() && #[trigger] self.entries@[i].0@ == l
    }

    /// Value held under label `l`.
    pub open spec fn at(&self, l: Seq<char>) -> V {
        self.entries@[self.pos(l)].1
    }

    /// An empty map.
    pub fn new() -> (m: Self)
        ensures
            m.wf(),
            m.entries@.len() == 0,
    {
        LabelMap { entries: Vec::new() }
    }

    /// Number of labels.
    pub fn len(&self) -> (n: usize)
        ensures
            n == self.entries@.len(),
    {
        self.entries.len()
    }

    /// Binary search for `label`: `Ok(i)` when entry `i` holds it, `Err(i)` with
    /// the position where it would be inserted otherwise.
    pub fn search(&self, label: &Vec<char>) -> (r: Result<usize, usize>)
        requires
            self.wf(),
        ensures
            match r {
                Ok(i) => i < self.entries@.len() && self.entries@[i as int].0@ == label@,
                Err(i) => i <= self.entries@.len() && (forall|j: int|
                    0 <= j < i ==> label_lt(#[trigger] self.entries@[j].0@, label@)) && (forall|
                    j: int,
                |
                    i <= j < self.entries@.len() ==> label_lt(label@, #[trigger] self.entries@[j].0@)),
            },
    {
        let mut lo: usize = 0;
        let mut hi: usize = self.entries.len();
        while lo < hi
            invariant
                self.wf(),
                lo <= hi <= self.entries@.len(),
                forall|j: int| 0 <= j < lo ==> label_lt(#[trigger] self.entries@[j].0@, label@),
                forall|j: int|
                    hi <= j < self.entries@.len() ==> label_lt(label@, #[trigger] self.entries@[j].0@),
            decreases hi - lo,
        {
            let mid = lo + (hi - lo) / 2;
            let key = chars_of(self.entries[mid].0.as_str());
            assert(self.labels()[mid as int] == self.entries@[mid as int].0@);
            if label_less(&key, label) {
                assert forall|j: int| 0 <= j <= mid implies label_lt(
                    #[trigger] self.entries@[j].0@,
                    label@,
                ) by {
                    if j < mid {
                        assert(self.labels()[j] == self.entries@[j].0@);
                        lemma_label_lt_transitive(self.entries@[j].0@, key@, label@);
                    }
                }
                lo = mid + 1;
            } else if label_less(label, &key) {
                assert forall|j: int| mid <= j < self.entries@.len() implies label_lt(
                    label@,
                    #[trigger] self.entries@[j].0@,
                ) by {
                    if j > mid {
                        assert(self.labels()[j] == self.entries@[j].0@);
                        lemma_label_lt_transitive(label@, key@, self.entries@[j].0@);
                    }
                }
                hi = mid;
            } else {
                proof {
                    lemma_label_lt_total(key@, label@);
                }
                return Ok(mid);
            }
        }
        Err(lo)
    }

    /// Inserts a label that is not yet present at the position `search`
    /// reported for it.
    pub fn insert_at(&mut self, i: usize, label: String, value: V)
        requires
            old(self).wf(),
            i <= old(self).entries@.len(),
            forall|j: int| 0 <= j < i ==> label_lt(#[trigger] old(self).entries@[j].0@, label@),
            forall|j: int|
                i <= j < old(self).entries@.len() ==> label_lt(
                    label@,
                    #[trigger] old(self).entries@[j].0@,
                ),
        ensures
            final(self).wf(),
            final(self).entries@ == old(self).entries@.insert(i as int, (label, value)),
    {
        self.entries.insert(i, (label, value));
        assert forall|a: int, b: int|
            0 <= a < b < self.labels().len() implies label_lt(
            #[trigger] self.labels()[a],
            #[trigger] self.labels()[b],
        ) by {
            if b < i {
                assert(old(self).labels()[a] == self.labels()[a]);
                assert(old(self).labels()[b] == self.labels()[b]);
            } else if a > i {
                assert(old(self).labels()[a - 1] == self.labels()[a]);
                assert(old(self).labels()[b - 1] == self.labels()[b]);
            } else if a < i && b > i {
                assert(old(self).labels()[a] == self.labels()[a]);
                assert(old(self).labels()[b - 1] == self.labels()[b]);
            } else if a == i {
                assert(old(self).labels()[b - 1] == self.labels()[b]);
            } else {
                assert(old(self).labels()[a] == self.labels()[a]);
            }
        }
    }
}

impl<V> LabelMap<V> {
    /// Removes and returns entry `i`.
    pub fn remove_at(&mut self, i: usize) -> (e: (String, V))
        requires
            old(self).wf(),
            i < old(self).entries@.len(),
        ensures
            final(self).wf(),
            final(self).entries@ == old(self).entries@.remove(i as int),
            e == old(self).entries@[i as int],
    {
        let e = self.entries.remove(i);
        assert forall|a: int, b: int|
            0 <= a < b < self.labels().len() implies label_lt(
            #[trigger] self.labels()[a],
            #[trigger] self.labels()[b],
        ) by {
            let a0 = if a < i { a } else { a + 1 };
            let b0 = if b < i { b } else { b + 1 };
            assert(old(self).labels()[a0] == self.labels()[a]);
            assert(old(self).labels()[b0] == self.labels()[b]);
        }
        e
    }
}

/// Labels present after inserting entry `e` at position `i`.
pub proof fn lemma_insert_has<V>(before: LabelMap<V>, after: LabelMap<V>, i: int, e: (String, V), l: Seq<char>)
    requires
        0 <= i <= before.entries@.len(),
        after.entries@ == before.entries@.insert(i, e),
    ensures
        after.has(l) <==> (before.has(l) || e.0@ == l),
{
    if after.has(l) {
        let j = choose|j: int| 0 <= j < after.entries@.len() && #[trigger] after.entries@[j].0@ == l;
        if j < i {
            assert(before.entries@[j].0@ == l);
        } else if j > i {
            assert(before.entries@[j - 1].0@ == l);
        }
    }
    if before.has(l) {
        let j = choose|j: int| 0 <= j < before.entries@.len() && #[trigger] before.entries@[j].0@ == l;
        if j < i {
            assert(after.entries@[j].0@ == l);
        } else {
            assert(after.entries@[j + 1].0@ == l);
        }
    }
    if e.0@ == l {
        assert(after.entries@[i].0@ == l);
    }
}

/// Values of other labels are kept by an insertion.
pub proof fn lemma_insert_at_value<V>(before: LabelMap<V>, after: LabelMap<V>, i: int, e: (String, V), l: Seq<char>)
    requires
        before.wf(),
        after.wf(),
        0 <= i <= before.entries@.len(),
        after.entries@ == before.entries@.insert(i, e),
        before.has(l),
        e.0@ != l,
    ensures
        after.at(l) == before.at(l),
{
    let j = before.pos(l);
    lemma_pos_of_entry(&before, j);
    if j < i {
        assert(after.entries@[j] == before.entries@[j]);
        lemma_pos_of_entry(&after, j);
    } else {
        assert(after.entries@[j + 1] == before.entries@[j]);
        lemma_pos_of_entry(&after, j + 1);
    }
}

/// The value of the last entry of `es` labelled `l`.
pub open spec fn last_value<V>(es: Seq<(String, V)>, l: Seq<char>) -> Option<V>
    decreases es.len(),
{
    if es.len() == 0 {
        None
    } else if es.last().0@ == l {
        Some(es.last().1)
    } else {
        last_value(es.drop_last(), l)
    }
}

proof fn lemma_last_value_concat<V>(a: Seq<(String, V)>, b: Seq<(String, V)>, l: Seq<char>)
    ensures
        last_value(a + b, l) == if last_value(b, l) is Some {
            last_value(b, l)
        } else {
            last_value(a, l)
        },
    decreases b.len(),
{
    if b.len() == 0 {
        assert(a + b =~= a);
    } else {
        assert((a + b).drop_last() =~= a + b.drop_last());
        assert((a + b).last() == b.last());
        lemma_last_value_concat(a, b.drop_last(), l);
    }
}

/// A map holding, for each label of `entries`, the value of the last entry
/// with that label (as inserting them in order into a sorted map would).
pub fn from_entries<V>(entries: Vec<(String, V)>) -> (m: LabelMap<V>)
    ensures
        m.wf(),
        forall|l: Seq<char>| #[trigger] m.has(l) <==> last_value(entries@, l) is Some,
        forall|l: Seq<char>| #[trigger] m.has(l) ==> last_value(entries@, l) == Some(m.at(l)),
{
    let ghost orig = entries@;
    let mut rest = entries;
    let mut m: LabelMap<V> = LabelMap::new();
    while rest.len() > 0
        invariant
            m.wf(),
            rest@.len() <= orig.len(),
            rest@ == orig.take(rest@.len() as int),
            forall|l: Seq<char>| #[trigger] m.has(l) <==> last_value(orig.skip(rest@.len() as int), l) is Some,
            forall|l: Seq<char>| #[trigger] m.has(l) ==> last_value(orig.skip(rest@.len() as int), l) == Some(m.at(l)),
        decreases rest@.len(),
    {
        let ghost n = rest@.len() as int;
        let ghost done = orig.skip(n);
        let e = rest.pop().unwrap();
        let ghost ev = e;
        proof {
            assert(orig.take(n).last() == ev);
            assert(rest@ =~= orig.take(n - 1));
            assert(orig.skip(n - 1) =~= seq![ev] + done);
            assert forall|l: Seq<char>| #[trigger] last_value(orig.skip(n - 1), l) == if last_value(done, l) is Some {
                last_value(done, l)
            } else if ev.0@ == l {
                Some(ev.1)
            } else {
                None::<V>
            } by {
                lemma_last_value_concat(seq![ev], done, l);
                assert(seq![ev].drop_last() =~= Seq::<(String, V)>::empty());
                assert(seq![ev].last() == ev);
                assert(last_value(Seq::<(String, V)>::empty(), l) is None);
            }
        }
        let (k, v) = e;
        let key = chars_of(k.as_str());
        match m.search(&key) {
            Ok(i) => {
                proof {
                    assert(m.has(ev.0@)) by {
                        assert(m.entries@[i as int].0@ == ev.0@);
                    }
                }
            },
            Err(p) => {
                let ghost before = m;
                proof {
                    lemma_search_absent(m, ev.0@, p as int);
                }
                m.insert_at(p, k, v);
                proof {
                    assert forall|l: Seq<char>| #[trigger] m.has(l) <==> last_value(orig.skip(n - 1), l) is Some by {
                        lemma_insert_has(before, m, p as int, ev, l);
                    }
                    assert forall|l: Seq<char>| #[trigger] m.has(l) implies last_value(orig.skip(n - 1), l) == Some(m.at(l)) by {
                        lemma_insert_has(before, m, p as int, ev, l);
                        if l == ev.0@ {
                            assert(m.entries@[p as int] == ev);
                            lemma_pos_of_entry(&m, p as int);
                        } else {
                            lemma_insert_at_value(before, m, p as int, ev, l);
                        }
                    }
                }
            },
        }
    }
    proof {
        assert(orig.skip(0) =~= orig);
    }
    m
}

/// A label that `search` placed between its neighbours is absent.
pub proof fn lemma_search_absent<V>(m: LabelMap<V>, l: Seq<char>, i: int)
    requires
        0 <= i <= m.entries@.len(),
        forall|j: int| 0 <= j < i ==> label_lt(#[trigger] m.entries@[j].0@, l),
        forall|j: int| i <= j < m.entries@.len() ==> label_lt(l, #[trigger] m.entries@[j].0@),
    ensures
        !m.has(l),
{
    if m.has(l) {
        let j = choose|j: int| 0 <= j < m.entries@.len() && #[trigger] m.entries@[j].0@ == l;
        lemma_label_lt_irreflexive(l);
    }
}

/// The distinct labels among `labels`.
pub fn label_set(labels: &Vec<String>) -> (m: LabelMap<()>)
    ensures
        m.wf(),
        forall|l: Seq<char>| #[trigger] m.has(l) <==> exists|i: int| 0 <= i < labels@.len() && #[trigger] labels@[i]@ == l,
{
    let mut m: LabelMap<()> = LabelMap::new();
    let mut i: usize = 0;
    while i < labels.len()
        invariant
            i <= labels@.len(),
            m.wf(),
            forall|l: Seq<char>| #[trigger] m.has(l) <==> exists|j: int| 0 <= j < i && #[trigger] labels@[j]@ == l,
        decreases labels@.len() - i,
    {
        let key = chars_of(labels[i].as_str());
        match m.search(&key) {
            Ok(_) => {
                assert forall|l: Seq<char>| #[trigger] m.has(l) <==> exists|j: int| 0 <= j < i + 1 && #[trigger] labels@[j]@ == l by {
                    if l == labels@[i as int]@ {
                        assert(labels@[i as int]@ == l);
                    }
                    if exists|j: int| 0 <= j < i + 1 && #[trigger] labels@[j]@ == l {
                        let j = choose|j: int| 0 <= j < i + 1 && #[trigger] labels@[j]@ == l;
                        if j < i {
                            assert(labels@[j]@ == l);
                        }
                    }
                }
            },
            Err(p) => {
                let ghost before = m;
                m.insert_at(p, labels[i].clone(), ());
                assert forall|l: Seq<char>| #[trigger] m.has(l) <==> exists|j: int| 0 <= j < i + 1 && #[trigger] labels@[j]@ == l by {
                    lemma_insert_has(before, m, p as int, (labels@[i as int], ()), l);
                    if l == labels@[i as int]@ {
                        assert(labels@[i as int]@ == l);
                    }
                    if exists|j: int| 0 <= j < i + 1 && #[trigger] labels@[j]@ == l {
                        let j = choose|j: int| 0 <= j < i + 1 && #[trigger] labels@[j]@ == l;
                        if j < i {
                            assert(labels@[j]@ == l);
                        }
                    }
                }
            },
        }
        i += 1;
    }
    m
}

impl<V> LabelMap<V> {
    /// Whether the labels are strictly increasing.
    pub fn is_sorted(&self) -> (r: bool)
        ensures
            r == self.wf(),
    {
        let n = self.entries.len();
        if n == 0 {
            return true;
        }
        let mut i: usize = 1;
        while i < n
            invariant
                n == self.entries@.len(),
                1 <= i <= n,
                forall|a: int, b: int| 0 <= a < b < i ==> label_lt(#[trigger] self.labels()[a], #[trigger] self.labels()[b]),
            decreases n - i,
        {
            let a = chars_of(self.entries[i - 1].0.as_str());
            let b = chars_of(self.entries[i].0.as_str());
            if !label_less(&a, &b) {
                proof {
                    assert(self.labels()[i - 1] == a@);
                    assert(self.labels()[i as int] == b@);
                }
                return false;
            }
            proof {
                assert forall|x: int, y: int| 0 <= x < y < i + 1 implies label_lt(#[trigger] self.labels()[x], #[trigger] self.labels()[y]) by {
                    if y == i && x < i - 1 {
                        lemma_label_lt_transitive(self.labels()[x], self.labels()[i - 1], self.labels()[y]);
                    }
                }
            }
            i += 1;
        }
        true
    }
}

/// In a well-formed map each label occupies exactly one position.
pub proof fn lemma_label_position_unique<V>(m: &LabelMap<V>, i: int, j: int)
    requires
        m.wf(),
        0 <= i < m.entries@.len(),
        0 <= j < m.entries@.len(),
        m.entries@[i].0@ == m.entries@[j].0@,
    ensures
        i == j,
{
    assert(m.labels()[i] == m.entries@[i].0@);
    assert(m.labels()[j] == m.entries@[j].0@);
    if i < j {
        lemma_label_lt_irreflexive(m.entries@[i].0@);
    } else if j < i {
        lemma_label_lt_irreflexive(m.entries@[i].0@);
    }
}

/// The chosen position of a present label is the position holding it.
pub proof fn lemma_pos_of_entry<V>(m: &LabelMap<V>, i: int)
    requires
        m.wf(),
        0 <= i < m.entries@.len(),
    ensures
        m.has(m.entries@[i].0@),
        m.pos(m.entries@[i].0@) == i,
        m.at(m.entries@[i].0@) == m.entries@[i].1,
{
    let l = m.entries@[i].0@;
    assert(m.has(l));
    let p = m.pos(l);
    lemma_label_position_unique(m, p, i);
}

} // verus!
