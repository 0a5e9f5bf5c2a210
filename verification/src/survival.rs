//! The survival data of one input, reduced to what the survival curve
//! needs: the lines first seen, and per elapsed time the change in
//! surviving lines and in lines still observed.

use vstd::prelude::*;

use crate::labelmap::{from_entries, last_value, LabelMap};

verus! {

/// The commit histories of the `survival.json` document in `bytes`, in the
/// order in which the document read as a map from commit id to
/// `[[time, lines], ...]` gives them; `None` when `bytes` holds no such
/// document.
pub uninterp spec fn survival_document(bytes: Seq<u8>) -> Option<Seq<(Seq<char>, Seq<(i64, u64)>)>>;

/// The plain values of parsed histories.
pub open spec fn entry_views(es: Seq<(String, Vec<(i64, u64)>)>) -> Seq<(Seq<char>, Seq<(i64, u64)>)> {
    Seq::new(es.len(), |i: int| (es[i].0@, es[i].1@))
}

/// `serde_json::from_slice::<BTreeMap<String, Vec<(i64, u64)>>>`, its
/// entries collected in order, or the parser's message.  Claimed: the
/// entries are `survival_document(bytes)`, and it fails exactly when that
/// is `None`.
#[verifier::external_body]
fn parse_survival(bytes: &[u8]) -> (r: Result<Vec<(String, Vec<(i64, u64)>)>, String>)
    ensures
        match r {
            Ok(es) => survival_document(bytes@) == Some(entry_views(es@)),
            Err(_) => survival_document(bytes@) is None,
        },
{
    match serde_json::from_slice::<std::collections::BTreeMap<String, Vec<(i64, u64)>>>(bytes) {
        Ok(m) => Ok(m.into_iter().collect()),
        Err(e) => Err(format!("{e}")),
    }
}

/// The history of the last entry of `d` for commit `l`.
pub open spec fn document_history(d: Seq<(Seq<char>, Seq<(i64, u64)>)>, l: Seq<char>) -> Option<Seq<(i64, u64)>>
    decreases d.len(),
{
    if d.len() == 0 {
        None
    } else if d.last().0 == l {
        Some(d.last().1)
    } else {
        document_history(d.drop_last(), l)
    }
}

proof fn lemma_document_history(es: Seq<(String, Vec<(i64, u64)>)>, l: Seq<char>)
    ensures
        (last_value(es, l) is Some) == (document_history(entry_views(es), l) is Some),
        last_value(es, l) matches Some(v) ==> document_history(entry_views(es), l) == Some(v@),
    decreases es.len(),
{
    if es.len() > 0 {
        assert(entry_views(es).drop_last() =~= entry_views(es.drop_last()));
        assert(entry_views(es).last() == (es.last().0@, es.last().1@));
        lemma_document_history(es.drop_last(), l);
    }
}

/// The commit histories of a `survival.json` document, keyed by commit id;
/// fails with the parser's message when `bytes` holds no such document.
pub fn survival_from_bytes(bytes: &[u8]) -> (r: Result<LabelMap<Vec<(i64, u64)>>, String>)
    ensures
        match r {
            Ok(m) => survival_document(bytes@) matches Some(d) && {
                &&& m.wf()
                &&& forall|l: Seq<char>| #[trigger] m.has(l) <==> document_history(d, l) is Some
                &&& forall|l: Seq<char>| #[trigger] m.has(l) ==> document_history(d, l) == Some(m.at(l)@)
            },
            Err(_) => survival_document(bytes@) is None,
        },
{
    match parse_survival(bytes) {
        Err(e) => Err(e),
        Ok(es) => {
            let ghost ev = es@;
            let m = from_entries(es);
            proof {
                assert forall|l: Seq<char>| #[trigger] m.has(l) <==> document_history(entry_views(ev), l) is Some by {
                    lemma_document_history(ev, l);
                }
                assert forall|l: Seq<char>| #[trigger] m.has(l) implies document_history(entry_views(ev), l) == Some(m.at(l)@) by {
                    lemma_document_history(ev, l);
                }
            }
            Ok(m)
        },
    }
}

/// A change of the surviving lines: `(elapsed seconds, change in surviving
/// lines, change in lines still observed)`.
pub type Delta = (int, int, int);

/// Changes between consecutive points `1..j` of history `h`, timed from
/// its first point.
pub open spec fn step_deltas(h: Seq<(i64, u64)>, j: int) -> Seq<Delta>
    decreases j,
{
    if j <= 1 {
        Seq::empty()
    } else {
        step_deltas(h, j - 1).push((h[j - 1].0 - h[0].0, h[j - 1].1 - h[j - 2].1, 0))
    }
}

/// The changes one commit's history contributes: each later point changes
/// the survivors by the difference of counts; at the last point the
/// remaining lines leave, and the lines first seen are no longer observed.
pub open spec fn history_deltas(h: Seq<(i64, u64)>) -> Seq<Delta> {
    if h.len() == 0 {
        Seq::empty()
    } else {
        step_deltas(h, h.len() as int).push((h.last().0 - h[0].0, -(h.last().1 as int), -(h[0].1 as int)))
    }
}

/// The changes of the first `n` histories, in order.
pub open spec fn all_deltas(hs: Seq<(String, Vec<(i64, u64)>)>, n: int) -> Seq<Delta>
    decreases n,
{
    if n <= 0 {
        Seq::empty()
    } else {
        all_deltas(hs, n - 1) + history_deltas(hs[n - 1].1@)
    }
}

/// Lines first seen, over the first `n` histories.
pub open spec fn first_seen(hs: Seq<(String, Vec<(i64, u64)>)>, n: int) -> int
    decreases n,
{
    if n <= 0 {
        0
    } else {
        first_seen(hs, n - 1) + if hs[n - 1].1@.len() > 0 {
            hs[n - 1].1@[0].1 as int
        } else {
            0
        }
    }
}

/// Sum of the changes at elapsed time `key`.
pub open spec fn delta_sum(cs: Seq<Delta>, key: int) -> (int, int)
    decreases cs.len(),
{
    if cs.len() == 0 {
        (0, 0)
    } else {
        let s = delta_sum(cs.drop_last(), key);
        if cs.last().0 == key {
            (s.0 + cs.last().1, s.1 + cs.last().2)
        } else {
            s
        }
    }
}

/// Some change happens at elapsed time `key`.
pub open spec fn has_time(cs: Seq<Delta>, key: int) -> bool {
    exists|i: int| 0 <= i < cs.len() && (#[trigger] cs[i]).0 == key
}

/// The survival data of a set of commit histories: lines first seen, and
/// the summed changes per elapsed time, in increasing time.
pub struct SurvivalDeltas {
    pub total: u64,
    pub deltas: Vec<(i64, i64, i64)>,
}

/// Counts fit in `i64`, elapsed times fit in `i64`, and there are fewer
/// than 2^60 points.
pub open spec fn deltas_computable(hs: Seq<(String, Vec<(i64, u64)>)>) -> bool {
    &&& forall|q: int, j: int| 0 <= q < hs.len() && 0 <= j < hs[q].1@.len() ==> (#[trigger] hs[q].1@[j]).1 <= i64::MAX
    &&& forall|q: int, j: int|
        0 <= q < hs.len() && 0 <= j < hs[q].1@.len() ==> i64::MIN <= (#[trigger] hs[q].1@[j]).0 - hs[q].1@[0].0
            <= i64::MAX
    &&& all_deltas(hs, hs.len() as int).len() < 0x1000_0000_0000_0000
}

proof fn lemma_delta_sum_bound(cs: Seq<Delta>, key: int)
    requires
        forall|i: int| 0 <= i < cs.len() ==> -0x8000_0000_0000_0000 <= (#[trigger] cs[i]).1 <= 0x8000_0000_0000_0000
            && -0x8000_0000_0000_0000 <= cs[i].2 <= 0x8000_0000_0000_0000,
    ensures
        -(cs.len() * 0x8000_0000_0000_0000) <= delta_sum(cs, key).0 <= cs.len() * 0x8000_0000_0000_0000,
        -(cs.len() * 0x8000_0000_0000_0000) <= delta_sum(cs, key).1 <= cs.len() * 0x8000_0000_0000_0000,
    decreases cs.len(),
{
    if cs.len() > 0 {
        assert forall|i: int| 0 <= i < cs.drop_last().len() implies -0x8000_0000_0000_0000 <= (
        #[trigger] cs.drop_last()[i]).1 <= 0x8000_0000_0000_0000 && -0x8000_0000_0000_0000 <= cs.drop_last()[i].2
            <= 0x8000_0000_0000_0000 by {
            assert(cs.drop_last()[i] == cs[i]);
        }
        lemma_delta_sum_bound(cs.drop_last(), key);
        assert(cs.last() == cs[cs.len() - 1]);
    }
}

proof fn lemma_delta_sum_concat(a: Seq<Delta>, b: Seq<Delta>, key: int)
    ensures
        delta_sum(a + b, key) == (delta_sum(a, key).0 + delta_sum(b, key).0, delta_sum(a, key).1 + delta_sum(b, key).1),
    decreases b.len(),
{
    if b.len() == 0 {
        assert(a + b =~= a);
    } else {
        assert((a + b).drop_last() =~= a + b.drop_last());
        assert((a + b).last() == b.last());
        lemma_delta_sum_concat(a, b.drop_last(), key);
    }
}

proof fn lemma_has_time_push(cs: Seq<Delta>, d: Delta, key: int)
    ensures
        has_time(cs.push(d), key) <==> (has_time(cs, key) || d.0 == key),
{
    if has_time(cs.push(d), key) {
        let i = choose|i: int| 0 <= i < cs.push(d).len() && (#[trigger] cs.push(d)[i]).0 == key;
        if i < cs.len() {
            assert(cs[i] == cs.push(d)[i]);
        }
    }
    if has_time(cs, key) {
        let i = choose|i: int| 0 <= i < cs.len() && (#[trigger] cs[i]).0 == key;
        assert(cs.push(d)[i] == cs[i]);
    }
    if d.0 == key {
        assert(cs.push(d)[cs.len() as int] == d);
    }
}

/// Accumulator of changes: strictly increasing times, each with the sums
/// of the changes seen at it.
pub open spec fn accumulates(acc: Seq<(i64, i128, i128)>, cs: Seq<Delta>) -> bool {
    &&& forall|a: int, b: int| 0 <= a < b < acc.len() ==> (#[trigger] acc[a]).0 < (#[trigger] acc[b]).0
    &&& forall|i: int| 0 <= i < acc.len() ==> has_time(cs, (#[trigger] acc[i]).0 as int)
    &&& forall|i: int|
        0 <= i < acc.len() ==> (#[trigger] acc[i]).1 as int == delta_sum(cs, acc[i].0 as int).0 && acc[i].2 as int
            == delta_sum(cs, acc[i].0 as int).1
    &&& forall|key: int| has_time(cs, key) ==> exists|i: int| 0 <= i < acc.len() && (#[trigger] acc[i]).0 == key
}

proof fn lemma_delta_sum_absent(cs: Seq<Delta>, key: int)
    requires
        !has_time(cs, key),
    ensures
        delta_sum(cs, key) == (0int, 0int),
    decreases cs.len(),
{
    if cs.len() > 0 {
        lemma_has_time_push(cs.drop_last(), cs.last(), key);
        assert(cs.drop_last().push(cs.last()) =~= cs);
        lemma_delta_sum_absent(cs.drop_last(), key);
    }
}

/// Adds the change `d` (time `key`) to the accumulator.
fn accumulate(acc: &mut Vec<(i64, i128, i128)>, key: i64, dk: i128, dn: i128, Ghost(cs): Ghost<Seq<Delta>>)
    requires
        accumulates(old(acc)@, cs),
        forall|i: int| 0 <= i < old(acc)@.len() ==> {
            &&& i128::MIN <= (#[trigger] old(acc)@[i]).1 + dk <= i128::MAX
            &&& i128::MIN <= old(acc)@[i].2 + dn <= i128::MAX
        },
    ensures
        accumulates(final(acc)@, cs.push((key as int, dk as int, dn as int))),
{
    let ghost ncs = cs.push((key as int, dk as int, dn as int));
    let ghost before = acc@;
    let mut lo: usize = 0;
    let mut hi: usize = acc.len();
    while lo < hi
        invariant
            lo <= hi <= acc@.len(),
            acc@ == before,
            accumulates(before, cs),
            ncs == cs.push((key as int, dk as int, dn as int)),
            forall|i: int| 0 <= i < before.len() ==> {
                &&& i128::MIN <= (#[trigger] before[i]).1 + dk <= i128::MAX
                &&& i128::MIN <= before[i].2 + dn <= i128::MAX
            },
            forall|a: int, b: int| 0 <= a < b < acc@.len() ==> (#[trigger] acc@[a]).0 < (#[trigger] acc@[b]).0,
            forall|i: int| 0 <= i < lo ==> (#[trigger] acc@[i]).0 < key,
            forall|i: int| hi <= i < acc@.len() ==> (#[trigger] acc@[i]).0 > key,
        decreases hi - lo,
    {
        let mid = lo + (hi - lo) / 2;
        if acc[mid].0 < key {
            lo = mid + 1;
        } else if acc[mid].0 > key {
            hi = mid;
        } else {
            let v = acc[mid];
            acc.set(mid, (key, v.1 + dk, v.2 + dn));
            proof {
                assert forall|key2: int| has_time(ncs, key2) implies exists|i: int|
                    0 <= i < acc@.len() && (#[trigger] acc@[i]).0 == key2 by {
                    lemma_has_time_push(cs, (key as int, dk as int, dn as int), key2);
                    if key2 != key {
                        let i = choose|i: int| 0 <= i < before.len() && (#[trigger] before[i]).0 == key2;
                        assert(acc@[i].0 == key2);
                    } else {
                        assert(acc@[mid as int].0 == key2);
                    }
                }
                assert forall|i: int| 0 <= i < acc@.len() implies has_time(ncs, (#[trigger] acc@[i]).0 as int) by {
                    lemma_has_time_push(cs, (key as int, dk as int, dn as int), acc@[i].0 as int);
                }
                assert forall|i: int| 0 <= i < acc@.len() implies (#[trigger] acc@[i]).1 as int == delta_sum(
                    ncs,
                    acc@[i].0 as int,
                ).0 && acc@[i].2 as int == delta_sum(ncs, acc@[i].0 as int).1 by {
                    assert(ncs.drop_last() =~= cs);
                    if i != mid {
                        assert(acc@[i] == before[i]);
                    }
                }
            }
            return;
        }
    }
    acc.insert(lo, (key, dk, dn));
    proof {
        assert(!has_time(cs, key as int)) by {
            if has_time(cs, key as int) {
                let i = choose|i: int| 0 <= i < before.len() && (#[trigger] before[i]).0 == key;
            }
        }
        lemma_delta_sum_absent(cs, key as int);
        assert(ncs.drop_last() =~= cs);
        assert forall|a: int, b: int| 0 <= a < b < acc@.len() implies (#[trigger] acc@[a]).0 < (#[trigger] acc@[b]).0 by {
            if b < lo {
                assert(acc@[a] == before[a] && acc@[b] == before[b]);
            } else if a > lo {
                assert(acc@[a] == before[a - 1] && acc@[b] == before[b - 1]);
            } else if a == lo {
                assert(acc@[b] == before[b - 1]);
            } else if b == lo {
                assert(acc@[a] == before[a]);
            } else {
                assert(acc@[a] == before[a] && acc@[b] == before[b - 1]);
            }
        }
        assert forall|key2: int| has_time(ncs, key2) implies exists|i: int|
            0 <= i < acc@.len() && (#[trigger] acc@[i]).0 == key2 by {
            lemma_has_time_push(cs, (key as int, dk as int, dn as int), key2);
            if key2 != key {
                let i = choose|i: int| 0 <= i < before.len() && (#[trigger] before[i]).0 == key2;
                if i < lo {
                    assert(acc@[i].0 == key2);
                } else {
                    assert(acc@[i + 1].0 == key2);
                }
            } else {
                assert(acc@[lo as int].0 == key2);
            }
        }
        assert forall|i: int| 0 <= i < acc@.len() implies has_time(ncs, (#[trigger] acc@[i]).0 as int) by {
            lemma_has_time_push(cs, (key as int, dk as int, dn as int), acc@[i].0 as int);
            if i < lo {
                assert(acc@[i] == before[i]);
            } else if i > lo {
                assert(acc@[i] == before[i - 1]);
            }
        }
        assert forall|i: int| 0 <= i < acc@.len() implies (#[trigger] acc@[i]).1 as int == delta_sum(
            ncs,
            acc@[i].0 as int,
        ).0 && acc@[i].2 as int == delta_sum(ncs, acc@[i].0 as int).1 by {
            if i < lo {
                assert(acc@[i] == before[i]);
            } else if i > lo {
                assert(acc@[i] == before[i - 1]);
            }
        }
    }
}

/// Every change is less than 2^63 in size.
pub open spec fn deltas_bounded(cs: Seq<Delta>) -> bool {
    forall|i: int|
        0 <= i < cs.len() ==> -0x8000_0000_0000_0000 <= (#[trigger] cs[i]).1 <= 0x8000_0000_0000_0000 && -0x8000_0000_0000_0000
            <= cs[i].2 <= 0x8000_0000_0000_0000
}

proof fn lemma_step_deltas(h: Seq<(i64, u64)>, j: int)
    requires
        0 <= j <= h.len(),
        forall|k: int| 0 <= k < h.len() ==> (#[trigger] h[k]).1 <= i64::MAX,
    ensures
        deltas_bounded(step_deltas(h, j)),
        step_deltas(h, j).len() == if j <= 1 { 0 } else { j - 1 },
    decreases j,
{
    if j > 1 {
        lemma_step_deltas(h, j - 1);
        let s = step_deltas(h, j);
        assert forall|i: int| 0 <= i < s.len() implies -0x8000_0000_0000_0000 <= (#[trigger] s[i]).1 <= 0x8000_0000_0000_0000
            && -0x8000_0000_0000_0000 <= s[i].2 <= 0x8000_0000_0000_0000 by {
            if i < s.len() - 1 {
                assert(s[i] == step_deltas(h, j - 1)[i]);
            } else {
                assert(h[j - 1].1 <= i64::MAX && h[j - 2].1 <= i64::MAX);
            }
        }
    }
}

proof fn lemma_concat_bounded(a: Seq<Delta>, b: Seq<Delta>)
    requires
        deltas_bounded(a),
        deltas_bounded(b),
    ensures
        deltas_bounded(a + b),
{
    assert forall|i: int| 0 <= i < (a + b).len() implies -0x8000_0000_0000_0000 <= (#[trigger] (a + b)[i]).1
        <= 0x8000_0000_0000_0000 && -0x8000_0000_0000_0000 <= (a + b)[i].2 <= 0x8000_0000_0000_0000 by {
        if i < a.len() {
            assert((a + b)[i] == a[i]);
        } else {
            assert((a + b)[i] == b[i - a.len()]);
        }
    }
}

proof fn lemma_all_deltas(hs: Seq<(String, Vec<(i64, u64)>)>, n: int, m: int)
    requires
        0 <= n <= m <= hs.len(),
        forall|q: int, j: int| 0 <= q < hs.len() && 0 <= j < hs[q].1@.len() ==> (#[trigger] hs[q].1@[j]).1 <= i64::MAX,
    ensures
        deltas_bounded(all_deltas(hs, n)),
        all_deltas(hs, n).len() <= all_deltas(hs, m).len(),
        n < m ==> all_deltas(hs, n).len() + history_deltas(hs[n].1@).len() <= all_deltas(hs, m).len(),
    decreases m,
{
    if m > 0 {
        if n < m {
            lemma_all_deltas(hs, n, m - 1);
            if n == m - 1 {
                assert(all_deltas(hs, m) == all_deltas(hs, n) + history_deltas(hs[n].1@));
            }
        } else {
            lemma_all_deltas(hs, n - 1, m - 1);
            let h = hs[n - 1].1@;
            assert forall|k: int| 0 <= k < h.len() implies (#[trigger] h[k]).1 <= i64::MAX by {
                assert(hs[n - 1].1@[k] == h[k]);
            }
            if h.len() > 0 {
                lemma_step_deltas(h, h.len() as int);
                let last = seq![(h.last().0 - h[0].0, -(h.last().1 as int), -(h[0].1 as int))];
                assert(h[h.len() - 1].1 <= i64::MAX);
                assert(deltas_bounded(last));
                lemma_concat_bounded(step_deltas(h, h.len() as int), last);
                assert(history_deltas(h) == step_deltas(h, h.len() as int) + last);
            }
            lemma_concat_bounded(all_deltas(hs, n - 1), history_deltas(h));
        }
    }
}

/// The first total fits in `u64` and every sum in `i64`.
pub open spec fn deltas_fit(hs: Seq<(String, Vec<(i64, u64)>)>) -> bool {
    let cs = all_deltas(hs, hs.len() as int);
    first_seen(hs, hs.len() as int) <= u64::MAX && forall|key: int|
        #[trigger] has_time(cs, key) ==> i64::MIN <= delta_sum(cs, key).0 <= i64::MAX && i64::MIN <= delta_sum(cs, key).1
            <= i64::MAX
}

/// `d` holds the lines first seen in `hs` and, in increasing time, each
/// elapsed time at which some change happens with the sums of the changes.
pub open spec fn describes(d: SurvivalDeltas, hs: Seq<(String, Vec<(i64, u64)>)>) -> bool {
    let cs = all_deltas(hs, hs.len() as int);
    &&& d.total == first_seen(hs, hs.len() as int)
    &&& forall|a: int, b: int| 0 <= a < b < d.deltas@.len() ==> (#[trigger] d.deltas@[a]).0 < (#[trigger] d.deltas@[b]).0
    &&& forall|i: int|
        0 <= i < d.deltas@.len() ==> has_time(cs, (#[trigger] d.deltas@[i]).0 as int) && d.deltas@[i].1 == delta_sum(
            cs,
            d.deltas@[i].0 as int,
        ).0 && d.deltas@[i].2 == delta_sum(cs, d.deltas@[i].0 as int).1
    &&& forall|key: int| has_time(cs, key) ==> exists|i: int| 0 <= i < d.deltas@.len() && (#[trigger] d.deltas@[i]).0 == key
}

/// The survival data of `histories`: the lines first seen and the summed
/// changes per elapsed time (see `history_deltas`), in increasing time;
/// `None` when the first total does not fit in `u64` or a sum does not fit
/// in `i64`.
pub fn survival_deltas(histories: &LabelMap<Vec<(i64, u64)>>) -> (r: Option<SurvivalDeltas>)
    requires
        deltas_computable(histories.entries@),
    ensures
        r is None <==> !deltas_fit(histories.entries@),
        r matches Some(d) ==> describes(d, histories.entries@),
        r matches Some(d) ==> forall|q: int|
            0 <= q < histories.entries@.len() && #[trigger] histories.entries@[q].1@.len() > 0 ==> {
                &&& d.total >= histories.entries@[q].1@[0].1
                &&& exists|i: int|
                    0 <= i < d.deltas@.len() && (#[trigger] d.deltas@[i]).0 == histories.entries@[q].1@.last().0
                        - histories.entries@[q].1@[0].0
            },
{
    let ghost hs = histories.entries@;
    let n = histories.entries.len();
    let mut acc: Vec<(i64, i128, i128)> = Vec::new();
    let mut total: u128 = 0;
    let mut q: usize = 0;
    proof {
        lemma_all_deltas(hs, 0, n as int);
    }
    while q < n
        invariant
            n == hs.len(),
            hs == histories.entries@,
            q <= n,
            deltas_computable(hs),
            accumulates(acc@, all_deltas(hs, q as int)),
            total as int == first_seen(hs, q as int),
            first_seen(hs, q as int) <= q * 0x8000_0000_0000_0000,
        decreases n - q,
    {
        let h = &histories.entries[q].1;
        proof {
            lemma_all_deltas(hs, q as int, n as int);
            lemma_all_deltas(hs, q as int + 1, n as int);
            assert(all_deltas(hs, q + 1) == all_deltas(hs, q as int) + history_deltas(h@));
        }
        if h.len() > 0 {
            let t0 = h[0].0;
            total = total + h[0].1 as u128;
            let ghost base = all_deltas(hs, q as int);
            proof {
                assert forall|k: int| 0 <= k < h@.len() implies (#[trigger] h@[k]).1 <= i64::MAX by {
                    assert(hs[q as int].1@[k] == h@[k]);
                }
                assert forall|k: int| 0 <= k < h@.len() implies i64::MIN <= (#[trigger] h@[k]).0 - h@[0].0 <= i64::MAX by {
                    assert(hs[q as int].1@[k] == h@[k]);
                }
                lemma_step_deltas(h@, h@.len() as int);
                assert(base + step_deltas(h@, 1) =~= base);
            }
            let mut j: usize = 1;
            while j < h.len()
                invariant
                    1 <= j <= h@.len(),
                    h@.len() > 0,
                    t0 == h@[0].0,
                    forall|k: int| 0 <= k < h@.len() ==> (#[trigger] h@[k]).1 <= i64::MAX,
                    forall|k: int| 0 <= k < h@.len() ==> i64::MIN <= (#[trigger] h@[k]).0 - h@[0].0 <= i64::MAX,
                    deltas_bounded(base),
                    base.len() + h@.len() <= 0x1000_0000_0000_0000,
                    accumulates(acc@, base + step_deltas(h@, j as int)),
                decreases h@.len() - j,
            {
                let key = h[j].0 - t0;
                let dk = h[j].1 as i128 - h[j - 1].1 as i128;
                let ghost cs = base + step_deltas(h@, j as int);
                proof {
                    lemma_step_deltas(h@, j as int);
                    lemma_concat_bounded(base, step_deltas(h@, j as int));
                    assert forall|i: int| 0 <= i < acc@.len() implies {
                        &&& i128::MIN <= (#[trigger] acc@[i]).1 + dk <= i128::MAX
                        &&& i128::MIN <= acc@[i].2 + 0 <= i128::MAX
                    } by {
                        lemma_delta_sum_bound(cs, acc@[i].0 as int);
                        assert(cs.len() * 0x8000_0000_0000_0000 <= 0x1000_0000_0000_0000 * 0x8000_0000_0000_0000) by (nonlinear_arith)
                            requires
                                cs.len() <= 0x1000_0000_0000_0000,
                        ;
                    }
                }
                accumulate(&mut acc, key, dk, 0, Ghost(cs));
                proof {
                    assert(cs.push((key as int, dk as int, 0int)) =~= base + step_deltas(h@, j + 1));
                }
                j += 1;
            }
            let last = h.len() - 1;
            let key = h[last].0 - t0;
            let dk = 0 - h[last].1 as i128;
            let dn = 0 - h[0].1 as i128;
            let ghost cs = base + step_deltas(h@, h@.len() as int);
            proof {
                lemma_step_deltas(h@, h@.len() as int);
                lemma_concat_bounded(base, step_deltas(h@, h@.len() as int));
                assert forall|i: int| 0 <= i < acc@.len() implies {
                    &&& i128::MIN <= (#[trigger] acc@[i]).1 + dk <= i128::MAX
                    &&& i128::MIN <= acc@[i].2 + dn <= i128::MAX
                } by {
                    lemma_delta_sum_bound(cs, acc@[i].0 as int);
                    assert(cs.len() * 0x8000_0000_0000_0000 <= 0x1000_0000_0000_0000 * 0x8000_0000_0000_0000) by (nonlinear_arith)
                        requires
                            cs.len() <= 0x1000_0000_0000_0000,
                    ;
                }
            }
            accumulate(&mut acc, key, dk, dn, Ghost(cs));
            proof {
                assert(cs.push((key as int, dk as int, dn as int)) =~= base + history_deltas(h@));
                assert(first_seen(hs, q + 1) == first_seen(hs, q as int) + h@[0].1);
            }
        } else {
            proof {
                assert(history_deltas(h@) =~= Seq::<Delta>::empty());
                assert(all_deltas(hs, q as int) + history_deltas(h@) =~= all_deltas(hs, q as int));
            }
        }
        q += 1;
    }
    let ghost cs = all_deltas(hs, n as int);
    if total > u64::MAX as u128 {
        return None;
    }
    let mut out: Vec<(i64, i64, i64)> = Vec::new();
    let mut i: usize = 0;
    while i < acc.len()
        invariant
            i <= acc@.len(),
            cs == all_deltas(histories.entries@, histories.entries@.len() as int),
            total as int == first_seen(histories.entries@, histories.entries@.len() as int),
            total <= u64::MAX,
            accumulates(acc@, cs),
            out@.len() == i,
            forall|k: int| 0 <= k < i ==> (#[trigger] out@[k]).0 == acc@[k].0 && out@[k].1 as int == acc@[k].1 as int
                && out@[k].2 as int == acc@[k].2 as int,
            forall|k: int| 0 <= k < i ==> i64::MIN <= (#[trigger] acc@[k]).1 <= i64::MAX && i64::MIN <= acc@[k].2 <= i64::MAX,
        decreases acc@.len() - i,
    {
        let e = acc[i];
        if e.1 < i64::MIN as i128 || e.1 > i64::MAX as i128 || e.2 < i64::MIN as i128 || e.2 > i64::MAX as i128 {
            assert(has_time(cs, acc@[i as int].0 as int));
            assert(e.1 as int == delta_sum(cs, acc@[i as int].0 as int).0);
            assert(e.2 as int == delta_sum(cs, acc@[i as int].0 as int).1);
            assert(!(i64::MIN <= delta_sum(cs, acc@[i as int].0 as int).0 <= i64::MAX && i64::MIN <= delta_sum(
                cs,
                acc@[i as int].0 as int,
            ).1 <= i64::MAX));
            return None;
        }
        out.push((e.0, e.1 as i64, e.2 as i64));
        i += 1;
    }
    proof {
        assert forall|key: int| #[trigger] has_time(cs, key) implies i64::MIN <= delta_sum(cs, key).0 <= i64::MAX
            && i64::MIN <= delta_sum(cs, key).1 <= i64::MAX by {
            let k = choose|k: int| 0 <= k < acc@.len() && (#[trigger] acc@[k]).0 == key;
        }
        assert forall|key: int| has_time(cs, key) implies exists|k: int| 0 <= k < out@.len() && (#[trigger] out@[k]).0 == key by {
            let k = choose|k: int| 0 <= k < acc@.len() && (#[trigger] acc@[k]).0 == key;
            assert(out@[k].0 == key);
        }
        assert forall|a: int, b: int| 0 <= a < b < out@.len() implies (#[trigger] out@[a]).0 < (#[trigger] out@[b]).0 by {
            assert(acc@[a].0 < acc@[b].0);
        }
        assert forall|k: int| 0 <= k < out@.len() implies has_time(cs, (#[trigger] out@[k]).0 as int) && out@[k].1
            == delta_sum(cs, out@[k].0 as int).0 && out@[k].2 == delta_sum(cs, out@[k].0 as int).1 by {
            assert(out@[k].0 == acc@[k].0);
        }
        assert(hs.len() == n);
    }
    let t = total as u64;
    let d = SurvivalDeltas { total: t, deltas: out };
    assert(deltas_fit(hs));
    assert(describes(d, hs));
    proof {
        assert forall|q: int| 0 <= q < hs.len() && #[trigger] hs[q].1@.len() > 0 implies {
            &&& d.total >= hs[q].1@[0].1
            &&& exists|i: int| 0 <= i < d.deltas@.len() && (#[trigger] d.deltas@[i]).0 == hs[q].1@.last().0 - hs[q].1@[0].0
        } by {
            lemma_every_history_counted(hs, d, q);
        }
    }
    Some(d)
}


proof fn lemma_first_seen_covers(hs: Seq<(String, Vec<(i64, u64)>)>, n: int, q: int)
    requires
        0 <= q < n <= hs.len(),
        hs[q].1@.len() > 0,
    ensures
        first_seen(hs, n) >= hs[q].1@[0].1,
    decreases n,
{
    lemma_first_seen_nonneg(hs, n - 1);
    if q < n - 1 {
        lemma_first_seen_covers(hs, n - 1, q);
    }
}

proof fn lemma_first_seen_nonneg(hs: Seq<(String, Vec<(i64, u64)>)>, n: int)
    ensures
        first_seen(hs, n) >= 0,
    decreases n,
{
    if n > 0 {
        lemma_first_seen_nonneg(hs, n - 1);
    }
}

proof fn lemma_all_deltas_has(hs: Seq<(String, Vec<(i64, u64)>)>, n: int, q: int)
    requires
        0 <= q < n <= hs.len(),
        hs[q].1@.len() > 0,
    ensures
        exists|i: int|
            0 <= i < all_deltas(hs, n).len() && #[trigger] all_deltas(hs, n)[i] == (
            hs[q].1@.last().0 - hs[q].1@[0].0,
            -(hs[q].1@.last().1 as int),
            -(hs[q].1@[0].1 as int),
        ),
    decreases n,
{
    let a = all_deltas(hs, n - 1);
    let b = history_deltas(hs[n - 1].1@);
    assert(all_deltas(hs, n) == a + b);
    let want = (hs[q].1@.last().0 - hs[q].1@[0].0, -(hs[q].1@.last().1 as int), -(hs[q].1@[0].1 as int));
    if q == n - 1 {
        let k = a.len() + b.len() - 1;
        assert((a + b)[k] == b[b.len() - 1]);
        assert(all_deltas(hs, n)[k] == want);
    } else {
        lemma_all_deltas_has(hs, n - 1, q);
        let i = choose|i: int| 0 <= i < a.len() && #[trigger] a[i] == want;
        assert((a + b)[i] == a[i]);
        assert(all_deltas(hs, n)[i] == want);
    }
}

/// Every commit with at least one observation counts: its first count is
/// part of the lines first seen, and its history produces a change at the
/// time elapsed from its first to its last observation (zero for a single
/// observation), so that time appears among the survival data.
pub proof fn lemma_every_history_counted(hs: Seq<(String, Vec<(i64, u64)>)>, d: SurvivalDeltas, q: int)
    requires
        describes(d, hs),
        0 <= q < hs.len(),
        hs[q].1@.len() > 0,
    ensures
        d.total >= hs[q].1@[0].1,
        exists|i: int| 0 <= i < d.deltas@.len() && (#[trigger] d.deltas@[i]).0 == hs[q].1@.last().0 - hs[q].1@[0].0,
{
    lemma_first_seen_covers(hs, hs.len() as int, q);
    lemma_all_deltas_has(hs, hs.len() as int, q);
    let cs = all_deltas(hs, hs.len() as int);
    let key = hs[q].1@.last().0 - hs[q].1@[0].0;
    let i = choose|i: int|
        0 <= i < cs.len() && #[trigger] cs[i] == (key, -(hs[q].1@.last().1 as int), -(hs[q].1@[0].1 as int));
    assert(cs[i].0 == key);
    assert(has_time(cs, key));
}

/// A single commit observed once, `n` lines at time `t`, gives `n` lines
/// first seen and one change: at elapsed time zero, `n` lines leave and
/// `n` lines are no longer observed.
pub proof fn lemma_single_observation(hs: Seq<(String, Vec<(i64, u64)>)>, d: SurvivalDeltas, t: i64, n: u64)
    requires
        describes(d, hs),
        hs.len() == 1,
        hs[0].1@ == seq![(t, n)],
    ensures
        d.total == n,
        d.deltas@ == seq![(0i64, -(n as int) as i64, -(n as int) as i64)],
        d.deltas@.len() == 1,
        d.deltas@[0].0 == 0,
        d.deltas@[0].1 == -(n as int),
        d.deltas@[0].2 == -(n as int),
{
    let h = hs[0].1@;
    let cs = all_deltas(hs, 1);
    assert(first_seen(hs, 0) == 0);
    assert(first_seen(hs, 1) == n);
    assert(step_deltas(h, 1) == Seq::<Delta>::empty());
    assert(h.last() == (t, n));
    assert(history_deltas(h) =~= seq![(0int, -(n as int), -(n as int))]);
    assert(all_deltas(hs, 0) == Seq::<Delta>::empty());
    assert(cs =~= seq![(0int, -(n as int), -(n as int))]);
    assert(cs[0].0 == 0);
    assert(has_time(cs, 0));
    let i = choose|i: int| 0 <= i < d.deltas@.len() && (#[trigger] d.deltas@[i]).0 == 0;
    assert forall|k: int| 0 <= k < d.deltas@.len() implies (#[trigger] d.deltas@[k]).0 == 0 by {
        assert(has_time(cs, d.deltas@[k].0 as int));
        let j = choose|j: int| 0 <= j < cs.len() && (#[trigger] cs[j]).0 == d.deltas@[k].0 as int;
    }
    if d.deltas@.len() > 1 {
        assert(d.deltas@[0].0 < d.deltas@[1].0);
    }
    assert(delta_sum(cs.drop_last(), 0) == (0int, 0int));
    assert(delta_sum(cs, 0) == (-(n as int), -(n as int)));
    assert(d.deltas@ =~= seq![(0i64, -(n as int) as i64, -(n as int) as i64)]);
}

} // verus!
