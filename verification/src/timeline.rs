//! Sample timelines: sorted unions of sample times, carrying a series'
//! last known value forward onto another timeline, and sorting
//! `(time, value)` histories stably by time.

use vstd::prelude::*;

verus! {

/// Strictly increasing sample times.
pub open spec fn strictly_increasing(s: Seq<i64>) -> bool {
    forall|i: int, j: int| 0 <= i < j < s.len() ==> #[trigger] s[i] < #[trigger] s[j]
}

/// The last position of `ts` that holds the greatest sample time not after
/// `t`; -1 when every sample is after `t`.
pub open spec fn latest_index(ts: Seq<i64>, t: i64) -> int
    decreases ts.len(),
{
    if ts.len() == 0 {
        -1
    } else {
        let k = latest_index(ts.drop_last(), t);
        let j = ts.len() - 1;
        if ts[j] <= t && (k < 0 || ts[k] <= ts[j]) {
            j
        } else {
            k
        }
    }
}

/// The value a series sampled at `ts` shows at time `t` when its last known
/// value is carried forward: 0 before its first sample.
pub open spec fn value_at(ts: Seq<i64>, row: Seq<u64>, t: i64) -> int {
    let k = latest_index(ts, t);
    if k < 0 {
        0
    } else {
        row[k] as int
    }
}

pub proof fn lemma_latest_index_bounds(ts: Seq<i64>, t: i64)
    ensures
        -1 <= latest_index(ts, t) < ts.len(),
        latest_index(ts, t) >= 0 ==> ts[latest_index(ts, t)] <= t,
    decreases ts.len(),
{
    if ts.len() > 0 {
        lemma_latest_index_bounds(ts.drop_last(), t);
    }
}

/// Position in `ts` whose value is carried forward to time `t`.
pub fn latest_position(ts: &Vec<i64>, t: i64) -> (r: Option<usize>)
    ensures
        match r {
            Some(k) => k == latest_index(ts@, t),
            None => latest_index(ts@, t) == -1,
        },
{
    let mut best: Option<usize> = None;
    let mut j: usize = 0;
    while j < ts.len()
        invariant
            j <= ts@.len(),
            match best {
                Some(k) => k == latest_index(ts@.take(j as int), t),
                None => latest_index(ts@.take(j as int), t) == -1,
            },
        decreases ts@.len() - j,
    {
        proof {
            assert(ts@.take(j + 1).drop_last() =~= ts@.take(j as int));
            lemma_latest_index_bounds(ts@.take(j as int), t);
        }
        if ts[j] <= t {
            match best {
                None => {
                    best = Some(j);
                },
                Some(k) => {
                    if ts[k] <= ts[j] {
                        best = Some(j);
                    }
                },
            }
        }
        j += 1;
    }
    assert(ts@.take(ts@.len() as int) =~= ts@);
    best
}

/// For each time of `onto`, the position of `ts` carried forward to it.
pub fn carry_positions(ts: &Vec<i64>, onto: &Vec<i64>) -> (r: Vec<Option<usize>>)
    ensures
        r@.len() == onto@.len(),
        forall|i: int|
            0 <= i < onto@.len() ==> match #[trigger] r@[i] {
                Some(k) => k == latest_index(ts@, onto@[i]),
                None => latest_index(ts@, onto@[i]) == -1,
            },
{
    let mut r: Vec<Option<usize>> = Vec::new();
    let mut i: usize = 0;
    while i < onto.len()
        invariant
            i <= onto@.len(),
            r@.len() == i,
            forall|q: int|
                0 <= q < i ==> match #[trigger] r@[q] {
                    Some(k) => k == latest_index(ts@, onto@[q]),
                    None => latest_index(ts@, onto@[q]) == -1,
                },
        decreases onto@.len() - i,
    {
        r.push(latest_position(ts, onto[i]));
        i += 1;
    }
    r
}

/// Re-samples `row` (sampled at `ts`) at the times `onto`, carrying its last
/// known value forward and starting at 0 before its first sample.
pub fn carry_forward(ts: &Vec<i64>, row: &Vec<u64>, onto: &Vec<i64>) -> (r: Vec<u64>)
    requires
        row@.len() >= ts@.len(),
    ensures
        r@.len() == onto@.len(),
        forall|i: int| 0 <= i < onto@.len() ==> #[trigger] r@[i] == value_at(ts@, row@, onto@[i]),
{
    let pos = carry_positions(ts, onto);
    apply_positions(ts, row, onto, &pos)
}

/// `carry_forward` with positions computed by `carry_positions` beforehand.
pub fn apply_positions(ts: &Vec<i64>, row: &Vec<u64>, onto: &Vec<i64>, pos: &Vec<Option<usize>>) -> (r: Vec<u64>)
    requires
        row@.len() >= ts@.len(),
        pos@.len() == onto@.len(),
        forall|i: int|
            0 <= i < onto@.len() ==> match #[trigger] pos@[i] {
                Some(k) => k == latest_index(ts@, onto@[i]),
                None => latest_index(ts@, onto@[i]) == -1,
            },
    ensures
        r@.len() == onto@.len(),
        forall|i: int| 0 <= i < onto@.len() ==> #[trigger] r@[i] == value_at(ts@, row@, onto@[i]),
{
    let mut r: Vec<u64> = Vec::new();
    let mut i: usize = 0;
    while i < pos.len()
        invariant
            i <= pos@.len(),
            pos@.len() == onto@.len(),
            row@.len() >= ts@.len(),
            r@.len() == i,
            forall|q: int|
                0 <= q < onto@.len() ==> match #[trigger] pos@[q] {
                    Some(k) => k == latest_index(ts@, onto@[q]),
                    None => latest_index(ts@, onto@[q]) == -1,
                },
            forall|q: int| 0 <= q < i ==> #[trigger] r@[q] == value_at(ts@, row@, onto@[q]),
        decreases pos@.len() - i,
    {
        proof {
            lemma_latest_index_bounds(ts@, onto@[i as int]);
        }
        match pos[i] {
            Some(k) => r.push(row[k]),
            None => r.push(0),
        }
        i += 1;
    }
    r
}

/// Inserts `t` into a strictly increasing sequence unless it is already there.
pub fn insert_time(s: &mut Vec<i64>, t: i64)
    requires
        strictly_increasing(old(s)@),
    ensures
        strictly_increasing(final(s)@),
        forall|x: i64| final(s)@.contains(x) <==> (old(s)@.contains(x) || x == t),
{
    let mut i: usize = 0;
    while i < s.len() && s[i] < t
        invariant
            i <= s@.len(),
            strictly_increasing(s@),
            s@ == old(s)@,
            forall|q: int| 0 <= q < i ==> #[trigger] s@[q] < t,
        decreases s@.len() - i,
    {
        i += 1;
    }
    if i < s.len() && s[i] == t {
        return;
    }
    s.insert(i, t);
    assert forall|x: i64| s@.contains(x) <==> (old(s)@.contains(x) || x == t) by {
        if old(s)@.contains(x) {
            let q = choose|q: int| 0 <= q < old(s)@.len() && old(s)@[q] == x;
            if q < i {
                assert(s@[q] == x);
            } else {
                assert(s@[q + 1] == x);
            }
        }
        if x == t {
            assert(s@[i as int] == t);
        }
        if s@.contains(x) {
            let q = choose|q: int| 0 <= q < s@.len() && s@[q] == x;
            if q < i {
                assert(old(s)@[q] == x);
            } else if q > i {
                assert(old(s)@[q - 1] == x);
            }
        }
    }
}

/// Inserts every time of `src` into the strictly increasing `s`.
pub fn insert_times(s: &mut Vec<i64>, src: &Vec<i64>)
    requires
        strictly_increasing(old(s)@),
    ensures
        strictly_increasing(final(s)@),
        forall|x: i64| #[trigger] final(s)@.contains(x) <==> (old(s)@.contains(x) || src@.contains(x)),
{
    let mut q: usize = 0;
    while q < src.len()
        invariant
            q <= src@.len(),
            strictly_increasing(s@),
            forall|x: i64| #[trigger] s@.contains(x) <==> (old(s)@.contains(x) || src@.take(q as int).contains(x)),
        decreases src@.len() - q,
    {
        let ghost before = s@;
        insert_time(s, src[q]);
        assert forall|x: i64| #[trigger] s@.contains(x) <==> (old(s)@.contains(x) || src@.take(q + 1).contains(x)) by {
            if src@.take(q + 1).contains(x) {
                let i = choose|i: int| 0 <= i < q + 1 && #[trigger] src@.take(q + 1)[i] == x;
                if i < q {
                    assert(src@.take(q as int)[i] == x);
                }
            }
            if src@.take(q as int).contains(x) {
                let i = choose|i: int| 0 <= i < q && #[trigger] src@.take(q as int)[i] == x;
                assert(src@.take(q + 1)[i] == x);
            }
            if x == src@[q as int] {
                assert(src@.take(q + 1)[q as int] == x);
            }
            assert(s@.contains(x) <==> (before.contains(x) || x == src@[q as int]));
        }
        q += 1;
    }
    assert(src@.take(src@.len() as int) =~= src@);
}

/// Whether history `s` is ordered by time.
pub open spec fn time_sorted(s: Seq<(i64, u64)>) -> bool {
    forall|i: int, j: int| 0 <= i < j < s.len() ==> (#[trigger] s[i]).0 <= (#[trigger] s[j]).0
}

/// The entries of `s` stamped `t`, in their order in `s`.
pub open spec fn at_time(s: Seq<(i64, u64)>, t: i64) -> Seq<(i64, u64)>
    decreases s.len(),
{
    if s.len() == 0 {
        s
    } else if s.last().0 == t {
        at_time(s.drop_last(), t).push(s.last())
    } else {
        at_time(s.drop_last(), t)
    }
}

/// `out` is `inp` sorted by time, entries with equal times keeping their
/// relative order.
pub open spec fn stable_time_sort_of(out: Seq<(i64, u64)>, inp: Seq<(i64, u64)>) -> bool {
    time_sorted(out) && forall|t: i64| #[trigger] at_time(out, t) == at_time(inp, t)
}

pub proof fn lemma_at_time_concat(a: Seq<(i64, u64)>, b: Seq<(i64, u64)>, t: i64)
    ensures
        at_time(a + b, t) == at_time(a, t) + at_time(b, t),
    decreases b.len(),
{
    if b.len() == 0 {
        assert(a + b =~= a);
        assert(at_time(a, t) + at_time(b, t) =~= at_time(a, t));
    } else {
        lemma_at_time_concat(a, b.drop_last(), t);
        assert((a + b).drop_last() =~= a + b.drop_last());
        assert((a + b).last() == b.last());
        if b.last().0 == t {
            assert(at_time(a, t) + at_time(b.drop_last(), t).push(b.last()) =~= (at_time(a, t)
                + at_time(b.drop_last(), t)).push(b.last()));
        }
    }
}

proof fn lemma_at_time_none(s: Seq<(i64, u64)>, t: i64)
    requires
        forall|i: int| 0 <= i < s.len() ==> (#[trigger] s[i]).0 != t,
    ensures
        at_time(s, t) == Seq::<(i64, u64)>::empty(),
    decreases s.len(),
{
    if s.len() > 0 {
        assert(s.last() == s[s.len() - 1]);
        lemma_at_time_none(s.drop_last(), t);
    }
}

/// Sorts a history by time, stably.
pub fn stable_sort_by_time(inp: &Vec<(i64, u64)>) -> (out: Vec<(i64, u64)>)
    ensures
        stable_time_sort_of(out@, inp@),
{
    let mut out: Vec<(i64, u64)> = Vec::new();
    let mut k: usize = 0;
    assert(out@ =~= inp@.take(0));
    while k < inp.len()
        invariant
            k <= inp@.len(),
            stable_time_sort_of(out@, inp@.take(k as int)),
        decreases inp@.len() - k,
    {
        let x = inp[k];
        let mut p: usize = out.len();
        while p > 0 && out[p - 1].0 > x.0
            invariant
                p <= out@.len(),
                forall|q: int| p <= q < out@.len() ==> (#[trigger] out@[q]).0 > x.0,
            decreases p,
        {
            p -= 1;
        }
        let ghost old_out = out@;
        proof {
            assert forall|q: int| 0 <= q < p implies (#[trigger] old_out[q]).0 <= x.0 by {
                if p > 0 {
                    assert(old_out[p - 1].0 <= x.0);
                    if q < p - 1 {
                        assert(old_out[q].0 <= old_out[p - 1].0);
                    }
                }
            }
        }
        out.insert(p, x);
        proof {
            let a = old_out.take(p as int);
            let b = old_out.skip(p as int);
            assert(old_out =~= a + b);
            assert(out@ =~= a + seq![x] + b);
            assert(inp@.take(k + 1) =~= inp@.take(k as int) + seq![x]);
            assert forall|t: i64| #[trigger] at_time(out@, t) == at_time(inp@.take(k + 1), t) by {
                lemma_at_time_concat(a + seq![x], b, t);
                lemma_at_time_concat(a, seq![x], t);
                lemma_at_time_concat(a, b, t);
                lemma_at_time_concat(inp@.take(k as int), seq![x], t);
                assert(seq![x].drop_last() =~= Seq::<(i64, u64)>::empty());
                if t == x.0 {
                    assert forall|i: int| 0 <= i < b.len() implies (#[trigger] b[i]).0 != t by {
                        assert(b[i] == old_out[p + i]);
                    }
                    lemma_at_time_none(b, t);
                    assert(at_time(a, t) + at_time(b, t) =~= at_time(a, t));
                    assert(at_time(a + seq![x], t) + at_time(b, t) =~= at_time(a + seq![x], t));
                } else {
                    let e = Seq::<(i64, u64)>::empty();
                    assert(at_time(e, t) == e);
                    assert(at_time(seq![x], t) == at_time(e, t));
                    assert(at_time(a, t) + at_time(seq![x], t) =~= at_time(a, t));
                    assert(at_time(inp@.take(k as int), t) + at_time(seq![x], t) =~= at_time(
                        inp@.take(k as int),
                        t,
                    ));
                }
            }
            assert forall|i: int, j: int| 0 <= i < j < out@.len() implies (#[trigger] out@[i]).0
                <= (#[trigger] out@[j]).0 by {
                if j < p {
                    assert(out@[i] == old_out[i] && out@[j] == old_out[j]);
                } else if i > p {
                    assert(out@[i] == old_out[i - 1] && out@[j] == old_out[j - 1]);
                } else if i == p {
                    assert(out@[j] == old_out[j - 1]);
                } else if j == p {
                    assert(out@[i] == old_out[i]);
                } else {
                    assert(out@[i] == old_out[i] && out@[j] == old_out[j - 1]);
                }
            }
        }
        k += 1;
    }
    assert(inp@.take(inp@.len() as int) =~= inp@);
    out
}

} // verus!
