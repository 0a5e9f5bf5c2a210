//! Names of the output directories when several repositories are analysed
//! one by one: each repository's directory name, made unique with a `-2`,
//! `-3`, ... suffix.

use vstd::prelude::*;

use crate::labelmap::{lemma_insert_has, lemma_search_absent, LabelMap};
use crate::text::{chars_of, decimal, digit_char, push_decimal, push_str, string_from_chars};

verus! {

/// The base of a repository's output name: its directory name, or
/// `"repository"` when it has none.
pub open spec fn output_base(dir_name: Option<Seq<char>>) -> Seq<char> {
    match dir_name {
        Some(n) => if n.len() > 0 {
            n
        } else {
            "repository"@
        },
        None => "repository"@,
    }
}

/// The text of an optional directory name.
pub open spec fn dir_view(d: Option<&str>) -> Option<Seq<char>> {
    match d {
        Some(s) => Some(s@),
        None => None,
    }
}

/// Candidate `k` (from 1) for a name: the base, then `base-2`, `base-3`, ...
pub open spec fn candidate(base: Seq<char>, k: nat) -> Seq<char> {
    if k <= 1 {
        base
    } else {
        base + seq!['-'] + decimal(k)
    }
}

proof fn lemma_digit_char_injective(a: nat, b: nat)
    requires
        a < 10,
        b < 10,
        digit_char(a) == digit_char(b),
    ensures
        a == b,
{
}

proof fn lemma_decimal_len(n: nat)
    ensures
        decimal(n).len() >= 1,
        n >= 10 ==> decimal(n).len() >= 2,
    decreases n,
{
    if n >= 10 {
        lemma_decimal_len(n / 10);
    }
}

/// Different numbers are written differently.
pub proof fn lemma_decimal_injective(a: nat, b: nat)
    requires
        decimal(a) == decimal(b),
    ensures
        a == b,
    decreases a,
{
    lemma_decimal_len(a);
    lemma_decimal_len(b);
    if a < 10 && b < 10 {
        assert(decimal(a) == seq![digit_char(a)]);
        assert(decimal(b) == seq![digit_char(b)]);
        assert(decimal(a)[0] == decimal(b)[0]);
        assert(seq![digit_char(a)][0] == digit_char(a));
        assert(seq![digit_char(b)][0] == digit_char(b));
        lemma_digit_char_injective(a, b);
    } else if a >= 10 && b >= 10 {
        let da = decimal(a);
        let db = decimal(b);
        assert(da.last() == db.last());
        lemma_digit_char_injective(a % 10, b % 10);
        assert(da.drop_last() == decimal(a / 10));
        assert(db.drop_last() == decimal(b / 10));
        lemma_decimal_injective(a / 10, b / 10);
    }
}

/// Different candidates are different names.
pub proof fn lemma_candidates_distinct(base: Seq<char>, a: nat, b: nat)
    requires
        1 <= a,
        1 <= b,
        a != b,
    ensures
        candidate(base, a) != candidate(base, b),
{
    lemma_decimal_len(a);
    lemma_decimal_len(b);
    if a >= 2 && b >= 2 {
        let ca = candidate(base, a);
        let cb = candidate(base, b);
        if ca == cb {
            assert(ca.skip(base.len() as int + 1) =~= decimal(a));
            assert(cb.skip(base.len() as int + 1) =~= decimal(b));
            lemma_decimal_injective(a, b);
        }
    } else if a >= 2 {
        assert(candidate(base, a).len() > candidate(base, b).len());
    } else {
        assert(candidate(base, b).len() > candidate(base, a).len());
    }
}

/// The first candidate for `base` that `used` does not hold yet, which is
/// then added to `used`.  Different repositories thus get different names,
/// even when their directories share a name.
pub fn unique_output_name(dir_name: Option<&str>, used: &mut LabelMap<()>) -> (name: String)
    requires
        old(used).wf(),
        old(used).entries@.len() < u64::MAX,
    ensures
        final(used).wf(),
        !old(used).has(name@),
        exists|k: nat|
            k >= 1 && name@ == #[trigger] candidate(output_base(dir_view(dir_name)), k) && forall|j: nat|
                1 <= j < k ==> old(used).has(#[trigger] candidate(output_base(dir_view(dir_name)), j)),
        forall|l: Seq<char>| #[trigger] final(used).has(l) <==> (old(used).has(l) || l == name@),
{
    let ghost base_view = output_base(dir_view(dir_name));
    let base: String = match dir_name {
        Some(n) => {
            if chars_of(n).len() > 0 {
                String::from_str(n)
            } else {
                String::from_str("repository")
            }
        },
        None => String::from_str("repository"),
    };
    assert(base@ == base_view);
    let ghost labels = used.labels();
    let ghost used_set = labels.to_set();
    proof {
        labels.lemma_cardinality_of_set();
        vstd::seq_lib::seq_to_set_is_finite(labels);
    }
    let mut name = base.clone();
    let mut suffix: u64 = 1;
    let ghost mut tried: Set<Seq<char>> = Set::empty();
    let mut key = chars_of(name.as_str());
    while in_map(used, &key)
        invariant
            used.wf(),
            *used == *old(used),
            labels == used.labels(),
            used_set == labels.to_set(),
            used_set.finite(),
            used_set.len() <= used.entries@.len(),
            base@ == base_view,
            1 <= suffix,
            key@ == name@,
            name@ == candidate(base_view, suffix as nat),
            tried.finite(),
            tried.len() == suffix - 1,
            tried.subset_of(used_set),
            forall|j: nat| 1 <= j < suffix ==> used.has(#[trigger] candidate(base_view, j)),
            used.entries@.len() < u64::MAX,
            forall|j: nat| j >= 1 ==> (#[trigger] tried.contains(candidate(base_view, j)) <==> j < suffix),
        decreases used.entries@.len() - tried.len(),
    {
        proof {
            let i = choose|i: int| 0 <= i < used.entries@.len() && #[trigger] used.entries@[i].0@ == key@;
            assert(labels[i] == key@);
            assert(used_set.contains(key@));
            if tried.contains(name@) {
                let j = choose|j: nat| 1 <= j < suffix && name@ == candidate(base_view, j);
                lemma_candidates_distinct(base_view, j, suffix as nat);
            }
            let t2 = tried.insert(name@);
            assert(t2.subset_of(used_set));
            vstd::set_lib::lemma_len_subset(t2, used_set);
            assert forall|j: nat| j >= 1 implies (#[trigger] t2.contains(candidate(base_view, j)) <==> j < suffix + 1) by {
                if j != suffix && t2.contains(candidate(base_view, j)) && !tried.contains(candidate(base_view, j)) {
                    lemma_candidates_distinct(base_view, j, suffix as nat);
                }
            }
            tried = t2;
        }
        suffix = suffix + 1;
        let mut text: Vec<char> = Vec::new();
        push_str(&mut text, base.as_str());
        text.push('-');
        push_decimal(&mut text, suffix);
        name = string_from_chars(text.as_slice());
        assert(name@ =~= candidate(base_view, suffix as nat));
        key = chars_of(name.as_str());
    }
    let ghost before = *used;
    match used.search(&key) {
        Ok(_) => {},
        Err(p) => {
            proof {
                lemma_search_absent(before, key@, p as int);
            }
            used.insert_at(p, name.clone(), ());
            proof {
                assert forall|l: Seq<char>| #[trigger] used.has(l) <==> (before.has(l) || l == name@) by {
                    lemma_insert_has(before, *used, p as int, (name, ()), l);
                }
            }
        },
    }
    name
}

/// Whether `m` holds the label `l`.
fn in_map(m: &LabelMap<()>, l: &Vec<char>) -> (r: bool)
    requires
        m.wf(),
    ensures
        r == m.has(l@),
{
    match m.search(l) {
        Ok(i) => {
            assert(m.entries@[i as int].0@ == l@);
            true
        },
        Err(i) => {
            proof {
                lemma_search_absent(*m, l@, i as int);
            }
            false
        },
    }
}

} // verus!
