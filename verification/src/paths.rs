//! Classification of repository paths and author e-mail addresses into the
//! labels that the analysis groups lines by.

use vstd::prelude::*;

use crate::text::{
    chars_of, find_first, find_last, first_index_of, last_index_of, lemma_first_index_bounds,
    lemma_last_index_bounds, slice_chars, string_from_chars,
};

verus! {

/// The final component of a forward-slash path (everything after the last `/`).
pub open spec fn spec_basename(p: Seq<char>) -> Seq<char> {
    p.skip(last_index_of(p, '/') + 1)
}

/// Everything before the last `/` of a path; empty when there is no `/`.
pub open spec fn spec_dirname(p: Seq<char>) -> Seq<char> {
    if last_index_of(p, '/') < 0 {
        Seq::empty()
    } else {
        p.take(last_index_of(p, '/'))
    }
}

/// The first component of the directory part, followed by `/`
/// (`"/"` alone for a top-level file).
pub open spec fn spec_top_dir(p: Seq<char>) -> Seq<char> {
    let d = spec_dirname(p);
    let first = if first_index_of(d, '/') < 0 {
        d
    } else {
        d.take(first_index_of(d, '/'))
    };
    first.push('/')
}

/// `k` names the top-level directory of path `p`: when `p` holds a `/`,
/// `k` is the start of `p` up to and including its first `/`; otherwise `k`
/// is `"/"` alone.
pub open spec fn is_top_dir_of(p: Seq<char>, k: Seq<char>) -> bool {
    if exists|j: int| 0 <= j < p.len() && p[j] == '/' {
        &&& 0 < k.len() <= p.len()
        &&& k == p.take(k.len() as int)
        &&& k.last() == '/'
        &&& forall|j: int| 0 <= j < k.len() - 1 ==> k[j] != '/'
    } else {
        k == seq!['/']
    }
}

/// The top-level directory of a path is the path's first component with
/// its `/`, or `"/"` for a file at the root.
pub proof fn lemma_top_dir_is_first_component(p: Seq<char>)
    ensures
        is_top_dir_of(p, spec_top_dir(p)),
{
    lemma_last_index_bounds(p, '/');
    let k = spec_top_dir(p);
    if exists|j: int| 0 <= j < p.len() && p[j] == '/' {
        let j0 = choose|j: int| 0 <= j < p.len() && p[j] == '/';
        let last = last_index_of(p, '/');
        assert(last >= 0);
        let d = p.take(last);
        assert(spec_dirname(p) == d);
        lemma_first_index_bounds(d, '/');
        let f = first_index_of(d, '/');
        if f < 0 {
            assert(k == d.push('/'));
            assert(k =~= p.take(last + 1));
            assert forall|j: int| 0 <= j < k.len() - 1 implies k[j] != '/' by {
                assert(k[j] == d[j]);
            }
        } else {
            assert(k == d.take(f).push('/'));
            assert(d[f] == p[f]);
            assert(k =~= p.take(f + 1));
            assert forall|j: int| 0 <= j < k.len() - 1 implies k[j] != '/' by {
                assert(k[j] == d[j]);
            }
        }
    } else {
        if last_index_of(p, '/') >= 0 {
            assert(p[last_index_of(p, '/')] == '/');
        }
        assert(spec_dirname(p) == Seq::<char>::empty());
        assert(first_index_of(Seq::<char>::empty(), '/') == -1);
        assert(k =~= seq!['/']);
    }
}

/// A path has one top-level directory.
pub proof fn lemma_top_dir_unique(p: Seq<char>, k1: Seq<char>, k2: Seq<char>)
    requires
        is_top_dir_of(p, k1),
        is_top_dir_of(p, k2),
    ensures
        k1 == k2,
{
    if exists|j: int| 0 <= j < p.len() && p[j] == '/' {
        if k1.len() < k2.len() {
            assert(k2[k1.len() - 1] == p[k1.len() - 1]);
            assert(k1[k1.len() - 1] == p[k1.len() - 1]);
        } else if k2.len() < k1.len() {
            assert(k1[k2.len() - 1] == p[k2.len() - 1]);
            assert(k2[k2.len() - 1] == p[k2.len() - 1]);
        }
    }
}

/// The extension of the base name, from its last `.` on; empty when there is
/// no `.` or the only `.` starts the name (a dotfile).
pub open spec fn spec_extension(p: Seq<char>) -> Seq<char> {
    let b = spec_basename(p);
    if last_index_of(b, '.') <= 0 {
        Seq::empty()
    } else {
        b.skip(last_index_of(b, '.'))
    }
}

/// The part of an e-mail address after its last `@`; the whole text when it
/// has no `@`.
pub open spec fn spec_domain(email: Seq<char>) -> Seq<char> {
    email.skip(last_index_of(email, '@') + 1)
}

pub fn basename_chars(p: &Vec<char>) -> (r: Vec<char>)
    ensures
        r@ == spec_basename(p@),
{
    proof {
        lemma_last_index_bounds(p@, '/');
    }
    let n = p.len();
    let start = match find_last(p, '/') {
        Some(i) => i + 1,
        None => 0,
    };
    slice_chars(p, start, n)
}

/// Top-level directory of a path: the first component of its directory part
/// plus `/`; `"/"` for a file at the repository root.
pub fn top_dir(path: &str) -> (r: String)
    ensures
        r@ == spec_top_dir(path@),
        is_top_dir_of(path@, r@),
{
    proof {
        lemma_top_dir_is_first_component(path@);
    }
    let p = chars_of(path);
    proof {
        lemma_last_index_bounds(p@, '/');
    }
    let d = match find_last(&p, '/') {
        Some(i) => slice_chars(&p, 0, i),
        None => Vec::new(),
    };
    assert(d@ == spec_dirname(p@));
    proof {
        lemma_first_index_bounds(d@, '/');
    }
    let mut first = match find_first(&d, '/') {
        Some(i) => slice_chars(&d, 0, i),
        None => d,
    };
    first.push('/');
    string_from_chars(&first)
}

/// Extension of a path including the leading dot (`".rs"`); empty when the
/// base name has no dot or is a dotfile.
pub fn extension(path: &str) -> (r: String)
    ensures
        r@ == spec_extension(path@),
{
    let p = chars_of(path);
    let b = basename_chars(&p);
    proof {
        lemma_last_index_bounds(b@, '.');
    }
    match find_last(&b, '.') {
        Some(i) => {
            if i == 0 {
                String::new()
            } else {
                string_from_chars(&slice_chars(&b, i, b.len()))
            }
        },
        None => String::new(),
    }
}

/// Domain of an e-mail address: what follows the last `@`, or the whole
/// address when there is none.
pub fn extract_domain(email: &str) -> (r: String)
    ensures
        r@ == spec_domain(email@),
{
    let e = chars_of(email);
    proof {
        lemma_last_index_bounds(e@, '@');
    }
    let start = match find_last(&e, '@') {
        Some(i) => i + 1,
        None => 0,
    };
    string_from_chars(&slice_chars(&e, start, e.len()))
}

} // verus!
