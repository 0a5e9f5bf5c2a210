//! Greedy word wrapping of the event key's text to a pixel width.

use plotters::style::FontDesc;
use vstd::prelude::*;

use crate::events::{char_is_whitespace, white_space};
use crate::text::{chars_of, string_from_chars};

verus! {

#[verifier::external_type_specification]
#[verifier::external_body]
pub struct ExFontDesc<'a>(FontDesc<'a>);

/// `plotters`: `FontDesc::box_size`, the width in pixels of `text` set in
/// `font`, or the font error's message.  Nothing is claimed of the width:
/// it comes from the font files found on the machine.
#[verifier::external_body]
fn text_width(font: &FontDesc<'_>, text: &str) -> (r: Result<i32, String>) {
    match font.box_size(text) {
        Ok((w, _)) => Ok(w as i32),
        Err(e) => Err(format!("{e}")),
    }
}

/// The characters of `s` that are not white space, in order.
pub open spec fn visible(s: Seq<char>) -> Seq<char>
    decreases s.len(),
{
    if s.len() == 0 {
        Seq::empty()
    } else if white_space(s.last()) {
        visible(s.drop_last())
    } else {
        visible(s.drop_last()).push(s.last())
    }
}

/// No character of `s` is white space.
pub open spec fn solid(s: Seq<char>) -> bool {
    forall|i: int| 0 <= i < s.len() ==> !white_space(#[trigger] s[i])
}

/// `s` is not empty, and neither starts nor ends with white space.
pub open spec fn trimmed(s: Seq<char>) -> bool {
    s.len() > 0 && !white_space(s[0]) && !white_space(s.last())
}

/// The words put end to end.
pub open spec fn flat(ws: Seq<Vec<char>>) -> Seq<char>
    decreases ws.len(),
{
    if ws.len() == 0 {
        Seq::empty()
    } else {
        flat(ws.drop_last()) + ws.last()@
    }
}

/// The lines put end to end.
pub open spec fn joined(lines: Seq<String>) -> Seq<char>
    decreases lines.len(),
{
    if lines.len() == 0 {
        Seq::empty()
    } else {
        joined(lines.drop_last()) + lines.last()@
    }
}

proof fn lemma_flat_len(ws: Seq<Vec<char>>)
    requires
        forall|k: int| 0 <= k < ws.len() ==> (#[trigger] ws[k])@.len() > 0,
    ensures
        flat(ws).len() >= ws.len(),
    decreases ws.len(),
{
    if ws.len() > 0 {
        assert forall|k: int| 0 <= k < ws.drop_last().len() implies (#[trigger] ws.drop_last()[k])@.len() > 0 by {
            assert(ws.drop_last()[k] == ws[k]);
        }
        lemma_flat_len(ws.drop_last());
        assert(ws.last() == ws[ws.len() - 1]);
    }
}

proof fn lemma_visible_concat(a: Seq<char>, b: Seq<char>)
    ensures
        visible(a + b) == visible(a) + visible(b),
    decreases b.len(),
{
    if b.len() == 0 {
        assert(a + b =~= a);
        assert(visible(b) =~= Seq::<char>::empty());
        assert(visible(a) + visible(b) =~= visible(a));
    } else {
        assert((a + b).drop_last() =~= a + b.drop_last());
        assert((a + b).last() == b.last());
        lemma_visible_concat(a, b.drop_last());
        if white_space(b.last()) {
        } else {
            assert(visible(a) + visible(b.drop_last()).push(b.last()) =~= (visible(a) + visible(b.drop_last())).push(
                b.last(),
            ));
        }
    }
}

proof fn lemma_visible_solid(s: Seq<char>)
    requires
        solid(s),
    ensures
        visible(s) == s,
    decreases s.len(),
{
    if s.len() > 0 {
        assert(solid(s.drop_last())) by {
            assert forall|i: int| 0 <= i < s.drop_last().len() implies !white_space(#[trigger] s.drop_last()[i]) by {
                assert(s.drop_last()[i] == s[i]);
            }
        }
        lemma_visible_solid(s.drop_last());
        assert(!white_space(s[s.len() - 1]));
        assert(s.drop_last().push(s.last()) =~= s);
    }
}

/// The words of `s` that are complete, and the word being read at its end.
pub open spec fn word_split(s: Seq<char>) -> (Seq<Seq<char>>, Seq<char>)
    decreases s.len(),
{
    if s.len() == 0 {
        (Seq::empty(), Seq::empty())
    } else {
        let prev = word_split(s.drop_last());
        if !white_space(s.last()) {
            (prev.0, prev.1.push(s.last()))
        } else if prev.1.len() > 0 {
            (prev.0.push(prev.1), Seq::empty())
        } else {
            (prev.0, Seq::empty())
        }
    }
}

/// The words of `s`: its maximal runs of characters that are not white
/// space, in order.
pub open spec fn text_words(s: Seq<char>) -> Seq<Seq<char>> {
    let split = word_split(s);
    if split.1.len() > 0 {
        split.0.push(split.1)
    } else {
        split.0
    }
}

/// The characters of each word.
pub open spec fn word_views(ws: Seq<Vec<char>>) -> Seq<Seq<char>> {
    Seq::new(ws.len(), |i: int| ws[i]@)
}

/// The words of `cs`: its maximal runs of characters that are not white
/// space, in order.
fn words_of(cs: &Vec<char>) -> (ws: Vec<Vec<char>>)
    ensures
        word_views(ws@) == text_words(cs@),
        flat(ws@) == visible(cs@),
        forall|k: int| 0 <= k < ws@.len() ==> (#[trigger] ws@[k])@.len() > 0 && solid(ws@[k]@),
{
    let mut ws: Vec<Vec<char>> = Vec::new();
    let mut cur: Vec<char> = Vec::new();
    let mut i: usize = 0;
    while i < cs.len()
        invariant
            i <= cs@.len(),
            flat(ws@) + cur@ == visible(cs@.take(i as int)),
            (word_views(ws@), cur@) == word_split(cs@.take(i as int)),
            solid(cur@),
            forall|k: int| 0 <= k < ws@.len() ==> (#[trigger] ws@[k])@.len() > 0 && solid(ws@[k]@),
        decreases cs@.len() - i,
    {
        let c = cs[i];
        proof {
            assert(cs@.take(i + 1).drop_last() =~= cs@.take(i as int));
            assert(cs@.take(i + 1).last() == c);
        }
        if char_is_whitespace(c) {
            if cur.len() > 0 {
                let ghost before = ws@;
                ws.push(cur);
                cur = Vec::new();
                proof {
                    assert(ws@.drop_last() =~= before);
                    assert(flat(ws@) + cur@ =~= flat(before) + ws@.last()@);
                    assert(word_views(ws@) =~= word_views(before).push(ws@.last()@));
                }
            } else {
                assert(cur@ =~= Seq::<char>::empty());
            }
        } else {
            let ghost before = cur@;
            cur.push(c);
            proof {
                assert(flat(ws@) + cur@ =~= (flat(ws@) + before).push(c));
                assert forall|j: int| 0 <= j < cur@.len() implies !white_space(#[trigger] cur@[j]) by {
                    if j < before.len() {
                        assert(cur@[j] == before[j]);
                    }
                }
            }
        }
        i += 1;
    }
    proof {
        assert(cs@.take(cs@.len() as int) =~= cs@);
    }
    if cur.len() > 0 {
        let ghost before = ws@;
        let ghost last = cur@;
        ws.push(cur);
        proof {
            assert(ws@.drop_last() =~= before);
            assert(word_views(ws@) =~= word_views(before).push(last));
        }
    } else {
        assert(flat(ws@) + cur@ =~= flat(ws@));
    }
    ws
}

/// The line so far with word `w` added after a space (or alone, on an
/// empty line).
pub open spec fn extended(current: Seq<char>, w: Seq<char>) -> Seq<char> {
    if current.len() == 0 {
        w
    } else {
        current.push(' ') + w
    }
}

fn extend_line(current: &Vec<char>, w: &Vec<char>) -> (r: Vec<char>)
    ensures
        r@ == extended(current@, w@),
{
    let mut r = current.clone();
    if r.len() > 0 {
        r.push(' ');
    }
    let ghost start = r@;
    let mut j: usize = 0;
    while j < w.len()
        invariant
            j <= w@.len(),
            r@ == start + w@.take(j as int),
        decreases w@.len() - j,
    {
        r.push(w[j]);
        j += 1;
        assert(r@ =~= start + w@.take(j as int));
    }
    assert(w@.take(w@.len() as int) =~= w@);
    assert(current@.len() == 0 ==> start =~= Seq::<char>::empty());
    r
}

/// The lines so far and the line being filled.
pub type WrapState = (Seq<Seq<char>>, Seq<char>);

/// Adds character `c` of a word too wide for a line on its own; `measured`
/// is the width of the current line with `c` added, which counts only when
/// that line is not empty: when it exceeds `width` the line is closed and
/// `c` starts the next one.
pub open spec fn char_step(s: WrapState, c: char, width: int, measured: int) -> WrapState {
    if s.1.len() > 0 && measured > width {
        (s.0.push(s.1), seq![c])
    } else {
        (s.0, s.1.push(c))
    }
}

/// The state after the first `j` characters of `w` are added by
/// `char_step`, the `i`-th with the width `measured[i]`.
pub open spec fn chars_upto(s: WrapState, w: Seq<char>, j: int, width: int, measured: Seq<int>) -> WrapState
    decreases j,
{
    if j <= 0 {
        s
    } else {
        char_step(chars_upto(s, w, j - 1, width, measured), w[j - 1], width, measured[j - 1])
    }
}

/// Adds word `w`; `measured` is the width of the current line with `w`
/// added after a space (`extended`).  When it fits in `width`, that is the
/// new current line.  Otherwise the current line (if any) is closed and the
/// word's characters are added one by one with the widths `breaks`.
pub open spec fn word_step(s: WrapState, w: Seq<char>, width: int, measured: int, breaks: Seq<int>) -> WrapState {
    if measured <= width {
        (s.0, extended(s.1, w))
    } else {
        chars_upto(
            (if s.1.len() > 0 { s.0.push(s.1) } else { s.0 }, Seq::empty()),
            w,
            w.len() as int,
            width,
            breaks,
        )
    }
}

/// The state after the first `k` words of `ws` are added by `word_step`,
/// the `i`-th with `fits[i]` and `breaks[i]`.
pub open spec fn words_upto(
    ws: Seq<Seq<char>>,
    k: int,
    width: int,
    fits: Seq<int>,
    breaks: Seq<Seq<int>>,
) -> WrapState
    decreases k,
{
    if k <= 0 {
        (Seq::empty(), Seq::empty())
    } else {
        word_step(words_upto(ws, k - 1, width, fits, breaks), ws[k - 1], width, fits[k - 1], breaks[k - 1])
    }
}

/// Greedy wrapping of the words `ws` into lines of at most `width`, given
/// the widths measured along the way (`fits` for each word added to its
/// line, `breaks` for the characters of words broken up): the lines closed
/// on the way, and the last line if it is not empty.
pub open spec fn greedy_wrap(ws: Seq<Seq<char>>, width: int, fits: Seq<int>, breaks: Seq<Seq<int>>) -> Seq<Seq<char>> {
    let s = words_upto(ws, ws.len() as int, width, fits, breaks);
    if s.1.len() > 0 {
        s.0.push(s.1)
    } else {
        s.0
    }
}

/// The characters of each line.
pub open spec fn line_views(lines: Seq<String>) -> Seq<Seq<char>> {
    Seq::new(lines.len(), |i: int| lines[i]@)
}

proof fn lemma_chars_upto_prefix(s: WrapState, w: Seq<char>, j: int, width: int, a: Seq<int>, b: Seq<int>)
    requires
        forall|q: int| 0 <= q < j ==> a[q] == b[q],
    ensures
        chars_upto(s, w, j, width, a) == chars_upto(s, w, j, width, b),
    decreases j,
{
    if j > 0 {
        lemma_chars_upto_prefix(s, w, j - 1, width, a, b);
    }
}

proof fn lemma_words_upto_prefix(
    ws: Seq<Seq<char>>,
    k: int,
    width: int,
    f1: Seq<int>,
    b1: Seq<Seq<int>>,
    f2: Seq<int>,
    b2: Seq<Seq<int>>,
)
    requires
        forall|q: int| 0 <= q < k ==> f1[q] == f2[q] && b1[q] == b2[q],
    ensures
        words_upto(ws, k, width, f1, b1) == words_upto(ws, k, width, f2, b2),
    decreases k,
{
    if k > 0 {
        lemma_words_upto_prefix(ws, k - 1, width, f1, b1, f2, b2);
    }
}

/// `measure` can give width `w` for a text whose characters are `t`.
pub open spec fn measured<F: Fn(String) -> Result<i32, String>>(measure: F, t: Seq<char>, w: int) -> bool {
    exists|s: String, v: i32| s@ == t && v == w && #[trigger] call_ensures(measure, (s,), Ok::<i32, String>(v))
}

/// The state `s` with its current line closed, if it has one.
pub open spec fn closed(s: WrapState) -> WrapState {
    (if s.1.len() > 0 { s.0.push(s.1) } else { s.0 }, Seq::empty())
}

/// The first `j` widths of `br` used by `chars_upto` from `s0` are ones
/// `measure` can give for the current line with the next character added.
pub open spec fn chars_measured<F: Fn(String) -> Result<i32, String>>(
    measure: F,
    s0: WrapState,
    w: Seq<char>,
    width: int,
    br: Seq<int>,
    j: int,
) -> bool {
    forall|p: int|
        0 <= p < j && (#[trigger] chars_upto(s0, w, p, width, br)).1.len() > 0 ==> measured(
            measure,
            chars_upto(s0, w, p, width, br).1.push(w[p]),
            br[p],
        )
}

/// The widths used for word `q` by `words_upto` are ones `measure` can
/// give: `fits[q]` for the current line extended by the word, and, when the
/// word does not fit, `breaks[q]` for each line grown by one character.
pub open spec fn word_measured<F: Fn(String) -> Result<i32, String>>(
    measure: F,
    ws: Seq<Seq<char>>,
    width: int,
    fits: Seq<int>,
    breaks: Seq<Seq<int>>,
    q: int,
) -> bool {
    let s = words_upto(ws, q, width, fits, breaks);
    &&& measured(measure, extended(s.1, ws[q]), fits[q])
    &&& fits[q] > width ==> chars_measured(measure, closed(s), ws[q], width, breaks[q], ws[q].len() as int)
}

proof fn lemma_chars_measured_extend<F: Fn(String) -> Result<i32, String>>(
    measure: F,
    s0: WrapState,
    w: Seq<char>,
    width: int,
    a: Seq<int>,
    b: Seq<int>,
    j: int,
)
    requires
        chars_measured(measure, s0, w, width, a, j),
        0 <= j <= a.len(),
        forall|q: int| 0 <= q < a.len() ==> a[q] == b[q],
    ensures
        chars_measured(measure, s0, w, width, b, j),
{
    assert forall|p: int| 0 <= p < j && (#[trigger] chars_upto(s0, w, p, width, b)).1.len() > 0 implies measured(
        measure,
        chars_upto(s0, w, p, width, b).1.push(w[p]),
        b[p],
    ) by {
        lemma_chars_upto_prefix(s0, w, p, width, a, b);
        assert(chars_upto(s0, w, p, width, a).1.len() > 0);
    }
}

proof fn lemma_word_measured_extend<F: Fn(String) -> Result<i32, String>>(
    measure: F,
    ws: Seq<Seq<char>>,
    width: int,
    f1: Seq<int>,
    b1: Seq<Seq<int>>,
    f2: Seq<int>,
    b2: Seq<Seq<int>>,
    q: int,
)
    requires
        word_measured(measure, ws, width, f1, b1, q),
        0 <= q < f1.len(),
        q < b1.len(),
        forall|i: int| 0 <= i < f1.len() ==> f1[i] == f2[i],
        forall|i: int| 0 <= i < b1.len() ==> b1[i] == b2[i],
    ensures
        word_measured(measure, ws, width, f2, b2, q),
{
    lemma_words_upto_prefix(ws, q, width, f1, b1, f2, b2);
}

/// Wraps `text` into lines no wider than `width` as `measure` measures
/// them: words are added to the current line while it fits, a word that
/// does not fit starts a new line, and a word too wide on its own is broken
/// between characters.  Each width used is one `measure` gave for the line
/// it was asked about (`word_measured`), and a failure is one `measure`
/// returned.  Every character that is not white space is kept, in order,
/// and every line is non-empty with no white space at either end; text
/// with nothing but white space gives no line.
pub fn wrap_with<F: Fn(String) -> Result<i32, String>>(measure: F, text: &str, width: i32) -> (r: Result<
    Vec<String>,
    String,
>)
    requires
        forall|s: String| call_requires(measure, (s,)),
    ensures
        visible(text@).len() == 0 ==> (r matches Ok(lines) && lines@.len() == 0),
        r matches Ok(lines) ==> {
            &&& exists|fits: Seq<int>, breaks: Seq<Seq<int>>|
                line_views(lines@) == #[trigger] greedy_wrap(text_words(text@), width as int, fits, breaks)
                    && forall|q: int|
                    0 <= q < text_words(text@).len() ==> word_measured(measure, text_words(text@), width as int, fits, breaks, q)
            &&& visible(joined(lines@)) == visible(text@)
            &&& forall|i: int| 0 <= i < lines@.len() ==> trimmed(#[trigger] lines@[i]@)
        },
        r is Err ==> exists|s: String, res: Result<i32, String>|
            #[trigger] call_ensures(measure, (s,), res) && res is Err && res->Err_0 == r->Err_0,
{
    let cs = chars_of(text);
    let words = words_of(&cs);
    let ghost ws = word_views(words@);
    let ghost mut fits: Seq<int> = Seq::empty();
    let ghost mut breaks: Seq<Seq<int>> = Seq::empty();
    let mut lines: Vec<String> = Vec::new();
    let mut current: Vec<char> = Vec::new();
    proof {
        lemma_flat_len(words@);
        assert(line_views(lines@) =~= Seq::<Seq<char>>::empty());
    }
    let mut k: usize = 0;
    while k < words.len()
        invariant
            k <= words@.len(),
            ws == word_views(words@),
            ws == text_words(text@),
            fits.len() == k,
            breaks.len() == k,
            (line_views(lines@), current@) == words_upto(ws, k as int, width as int, fits, breaks),
            forall|s: String| call_requires(measure, (s,)),
            forall|q: int| 0 <= q < k ==> word_measured(measure, ws, width as int, fits, breaks, q),
            flat(words@) == visible(text@),
            visible(text@).len() >= words@.len(),
            forall|q: int| 0 <= q < words@.len() ==> (#[trigger] words@[q])@.len() > 0 && solid(words@[q]@),
            visible(joined(lines@) + current@) == flat(words@.take(k as int)),
            forall|i: int| 0 <= i < lines@.len() ==> trimmed(#[trigger] lines@[i]@),
            current@.len() == 0 || trimmed(current@),
        decreases words@.len() - k,
    {
        let w = &words[k];
        let ghost done = flat(words@.take(k as int));
        let ghost prev: WrapState = (line_views(lines@), current@);
        proof {
            assert(words@.take(k + 1).drop_last() =~= words@.take(k as int));
            assert(words@.take(k + 1).last() == *w);
            assert(flat(words@.take(k + 1)) == done + w@);
            lemma_visible_solid(w@);
            assert(w@.last() == w@[w@.len() - 1]);
            assert(ws[k as int] == w@);
        }
        let candidate = extend_line(&current, w);
        let candidate_text = string_from_chars(candidate.as_slice());
        let ghost candidate_str = candidate_text;
        let got = match measure(candidate_text) {
            Err(e) => {
                assert(call_ensures(measure, (candidate_str,), Err::<i32, String>(e)));
                return Err(e);
            },
            Ok(m) => m,
        };
        proof {
            assert(call_ensures(measure, (candidate_str,), Ok::<i32, String>(got)));
            assert(measured(measure, candidate@, got as int));
        }
        if got <= width {
            proof {
                if current@.len() > 0 {
                    lemma_visible_concat(joined(lines@) + current@, seq![' '] + w@);
                    lemma_visible_concat(seq![' '], w@);
                    assert(visible(seq![' ']) =~= Seq::<char>::empty()) by {
                        assert(seq![' '].drop_last() =~= Seq::<char>::empty());
                        assert(seq![' '].last() == ' ');
                        assert(visible(Seq::<char>::empty()) =~= Seq::<char>::empty());
                    }
                    assert(joined(lines@) + candidate@ =~= (joined(lines@) + current@) + (seq![' '] + w@));
                    assert(candidate@[0] == current@[0]);
                    assert(candidate@.last() == w@.last());
                } else {
                    lemma_visible_concat(joined(lines@), w@);
                    lemma_visible_concat(joined(lines@), current@);
                    assert(current@ =~= Seq::<char>::empty());
                    assert(joined(lines@) + current@ =~= joined(lines@));
                }
                let f0 = fits;
                let b0 = breaks;
                fits = fits.push(got as int);
                breaks = breaks.push(Seq::empty());
                lemma_words_upto_prefix(ws, k as int, width as int, fits, breaks, f0, b0);
                assert forall|q: int| 0 <= q < k + 1 implies word_measured(measure, ws, width as int, fits, breaks, q) by {
                    if q < k {
                        lemma_word_measured_extend(measure, ws, width as int, f0, b0, fits, breaks, q);
                    } else {
                        assert(extended(prev.1, ws[q]) == candidate@);
                    }
                }
            }
            current = candidate;
            k += 1;
            continue;
        }
        let ghost f0 = fits;
        proof {
            fits = fits.push(got as int);
            lemma_words_upto_prefix(ws, k as int, width as int, fits, breaks, f0, breaks);
        }
        if current.len() > 0 {
            let ghost before = lines@;
            lines.push(string_from_chars(current.as_slice()));
            proof {
                assert(lines@.drop_last() =~= before);
                assert(joined(lines@) =~= joined(before) + current@);
                assert(joined(lines@) + Seq::<char>::empty() =~= joined(lines@));
                assert(line_views(lines@) =~= line_views(before).push(current@));
            }
            current = Vec::new();
        } else {
            assert(joined(lines@) + current@ =~= joined(lines@) + Seq::<char>::empty());
        }
        let ghost s0: WrapState = (line_views(lines@), current@);
        let ghost mut br: Seq<int> = Seq::empty();
        proof {
            assert(current@ =~= Seq::<char>::empty());
            assert(s0 == (if prev.1.len() > 0 { prev.0.push(prev.1) } else { prev.0 }, Seq::<char>::empty()));
        }
        let mut j: usize = 0;
        while j < w.len()
            invariant
                j <= w@.len(),
                w@.len() > 0,
                k < words@.len() <= visible(text@).len(),
                solid(w@),
                br.len() == j,
                (line_views(lines@), current@) == chars_upto(s0, w@, j as int, width as int, br),
                forall|s: String| call_requires(measure, (s,)),
                chars_measured(measure, s0, w@, width as int, br, j as int),
                visible(joined(lines@) + current@) == done + w@.take(j as int),
                forall|i: int| 0 <= i < lines@.len() ==> trimmed(#[trigger] lines@[i]@),
                solid(current@),
            decreases w@.len() - j,
        {
            let ch = w[j];
            let ghost at: WrapState = (line_views(lines@), current@);
            let ghost br_at = br;
            let ghost longer_view = current@.push(ch);
            if current.len() > 0 {
                let mut longer = current.clone();
                longer.push(ch);
                let longer_text = string_from_chars(longer.as_slice());
                let ghost longer_str = longer_text;
                let m = match measure(longer_text) {
                    Err(e) => {
                        assert(call_ensures(measure, (longer_str,), Err::<i32, String>(e)));
                        return Err(e);
                    },
                    Ok(m) => m,
                };
                proof {
                    assert(call_ensures(measure, (longer_str,), Ok::<i32, String>(m)));
                    assert(measured(measure, longer@, m as int));
                    br = br.push(m as int);
                    lemma_chars_measured_extend(measure, s0, w@, width as int, br_at, br, j as int);
                }
                if m > width {
                    let ghost before = lines@;
                    proof {
                        assert(!white_space(current@[0]));
                        assert(!white_space(current@[current@.len() - 1]));
                    }
                    lines.push(string_from_chars(current.as_slice()));
                    proof {
                        assert(lines@.drop_last() =~= before);
                        assert(joined(lines@) =~= joined(before) + current@);
                        assert(line_views(lines@) =~= line_views(before).push(current@));
                    }
                    current = Vec::new();
                    assert(joined(lines@) + current@ =~= joined(lines@));
                }
            } else {
                proof {
                    br = br.push(0);
                    lemma_chars_measured_extend(measure, s0, w@, width as int, br_at, br, j as int);
                }
            }
            let ghost before = current@;
            current.push(ch);
            proof {
                assert(br.drop_last() =~= br_at);
                lemma_chars_upto_prefix(s0, w@, j as int, width as int, br, br_at);
                assert(chars_measured(measure, s0, w@, width as int, br, j + 1)) by {
                    assert forall|p: int|
                        0 <= p < j + 1 && (#[trigger] chars_upto(s0, w@, p, width as int, br)).1.len() > 0 implies measured(
                        measure,
                        chars_upto(s0, w@, p, width as int, br).1.push(w@[p]),
                        br[p],
                    ) by {
                        if p == j {
                            assert(chars_upto(s0, w@, p, width as int, br) == at);
                            assert(at.1.push(ch) == longer_view);
                        }
                    }
                }
                assert(chars_upto(s0, w@, j + 1, width as int, br) == char_step(
                    chars_upto(s0, w@, j as int, width as int, br),
                    w@[j as int],
                    width as int,
                    br[j as int],
                ));
                assert(w@[j as int] == ch);
                assert((line_views(lines@), current@) == char_step(at, ch, width as int, br[j as int]));
                assert(w@.take(j + 1) =~= w@.take(j as int).push(ch));
                lemma_visible_concat(joined(lines@) + before, seq![ch]);
                assert(joined(lines@) + current@ =~= (joined(lines@) + before) + seq![ch]);
                assert(visible(seq![ch]) =~= seq![ch]) by {
                    assert(seq![ch].drop_last() =~= Seq::<char>::empty());
                    assert(seq![ch].last() == ch);
                    assert(!white_space(w@[j as int]));
                    assert(visible(Seq::<char>::empty()) =~= Seq::<char>::empty());
                    assert(Seq::<char>::empty().push(ch) =~= seq![ch]);
                }
                assert forall|q: int| 0 <= q < current@.len() implies !white_space(#[trigger] current@[q]) by {
                    if q < before.len() {
                        assert(current@[q] == before[q]);
                    }
                }
            }
            j += 1;
        }
        proof {
            assert(w@.take(w@.len() as int) =~= w@);
            let b0 = breaks;
            breaks = breaks.push(br);
            lemma_words_upto_prefix(ws, k as int, width as int, fits, breaks, fits, b0);
            assert forall|q: int| 0 <= q < k + 1 implies word_measured(measure, ws, width as int, fits, breaks, q) by {
                if q < k {
                    lemma_word_measured_extend(measure, ws, width as int, f0, b0, fits, breaks, q);
                } else {
                    assert(extended(prev.1, ws[q]) == candidate@);
                    assert(closed(prev) == s0);
                    assert(breaks[q] == br);
                }
            }
        }
        k += 1;
    }
    proof {
        assert(words@.take(words@.len() as int) =~= words@);
    }
    let ghost last: WrapState = (line_views(lines@), current@);
    if current.len() > 0 {
        let ghost before = lines@;
        lines.push(string_from_chars(current.as_slice()));
        proof {
            assert(lines@.drop_last() =~= before);
            assert(joined(lines@) =~= joined(before) + current@);
            assert(line_views(lines@) =~= line_views(before).push(current@));
        }
    } else {
        assert(joined(lines@) + current@ =~= joined(lines@));
    }
    proof {
        assert(line_views(lines@) == greedy_wrap(text_words(text@), width as int, fits, breaks));
        assert(ws.len() == words@.len());
    }
    Ok(lines)
}

/// Wraps `text` into lines no wider than `width` as `font` measures them
/// (see `wrap_with`); fails with the font's message when a measurement
/// fails.
pub fn wrap_text(font: &FontDesc<'_>, text: &str, width: i32) -> (r: Result<Vec<String>, String>)
    ensures
        visible(text@).len() == 0 ==> (r matches Ok(lines) && lines@.len() == 0),
        r matches Ok(lines) ==> {
            &&& exists|fits: Seq<int>, breaks: Seq<Seq<int>>|
                line_views(lines@) == #[trigger] greedy_wrap(text_words(text@), width as int, fits, breaks)
            &&& visible(joined(lines@)) == visible(text@)
            &&& forall|i: int| 0 <= i < lines@.len() ==> trimmed(#[trigger] lines@[i]@)
        },
{
    wrap_with(|s: String| text_width(font, s.as_str()), text, width)
}

} // verus!
