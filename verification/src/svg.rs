//! Hover tooltips added to an SVG plot: one invisible target rectangle per
//! tooltip, with the tooltip text as its title, placed before the closing
//! `</svg>`.

use vstd::prelude::*;

use crate::text::{chars_of, push_signed_decimal, push_str, signed_decimal, string_from_chars};

verus! {

/// A hover target: a rectangle from `(x0, y0)` to `(x1, y1)` showing `text`.
#[derive(Debug)]
pub struct SvgTooltip {
    pub id: String,
    pub text: String,
    pub x0: i32,
    pub y0: i32,
    pub x1: i32,
    pub y1: i32,
}

impl SvgTooltip {
    /// A copy of the tooltip.
    pub fn copy(&self) -> (r: SvgTooltip)
        ensures
            r == *self,
    {
        SvgTooltip {
            id: self.id.clone(),
            text: self.text.clone(),
            x0: self.x0,
            y0: self.y0,
            x1: self.x1,
            y1: self.y1,
        }
    }
}

/// Why tooltips could not be added.
#[derive(Clone, Copy, Debug, PartialEq, Eq, Structural)]
pub enum SvgError {
    /// The document has no closing `</svg>`.
    NoRoot,
    /// The text of tooltip `i` holds a character XML does not allow.
    InvalidText(usize),
}

/// A character XML 1.0 allows in text.
pub open spec fn xml_char(c: char) -> bool {
    c == '\t' || c == '\n' || c == '\r' || ('\u{20}' <= c && c <= '\u{d7ff}') || ('\u{e000}' <= c && c <= '\u{fffd}') || (
    '\u{10000}' <= c && c <= '\u{10ffff}')
}

/// `c` as XML text: `&`, `<` and `>` become entity references.
pub open spec fn escape_char(c: char) -> Seq<char> {
    if c == '&' {
        seq!['&', 'a', 'm', 'p', ';']
    } else if c == '<' {
        seq!['&', 'l', 't', ';']
    } else if c == '>' {
        seq!['&', 'g', 't', ';']
    } else {
        seq![c]
    }
}

/// `s` as XML text.
pub open spec fn escape_xml(s: Seq<char>) -> Seq<char>
    decreases s.len(),
{
    if s.len() == 0 {
        Seq::empty()
    } else {
        escape_xml(s.drop_last()) + escape_char(s.last())
    }
}

/// The markup of one tooltip target.
pub open spec fn target_markup(t: SvgTooltip) -> Seq<char> {
    "<g id=\""@ + t.id@ + "\" aria-labelledby=\"tooltip-"@ + t.id@ + "\" cursor=\"help\"><title id=\"tooltip-"@ + t.id@
        + "\">"@ + escape_xml(t.text@) + "</title><rect x=\""@ + signed_decimal(t.x0 as int) + "\" y=\""@
        + signed_decimal(t.y0 as int) + "\" width=\""@ + signed_decimal(t.x1 - t.x0) + "\" height=\""@
        + signed_decimal(t.y1 - t.y0) + "\" fill=\"none\" pointer-events=\"all\"/></g>\n"@
}

/// The markup of the first `n` tooltip targets, in order.
pub open spec fn targets_markup(ts: Seq<SvgTooltip>, n: int) -> Seq<char>
    decreases n,
{
    if n <= 0 {
        Seq::empty()
    } else {
        targets_markup(ts, n - 1) + target_markup(ts[n - 1])
    }
}

/// `pat` occurs in `s` at `i`.
pub open spec fn occurs_at(s: Seq<char>, pat: Seq<char>, i: int) -> bool {
    0 <= i && i + pat.len() <= s.len() && s.subrange(i, i + pat.len()) == pat
}

/// The last position below `n` where `pat` occurs in `s`; -1 when none.
pub open spec fn last_occurrence(s: Seq<char>, pat: Seq<char>, n: int) -> int
    decreases n,
{
    if n <= 0 {
        -1
    } else if occurs_at(s, pat, n - 1) {
        n - 1
    } else {
        last_occurrence(s, pat, n - 1)
    }
}

/// Where the closing `</svg>` of `s` starts; -1 when there is none.
pub open spec fn closing_tag(s: Seq<char>) -> int {
    last_occurrence(s, "</svg>"@, s.len() as int + 1)
}

/// Index of the first tooltip whose text XML does not allow; `ts.len()`
/// when there is none.
pub open spec fn first_invalid(ts: Seq<SvgTooltip>, n: int) -> int
    decreases n,
{
    if n <= 0 {
        0
    } else if first_invalid(ts, n - 1) < n - 1 {
        first_invalid(ts, n - 1)
    } else if exists|j: int| 0 <= j < ts[n - 1].text@.len() && !xml_char(#[trigger] ts[n - 1].text@[j]) {
        n - 1
    } else {
        n
    }
}

proof fn lemma_last_occurrence_bounds(s: Seq<char>, pat: Seq<char>, n: int)
    ensures
        last_occurrence(s, pat, n) == -1 || (0 <= last_occurrence(s, pat, n) < n && occurs_at(s, pat, last_occurrence(s, pat, n))),
    decreases n,
{
    if n > 0 {
        lemma_last_occurrence_bounds(s, pat, n - 1);
    }
}

/// Where the last occurrence of the non-empty `pat` in `s` starts.
fn find_last_occurrence(s: &Vec<char>, pat: &Vec<char>) -> (r: Option<usize>)
    requires
        pat@.len() > 0,
    ensures
        match r {
            Some(i) => last_occurrence(s@, pat@, s@.len() as int + 1) == i,
            None => last_occurrence(s@, pat@, s@.len() as int + 1) == -1,
        },
{
    let len = s.len();
    let mut n: usize = len;
    assert(!occurs_at(s@, pat@, s@.len() as int));
    while n > 0
        invariant
            len == s@.len(),
            n <= s@.len(),
            pat@.len() > 0,
            last_occurrence(s@, pat@, s@.len() as int + 1) == last_occurrence(s@, pat@, n as int),
        decreases n,
    {
        let i = n - 1;
        if pat.len() <= s.len() - i {
            let mut k: usize = 0;
            while k < pat.len() && s[i + k] == pat[k]
                invariant
                    k <= pat@.len(),
                    len == s@.len(),
                    i + pat@.len() <= s@.len(),
                    forall|q: int| 0 <= q < k ==> s@[i + q] == pat@[q],
                decreases pat@.len() - k,
            {
                k += 1;
            }
            if k == pat.len() {
                assert(s@.subrange(i as int, i + pat@.len()) =~= pat@);
                return Some(i);
            }
            assert(s@.subrange(i as int, i + pat@.len())[k as int] != pat@[k as int]);
        }
        n = i;
    }
    None
}

/// Appends `s` as XML text to `out`; false, leaving `out` partly extended,
/// when `s` holds a character XML does not allow.
fn push_escaped(out: &mut Vec<char>, s: &str) -> (ok: bool)
    ensures
        ok == forall|j: int| 0 <= j < s@.len() ==> xml_char(#[trigger] s@[j]),
        ok ==> final(out)@ == old(out)@ + escape_xml(s@),
{
    let cs = chars_of(s);
    let mut i: usize = 0;
    while i < cs.len()
        invariant
            i <= cs@.len(),
            cs@ == s@,
            forall|j: int| 0 <= j < i ==> xml_char(#[trigger] cs@[j]),
            out@ == old(out)@ + escape_xml(cs@.take(i as int)),
        decreases cs@.len() - i,
    {
        let c = cs[i];
        let ok = c == '\t' || c == '\n' || c == '\r' || ('\u{20}' <= c && c <= '\u{d7ff}') || ('\u{e000}' <= c && c
            <= '\u{fffd}') || ('\u{10000}' <= c && c <= '\u{10ffff}');
        if !ok {
            return false;
        }
        let ghost before = out@;
        if c == '&' {
            out.push('&');
            out.push('a');
            out.push('m');
            out.push('p');
            out.push(';');
        } else if c == '<' {
            out.push('&');
            out.push('l');
            out.push('t');
            out.push(';');
        } else if c == '>' {
            out.push('&');
            out.push('g');
            out.push('t');
            out.push(';');
        } else {
            out.push(c);
        }
        assert(out@ =~= before + escape_char(c));
        assert(cs@.take(i + 1).drop_last() =~= cs@.take(i as int));
        i += 1;
    }
    assert(cs@.take(cs@.len() as int) =~= cs@);
    true
}

/// Adds the tooltips' targets, in order, just before the closing `</svg>`;
/// the document is left as it is when there are no tooltips.  Fails when
/// there is no closing `</svg>`, or with the first tooltip whose text XML
/// does not allow.
pub fn embed_tooltips(svg: &str, tooltips: &Vec<SvgTooltip>) -> (r: Result<String, SvgError>)
    ensures
        tooltips@.len() == 0 ==> (r matches Ok(out) && out@ == svg@),
        tooltips@.len() > 0 && closing_tag(svg@) < 0 ==> r == Err::<String, SvgError>(SvgError::NoRoot),
        tooltips@.len() > 0 && closing_tag(svg@) >= 0 && first_invalid(tooltips@, tooltips@.len() as int)
            < tooltips@.len() ==> r == Err::<String, SvgError>(
            SvgError::InvalidText(first_invalid(tooltips@, tooltips@.len() as int) as usize),
        ),
        tooltips@.len() > 0 && closing_tag(svg@) >= 0 && first_invalid(tooltips@, tooltips@.len() as int)
            == tooltips@.len() ==> (r matches Ok(out) && out@ == svg@.take(closing_tag(svg@)) + targets_markup(
            tooltips@,
            tooltips@.len() as int,
        ) + svg@.skip(closing_tag(svg@))),
{
    if tooltips.len() == 0 {
        return Ok(string_from_chars(chars_of(svg).as_slice()));
    }
    let doc = chars_of(svg);
    let closing = chars_of("</svg>");
    proof {
        reveal_strlit("</svg>");
    }
    let end = match find_last_occurrence(&doc, &closing) {
        Some(e) => e,
        None => {
            return Err(SvgError::NoRoot);
        },
    };
    proof {
        lemma_last_occurrence_bounds(doc@, "</svg>"@, doc@.len() as int + 1);
        assert(closing_tag(svg@) == end as int);
    }
    let mut targets: Vec<char> = Vec::new();
    let mut i: usize = 0;
    while i < tooltips.len()
        invariant
            i <= tooltips@.len(),
            closing_tag(svg@) == end as int,
            end <= doc@.len(),
            doc@ == svg@,
            first_invalid(tooltips@, i as int) == i,
            targets@ == targets_markup(tooltips@, i as int),
        decreases tooltips@.len() - i,
    {
        let t = &tooltips[i];
        let ghost before = targets@;
        push_str(&mut targets, "<g id=\"");
        push_str(&mut targets, t.id.as_str());
        push_str(&mut targets, "\" aria-labelledby=\"tooltip-");
        push_str(&mut targets, t.id.as_str());
        push_str(&mut targets, "\" cursor=\"help\"><title id=\"tooltip-");
        push_str(&mut targets, t.id.as_str());
        push_str(&mut targets, "\">");
        if !push_escaped(&mut targets, t.text.as_str()) {
            proof {
                let j = choose|j: int| 0 <= j < t.text@.len() && !xml_char(#[trigger] t.text@[j]);
                assert(first_invalid(tooltips@, i + 1) == i);
                lemma_first_invalid_stays(tooltips@, i + 1, tooltips@.len() as int);
            }
            return Err(SvgError::InvalidText(i));
        }
        push_str(&mut targets, "</title><rect x=\"");
        push_signed_decimal(&mut targets, t.x0 as i64);
        push_str(&mut targets, "\" y=\"");
        push_signed_decimal(&mut targets, t.y0 as i64);
        push_str(&mut targets, "\" width=\"");
        push_signed_decimal(&mut targets, t.x1 as i64 - t.x0 as i64);
        push_str(&mut targets, "\" height=\"");
        push_signed_decimal(&mut targets, t.y1 as i64 - t.y0 as i64);
        push_str(&mut targets, "\" fill=\"none\" pointer-events=\"all\"/></g>\n");
        assert(targets@ =~= before + target_markup(tooltips@[i as int]));
        i += 1;
    }
    let mut out = slice_prefix(&doc, end);
    let ghost head = out@;
    let mut k: usize = 0;
    while k < targets.len()
        invariant
            k <= targets@.len(),
            out@ == head + targets@.take(k as int),
        decreases targets@.len() - k,
    {
        out.push(targets[k]);
        assert(targets@.take(k + 1) =~= targets@.take(k as int).push(targets@[k as int]));
        k += 1;
    }
    assert(targets@.take(targets@.len() as int) =~= targets@);
    let ghost mid = out@;
    let mut q = end;
    while q < doc.len()
        invariant
            end <= q <= doc@.len(),
            out@ == mid + doc@.subrange(end as int, q as int),
        decreases doc@.len() - q,
    {
        out.push(doc[q]);
        assert(doc@.subrange(end as int, q + 1) =~= doc@.subrange(end as int, q as int).push(doc@[q as int]));
        q += 1;
    }
    assert(doc@.subrange(end as int, doc@.len() as int) =~= doc@.skip(end as int));
    assert(head =~= doc@.take(end as int));
    Ok(string_from_chars(out.as_slice()))
}

/// `s[..n]`.
fn slice_prefix(s: &Vec<char>, n: usize) -> (r: Vec<char>)
    requires
        n <= s@.len(),
    ensures
        r@ == s@.take(n as int),
{
    let mut r: Vec<char> = Vec::new();
    let mut i: usize = 0;
    while i < n
        invariant
            i <= n <= s@.len(),
            r@ == s@.take(i as int),
        decreases n - i,
    {
        r.push(s[i]);
        assert(s@.take(i + 1) =~= s@.take(i as int).push(s@[i as int]));
        i += 1;
    }
    r
}

proof fn lemma_first_invalid_stays(ts: Seq<SvgTooltip>, n: int, m: int)
    requires
        0 < n <= m,
        first_invalid(ts, n) < n,
    ensures
        first_invalid(ts, m) == first_invalid(ts, n),
    decreases m - n,
{
    if n < m {
        lemma_first_invalid_stays(ts, n, m - 1);
        lemma_first_invalid_bound(ts, m - 1);
    }
}

proof fn lemma_first_invalid_bound(ts: Seq<SvgTooltip>, n: int)
    ensures
        0 <= first_invalid(ts, n) <= if n < 0 { 0 } else { n },
    decreases n,
{
    if n > 0 {
        lemma_first_invalid_bound(ts, n - 1);
    }
}

} // verus!
