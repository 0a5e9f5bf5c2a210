//! Hover targets of the event annotations: for each event, a target over
//! its line, over its numbered label and over its key entry, all showing
//! the event's tooltip text.

use vstd::prelude::*;

use crate::events::{date_text, iso_date_text, well_dated, Event};
use crate::layout::Marker;
use crate::svg::SvgTooltip;
use crate::text::{decimal, push_decimal, push_str, string_from_chars};

verus! {

/// Height of a marker lane and of a line of key text.
pub open spec fn row_step() -> int {
    26
}

/// Baseline of a label in lane `lane` above a line whose top is at `top_y`.
pub open spec fn label_y(top_y: int, lane: int) -> int {
    top_y - 10 - lane * row_step()
}

/// `v` fits in an `i32`.
pub open spec fn fits_i32(v: int) -> bool {
    i32::MIN <= v <= i32::MAX
}

/// The baseline of a label in lane `lane` above a line whose top is at `top_y`.
pub fn label_baseline(top_y: i32, lane: usize) -> (y: i32)
    requires
        fits_i32(label_y(top_y as int, lane as int)),
    ensures
        y == label_y(top_y as int, lane as int),
{
    (top_y as i64 - 10 - (lane as i64) * 26) as i32
}

/// `"<prefix><n>"`.
fn numbered(prefix: &str, n: usize) -> (s: String)
    requires
        n < u64::MAX,
    ensures
        s@ == prefix@ + decimal(n as nat + 1),
{
    let mut out: Vec<char> = Vec::new();
    push_str(&mut out, prefix);
    push_decimal(&mut out, n as u64 + 1);
    string_from_chars(out.as_slice())
}

/// The hover targets of event number `index + 1`: over its line from `top`
/// to `bottom`, 4 pixels either side but within `[x_start, x_end]`; over
/// its label of `marker`, from 20 above to 3 below the label's baseline;
/// and over its key entry at `entry` (below `key_top`), as wide as its text
/// (`key_width`) past the 36 pixels of sample line, plus 4, and as high as
/// its `key_lines` lines.  Each shows the event's tooltip text.
pub fn hover_targets(
    index: usize,
    event: &Event,
    top: (i32, i32),
    bottom: (i32, i32),
    x_start: i32,
    x_end: i32,
    marker: Marker,
    entry: (i32, i32),
    key_top: i32,
    key_width: i32,
    key_lines: usize,
) -> (r: Vec<SvgTooltip>)
    requires
        index < u64::MAX,
        well_dated(event.date),
        fits_i32(top.0 - 4),
        fits_i32(top.0 + 4),
        fits_i32(label_y(top.1 as int, marker.lane as int) - 20),
        fits_i32(marker.left + marker.width),
        fits_i32(entry.0 + 36 + key_width + 4),
        fits_i32(key_top + entry.1),
        fits_i32(key_top + entry.1 + key_lines * row_step()),
    ensures
        r@.len() == 3,
        r@[0].id@ == "event-line-"@ + decimal(index as nat + 1),
        r@[1].id@ == "event-label-"@ + decimal(index as nat + 1),
        r@[2].id@ == "event-key-"@ + decimal(index as nat + 1),
        forall|i: int| 0 <= i < 3 ==> (#[trigger] r@[i]).text@ == event.tooltip(),
        r@[0].x0 == if top.0 - 4 > x_start { top.0 - 4 } else { x_start as int },
        r@[0].y0 == top.1,
        r@[0].x1 == if top.0 + 4 < x_end { top.0 + 4 } else { x_end as int },
        r@[0].y1 == bottom.1,
        r@[1].x0 == marker.left,
        r@[1].y0 == label_y(top.1 as int, marker.lane as int) - 20,
        r@[1].x1 == marker.left + marker.width,
        r@[1].y1 == label_y(top.1 as int, marker.lane as int) + 3,
        r@[2].x0 == entry.0,
        r@[2].y0 == key_top + entry.1,
        r@[2].x1 == entry.0 + 36 + key_width + 4,
        r@[2].y1 == key_top + entry.1 + key_lines * row_step(),
{
    let y = label_baseline(top.1, marker.lane);
    let left = if top.0 - 4 > x_start { top.0 - 4 } else { x_start };
    let right = if top.0 + 4 < x_end { top.0 + 4 } else { x_end };
    let mut r: Vec<SvgTooltip> = Vec::new();
    r.push(SvgTooltip {
        id: numbered("event-line-", index),
        text: event.tooltip_text(),
        x0: left,
        y0: top.1,
        x1: right,
        y1: bottom.1,
    });
    r.push(SvgTooltip {
        id: numbered("event-label-", index),
        text: event.tooltip_text(),
        x0: marker.left,
        y0: y - 20,
        x1: marker.left + marker.width,
        y1: y + 3,
    });
    r.push(SvgTooltip {
        id: numbered("event-key-", index),
        text: event.tooltip_text(),
        x0: entry.0,
        y0: key_top + entry.1,
        x1: (entry.0 as i64 + 36 + key_width as i64 + 4) as i32,
        y1: (key_top as i64 + entry.1 as i64 + (key_lines as i64) * 26) as i32,
    });
    r
}

/// The three texts of event number `index + 1` in the key, each wrapped
/// on its own: `"<n>. <date> | <provider> | <kind>"`, the label, and
/// `"Scope: <scope>"`.
pub fn key_texts(index: usize, event: &Event) -> (r: (String, String, String))
    requires
        index < u64::MAX,
        well_dated(event.date),
    ensures
        r.0@ == decimal(index as nat + 1) + ". "@ + iso_date_text(event.date) + " | "@ + event.provider@ + " | "@
            + event.event.name(),
        r.1@ == event.label@,
        r.2@ == "Scope: "@ + event.scope@,
{
    let mut head: Vec<char> = Vec::new();
    push_decimal(&mut head, index as u64 + 1);
    push_str(&mut head, ". ");
    push_str(&mut head, date_text(event.date).as_str());
    push_str(&mut head, " | ");
    push_str(&mut head, event.provider.as_str());
    push_str(&mut head, " | ");
    push_str(&mut head, event.event.as_str());
    let mut scope: Vec<char> = Vec::new();
    push_str(&mut scope, "Scope: ");
    push_str(&mut scope, event.scope.as_str());
    (string_from_chars(head.as_slice()), event.label.clone(), string_from_chars(scope.as_slice()))
}

/// The hover targets of all events in drawing order: every event's line
/// target first, then each event's label and key targets in turn.
pub fn ordered_targets(targets: &Vec<Vec<SvgTooltip>>) -> (r: Vec<SvgTooltip>)
    requires
        forall|i: int| 0 <= i < targets@.len() ==> (#[trigger] targets@[i])@.len() == 3,
    ensures
        r@.len() == 3 * targets@.len(),
        forall|i: int| 0 <= i < targets@.len() ==> {
            &&& r@[i] == (#[trigger] targets@[i])@[0]
            &&& r@[targets@.len() + 2 * i] == targets@[i]@[1]
            &&& r@[targets@.len() + 2 * i + 1] == targets@[i]@[2]
        },
{
    let n = targets.len();
    let mut lines: Vec<SvgTooltip> = Vec::new();
    let mut rest: Vec<SvgTooltip> = Vec::new();
    let mut i: usize = 0;
    while i < n
        invariant
            n == targets@.len(),
            i <= n,
            forall|q: int| 0 <= q < n ==> (#[trigger] targets@[q])@.len() == 3,
            lines@.len() == i,
            rest@.len() == 2 * i,
            forall|q: int| 0 <= q < i ==> {
                &&& lines@[q] == (#[trigger] targets@[q])@[0]
                &&& rest@[2 * q] == targets@[q]@[1]
                &&& rest@[2 * q + 1] == targets@[q]@[2]
            },
        decreases n - i,
    {
        let three = &targets[i];
        assert(three@.len() == 3);
        lines.push(three[0].copy());
        rest.push(three[1].copy());
        rest.push(three[2].copy());
        i += 1;
    }
    let ghost l0 = lines@;
    let mut k: usize = 0;
    while k < rest.len()
        invariant
            k <= rest@.len(),
            rest@.len() == 2 * n,
            lines@.len() == n + k,
            forall|q: int| 0 <= q < n ==> lines@[q] == l0[q],
            l0.len() == n,
            forall|q: int| 0 <= q < k ==> lines@[n + q] == rest@[q],
        decreases rest@.len() - k,
    {
        lines.push(rest[k].copy());
        k += 1;
    }
    proof {
        assert forall|q: int| 0 <= q < n implies {
            &&& lines@[q] == (#[trigger] targets@[q])@[0]
            &&& lines@[n + 2 * q] == targets@[q]@[1]
            &&& lines@[n + 2 * q + 1] == targets@[q]@[2]
        } by {
            assert(lines@[n + 2 * q] == rest@[2 * q]);
            assert(lines@[n + 2 * q + 1] == rest@[2 * q + 1]);
        }
    }
    lines
}

} // verus!
