//! Placement of the event annotations around a plot: numbered markers in
//! lanes above it, the key below it, and the dash runs of event lines.

use vstd::prelude::*;

verus! {

/// A numbered event label above the plot.
#[derive(Clone, Copy, Debug, PartialEq, Eq, Structural)]
pub struct Marker {
    pub left: i32,
    pub width: i32,
    pub lane: usize,
}

/// Smallest gap between two labels of one lane.
pub open spec fn lane_gap() -> int {
    8
}

/// `v` clamped into `[lo, hi]`.
pub open spec fn clamp(v: int, lo: int, hi: int) -> int {
    if v < lo {
        lo
    } else if v > hi {
        hi
    } else {
        v
    }
}

/// Right end of the last label placed in each lane, for the labels `ms`.
pub open spec fn lane_ends(ms: Seq<Marker>) -> Seq<int>
    decreases ms.len(),
{
    if ms.len() == 0 {
        Seq::empty()
    } else {
        let e = lane_ends(ms.drop_last());
        let m = ms.last();
        if m.lane < e.len() {
            e.update(m.lane as int, m.left + m.width)
        } else {
            e.push(m.left + m.width)
        }
    }
}

/// First lane whose last label ends at least `lane_gap()` before `left`; a
/// new lane when there is none.
pub open spec fn first_fit(ends: Seq<int>, left: int) -> int
    decreases ends.len(),
{
    if ends.len() == 0 {
        0
    } else {
        let k = first_fit(ends.drop_last(), left);
        if k < ends.len() - 1 {
            k
        } else if ends.last() + lane_gap() <= left {
            ends.len() - 1
        } else {
            ends.len() as int
        }
    }
}

proof fn lemma_first_fit(ends: Seq<int>, left: int, r: int)
    requires
        0 <= r <= ends.len(),
        forall|j: int| 0 <= j < r ==> !(#[trigger] ends[j] + lane_gap() <= left),
        r < ends.len() ==> ends[r] + lane_gap() <= left,
    ensures
        first_fit(ends, left) == r,
    decreases ends.len(),
{
    if ends.len() > 0 {
        let d = ends.drop_last();
        assert forall|j: int| 0 <= j < d.len() && j < r implies !(#[trigger] d[j] + lane_gap() <= left) by {
            assert(d[j] == ends[j]);
        }
        if r < d.len() {
            lemma_first_fit(d, left, r);
        } else {
            lemma_first_fit(d, left, d.len() as int);
        }
    }
}

/// Places one label per event: label `i` is `widths[i]` wide, centred on
/// `xs[i]` but kept within `[left, right]`, in the first lane where it
/// clears the lane's previous label by `lane_gap()`, or in a new lane.
/// Returns the labels and the number of lanes.  Labels of one lane never
/// come closer than `lane_gap()`.
pub fn place_markers(xs: &Vec<i32>, widths: &Vec<i32>, left: i32, right: i32) -> (r: (Vec<Marker>, usize))
    requires
        xs@.len() == widths@.len(),
        left <= right <= i32::MAX - 8,
        forall|i: int| 0 <= i < widths@.len() ==> 0 <= #[trigger] widths@[i] <= right - left,
    ensures
        r.0@.len() == xs@.len(),
        r.1 == lane_ends(r.0@).len(),
        forall|i: int|
            0 <= i < xs@.len() ==> {
                &&& (#[trigger] r.0@[i]).width == widths@[i]
                &&& r.0@[i].left == clamp(xs@[i] - widths@[i] / 2, left as int, right - widths@[i])
                &&& r.0@[i].lane == first_fit(lane_ends(r.0@.take(i)), r.0@[i].left as int)
                &&& left <= r.0@[i].left && r.0@[i].left + r.0@[i].width <= right
                &&& r.0@[i].lane < r.1
            },
        forall|i: int, j: int|
            0 <= i < j < xs@.len() && (#[trigger] r.0@[i]).lane == (#[trigger] r.0@[j]).lane ==> r.0@[i].left
                + r.0@[i].width + lane_gap() <= r.0@[j].left,
{
    let mut ms: Vec<Marker> = Vec::new();
    let mut ends: Vec<i32> = Vec::new();
    let mut i: usize = 0;
    while i < xs.len()
        invariant
            i <= xs@.len(),
            xs@.len() == widths@.len(),
            left <= right <= i32::MAX - 8,
            forall|k: int| 0 <= k < widths@.len() ==> 0 <= #[trigger] widths@[k] <= right - left,
            ms@.len() == i,
            ms@ == ms@.take(i as int),
            ends@.len() == lane_ends(ms@).len(),
            forall|l: int| 0 <= l < ends@.len() ==> ends@[l] as int == #[trigger] lane_ends(ms@)[l],
            forall|k: int|
                0 <= k < i ==> {
                    &&& (#[trigger] ms@[k]).width == widths@[k]
                    &&& ms@[k].left == clamp(xs@[k] - widths@[k] / 2, left as int, right - widths@[k])
                    &&& ms@[k].lane == first_fit(lane_ends(ms@.take(k)), ms@[k].left as int)
                    &&& left <= ms@[k].left && ms@[k].left + ms@[k].width <= right
                    &&& ms@[k].lane < ends@.len()
                    &&& ms@[k].left + ms@[k].width <= ends@[ms@[k].lane as int]
                },
            forall|l: int| 0 <= l < ends@.len() ==> left <= #[trigger] ends@[l] <= right,
            forall|a: int, b: int|
                0 <= a < b < i && (#[trigger] ms@[a]).lane == (#[trigger] ms@[b]).lane ==> ms@[a].left + ms@[a].width
                    + lane_gap() <= ms@[b].left,
        decreases xs@.len() - i,
    {
        let w = widths[i];
        let centre = xs[i] as i64 - (w / 2) as i64;
        let hi = right - w;
        let label_left: i32 = if centre < left as i64 {
            left
        } else if centre > hi as i64 {
            hi
        } else {
            centre as i32
        };
        let mut lane: usize = 0;
        while lane < ends.len() && !(ends[lane] + 8 <= label_left)
            invariant
                lane <= ends@.len(),
                forall|l: int| 0 <= l < ends@.len() ==> left <= #[trigger] ends@[l] <= right,
                right <= i32::MAX - 8,
                forall|j: int| 0 <= j < lane ==> !(#[trigger] ends@[j] + 8 <= label_left),
            decreases ends@.len() - lane,
        {
            lane += 1;
        }
        let ghost old_ms = ms@;
        let ghost old_ends = ends@;
        proof {
            let e = lane_ends(old_ms);
            assert forall|j: int| 0 <= j < lane implies !(#[trigger] e[j] + lane_gap() <= label_left) by {
                assert(old_ends[j] as int == e[j]);
            }
            if lane < ends@.len() {
                assert(old_ends[lane as int] as int == e[lane as int]);
            }
            lemma_first_fit(e, label_left as int, lane as int);
        }
        let m = Marker { left: label_left, width: w, lane };
        if lane == ends.len() {
            ends.push(label_left + w);
        } else {
            ends.set(lane, label_left + w);
        }
        ms.push(m);
        proof {
            assert(ms@.drop_last() =~= old_ms);
            assert(ms@.take(i as int) =~= old_ms);
            assert(ms@ =~= ms@.take(ms@.len() as int));
            assert forall|k: int| 0 <= k < i implies #[trigger] ms@.take(k) == old_ms.take(k) by {
                assert(ms@.take(k) =~= old_ms.take(k));
            }
            assert forall|l: int| 0 <= l < ends@.len() implies ends@[l] as int == #[trigger] lane_ends(ms@)[l] by {
                if l != lane {
                    assert(old_ends[l] as int == lane_ends(old_ms)[l]);
                }
            }
            assert forall|a: int, b: int|
                0 <= a < b < i + 1 && (#[trigger] ms@[a]).lane == (#[trigger] ms@[b]).lane implies ms@[a].left
                + ms@[a].width + lane_gap() <= ms@[b].left by {
                if b == i {
                    assert(ms@[a] == old_ms[a]);
                    assert(old_ms[a].left + old_ms[a].width <= old_ends[lane as int]);
                }
            }
            assert forall|k: int| 0 <= k < i + 1 implies ms@[k].left + ms@[k].width <= ends@[ms@[k].lane as int] by {
                if k < i && ms@[k].lane == lane {
                    assert(ms@[k] == old_ms[k]);
                    assert(old_ms[k].left + old_ms[k].width <= old_ends[lane as int]);
                }
            }
        }
        i += 1;
    }
    let n = ends.len();
    (ms, n)
}

/// Height of one line of text in the key.
pub open spec fn line_height() -> int {
    26
}

/// Top of the key row holding entry `i`: rows of three entries start 48
/// below the key's top, each as tall as its tallest entry (26 per line plus
/// 8).
pub open spec fn row_top(counts: Seq<u64>, row: int) -> int
    decreases row,
{
    if row <= 0 {
        48
    } else {
        row_top(counts, row - 1) + row_height(counts, row - 1)
    }
}

/// Height of key row `row`.
pub open spec fn row_height(counts: Seq<u64>, row: int) -> int {
    let a = entry_height(counts, 3 * row);
    let b = entry_height(counts, 3 * row + 1);
    let c = entry_height(counts, 3 * row + 2);
    let ab = if a < b { b } else { a };
    if ab < c { c } else { ab }
}

/// Height an entry of the key takes (0 past the last entry).
pub open spec fn entry_height(counts: Seq<u64>, i: int) -> int {
    if 0 <= i < counts.len() {
        counts[i] * line_height() + 8
    } else {
        0
    }
}

/// Number of key rows for `n` entries.
pub open spec fn row_count(n: int) -> int {
    (n + 2) / 3
}

/// Positions of the key entries: entry `i` (with `counts[i]` lines of
/// text) goes in column `i % 3`, each a third of `[left, right]` wide, and
/// in row `i / 3`.  Returns the positions and the height of the key.
/// Entries of one column never overlap, and all lie above the key's bottom.
pub fn place_key(counts: &Vec<u64>, left: i64, right: i64) -> (r: (Vec<(i64, i64)>, i64))
    requires
        left <= right,
        right - left <= i64::MAX,
        row_top(counts@, row_count(counts@.len() as int)) + 24 <= i64::MAX,
    ensures
        r.0@.len() == counts@.len(),
        forall|i: int|
            0 <= i < counts@.len() ==> (#[trigger] r.0@[i]).0 == left + (i % 3) * ((right - left) / 3) && r.0@[i].1
                == row_top(counts@, i / 3),
        r.1 == row_top(counts@, row_count(counts@.len() as int)) + 24,
        forall|i: int, j: int|
            0 <= i < j < counts@.len() && i % 3 == j % 3 ==> (#[trigger] r.0@[i]).1 + counts@[i] * line_height() + 8
                <= (#[trigger] r.0@[j]).1,
        forall|i: int| 0 <= i < counts@.len() ==> (#[trigger] r.0@[i]).1 + counts@[i] * line_height() < r.1,
{
    let column_width = (right - left) / 3;
    let mut out: Vec<(i64, i64)> = Vec::new();
    let mut y: i64 = 48;
    let mut row: usize = 0;
    let n = counts.len();
    let rows = if n % 3 == 0 { n / 3 } else { n / 3 + 1 };
    assert(rows == row_count(n as int));
    let ghost total = row_top(counts@, rows as int);
    while row < rows
        invariant
            n == counts@.len(),
            rows == row_count(n as int),
            total == row_top(counts@, rows as int),
            total + 24 <= i64::MAX,
            left <= right,
            column_width == (right - left) / 3,
            0 <= column_width,
            left + 2 * column_width <= right,
            right - left <= i64::MAX,
            row <= rows,
            out@.len() == if 3 * row < n { 3 * row } else { n as int },
            y == row_top(counts@, row as int),
            forall|i: int|
                0 <= i < out@.len() ==> (#[trigger] out@[i]).0 == left + (i % 3) * column_width && out@[i].1 == row_top(
                    counts@,
                    i / 3,
                ),
        decreases rows - row,
    {
        proof {
            lemma_row_top_monotone(counts@, row + 1, rows as int);
            lemma_row_top_bounds(counts@, row as int);
        }
        let mut height: i64 = 0;
        let mut column: usize = 0;
        assert(3 * row < n);
        while column < 3 && row * 3 + column < n
            invariant
                n == counts@.len(),
                left <= right,
                column_width == (right - left) / 3,
                0 <= column_width,
                left + 2 * column_width <= right,
                right - left <= i64::MAX,
                row < rows,
                rows == row_count(n as int),
                column <= 3,
                3 * row + column <= n,
                out@.len() == 3 * row + column,
                y == row_top(counts@, row as int),
                48 <= y,
                row_top(counts@, row + 1) <= total,
                total + 24 <= i64::MAX,
                0 <= height,
                height == max_height(counts@, row as int, column as int),
                forall|i: int|
                    0 <= i < out@.len() ==> (#[trigger] out@[i]).0 == left + (i % 3) * column_width && out@[i].1
                        == row_top(counts@, i / 3),
            decreases 3 - column,
        {
            let i = row * 3 + column;
            proof {
                lemma_entry_in_row(counts@, i as int);
                assert((i as int) / 3 == row as int);
            }
            let h = counts[i] as i64 * 26 + 8;
            if h > height {
                height = h;
            }
            assert(column as i64 * column_width <= 2 * column_width) by (nonlinear_arith)
                requires
                    column < 3,
                    0 <= column_width,
            ;
            assert(column as i64 * column_width >= 0) by (nonlinear_arith)
                requires
                    column < 3,
                    0 <= column_width,
            ;
            let offset: i64 = column as i64 * column_width;
            out.push((left + offset, y));
            proof {
                assert((i as int) % 3 == column as int);
            }
            column += 1;
        }
        proof {
            lemma_max_height_full(counts@, row as int, column as int);
            if 3 * (row + 1) < n {
                assert(column == 3);
            } else {
                assert(3 * row + column == n);
            }
        }
        y = y + height;
        row += 1;
    }
    let key_height = y + 24;
    proof {
        assert forall|i: int, j: int|
            0 <= i < j < counts@.len() && i % 3 == j % 3 implies (#[trigger] out@[i]).1 + counts@[i] * line_height() + 8
            <= (#[trigger] out@[j]).1 by {
            assert(i / 3 < j / 3);
            lemma_row_top_monotone(counts@, i / 3 + 1, j / 3);
            lemma_entry_in_row(counts@, i);
        }
        assert forall|i: int| 0 <= i < counts@.len() implies (#[trigger] out@[i]).1 + counts@[i] * line_height() < key_height by {
            lemma_row_top_monotone(counts@, i / 3 + 1, row as int);
            lemma_entry_in_row(counts@, i);
        }
    }
    (out, key_height)
}

/// Whether a key of entries with `counts` lines has a height that fits in
/// `i64` (with its 24 pixels of margin), as `place_key` needs.
pub fn key_fits(counts: &Vec<u64>) -> (r: bool)
    ensures
        r == (row_top(counts@, row_count(counts@.len() as int)) + 24 <= i64::MAX),
{
    let n = counts.len();
    let rows = if n % 3 == 0 { n / 3 } else { n / 3 + 1 };
    assert(rows == row_count(n as int));
    let mut y: i128 = 48;
    let mut row: usize = 0;
    while row < rows
        invariant
            n == counts@.len(),
            rows == row_count(n as int),
            row <= rows,
            y == row_top(counts@, row as int),
            y + 24 <= i64::MAX,
        decreases rows - row,
    {
        proof {
            lemma_row_top_bounds(counts@, row as int);
        }
        let mut height: i128 = 0;
        let mut column: usize = 0;
        assert(3 * row < n);
        while column < 3 && row * 3 + column < n
            invariant
                n == counts@.len(),
                row < rows,
                rows == row_count(n as int),
                column <= 3,
                3 * row + column <= n,
                0 <= height <= 0x1_0000_0000_0000_0000 * 26 + 8,
                height == max_height(counts@, row as int, column as int),
            decreases 3 - column,
        {
            let h = counts[row * 3 + column] as i128 * 26 + 8;
            if h > height {
                height = h;
            }
            column += 1;
        }
        proof {
            lemma_max_height_full(counts@, row as int, column as int);
        }
        if y + height + 24 > i64::MAX as i128 {
            proof {
                lemma_row_top_monotone(counts@, row + 1, rows as int);
            }
            return false;
        }
        y = y + height;
        row += 1;
    }
    true
}

/// Tallest of the first `column` entries of row `row`.
pub open spec fn max_height(counts: Seq<u64>, row: int, column: int) -> int
    decreases column,
{
    if column <= 0 {
        0
    } else {
        let m = max_height(counts, row, column - 1);
        let h = entry_height(counts, 3 * row + column - 1);
        if m < h { h } else { m }
    }
}

proof fn lemma_max_height_full(counts: Seq<u64>, row: int, column: int)
    requires
        0 <= column <= 3,
        column == 3 || 3 * row + column >= counts.len(),
    ensures
        max_height(counts, row, column) == row_height(counts, row),
{
    assert(max_height(counts, row, 0) == 0);
    assert(max_height(counts, row, 1) == if 0 < entry_height(counts, 3 * row) { entry_height(counts, 3 * row) } else { 0 });
    assert(max_height(counts, row, 2) == if max_height(counts, row, 1) < entry_height(counts, 3 * row + 1) {
        entry_height(counts, 3 * row + 1)
    } else {
        max_height(counts, row, 1)
    });
    assert(max_height(counts, row, 3) == if max_height(counts, row, 2) < entry_height(counts, 3 * row + 2) {
        entry_height(counts, 3 * row + 2)
    } else {
        max_height(counts, row, 2)
    });
    if column < 3 {
        assert(entry_height(counts, 3 * row + 2) == 0);
        if column < 2 {
            assert(entry_height(counts, 3 * row + 1) == 0);
            if column < 1 {
                assert(entry_height(counts, 3 * row) == 0);
            }
        }
    }
}

proof fn lemma_row_top_bounds(counts: Seq<u64>, row: int)
    ensures
        row_top(counts, row) >= 48,
    decreases row,
{
    if row > 0 {
        lemma_row_top_bounds(counts, row - 1);
    }
}

proof fn lemma_row_top_monotone(counts: Seq<u64>, a: int, b: int)
    requires
        0 <= a <= b,
    ensures
        row_top(counts, a) <= row_top(counts, b),
    decreases b - a,
{
    if a < b {
        lemma_row_top_monotone(counts, a, b - 1);
    }
}

proof fn lemma_entry_in_row(counts: Seq<u64>, i: int)
    requires
        0 <= i < counts.len(),
    ensures
        row_top(counts, i / 3) + counts[i] * line_height() + 8 <= row_top(counts, i / 3 + 1),
{
    let row = i / 3;
    assert(3 * row <= i < 3 * row + 3);
    assert(entry_height(counts, i) == counts[i] * line_height() + 8);
}

/// Runs of a dashed line of `length` that are drawn, from `offset` on, the
/// run at `offset` being number `step`: runs take the pattern's lengths in
/// turn (the last cut at `length`), and the even-numbered ones are drawn;
/// with an empty pattern the rest of the line is one run.
pub open spec fn dash_runs_from(length: int, pattern: Seq<i32>, offset: int, step: nat) -> Seq<(int, int)>
    decreases length - offset,
{
    if offset >= length {
        Seq::empty()
    } else {
        let end = if pattern.len() == 0 {
            length
        } else if offset + pattern[(step % pattern.len()) as int] < length {
            offset + pattern[(step % pattern.len()) as int]
        } else {
            length
        };
        if end <= offset {
            Seq::empty()
        } else {
            let rest = dash_runs_from(length, pattern, end, step + 1);
            if step % 2 == 0 {
                seq![(offset, end)] + rest
            } else {
                rest
            }
        }
    }
}

/// Drawn runs lie within `[offset, length]`, each is non-empty, and each
/// ends before the next begins.
pub proof fn lemma_dash_runs_ordered(length: int, pattern: Seq<i32>, offset: int, step: nat)
    requires
        forall|i: int| 0 <= i < pattern.len() ==> #[trigger] pattern[i] > 0,
    ensures
        forall|i: int|
            0 <= i < dash_runs_from(length, pattern, offset, step).len() ==> offset <= (
            #[trigger] dash_runs_from(length, pattern, offset, step)[i]).0 < dash_runs_from(length, pattern, offset, step)[i].1
                <= length,
        forall|i: int|
            0 <= i < dash_runs_from(length, pattern, offset, step).len() - 1 ==> (
            #[trigger] dash_runs_from(length, pattern, offset, step)[i]).1 < dash_runs_from(length, pattern, offset, step)[i
                + 1].0,
        step % 2 == 1 && dash_runs_from(length, pattern, offset, step).len() > 0 ==> offset < dash_runs_from(
            length,
            pattern,
            offset,
            step,
        )[0].0,
    decreases length - offset,
{
    if offset < length {
        let end = if pattern.len() == 0 {
            length
        } else if offset + pattern[(step % pattern.len()) as int] < length {
            offset + pattern[(step % pattern.len()) as int]
        } else {
            length
        };
        if pattern.len() > 0 {
            assert(pattern[(step % pattern.len()) as int] > 0);
        }
        lemma_dash_runs_ordered(length, pattern, end, step + 1);
        let rest = dash_runs_from(length, pattern, end, step + 1);
        let all = dash_runs_from(length, pattern, offset, step);
        if step % 2 == 0 {
            assert(all == seq![(offset, end)] + rest);
            assert forall|i: int| 0 <= i < all.len() implies offset <= (#[trigger] all[i]).0 < all[i].1 <= length by {
                if i > 0 {
                    assert(all[i] == rest[i - 1]);
                }
            }
            assert forall|i: int| 0 <= i < all.len() - 1 implies (#[trigger] all[i]).1 < all[i + 1].0 by {
                assert(all[i + 1] == rest[i]);
                if i > 0 {
                    assert(all[i] == rest[i - 1]);
                }
            }
        } else {
            assert(all == rest);
        }
    }
}

/// The drawn runs `(from, to)` of a dashed line of `length` (see
/// `dash_runs_from`); the pattern's lengths are positive.
pub fn dash_runs(length: i32, pattern: &Vec<i32>) -> (r: Vec<(i32, i32)>)
    requires
        forall|i: int| 0 <= i < pattern@.len() ==> #[trigger] pattern@[i] > 0,
    ensures
        r@.len() == dash_runs_from(length as int, pattern@, 0, 0).len(),
        forall|i: int|
            0 <= i < r@.len() ==> (#[trigger] r@[i]).0 == dash_runs_from(length as int, pattern@, 0, 0)[i].0 && r@[i].1
                == dash_runs_from(length as int, pattern@, 0, 0)[i].1,
{
    let ghost all = dash_runs_from(length as int, pattern@, 0, 0);
    let mut out: Vec<(i32, i32)> = Vec::new();
    let mut offset: i32 = 0;
    let mut step: usize = 0;
    while offset < length
        invariant
            forall|i: int| 0 <= i < pattern@.len() ==> #[trigger] pattern@[i] > 0,
            0 <= offset,
            offset <= length || out@.len() == all.len(),
            all == dash_runs_from(length as int, pattern@, 0, 0),
            out@.len() + dash_runs_from(length as int, pattern@, offset as int, step as nat).len() == all.len(),
            forall|i: int| 0 <= i < out@.len() ==> (#[trigger] out@[i]).0 == all[i].0 && out@[i].1 == all[i].1,
            forall|i: int|
                0 <= i < dash_runs_from(length as int, pattern@, offset as int, step as nat).len() ==> (#[trigger] dash_runs_from(
                    length as int,
                    pattern@,
                    offset as int,
                    step as nat,
                )[i]) == all[out@.len() + i],
            step <= offset,
        decreases length - offset,
    {
        let end: i32 = if pattern.len() == 0 {
            length
        } else {
            let p = pattern[step % pattern.len()];
            if (offset as i64) + (p as i64) < length as i64 {
                offset + p
            } else {
                length
            }
        };
        if pattern.len() > 0 {
            assert(pattern@[(step % pattern.len()) as int] > 0);
        }
        let ghost here = dash_runs_from(length as int, pattern@, offset as int, step as nat);
        let ghost rest = dash_runs_from(length as int, pattern@, end as int, (step + 1) as nat);
        if step % 2 == 0 {
            assert(here == seq![(offset as int, end as int)] + rest);
            assert(here[0] == (offset as int, end as int));
            out.push((offset, end));
            assert forall|i: int| 0 <= i < rest.len() implies #[trigger] rest[i] == all[out@.len() + i] by {
                assert(rest[i] == here[i + 1]);
            }
        } else {
            assert(here == rest);
        }
        offset = end;
        step = step + 1;
    }
    assert(dash_runs_from(length as int, pattern@, offset as int, step as nat).len() == 0);
    out
}

} // verus!
