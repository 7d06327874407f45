//! The color of a pixel as the parities of the paths' counts decide it.
use crate::abstract_segment::AbstractLineSegment;
use crate::cell_entry::CellEntry;
use crate::chain::sum_to;
use crate::cpu_renderer::{color_after, ends_path, path_color, path_count};
use crate::order::cell_ordered;
use crate::path::{AbstractPath, Paint};
use crate::tally::{count_term, tally};
use vstd::prelude::*;

verus! {

/// The color of the last path before `upto` that `odd` holds of, or
/// transparent black where it holds of none.
pub open spec fn best_color(
    odd: spec_fn(int) -> bool,
    paths: Seq<AbstractPath>,
    paints: Seq<Paint>,
    upto: int,
) -> Seq<u8>
    decreases upto,
{
    if upto <= 0 {
        seq![0u8, 0u8, 0u8, 0u8]
    } else if odd(upto - 1) {
        path_color(paths, paints, (upto - 1) as u32)
    } else {
        best_color(odd, paths, paints, upto - 1)
    }
}

/// Whether the count of the path `p` at the pixel `(x, y)` of a cell with
/// these entries is odd.
pub open spec fn tally_odd(
    entries: Seq<CellEntry>,
    segs: Seq<AbstractLineSegment>,
    right: int,
    x: int,
    y: int,
) -> spec_fn(int) -> bool {
    |p: int| tally(entries, segs, right, p, x, y) % 2 != 0
}

/// The best color depends on the parities alone.
pub(crate) proof fn lemma_best_agrees(
    odd1: spec_fn(int) -> bool,
    odd2: spec_fn(int) -> bool,
    paths: Seq<AbstractPath>,
    paints: Seq<Paint>,
    upto: int,
)
    requires
        forall|q: int| 0 <= q < upto ==> #[trigger] odd1(q) == odd2(q),
    ensures
        best_color(odd1, paths, paints, upto) == best_color(odd2, paths, paints, upto),
    decreases upto,
{
    if upto > 0 {
        lemma_best_agrees(odd1, odd2, paths, paints, upto - 1);
        assert(odd1(upto - 1) == odd2(upto - 1));
    }
}

/// Paths with an even count do not change the best color.
proof fn lemma_best_extends(
    odd: spec_fn(int) -> bool,
    paths: Seq<AbstractPath>,
    paints: Seq<Paint>,
    lo: int,
    hi: int,
)
    requires
        lo <= hi,
        forall|q: int| lo <= q < hi ==> !#[trigger] odd(q),
    ensures
        best_color(odd, paths, paints, hi) == best_color(odd, paths, paints, lo),
    decreases hi - lo,
{
    if lo < hi {
        lemma_best_extends(odd, paths, paints, lo, hi - 1);
        assert(!odd(hi - 1));
        if hi <= 0 {
            assert(best_color(odd, paths, paints, hi) =~= best_color(odd, paths, paints, lo));
        }
    }
}

/// A path without an entry among the first `j` has no count from them.
proof fn lemma_sum_absent(
    entries: Seq<CellEntry>,
    segs: Seq<AbstractLineSegment>,
    right: int,
    p: int,
    x: int,
    y: int,
    lo: int,
    hi: int,
)
    requires
        0 <= lo <= hi <= entries.len(),
        forall|k: int| lo <= k < hi ==> (#[trigger] entries[k]).path_idx != p,
    ensures
        sum_to(hi, count_term(entries, segs, right, p, x, y)) == sum_to(
            lo,
            count_term(entries, segs, right, p, x, y),
        ),
    decreases hi - lo,
{
    if lo < hi {
        lemma_sum_absent(entries, segs, right, p, x, y, lo, hi - 1);
    }
}

/// In entries whose paths ascend, the count that the renderer has for the
/// path of entry `i` when it has walked entry `i` is what the entries of
/// that path up to entry `i` add up to.
proof fn lemma_path_count(
    entries: Seq<CellEntry>,
    segs: Seq<AbstractLineSegment>,
    right: int,
    x: int,
    y: int,
    i: int,
)
    requires
        cell_ordered(entries, segs),
        0 <= i < entries.len(),
    ensures
        path_count(entries, segs, 0, entries.len() as int, right, x, y, i) == sum_to(
            i + 1,
            count_term(entries, segs, right, entries[i].path_idx as int, x, y),
        ),
    decreases i,
{
    let n = entries.len() as int;
    let p = entries[i].path_idx as int;
    if i > 0 && !ends_path(entries, n, i - 1) {
        lemma_path_count(entries, segs, right, x, y, i - 1);
    } else {
        assert forall|k: int| 0 <= k < i implies (#[trigger] entries[k]).path_idx != p by {
            assert(entries[k].path_idx <= entries[i - 1].path_idx);
            assert(entries[i - 1].path_idx <= entries[i].path_idx);
        }
        lemma_sum_absent(entries, segs, right, p, x, y, 0, i);
    }
}

/// The color that the renderer has after the first `i` entries is the best
/// color of the paths whose entries it has walked to the end.
proof fn lemma_color_prefix(
    entries: Seq<CellEntry>,
    segs: Seq<AbstractLineSegment>,
    paths: Seq<AbstractPath>,
    paints: Seq<Paint>,
    right: int,
    x: int,
    y: int,
    i: int,
)
    requires
        cell_ordered(entries, segs),
        0 <= i <= entries.len(),
    ensures
        color_after(entries, segs, paths, paints, 0, entries.len() as int, right, x, y, i)
            == best_color(
            tally_odd(entries, segs, right, x, y),
            paths,
            paints,
            if i == 0 {
                0
            } else if ends_path(entries, entries.len() as int, i - 1) {
                entries[i - 1].path_idx + 1
            } else {
                entries[i - 1].path_idx as int
            },
        ),
    decreases i,
{
    let n = entries.len() as int;
    let odd = tally_odd(entries, segs, right, x, y);
    if i > 0 {
        lemma_color_prefix(entries, segs, paths, paints, right, x, y, i - 1);
        let k = i - 1;
        let p = entries[k].path_idx as int;
        // the paths between the last finished one and p have no entries
        let done: int = if k == 0 {
            0
        } else if ends_path(entries, n, k - 1) {
            entries[k - 1].path_idx + 1
        } else {
            entries[k - 1].path_idx as int
        };
        if k > 0 {
            assert(entries[k - 1].path_idx <= entries[k].path_idx);
        }
        assert(done <= p);
        assert forall|q: int| done <= q < p implies !#[trigger] odd(q) by {
            assert forall|m: int| 0 <= m < n implies (#[trigger] entries[m]).path_idx != q by {
                if m < k {
                    if k > 0 {
                        assert(entries[m].path_idx <= entries[k - 1].path_idx);
                    }
                } else if m > k {
                    assert(entries[k].path_idx <= entries[m].path_idx);
                }
            }
            lemma_sum_absent(entries, segs, right, q, x, y, 0, n);
        }
        lemma_best_extends(odd, paths, paints, done, p);
        if ends_path(entries, n, k) {
            lemma_path_count(entries, segs, right, x, y, k);
            assert forall|m: int| i <= m < n implies (#[trigger] entries[m]).path_idx != p by {
                assert(entries[k + 1].path_idx != entries[k].path_idx);
                assert(entries[k].path_idx <= entries[k + 1].path_idx);
                if m > k + 1 {
                    assert(entries[k + 1].path_idx <= entries[m].path_idx);
                }
            }
            lemma_sum_absent(entries, segs, right, p, x, y, i, n);
            assert(odd(p) == (path_count(entries, segs, 0, n, right, x, y, k) % 2 != 0));
        }
    }
}

/// The color of a pixel in a cell whose entries are in order: the color of
/// the last path whose count at the pixel is odd.
pub proof fn lemma_cell_color(
    entries: Seq<CellEntry>,
    segs: Seq<AbstractLineSegment>,
    paths: Seq<AbstractPath>,
    paints: Seq<Paint>,
    right: int,
    x: int,
    y: int,
)
    requires
        cell_ordered(entries, segs),
        forall|k: int| 0 <= k < entries.len() ==> (#[trigger] entries[k]).path_idx < paths.len(),
    ensures
        color_after(
            entries,
            segs,
            paths,
            paints,
            0,
            entries.len() as int,
            right,
            x,
            y,
            entries.len() as int,
        ) == best_color(tally_odd(entries, segs, right, x, y), paths, paints, paths.len() as int),
{
    let n = entries.len() as int;
    let odd = tally_odd(entries, segs, right, x, y);
    lemma_color_prefix(entries, segs, paths, paints, right, x, y, n);
    let done: int = if n == 0 {
        0
    } else {
        entries[n - 1].path_idx + 1
    };
    assert forall|q: int| done <= q < paths.len() implies !#[trigger] odd(q) by {
        assert forall|m: int| 0 <= m < n implies (#[trigger] entries[m]).path_idx != q by {
            if m < n - 1 {
                assert(entries[m].path_idx <= entries[n - 1].path_idx);
            }
        }
        lemma_sum_absent(entries, segs, right, q, x, y, 0, n);
    }
    lemma_best_extends(odd, paths, paints, done, paths.len() as int);
}

/// The renderer's count over a stretch of a buffer is its count over the
/// stretch taken alone.
proof fn lemma_path_count_shift(
    buffer: Seq<CellEntry>,
    segs: Seq<AbstractLineSegment>,
    start: int,
    end: int,
    right: int,
    x: int,
    y: int,
    i: int,
)
    requires
        0 <= start <= end <= buffer.len(),
        start <= i < end,
    ensures
        path_count(buffer, segs, start, end, right, x, y, i) == path_count(
            buffer.subrange(start, end),
            segs,
            0,
            end - start,
            right,
            x,
            y,
            i - start,
        ),
    decreases i - start,
{
    let own = buffer.subrange(start, end);
    assert(own[i - start] == buffer[i]);
    if i > start {
        assert(own[i - 1 - start] == buffer[i - 1]);
        assert(ends_path(buffer, end, i - 1) == ends_path(own, end - start, i - 1 - start));
        if !ends_path(buffer, end, i - 1) {
            lemma_path_count_shift(buffer, segs, start, end, right, x, y, i - 1);
        }
    }
}

/// The renderer's color over a stretch of a buffer is its color over the
/// stretch taken alone.
pub(crate) proof fn lemma_color_shift(
    buffer: Seq<CellEntry>,
    segs: Seq<AbstractLineSegment>,
    paths: Seq<AbstractPath>,
    paints: Seq<Paint>,
    start: int,
    end: int,
    right: int,
    x: int,
    y: int,
    i: int,
)
    requires
        0 <= start <= end <= buffer.len(),
        start <= i <= end,
    ensures
        color_after(buffer, segs, paths, paints, start, end, right, x, y, i) == color_after(
            buffer.subrange(start, end),
            segs,
            paths,
            paints,
            0,
            end - start,
            right,
            x,
            y,
            i - start,
        ),
    decreases i - start,
{
    let own = buffer.subrange(start, end);
    if i > start {
        lemma_color_shift(buffer, segs, paths, paints, start, end, right, x, y, i - 1);
        assert(own[i - 1 - start] == buffer[i - 1]);
        if i < end {
            assert(own[i - start] == buffer[i]);
        }
        assert(ends_path(buffer, end, i - 1) == ends_path(own, end - start, i - 1 - start));
        lemma_path_count_shift(buffer, segs, start, end, right, x, y, i - 1);
    }
}

} // verus!
