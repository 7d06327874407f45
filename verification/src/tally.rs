//! The count of a path at a pixel, and why the split of a cell keeps its
//! parity.
use crate::abstract_segment::AbstractLineSegment;
use crate::bounds::{all_owned_by, child_entries, lemma_child_entries_of_emitted};
use crate::cell_entry::{
    lemma_kinds, lemma_no_fill, CellEntry, SplitRecord, ABSTRACT, WINDING_INCREMENT,
};
use crate::classify::EdgeIntersectionInfo;
use crate::order::{lemma_records_of_ordered, record_for};
use crate::scan::{continues_run, is_tail, run_sum, scan_fits, scanned, seg_out, winc_out};
use crate::scatter::{emits, emitted_cell, segment_entry, shortcut_of, winding_entry};
use crate::split::{
    lemma_pack_flags, split_down, split_fill, split_flags, split_records, split_up, split_winding,
};
use crate::subdivide::subdivided;
use crate::chain::{
    closed_paths, ends_worth, lemma_closed_path_even, lemma_sum_agrees, lemma_sum_point, sum_to,
};
use crate::classify::far_x;
use crate::conserve::{
    child_segment_count, lemma_segment_conserved, marker_fits, one_if, segment_count,
    split_marker, unsettled,
};
use crate::cpu_renderer::entry_count;
use crate::geometry::point::Point;
use crate::geometry::rect::RectView;
use crate::order::cell_ordered;
use crate::subdivide::{child_rect, split_error};
use vstd::prelude::*;

verus! {

/// What entry `k` adds to the count of the path `p` at the pixel `(x, y)`
/// of a cell with right edge `right`.
pub open spec fn count_term(
    entries: Seq<CellEntry>,
    segs: Seq<AbstractLineSegment>,
    right: int,
    p: int,
    x: int,
    y: int,
) -> spec_fn(int) -> int {
    |k: int|
        if entries[k].path_idx == p {
            entry_count(entries[k], segs, right, x, y)
        } else {
            0
        }
}

/// The count of the path `p` at the pixel `(x, y)` of a cell with these
/// entries and right edge `right`: what the entries of the path add up to.
pub open spec fn tally(
    entries: Seq<CellEntry>,
    segs: Seq<AbstractLineSegment>,
    right: int,
    p: int,
    x: int,
    y: int,
) -> int {
    sum_to(entries.len() as int, count_term(entries, segs, right, p, x, y))
}

/// The segment `i` has an entry among the first `j` entries.
pub open spec fn has_entry(entries: Seq<CellEntry>, j: int, i: int) -> bool {
    exists|k: int|
        0 <= k < j && k < entries.len() && (#[trigger] entries[k]).entry_type == ABSTRACT
            && entries[k].seg_idx == i
}

/// No segment of an entry reaches beyond the far column of the cell
/// `bound`.
pub open spec fn reaches(
    entries: Seq<CellEntry>,
    segs: Seq<AbstractLineSegment>,
    bound: RectView,
) -> bool {
    forall|k: int|
        0 <= k < entries.len() && (#[trigger] entries[k]).entry_type == ABSTRACT
            ==> segs[entries[k].seg_idx as int].bounding_box@.right <= far_x(bound)
}

/// The entries of a cell with bounds `bound` are settled: they are in
/// order, every marker fits its segment and the cell, and every segment
/// with an endpoint in the cell, its left and top edge apart, has an entry.
/// In the root, no entry has a marker and every segment has an entry.
pub open spec fn settled(
    entries: Seq<CellEntry>,
    segs: Seq<AbstractLineSegment>,
    bound: RectView,
    at_root: bool,
) -> bool {
    &&& cell_ordered(entries, segs)
    &&& forall|k: int|
        0 <= k < entries.len() && (#[trigger] entries[k]).entry_type == ABSTRACT ==> {
            &&& at_root ==> entries[k].data == 0
            &&& !at_root ==> marker_fits(
                segs[entries[k].seg_idx as int],
                entries[k].data as int,
                bound.top,
                bound.right,
                bound.bottom,
            )
        }
    &&& forall|i: int|
        0 <= i < segs.len() && (at_root || inside(segs[i].p0, bound) || inside(segs[i].p1, bound))
            ==> #[trigger] has_entry(entries, entries.len() as int, i)
}

/// Whether `p` lies in the cell `bound`, its left and top edge apart.
pub open spec fn inside(p: Point, bound: RectView) -> bool {
    bound.left < p.x <= bound.right && bound.top < p.y <= bound.bottom
}

/// What entry `k` adds to the count of the path `p` at the pixel `(x, y)`
/// of child `c` once the cell is split: for a segment entry, what its split
/// adds; for a winding entry, its increment.
pub open spec fn split_term(
    entries: Seq<CellEntry>,
    segs: Seq<AbstractLineSegment>,
    bound: RectView,
    mid: Point,
    c: u32,
    p: int,
    x: int,
    y: int,
) -> spec_fn(int) -> int {
    |k: int|
        if entries[k].path_idx == p {
            if entries[k].entry_type == ABSTRACT {
                child_segment_count(
                    segs[entries[k].seg_idx as int],
                    entries[k].data as int,
                    bound,
                    mid,
                    c,
                    x,
                    y,
                )
            } else {
                entries[k].data as int
            }
        } else {
            0
        }
}

/// Whether `q` is unsettled by the split into the child `c` at row `y`.
pub open spec fn unsettled_by(
    bound: RectView,
    mid: Point,
    c: u32,
    at_root: bool,
    y: int,
) -> spec_fn(Point) -> bool {
    |q: Point|
        unsettled(
            q,
            bound,
            at_root,
            child_rect(bound, mid, c as int).right,
            y,
            child_rect(bound, mid, c as int).bottom,
        )
}

/// What the endpoints of the segment of entry `k` are worth, if it is a
/// segment entry of the path `p`.
pub open spec fn entry_ends_worth(
    entries: Seq<CellEntry>,
    segs: Seq<AbstractLineSegment>,
    marked: spec_fn(Point) -> bool,
    p: int,
) -> spec_fn(int) -> int {
    |k: int|
        if entries[k].entry_type == ABSTRACT {
            ends_worth(segs, marked, p)(entries[k].seg_idx as int)
        } else {
            0
        }
}

/// The endpoints of the segments that are marked among the first `j`
/// entries.
pub open spec fn kept_ends_worth(
    entries: Seq<CellEntry>,
    segs: Seq<AbstractLineSegment>,
    marked: spec_fn(Point) -> bool,
    p: int,
    j: int,
) -> spec_fn(int) -> int {
    |i: int|
        if has_entry(entries, j, i) {
            ends_worth(segs, marked, p)(i)
        } else {
            0
        }
}

/// The endpoints of the segments of the first `j` entries are worth what
/// the endpoints of the segments that have an entry among them are worth.
proof fn lemma_entries_as_segments(
    entries: Seq<CellEntry>,
    segs: Seq<AbstractLineSegment>,
    marked: spec_fn(Point) -> bool,
    p: int,
    j: int,
)
    requires
        cell_ordered(entries, segs),
        0 <= j <= entries.len(),
    ensures
        sum_to(j, entry_ends_worth(entries, segs, marked, p)) == sum_to(
            segs.len() as int,
            kept_ends_worth(entries, segs, marked, p, j),
        ),
    decreases j,
{
    let n = segs.len() as int;
    if j == 0 {
        lemma_sum_agrees(n, kept_ends_worth(entries, segs, marked, p, j), |i: int| 0int);
        lemma_sum_zero(n);
    } else {
        lemma_entries_as_segments(entries, segs, marked, p, j - 1);
        let before = kept_ends_worth(entries, segs, marked, p, j - 1);
        let after = kept_ends_worth(entries, segs, marked, p, j);
        let e = entries[j - 1];
        if e.entry_type == ABSTRACT {
            let m = e.seg_idx as int;
            assert(!has_entry(entries, j - 1, m)) by {
                if has_entry(entries, j - 1, m) {
                    let k = choose|k: int|
                        0 <= k < j - 1 && k < entries.len() && (#[trigger] entries[k]).entry_type
                            == ABSTRACT && entries[k].seg_idx == m;
                    assert(entries[k].seg_idx != entries[j - 1].seg_idx);
                }
            }
            assert(has_entry(entries, j, m));
            assert forall|i: int| 0 <= i < n && i != m implies #[trigger] after(i) == before(
                i,
            ) by {
                if has_entry(entries, j, i) {
                    let k = choose|k: int|
                        0 <= k < j && k < entries.len() && (#[trigger] entries[k]).entry_type
                            == ABSTRACT && entries[k].seg_idx == i;
                    assert(k != j - 1);
                    assert(has_entry(entries, j - 1, i));
                }
                if has_entry(entries, j - 1, i) {
                    let k = choose|k: int|
                        0 <= k < j - 1 && k < entries.len() && (#[trigger] entries[k]).entry_type
                            == ABSTRACT && entries[k].seg_idx == i;
                    assert(has_entry(entries, j, i));
                }
            }
            lemma_sum_point(n, before, after, m, ends_worth(segs, marked, p)(m));
        } else {
            assert forall|i: int| 0 <= i < n implies #[trigger] after(i) == before(i) by {
                if has_entry(entries, j, i) {
                    let k = choose|k: int|
                        0 <= k < j && k < entries.len() && (#[trigger] entries[k]).entry_type
                            == ABSTRACT && entries[k].seg_idx == i;
                    assert(k != j - 1);
                    assert(has_entry(entries, j - 1, i));
                }
                if has_entry(entries, j - 1, i) {
                    let k = choose|k: int|
                        0 <= k < j - 1 && k < entries.len() && (#[trigger] entries[k]).entry_type
                            == ABSTRACT && entries[k].seg_idx == i;
                    assert(has_entry(entries, j, i));
                }
            }
            lemma_sum_agrees(n, after, before);
        }
    }
}

/// A sum of nothing but zeros is zero.
proof fn lemma_sum_zero(n: int)
    ensures
        sum_to(n, |i: int| 0int) == 0,
    decreases n,
{
    if n > 0 {
        lemma_sum_zero(n - 1);
    }
}

/// In settled entries of closed paths, the endpoints of the segments of the
/// path `p` that are unsettled by a split are an even number.
proof fn lemma_unsettled_even(
    entries: Seq<CellEntry>,
    segs: Seq<AbstractLineSegment>,
    bound: RectView,
    mid: Point,
    c: u32,
    at_root: bool,
    p: int,
    x: int,
    y: int,
)
    requires
        closed_paths(segs),
        settled(entries, segs, bound, at_root),
        split_error(bound, mid).is_none(),
        c < 4,
        child_rect(bound, mid, c as int).covers_pixel(x, y),
    ensures
        sum_to(
            entries.len() as int,
            entry_ends_worth(entries, segs, unsettled_by(bound, mid, c, at_root, y), p),
        ) % 2 == 0,
{
    let marked = unsettled_by(bound, mid, c, at_root, y);
    let n = segs.len() as int;
    let m = entries.len() as int;
    lemma_entries_as_segments(entries, segs, marked, p, m);
    let kept = kept_ends_worth(entries, segs, marked, p, m);
    let all = ends_worth(segs, marked, p);
    assert forall|i: int| 0 <= i < n implies #[trigger] kept(i) == all(i) by {
        if !has_entry(entries, m, i) {
            assert(!inside(segs[i].p0, bound));
            assert(!inside(segs[i].p1, bound));
            assert(!marked(segs[i].p0));
            assert(!marked(segs[i].p1));
        }
    }
    lemma_sum_agrees(n, kept, all);
    lemma_closed_path_even(segs, marked, p);
}

/// Sums of terms of which the first is the second and the third but for an
/// even number.
proof fn lemma_sum_three_mod2(
    n: int,
    f: spec_fn(int) -> int,
    g: spec_fn(int) -> int,
    h: spec_fn(int) -> int,
)
    requires
        forall|i: int| 0 <= i < n ==> (#[trigger] f(i) - g(i) - h(i)) % 2 == 0,
    ensures
        (sum_to(n, f) - sum_to(n, g) - sum_to(n, h)) % 2 == 0,
    decreases n,
{
    if n > 0 {
        lemma_sum_three_mod2(n - 1, f, g, h);
        assert((f(n - 1) - g(n - 1) - h(n - 1)) % 2 == 0);
    }
}

/// Path conservation, in sums. When a cell with settled entries of closed
/// paths, none of which reaches beyond the cell's far column, is split, what
/// the entries of a path add to the count at a pixel of a child, once split,
/// is the count of the path in the cell but for an even number.
pub proof fn lemma_split_keeps_parity(
    entries: Seq<CellEntry>,
    segs: Seq<AbstractLineSegment>,
    bound: RectView,
    mid: Point,
    c: u32,
    at_root: bool,
    p: int,
    x: int,
    y: int,
)
    requires
        closed_paths(segs),
        settled(entries, segs, bound, at_root),
        reaches(entries, segs, bound),
        split_error(bound, mid).is_none(),
        c < 4,
        child_rect(bound, mid, c as int).covers_pixel(x, y),
    ensures
        (sum_to(entries.len() as int, split_term(entries, segs, bound, mid, c, p, x, y)) - tally(
            entries,
            segs,
            bound.right,
            p,
            x,
            y,
        )) % 2 == 0,
{
    lemma_kinds();
    let m = entries.len() as int;
    let marked = unsettled_by(bound, mid, c, at_root, y);
    let f = split_term(entries, segs, bound, mid, c, p, x, y);
    let g = count_term(entries, segs, bound.right, p, x, y);
    let h = entry_ends_worth(entries, segs, marked, p);
    let r = child_rect(bound, mid, c as int);
    assert forall|k: int| 0 <= k < m implies (#[trigger] f(k) - g(k) - h(k)) % 2 == 0 by {
        let e = entries[k];
        if e.entry_type == ABSTRACT {
            let s = segs[e.seg_idx as int];
            assert(s.wf());
            assert(e.is_segment() && !e.is_winding());
            assert(e.path_idx == s.path_idx);
            if e.path_idx == p {
                lemma_segment_conserved(s, e.data as int, bound, mid, c, x, y, at_root);
                assert(entry_count(e, segs, bound.right, x, y) == segment_count(
                    s,
                    e.data as int,
                    bound.right,
                    x,
                    y,
                ));
                assert(h(k) == one_if(marked(s.p0)) + one_if(marked(s.p1)));
            } else {
                assert(h(k) == 0);
            }
        } else {
            assert(e.entry_type == WINDING_INCREMENT);
            assert(!e.is_segment() && e.is_winding());
        }
    }
    lemma_sum_three_mod2(m, f, g, h);
    lemma_unsettled_even(entries, segs, bound, mid, c, at_root, p, x, y);
}

/// The count of a path in entries that stand one list after the other is
/// the sum of its counts in the lists.
proof fn lemma_tally_append(
    a: Seq<CellEntry>,
    b: Seq<CellEntry>,
    segs: Seq<AbstractLineSegment>,
    right: int,
    p: int,
    x: int,
    y: int,
)
    ensures
        tally(a + b, segs, right, p, x, y) == tally(a, segs, right, p, x, y) + tally(
            b,
            segs,
            right,
            p,
            x,
            y,
        ),
    decreases b.len(),
{
    let whole = count_term(a + b, segs, right, p, x, y);
    if b.len() == 0 {
        assert(a + b =~= a);
    } else {
        let init = b.drop_last();
        lemma_tally_append(a, init, segs, right, p, x, y);
        let n = (a + b).len() as int;
        assert(a + init =~= (a + b).drop_last());
        assert(forall|k: int| 0 <= k < n - 1 ==> (a + b)[k] == (a + init)[k]);
        lemma_sum_agrees(n - 1, whole, count_term(a + init, segs, right, p, x, y));
        assert(forall|k: int| 0 <= k < b.len() - 1 ==> b[k] == init[k]);
        lemma_sum_agrees(
            b.len() - 1,
            count_term(b, segs, right, p, x, y),
            count_term(init, segs, right, p, x, y),
        );
        assert((a + b)[n - 1] == b[b.len() - 1]);
    }
}

/// The count of a path does not depend on the cell that owns the entries.
proof fn lemma_tally_owned(
    s: Seq<CellEntry>,
    id: u32,
    segs: Seq<AbstractLineSegment>,
    right: int,
    p: int,
    x: int,
    y: int,
)
    ensures
        tally(all_owned_by(s, id), segs, right, p, x, y) == tally(s, segs, right, p, x, y),
{
    lemma_sum_agrees(
        s.len() as int,
        count_term(all_owned_by(s, id), segs, right, p, x, y),
        count_term(s, segs, right, p, x, y),
    );
}

/// The count of a path in a list of one entry.
proof fn lemma_tally_one(
    e: CellEntry,
    segs: Seq<AbstractLineSegment>,
    right: int,
    p: int,
    x: int,
    y: int,
)
    ensures
        tally(seq![e], segs, right, p, x, y) == if e.path_idx == p {
            entry_count(e, segs, right, x, y)
        } else {
            0
        },
        tally(Seq::<CellEntry>::empty(), segs, right, p, x, y) == 0,
{
    let f = count_term(seq![e], segs, right, p, x, y);
    assert(sum_to(1, f) == sum_to(0, f) + f(0));
}

/// The winding of the run that record `i` continues, if it continues a run
/// of the path `p`.
spec fn run_open(recs: Seq<SplitRecord>, c: int, p: int, i: int) -> int {
    if continues_run(recs, i) && recs[i].path_idx == p {
        run_sum(recs, i - 1, c)
    } else {
        0
    }
}

/// What the first `i` records of a split emit into child `c` counts, for
/// each path, what the first `i` entries add once split, but for the
/// winding of the run that is still open.
proof fn lemma_emitted_tally(
    entries: Seq<CellEntry>,
    segs: Seq<AbstractLineSegment>,
    bound: RectView,
    mid: Point,
    c: u32,
    p: int,
    x: int,
    y: int,
    i: int,
)
    requires
        cell_ordered(entries, segs),
        forall|j: int| 0 <= j < segs.len() ==> (#[trigger] segs[j]).path_idx <= u32::MAX,
        scan_fits(split_records(entries, segs, bound, mid)),
        c < 4,
        0 <= i <= entries.len(),
    ensures
        ({
            let recs = split_records(entries, segs, bound, mid);
            tally(
                emitted_cell(scanned(recs), c as int, i),
                segs,
                child_rect(bound, mid, c as int).right,
                p,
                x,
                y,
            ) + run_open(recs, c as int, p, i) == sum_to(
                i,
                split_term(entries, segs, bound, mid, c, p, x, y),
            )
        }),
    decreases i,
{
    lemma_kinds();
    let recs = split_records(entries, segs, bound, mid);
    let sc = scanned(recs);
    let right = child_rect(bound, mid, c as int).right;
    lemma_records_of_ordered(entries, segs, bound, mid);
    if i == 0 {
        lemma_tally_one(CellEntry::spec_default(), segs, right, p, x, y);
        assert(emitted_cell(sc, c as int, 0) =~= Seq::<CellEntry>::empty());
    } else {
        lemma_emitted_tally(entries, segs, bound, mid, c, p, x, y, i - 1);
        let k = i - 1;
        let e = entries[k];
        let r = recs[k];
        assert(r == record_for(e, segs, bound, mid));
        let prev = emitted_cell(sc, c as int, k);
        let items = emits(sc, k, c as int);
        assert(emitted_cell(sc, c as int, i) == prev + items);
        lemma_tally_append(prev, items, segs, right, p, x, y);
        let seg_e = segment_entry(sc[k], c as int);
        let win_e = winding_entry(sc[k], c as int);
        lemma_tally_one(seg_e, segs, right, p, x, y);
        lemma_tally_one(win_e, segs, right, p, x, y);
        lemma_tally_append(seq![seg_e], seq![win_e], segs, right, p, x, y);
        assert(is_tail(sc, k) == is_tail(recs, k));
        assert(sc[k].winding[c as int] == run_sum(recs, k, c as int));
        assert(i32::MIN <= run_sum(recs, k, c as int) <= i32::MAX);
        assert(sc[k].path_idx == e.path_idx);
        assert(win_e.is_winding() && !win_e.is_segment());
        assert(seg_e.is_segment() && !seg_e.is_winding());
        assert(entry_count(win_e, segs, right, x, y) == run_sum(recs, k, c as int));
        if k + 1 < recs.len() {
            assert(continues_run(recs, k + 1) == !is_tail(recs, k));
        }
        if e.entry_type == ABSTRACT {
            let s = segs[e.seg_idx as int];
            let info = EdgeIntersectionInfo::of(s, bound, mid);
            assert(r.split_info == split_flags(s, info, bound, mid));
            lemma_pack_flags(
                |q: u32| split_fill(s, info, bound, mid, q),
                |q: u32| split_up(s, info, q),
                |q: u32| split_down(s, info, q),
                c,
            );
            assert((seg_out(sc[k], c as int) == 1) == split_fill(s, info, bound, mid, c));
            assert(shortcut_of(sc[k].split_info, c as int) == split_marker(s, info, c));
            assert(seg_e.seg_idx == e.seg_idx);
            assert(entry_count(seg_e, segs, right, x, y) == segment_count(
                s,
                split_marker(s, info, c),
                right,
                x,
                y,
            ));
            assert(r.winding[c as int] == split_winding(s, e.data as int, info, bound, mid, c));
        } else {
            assert(e.entry_type == WINDING_INCREMENT);
            assert(r.split_info == 0);
            assert(seg_out(sc[k], c as int) == 0) by {
                lemma_no_fill(c);
            }
            assert(r.winding[c as int] == e.data);
        }
        if seg_out(sc[k], c as int) == 1 && winc_out(sc, k, c as int) == 1 {
            assert(items =~= seq![seg_e] + seq![win_e]);
        } else if seg_out(sc[k], c as int) == 1 {
            assert(items =~= seq![seg_e]);
        } else if winc_out(sc, k, c as int) == 1 {
            assert(items =~= seq![win_e]);
        } else {
            assert(items =~= Seq::<CellEntry>::empty());
        }
    }
}

/// Path conservation. When a cell with settled entries of closed paths,
/// none of which reaches beyond the cell's far column, is split, the count
/// of every path at every pixel of a child, taken from the child's entries,
/// is the count taken from the cell's own entries, but for an even number.
pub proof fn lemma_child_keeps_parity(
    entries: Seq<CellEntry>,
    segs: Seq<AbstractLineSegment>,
    bound: RectView,
    mid: Point,
    c: u32,
    child: u32,
    at_root: bool,
    p: int,
    x: int,
    y: int,
)
    requires
        closed_paths(segs),
        forall|j: int| 0 <= j < segs.len() ==> (#[trigger] segs[j]).path_idx <= u32::MAX,
        settled(entries, segs, bound, at_root),
        reaches(entries, segs, bound),
        scan_fits(split_records(entries, segs, bound, mid)),
        split_error(bound, mid).is_none(),
        c < 4,
        child_rect(bound, mid, c as int).covers_pixel(x, y),
    ensures
        (tally(
            child_entries(subdivided(entries, segs, bound, mid), c, child),
            segs,
            child_rect(bound, mid, c as int).right,
            p,
            x,
            y,
        ) - tally(entries, segs, bound.right, p, x, y)) % 2 == 0,
{
    let recs = split_records(entries, segs, bound, mid);
    let sc = scanned(recs);
    let n = entries.len() as int;
    lemma_records_of_ordered(entries, segs, bound, mid);
    lemma_child_entries_of_emitted(sc, c, child);
    lemma_emitted_tally(entries, segs, bound, mid, c, p, x, y, n);
    lemma_tally_owned(
        emitted_cell(sc, c as int, n),
        child,
        segs,
        child_rect(bound, mid, c as int).right,
        p,
        x,
        y,
    );
    lemma_split_keeps_parity(entries, segs, bound, mid, c, at_root, p, x, y);
}

} // verus!
