//! Why the entries of a child are settled where the entries of its parent
//! are.
use crate::abstract_segment::AbstractLineSegment;
use crate::bounds::{all_owned_by, child_entries, lemma_child_entries_of_emitted};
use crate::cell_entry::{
    lemma_kinds, lemma_no_fill, CellEntry, SplitRecord, ABSTRACT, WINDING_INCREMENT,
};
use crate::chain::closed_paths;
use crate::classify::{far_x, EdgeIntersectionInfo};
use crate::conserve::{lemma_split_marker_fits, marker_fits, split_marker};
use crate::geometry::point::Point;
use crate::geometry::rect::RectView;
use crate::order::{
    cell_ordered, lemma_records_of_ordered, lemma_subdivided_ordered, record_for,
};
use crate::scan::{scanned, seg_out};
use crate::scatter::{emits, emitted_cell, segment_entry, shortcut_of, winding_entry};
use crate::split::{
    endpoint_in, lemma_pack_flags, split_down, split_fill, split_flags, split_records, split_up,
};
use crate::subdivide::{child_rect, split_error, subdivided};
use crate::tally::{has_entry, inside, reaches, settled};
use vstd::prelude::*;

verus! {

/// No segment is wider than `2048`.
pub open spec fn short_segments(segs: Seq<AbstractLineSegment>) -> bool {
    forall|i: int|
        0 <= i < segs.len() ==> (#[trigger] segs[i]).bounding_box@.right
            - segs[i].bounding_box@.left <= 2048
}

/// What the split of entry `k` gives child `c`, in the terms of the split.
proof fn lemma_record_split(
    entries: Seq<CellEntry>,
    segs: Seq<AbstractLineSegment>,
    bound: RectView,
    mid: Point,
    c: u32,
    k: int,
)
    requires
        cell_ordered(entries, segs),
        forall|j: int| 0 <= j < segs.len() ==> (#[trigger] segs[j]).path_idx <= u32::MAX,
        c < 4,
        0 <= k < entries.len(),
    ensures
        ({
            let sc = scanned(split_records(entries, segs, bound, mid));
            let e = entries[k];
            let s = segs[e.seg_idx as int];
            let info = EdgeIntersectionInfo::of(s, bound, mid);
            &&& sc.len() == entries.len()
            &&& (seg_out(sc[k], c as int) == 1) == (e.entry_type == ABSTRACT && split_fill(
                s,
                info,
                bound,
                mid,
                c,
            ))
            &&& seg_out(sc[k], c as int) == 1 ==> segment_entry(sc[k], c as int).seg_idx
                == e.seg_idx && segment_entry(sc[k], c as int).data == split_marker(s, info, c)
                && segment_entry(sc[k], c as int).entry_type == ABSTRACT
            &&& winding_entry(sc[k], c as int).entry_type == WINDING_INCREMENT
        }),
{
    lemma_kinds();
    let recs = split_records(entries, segs, bound, mid);
    let sc = scanned(recs);
    lemma_records_of_ordered(entries, segs, bound, mid);
    let e = entries[k];
    assert(recs[k] == record_for(e, segs, bound, mid));
    if e.entry_type == ABSTRACT {
        let s = segs[e.seg_idx as int];
        let info = EdgeIntersectionInfo::of(s, bound, mid);
        assert(recs[k].split_info == split_flags(s, info, bound, mid));
        lemma_pack_flags(
            |q: u32| split_fill(s, info, bound, mid, q),
            |q: u32| split_up(s, info, q),
            |q: u32| split_down(s, info, q),
            c,
        );
        assert(shortcut_of(sc[k].split_info, c as int) == split_marker(s, info, c));
    } else {
        assert(recs[k].split_info == 0);
        assert(seg_out(sc[k], c as int) == 0) by {
            lemma_no_fill(c);
        }
    }
}

/// Every segment entry that the first `i` records emit into child `c` has
/// a marker that fits the child.
proof fn lemma_emitted_fits(
    entries: Seq<CellEntry>,
    segs: Seq<AbstractLineSegment>,
    bound: RectView,
    mid: Point,
    c: u32,
    at_root: bool,
    i: int,
)
    requires
        closed_paths(segs),
        forall|j: int| 0 <= j < segs.len() ==> (#[trigger] segs[j]).path_idx <= u32::MAX,
        settled(entries, segs, bound, at_root),
        reaches(entries, segs, bound),
        split_error(bound, mid).is_none(),
        c < 4,
        0 <= i <= entries.len(),
    ensures
        ({
            let sc = scanned(split_records(entries, segs, bound, mid));
            let r = child_rect(bound, mid, c as int);
            forall|a: int|
                0 <= a < emitted_cell(sc, c as int, i).len() && (#[trigger] emitted_cell(
                    sc,
                    c as int,
                    i,
                )[a]).entry_type == ABSTRACT ==> {
                    let e = emitted_cell(sc, c as int, i)[a];
                    &&& e.seg_idx < segs.len()
                    &&& marker_fits(segs[e.seg_idx as int], e.data as int, r.top, r.right, r.bottom)
                }
        }),
    decreases i,
{
    let sc = scanned(split_records(entries, segs, bound, mid));
    let r = child_rect(bound, mid, c as int);
    if i > 0 {
        lemma_emitted_fits(entries, segs, bound, mid, c, at_root, i - 1);
        let k = i - 1;
        lemma_record_split(entries, segs, bound, mid, c, k);
        let prev = emitted_cell(sc, c as int, k);
        let items = emits(sc, k, c as int);
        let whole = emitted_cell(sc, c as int, i);
        assert(whole == prev + items);
        let e0 = entries[k];
        assert forall|a: int| 0 <= a < whole.len() && (#[trigger] whole[a]).entry_type
            == ABSTRACT implies {
            let e = whole[a];
            &&& e.seg_idx < segs.len()
            &&& marker_fits(segs[e.seg_idx as int], e.data as int, r.top, r.right, r.bottom)
        } by {
            if a < prev.len() {
                assert(whole[a] == prev[a]);
            } else {
                assert(whole[a] == items[a - prev.len()]);
                assert(whole[a] == segment_entry(sc[k], c as int));
                let s = segs[e0.seg_idx as int];
                assert(s.wf());
                lemma_split_marker_fits(s, bound, mid, c);
            }
        }
    }
}

/// A segment entry that record `k` emits into child `c` stands among what
/// the first `i` records emit.
proof fn lemma_emitted_stays(sc: Seq<SplitRecord>, c: int, k: int, i: int)
    requires
        0 <= k < i <= sc.len(),
        seg_out(sc[k], c) == 1,
    ensures
        exists|a: int|
            0 <= a < emitted_cell(sc, c, i).len() && #[trigger] emitted_cell(sc, c, i)[a]
                == segment_entry(sc[k], c),
    decreases i,
{
    let whole = emitted_cell(sc, c, i);
    let prev = emitted_cell(sc, c, i - 1);
    let items = emits(sc, i - 1, c);
    assert(whole == prev + items);
    if k == i - 1 {
        assert(items[0] == segment_entry(sc[k], c));
        assert(whole[prev.len() as int] == items[0]);
    } else {
        lemma_emitted_stays(sc, c, k, i - 1);
        let a = choose|a: int|
            0 <= a < prev.len() && #[trigger] prev[a] == segment_entry(sc[k], c);
        assert(whole[a] == prev[a]);
    }
}

/// The entries of a child are settled where the entries of its parent are
/// and none of them reaches beyond the parent's far column: the split keeps
/// the order, gives every segment that it keeps a marker that fits the
/// child, and keeps every segment that has an endpoint in the child.
pub proof fn lemma_child_settled(
    entries: Seq<CellEntry>,
    segs: Seq<AbstractLineSegment>,
    bound: RectView,
    mid: Point,
    c: u32,
    child: u32,
    at_root: bool,
)
    requires
        closed_paths(segs),
        forall|j: int| 0 <= j < segs.len() ==> (#[trigger] segs[j]).path_idx <= u32::MAX,
        settled(entries, segs, bound, at_root),
        reaches(entries, segs, bound),
        split_error(bound, mid).is_none(),
        c < 4,
    ensures
        settled(
            child_entries(subdivided(entries, segs, bound, mid), c, child),
            segs,
            child_rect(bound, mid, c as int),
            false,
        ),
{
    let recs = split_records(entries, segs, bound, mid);
    let sc = scanned(recs);
    let n = entries.len() as int;
    let r = child_rect(bound, mid, c as int);
    let own = emitted_cell(sc, c as int, n);
    let kept = child_entries(subdivided(entries, segs, bound, mid), c, child);
    lemma_records_of_ordered(entries, segs, bound, mid);
    lemma_child_entries_of_emitted(sc, c, child);
    assert(kept == all_owned_by(own, child));
    lemma_subdivided_ordered(entries, segs, bound, mid, c, child);
    lemma_emitted_fits(entries, segs, bound, mid, c, at_root, n);
    assert forall|k: int| 0 <= k < kept.len() && (#[trigger] kept[k]).entry_type
        == ABSTRACT implies marker_fits(
        segs[kept[k].seg_idx as int],
        kept[k].data as int,
        r.top,
        r.right,
        r.bottom,
    ) by {
        assert(own[k].entry_type == ABSTRACT);
    }
    assert forall|i: int|
        0 <= i < segs.len() && (inside(segs[i].p0, r) || inside(segs[i].p1, r))
        implies #[trigger] has_entry(kept, kept.len() as int, i) by {
        assert(inside(segs[i].p0, bound) || inside(segs[i].p1, bound));
        assert(has_entry(entries, n, i));
        let k = choose|k: int|
            0 <= k < n && k < entries.len() && (#[trigger] entries[k]).entry_type == ABSTRACT
                && entries[k].seg_idx == i;
        lemma_record_split(entries, segs, bound, mid, c, k);
        let s = segs[i];
        assert(endpoint_in(s, bound, mid, c));
        lemma_emitted_stays(sc, c as int, k, n);
        let a = choose|a: int|
            0 <= a < own.len() && #[trigger] own[a] == segment_entry(sc[k], c as int);
        assert(kept[a].entry_type == ABSTRACT && kept[a].seg_idx == i);
    }
}

/// Settled entries of short segments do not reach beyond the far column of
/// their cell, unless it is the root.
pub proof fn lemma_short_reaches(
    entries: Seq<CellEntry>,
    segs: Seq<AbstractLineSegment>,
    bound: RectView,
)
    requires
        short_segments(segs),
        settled(entries, segs, bound, false),
        bound.left < bound.right,
    ensures
        reaches(entries, segs, bound),
{
    assert(far_x(bound) >= bound.right + 2048) by (nonlinear_arith)
        requires
            far_x(bound) == bound.right + (bound.right - bound.left + 1) * 1024,
            bound.left < bound.right,
    ;
    assert forall|k: int| 0 <= k < entries.len() && (#[trigger] entries[k]).entry_type
        == ABSTRACT implies segs[entries[k].seg_idx as int].bounding_box@.right <= far_x(
        bound,
    ) by {
        let s = segs[entries[k].seg_idx as int];
        assert(marker_fits(s, entries[k].data as int, bound.top, bound.right, bound.bottom));
    }
}

} // verus!
