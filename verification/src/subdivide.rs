//! One level of subdivision: the four passes, in order, on the entries of
//! one parent cell.
use crate::abstract_segment::AbstractLineSegment;
use crate::cell_entry::{records, CellEntry, SplitRecord};
use crate::error::RasterError;
use crate::geometry::point::Point;
use crate::geometry::rect::{Rect, RectView};
use crate::scan::{
    cell_outputs, consolidate_winding_inc, is_tail, offset_of, out_count, outputs_before,
    scan_fits, scanned, total_outputs, update_to_global_offset, with_offsets,
};
use crate::scatter::{
    child_id, emits, emitted, emitted_before, emitted_cell, lemma_scatter_of_exact_offsets,
    offsets_exact, skipped, split_to_cell_entry,
};
use crate::split::{build_split_entries, entries_valid, split_records};
use vstd::prelude::*;

verus! {

/// Why a cell with bounds `bound` cannot be split at `mid`, if it cannot: the
/// middle lies outside the cell, so a child's edges would not be ordered, or
/// on an edge of the cell, so a child would have no area.
pub open spec fn split_error(bound: RectView, mid: Point) -> Option<RasterError> {
    if !bound.contains(mid.x as int, mid.y as int) {
        Some(RasterError::InvalidRect)
    } else if mid.x == bound.left || mid.x == bound.right || mid.y == bound.top || mid.y
        == bound.bottom {
        Some(RasterError::DegenerateSubdivision)
    } else {
        None
    }
}

/// The bounds of child `c` of the cell `bound` split at `mid`.
pub open spec fn child_rect(bound: RectView, mid: Point, c: int) -> RectView {
    RectView {
        left: if c == 0 || c == 2 { bound.left } else { mid.x as int },
        top: if c == 0 || c == 1 { bound.top } else { mid.y as int },
        right: if c == 0 || c == 2 { mid.x as int } else { bound.right },
        bottom: if c == 0 || c == 1 { mid.y as int } else { bound.bottom },
    }
}

/// The bounds of the four children of `parent_bbox` split at `mid`, in the
/// order top left, top right, bottom left, bottom right.
pub fn get_child_bounds(parent_bbox: Rect, mid: Point) -> (r: Result<[Rect; 4], RasterError>)
    ensures
        match split_error(parent_bbox@, mid) {
            Some(e) => r == Err::<[Rect; 4], RasterError>(e),
            None => r.is_ok() && forall|c: int|
                0 <= c < 4 ==> (#[trigger] r.unwrap()[c])@ == child_rect(parent_bbox@, mid, c),
        },
{
    let left = parent_bbox.left();
    let top = parent_bbox.top();
    let right = parent_bbox.right();
    let bottom = parent_bbox.bottom();
    let tl = Rect::from_ltrb(left, top, mid.x, mid.y);
    let tr = Rect::from_ltrb(mid.x, top, right, mid.y);
    let bl = Rect::from_ltrb(left, mid.y, mid.x, bottom);
    let br = Rect::from_ltrb(mid.x, mid.y, right, bottom);
    match (tl, tr, bl, br) {
        (Some(tl), Some(tr), Some(bl), Some(br)) => {
            if mid.x == left || mid.x == right || mid.y == top || mid.y == bottom {
                Err(RasterError::DegenerateSubdivision)
            } else {
                Ok([tl, tr, bl, br])
            }
        },
        _ => Err(RasterError::InvalidRect),
    }
}

/// Every child that a record emits into has an identifier that fits 32 bits.
pub open spec fn ids_fit(recs: Seq<SplitRecord>) -> bool {
    forall|i: int, c: int|
        0 <= i < recs.len() && 0 <= c < 4 && #[trigger] out_count(recs, i, c) > 0 ==> child_id(
            recs[i].parent_cell_id,
            c,
        ) <= u32::MAX
}

/// The machine can carry out the subdivision: the running windings fit
/// `i32`, the number of emitted entries fits `u32`, and so do the
/// identifiers of the children.
pub open spec fn subdivision_fits(recs: Seq<SplitRecord>) -> bool {
    &&& scan_fits(recs)
    &&& total_outputs(scanned(recs)) <= u32::MAX
    &&& ids_fit(scanned(recs))
}

/// Two record sequences that differ at most in their offsets.
pub open spec fn same_but_offsets(a: Seq<SplitRecord>, b: Seq<SplitRecord>) -> bool {
    &&& a.len() == b.len()
    &&& forall|i: int|
        0 <= i < a.len() ==> {
            &&& (#[trigger] a[i]).winding == b[i].winding
            &&& a[i].split_info == b[i].split_info
            &&& a[i].seg_idx == b[i].seg_idx
            &&& a[i].path_idx == b[i].path_idx
            &&& a[i].parent_cell_id == b[i].parent_cell_id
        }
}

/// What the records emit does not depend on their offsets.
proof fn lemma_offsets_irrelevant(a: Seq<SplitRecord>, b: Seq<SplitRecord>, c: int, i: int)
    requires
        same_but_offsets(a, b),
        0 <= i <= a.len(),
    ensures
        cell_outputs(a, c, i) == cell_outputs(b, c, i),
        emitted_cell(a, c, i) == emitted_cell(b, c, i),
    decreases i,
{
    if i > 0 {
        lemma_offsets_irrelevant(a, b, c, i - 1);
        assert(is_tail(a, i - 1) == is_tail(b, i - 1));
        assert(emits(a, i - 1, c) =~= emits(b, i - 1, c));
    }
}

/// What the records emit into the children before `c` does not depend on
/// their offsets.
proof fn lemma_offsets_irrelevant_before(a: Seq<SplitRecord>, b: Seq<SplitRecord>, c: int)
    requires
        same_but_offsets(a, b),
    ensures
        outputs_before(a, c) == outputs_before(b, c),
        emitted_before(a, c) == emitted_before(b, c),
    decreases c,
{
    if c > 0 {
        lemma_offsets_irrelevant_before(a, b, c - 1);
        lemma_offsets_irrelevant(a, b, c - 1, a.len() as int);
    }
}

/// The second scan leaves exact offsets behind, whatever stood there before.
proof fn lemma_with_offsets_exact(recs: Seq<SplitRecord>)
    ensures
        offsets_exact(with_offsets(recs)),
        same_but_offsets(with_offsets(recs), recs),
        total_outputs(with_offsets(recs)) == total_outputs(recs),
        emitted(with_offsets(recs)) == emitted(recs),
{
    let w = with_offsets(recs);
    assert(same_but_offsets(w, recs));
    lemma_offsets_irrelevant_before(w, recs, 4);
    assert forall|i: int, c: int| 0 <= i < w.len() && 0 <= c < 4 implies (#[trigger] w[i].offsets[c])
        == offset_of(w, c, i) by {
        lemma_offsets_irrelevant_before(w, recs, c);
        lemma_offsets_irrelevant(w, recs, c, i);
    }
}

/// The entries of the next level for one parent cell: the split records of
/// the parent's entries, with their windings scanned, emit them.
pub open spec fn subdivided(
    entries: Seq<CellEntry>,
    segs: Seq<AbstractLineSegment>,
    bound: RectView,
    mid: Point,
) -> Seq<CellEntry> {
    emitted(scanned(split_records(entries, segs, bound, mid)))
}

/// Subdivides the entries of one parent cell into the entries of its four
/// children, which come out child by child.
///
/// Fails, with the reason, exactly when the cell cannot be split at
/// `parent_mid_point`.
pub fn subdivide_cell_entry(
    cell_entries: &mut [CellEntry],
    parent_bound: &Rect,
    parent_mid_point: &Point,
    abs_segments: &[AbstractLineSegment],
) -> (r: Result<Vec<CellEntry>, RasterError>)
    requires
        entries_valid(old(cell_entries)@, abs_segments@),
        subdivision_fits(
            split_records(old(cell_entries)@, abs_segments@, parent_bound@, *parent_mid_point),
        ),
    ensures
        final(cell_entries)@ == old(cell_entries)@,
        match split_error(parent_bound@, *parent_mid_point) {
            Some(e) => r == Err::<Vec<CellEntry>, RasterError>(e),
            None => r.is_ok() && r.unwrap()@ == subdivided(
                old(cell_entries)@,
                abs_segments@,
                parent_bound@,
                *parent_mid_point,
            ),
        },
{
    match get_child_bounds(*parent_bound, *parent_mid_point) {
        Err(e) => {
            return Err(e);
        },
        Ok(_) => {},
    }
    let mut split_entries = build_split_entries(
        parent_bound,
        parent_mid_point,
        cell_entries,
        abs_segments,
    );
    let ghost recs = records(split_entries@);
    consolidate_winding_inc(&mut split_entries);
    let out_vec_size = update_to_global_offset(split_entries.as_mut_slice());
    proof {
        lemma_with_offsets_exact(scanned(recs));
        let placed = with_offsets(scanned(recs));
        lemma_scatter_of_exact_offsets(placed);
        assert forall|i: int, c: int|
            0 <= i < placed.len() && 0 <= c < 4 && !skipped(placed, i, c) && #[trigger] out_count(
                placed,
                i,
                c,
            ) > 0 implies placed[i].offsets[c] + out_count(placed, i, c) <= out_vec_size
            && child_id(placed[i].parent_cell_id, c) <= u32::MAX by {
            assert(is_tail(placed, i) == is_tail(scanned(recs), i));
            assert(out_count(placed, i, c) == out_count(scanned(recs), i, c));
        }
    }
    let next_cell_entries = split_to_cell_entry(split_entries.as_mut_slice(), out_vec_size);
    Ok(next_cell_entries)
}

} // verus!
