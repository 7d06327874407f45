//! How large the entries of a cell can get from one level to the next, and
//! why a subdivision within these bounds never leaves the machine's
//! integers.
use crate::abstract_segment::AbstractLineSegment;
use crate::cell_entry::{
    lemma_fill_is_any_fill, lemma_no_fill, spec_has_any_fill, CellEntry, SplitRecord,
};
use crate::classify::EdgeIntersectionInfo;
use crate::geometry::point::Point;
use crate::geometry::rect::RectView;
use crate::scan::{
    cell_outputs, continues_run, is_tail, lemma_outputs_monotone, out_count, outputs_before,
    run_sum, scan_fits, scanned, seg_out, total_outputs, winc_out,
};
use crate::scatter::{
    child_id, emits, emitted, emitted_before, emitted_cell, lemma_emitted_cell_len,
    lemma_entry_kinds, segment_entry, winding_entry,
};
use crate::split::{
    entries_valid, records_of, segment_record, split_records, split_winding, winding_record,
};
use crate::subdivide::{subdivided, subdivision_fits};
use vstd::prelude::*;

verus! {

/// The most entries that the cells of the deepest level may hold together,
/// if every segment reached every cell: `2^27`.
pub const MAX_ENTRIES: u64 = 0x0800_0000;

/// The absolute value.
pub open spec fn abs(x: int) -> int {
    if x < 0 {
        -x
    } else {
        x
    }
}

/// What an entry can add to a running winding, in absolute value: a segment
/// at most `4`, a winding entry its increment.
pub open spec fn entry_weight(e: CellEntry) -> int {
    (if e.is_segment() {
        4int
    } else {
        0
    }) + (if e.is_winding() {
        abs(e.data as int)
    } else {
        0
    })
}

/// The weights of all entries together.
pub open spec fn entries_weight(entries: Seq<CellEntry>) -> int
    decreases entries.len(),
{
    if entries.len() == 0 {
        0
    } else {
        entries_weight(entries.drop_last()) + entry_weight(entries.last())
    }
}

/// The number of segment entries.
pub open spec fn segment_count(entries: Seq<CellEntry>) -> int
    decreases entries.len(),
{
    if entries.len() == 0 {
        0
    } else {
        segment_count(entries.drop_last()) + if entries.last().is_segment() {
            1int
        } else {
            0
        }
    }
}

/// Some segment belongs to the path `path_idx`.
pub open spec fn path_known(path_idx: u32, segs: Seq<AbstractLineSegment>) -> bool {
    exists|i: int| 0 <= i < segs.len() && (#[trigger] segs[i]).path_idx == path_idx
}

/// Every entry belongs to the path of some segment.
pub open spec fn paths_known(entries: Seq<CellEntry>, segs: Seq<AbstractLineSegment>) -> bool {
    forall|a: int| 0 <= a < entries.len() ==> path_known((#[trigger] entries[a]).path_idx, segs)
}

/// The entries of a cell are within `cap`: they are valid, they belong to
/// paths of the segments and to the cell `id`, they are at most `cap`, and
/// their weights together are at most `4 * cap`.
pub open spec fn cell_within(
    entries: Seq<CellEntry>,
    segs: Seq<AbstractLineSegment>,
    id: u32,
    cap: int,
) -> bool {
    &&& entries_valid(entries, segs)
    &&& paths_known(entries, segs)
    &&& forall|a: int| 0 <= a < entries.len() ==> (#[trigger] entries[a]).cell_id == id
    &&& entries.len() <= cap
    &&& entries_weight(entries) <= 4 * cap
}

/// The entries of `flat` that belong to child `c`, in order, each now owned
/// by the cell `id`.
pub open spec fn child_entries(flat: Seq<CellEntry>, c: u32, id: u32) -> Seq<CellEntry>
    decreases flat.len(),
{
    if flat.len() == 0 {
        seq![]
    } else {
        let rest = child_entries(flat.drop_last(), c, id);
        if flat.last().cell_pos == c {
            rest.push(owned_by(flat.last(), id))
        } else {
            rest
        }
    }
}

/// The entry `e`, owned by the cell `id`.
pub open spec fn owned_by(e: CellEntry, id: u32) -> CellEntry {
    CellEntry {
        entry_type: e.entry_type,
        data: e.data,
        seg_idx: e.seg_idx,
        path_idx: e.path_idx,
        cell_pos: e.cell_pos,
        cell_id: id,
    }
}

/// Every segment entry weighs `4`, and no entry weighs less than nothing.
proof fn lemma_entries_weight_nonnegative(entries: Seq<CellEntry>)
    ensures
        0 <= 4 * segment_count(entries) <= entries_weight(entries),
        segment_count(entries) <= entries.len(),
    decreases entries.len(),
{
    if entries.len() > 0 {
        lemma_entries_weight_nonnegative(entries.drop_last());
    }
}

/// The weight of two lists, one after the other, is the sum of their weights.
proof fn lemma_entries_weight_append(a: Seq<CellEntry>, b: Seq<CellEntry>)
    ensures
        entries_weight(a + b) == entries_weight(a) + entries_weight(b),
    decreases b.len(),
{
    if b.len() == 0 {
        assert(a + b =~= a);
    } else {
        lemma_entries_weight_append(a, b.drop_last());
        assert((a + b).drop_last() =~= a + b.drop_last());
        assert((a + b).last() == b.last());
    }
}

/// Sorting two lists by child, one after the other, sorts each.
proof fn lemma_child_entries_append(a: Seq<CellEntry>, b: Seq<CellEntry>, c: u32, id: u32)
    ensures
        child_entries(a + b, c, id) == child_entries(a, c, id) + child_entries(b, c, id),
    decreases b.len(),
{
    if b.len() == 0 {
        assert(a + b =~= a);
        assert(child_entries(a, c, id) + child_entries(b, c, id) =~= child_entries(a, c, id));
    } else {
        lemma_child_entries_append(a, b.drop_last(), c, id);
        assert((a + b).drop_last() =~= a + b.drop_last());
        assert((a + b).last() == b.last());
        let rest = child_entries(a, c, id) + child_entries(b.drop_last(), c, id);
        if b.last().cell_pos == c {
            assert(rest.push(owned_by(b.last(), id)) =~= child_entries(a, c, id) + child_entries(
                b.drop_last(),
                c,
                id,
            ).push(owned_by(b.last(), id)));
        }
    }
}

/// `s` with every entry owned by the cell `id`.
pub open spec fn all_owned_by(s: Seq<CellEntry>, id: u32) -> Seq<CellEntry> {
    Seq::new(s.len(), |a: int| owned_by(s[a], id))
}

/// Sorting entries that all stand in child `c1` by child keeps them all for
/// `c1` and none for another child.
proof fn lemma_child_entries_of_one_child(s: Seq<CellEntry>, c1: u32, c: u32, id: u32)
    requires
        forall|a: int| 0 <= a < s.len() ==> (#[trigger] s[a]).cell_pos == c1,
    ensures
        child_entries(s, c, id) == if c1 == c {
            all_owned_by(s, id)
        } else {
            seq![]
        },
    decreases s.len(),
{
    if s.len() == 0 {
        assert(all_owned_by(s, id) =~= seq![]);
    } else {
        lemma_child_entries_of_one_child(s.drop_last(), c1, c, id);
        assert(s.last() == s[s.len() - 1]);
        if c1 == c {
            assert(all_owned_by(s.drop_last(), id).push(owned_by(s.last(), id)) =~= all_owned_by(
                s,
                id,
            ));
        }
    }
}

/// What is emitted into child `c` stands in child `c`.
proof fn lemma_emitted_cell_pos(recs: Seq<SplitRecord>, c: int, i: int)
    requires
        0 <= c < 4,
        0 <= i <= recs.len(),
    ensures
        forall|a: int|
            0 <= a < emitted_cell(recs, c, i).len() ==> (#[trigger] emitted_cell(
                recs,
                c,
                i,
            )[a]).cell_pos == c,
    decreases i,
{
    if i > 0 {
        lemma_emitted_cell_pos(recs, c, i - 1);
        let prev = emitted_cell(recs, c, i - 1);
        let items = emits(recs, i - 1, c);
        assert forall|a: int| 0 <= a < emitted_cell(recs, c, i).len() implies (
        #[trigger] emitted_cell(recs, c, i)[a]).cell_pos == c by {
            if a < prev.len() {
                assert(emitted_cell(recs, c, i)[a] == prev[a]);
            } else {
                assert(emitted_cell(recs, c, i)[a] == items[a - prev.len()]);
            }
        }
    }
}

/// Sorting what the records emit by child gives back, for each child, what
/// the records emit into it.
pub(crate) proof fn lemma_child_entries_of_emitted(recs: Seq<SplitRecord>, c: u32, id: u32)
    requires
        c < 4,
    ensures
        child_entries(emitted(recs), c, id) == all_owned_by(
            emitted_cell(recs, c as int, recs.len() as int),
            id,
        ),
{
    let n = recs.len() as int;
    let e0 = emitted_cell(recs, 0, n);
    let e1 = emitted_cell(recs, 1, n);
    let e2 = emitted_cell(recs, 2, n);
    let e3 = emitted_cell(recs, 3, n);
    lemma_emitted_cell_pos(recs, 0, n);
    lemma_emitted_cell_pos(recs, 1, n);
    lemma_emitted_cell_pos(recs, 2, n);
    lemma_emitted_cell_pos(recs, 3, n);
    lemma_child_entries_of_one_child(e0, 0, c, id);
    lemma_child_entries_of_one_child(e1, 1, c, id);
    lemma_child_entries_of_one_child(e2, 2, c, id);
    lemma_child_entries_of_one_child(e3, 3, c, id);
    assert(emitted_before(recs, 0) =~= seq![]);
    assert(emitted_before(recs, 1) =~= e0);
    assert(emitted_before(recs, 2) =~= e0 + e1);
    assert(emitted_before(recs, 3) =~= e0 + e1 + e2);
    assert(emitted(recs) =~= e0 + e1 + e2 + e3);
    lemma_child_entries_append(e0, e1, c, id);
    lemma_child_entries_append(e0 + e1, e2, c, id);
    lemma_child_entries_append(e0 + e1 + e2, e3, c, id);
    assert(child_entries(emitted(recs), c, id) =~= all_owned_by(
        emitted_cell(recs, c as int, n),
        id,
    ));
}

/// The absolute windings of the first `i` records for child `c`, together.
spec fn abs_upto(recs: Seq<SplitRecord>, c: int, i: int) -> int
    decreases i,
{
    if i <= 0 {
        0
    } else {
        abs_upto(recs, c, i - 1) + abs(recs[i - 1].winding[c])
    }
}

/// The number of records among the first `i` that keep their segment in
/// some child.
spec fn fills_upto(recs: Seq<SplitRecord>, i: int) -> int
    decreases i,
{
    if i <= 0 {
        0
    } else {
        fills_upto(recs, i - 1) + if spec_has_any_fill(recs[i - 1].split_info) {
            1int
        } else {
            0
        }
    }
}

/// The absolute running windings at the tails among the first `i` records.
spec fn tails_upto(recs: Seq<SplitRecord>, c: int, i: int) -> int
    decreases i,
{
    if i <= 0 {
        0
    } else {
        tails_upto(recs, c, i - 1) + if is_tail(recs, i - 1) {
            abs(run_sum(recs, i - 1, c))
        } else {
            0
        }
    }
}

/// The absolute running winding that record `i` continues, if it continues
/// a run.
spec fn open_run(recs: Seq<SplitRecord>, c: int, i: int) -> int {
    if continues_run(recs, i) {
        abs(run_sum(recs, i - 1, c))
    } else {
        0
    }
}

/// Every record that keeps its segment in some child refers to a segment
/// whose path index fits 32 bits, and every record belongs to the cell `id`.
spec fn records_valid(recs: Seq<SplitRecord>, segs: Seq<AbstractLineSegment>, id: u32) -> bool {
    forall|i: int|
        0 <= i < recs.len() ==> (#[trigger] recs[i]).parent_cell_id == id && (spec_has_any_fill(
            recs[i].split_info,
        ) ==> recs[i].seg_idx < segs.len() && segs[recs[i].seg_idx as int].path_idx <= u32::MAX
            && recs[i].path_idx == segs[recs[i].seg_idx as int].path_idx)
}

/// The sums over the first `i` records depend on these records alone.
proof fn lemma_prefix_sums_agree(a: Seq<SplitRecord>, b: Seq<SplitRecord>, c: int, i: int)
    requires
        0 <= i <= a.len(),
        i <= b.len(),
        forall|j: int| 0 <= j < i ==> a[j] == b[j],
    ensures
        abs_upto(a, c, i) == abs_upto(b, c, i),
        fills_upto(a, i) == fills_upto(b, i),
    decreases i,
{
    if i > 0 {
        lemma_prefix_sums_agree(a, b, c, i - 1);
    }
}

/// The sums over the first records are not negative and grow with their
/// number.
proof fn lemma_abs_upto_monotone(recs: Seq<SplitRecord>, c: int, i: int, j: int)
    requires
        0 <= i <= j,
    ensures
        0 <= abs_upto(recs, c, i) <= abs_upto(recs, c, j),
        0 <= tails_upto(recs, c, i),
        0 <= fills_upto(recs, i) <= i,
    decreases j,
{
    if i < j {
        lemma_abs_upto_monotone(recs, c, i, j - 1);
    } else if i > 0 {
        lemma_abs_upto_monotone(recs, c, i - 1, i - 1);
    }
}

/// A segment adds at most `4` to the winding of a child, in absolute value.
proof fn lemma_split_winding_bound(
    seg: AbstractLineSegment,
    shortcut: int,
    e: EdgeIntersectionInfo,
    bound: RectView,
    mid: Point,
    c: u32,
)
    ensures
        -4 <= split_winding(seg, shortcut, e, bound, mid, c) <= 4,
{
    let rows = e.row_crossings(c);
    let step = crate::split::vertical_step(seg);
    assert(-2 <= step * rows <= 2) by (nonlinear_arith)
        requires
            -1 <= step <= 1,
            0 <= rows <= 2,
    ;
}

/// The split records of a cell's entries are no heavier than the entries.
proof fn lemma_split_records_bounds(
    entries: Seq<CellEntry>,
    segs: Seq<AbstractLineSegment>,
    bound: RectView,
    mid: Point,
    id: u32,
    c: int,
)
    requires
        entries_valid(entries, segs),
        forall|a: int| 0 <= a < entries.len() ==> (#[trigger] entries[a]).cell_id == id,
        0 <= c < 4,
    ensures
        ({
            let recs = split_records(entries, segs, bound, mid);
            &&& recs.len() <= 2 * entries.len()
            &&& abs_upto(recs, c, recs.len() as int) <= entries_weight(entries)
            &&& fills_upto(recs, recs.len() as int) <= segment_count(entries)
            &&& records_valid(recs, segs, id)
            &&& forall|i: int| 0 <= i < recs.len() ==> (#[trigger] recs[i]).winding.len() == 4
        }),
    decreases entries.len(),
{
    let recs = split_records(entries, segs, bound, mid);
    if entries.len() > 0 {
        let init = entries.drop_last();
        let e = entries.last();
        assert(e == entries[entries.len() - 1]);
        assert(entries_valid(init, segs)) by {
            assert forall|i: int| 0 <= i < init.len() && (#[trigger] init[i]).is_segment() implies init[i].seg_idx
                < segs.len() && segs[init[i].seg_idx as int].path_idx <= u32::MAX by {
                assert(init[i] == entries[i]);
            }
        }
        assert forall|a: int| 0 <= a < init.len() implies (#[trigger] init[a]).cell_id == id by {
            assert(init[a] == entries[a]);
        }
        lemma_split_records_bounds(init, segs, bound, mid, id, c);
        let before = split_records(init, segs, bound, mid);
        let added = records_of(e, segs, bound, mid);
        assert(recs == before + added);
        let n0 = before.len() as int;
        lemma_prefix_sums_agree(recs, before, c, n0);
        lemma_no_fill(0);
        if e.is_segment() {
            let seg = segs[e.seg_idx as int];
            lemma_split_winding_bound(
                seg,
                e.data as int,
                EdgeIntersectionInfo::of(seg, bound, mid),
                bound,
                mid,
                c as u32,
            );
            assert(recs[n0] == segment_record(e, seg, bound, mid));
            if e.is_winding() {
                assert(recs[n0 + 1] == winding_record(e));
                assert(recs.len() == n0 + 2);
                assert(abs_upto(recs, c, n0 + 2) == abs_upto(recs, c, n0 + 1) + abs(
                    recs[n0 + 1].winding[c],
                ));
                assert(abs_upto(recs, c, n0 + 1) == abs_upto(recs, c, n0) + abs(recs[n0].winding[c]));
                assert(fills_upto(recs, n0 + 2) == fills_upto(recs, n0 + 1) + 0);
                assert(fills_upto(recs, n0 + 1) <= fills_upto(recs, n0) + 1);
            } else {
                assert(recs.len() == n0 + 1);
                assert(abs_upto(recs, c, n0 + 1) == abs_upto(recs, c, n0) + abs(recs[n0].winding[c]));
                assert(fills_upto(recs, n0 + 1) <= fills_upto(recs, n0) + 1);
            }
        } else if e.is_winding() {
            assert(recs[n0] == winding_record(e));
            assert(recs.len() == n0 + 1);
            assert(abs_upto(recs, c, n0 + 1) == abs_upto(recs, c, n0) + abs(recs[n0].winding[c]));
            assert(fills_upto(recs, n0 + 1) == fills_upto(recs, n0) + 0);
        } else {
            assert(recs =~= before);
        }
        assert forall|i: int| 0 <= i < recs.len() implies (#[trigger] recs[i]).parent_cell_id == id
            && recs[i].winding.len() == 4 && (spec_has_any_fill(recs[i].split_info)
            ==> recs[i].seg_idx < segs.len() && segs[recs[i].seg_idx as int].path_idx <= u32::MAX
            && recs[i].path_idx == segs[recs[i].seg_idx as int].path_idx) by {
            if i < n0 {
                assert(recs[i] == before[i]);
            } else {
                assert(recs[i] == added[i - n0]);
            }
        }
    }
}

/// The running windings at the tails, with the run that is still open, are
/// no more than the absolute windings so far.
proof fn lemma_tails_bound(recs: Seq<SplitRecord>, c: int, i: int)
    requires
        0 <= i <= recs.len(),
    ensures
        tails_upto(recs, c, i) + open_run(recs, c, i) <= abs_upto(recs, c, i),
        i < recs.len() ==> abs(run_sum(recs, i, c)) <= abs_upto(recs, c, i + 1),
    decreases i,
{
    if i > 0 {
        lemma_tails_bound(recs, c, i - 1);
        lemma_abs_upto_monotone(recs, c, i - 1, i - 1);
    }
    if i < recs.len() {
        lemma_abs_upto_monotone(recs, c, i, i);
        assert(abs(run_sum(recs, i, c)) <= open_run(recs, c, i) + abs(recs[i].winding[c]));
    }
}

/// Running windings within the weight of `i32` fit `i32`.
proof fn lemma_scan_fits(recs: Seq<SplitRecord>, limit: int)
    requires
        forall|c: int| 0 <= c < 4 ==> #[trigger] abs_upto(recs, c, recs.len() as int) <= limit,
        limit <= i32::MAX,
    ensures
        scan_fits(recs),
        forall|i: int, c: int|
            0 <= i < recs.len() && 0 <= c < 4 ==> abs(#[trigger] run_sum(recs, i, c)) <= limit,
{
    assert forall|i: int, c: int| 0 <= i < recs.len() && 0 <= c < 4 implies abs(
        #[trigger] run_sum(recs, i, c),
    ) <= limit by {
        lemma_tails_bound(recs, c, i);
        lemma_abs_upto_monotone(recs, c, i + 1, recs.len() as int);
        assert(abs_upto(recs, c, recs.len() as int) <= limit);
    }
}

/// What the scanned records emit into a child is valid, and no heavier
/// than the segments kept and the tails' running windings.
proof fn lemma_emitted_cell_bounds(
    recs: Seq<SplitRecord>,
    segs: Seq<AbstractLineSegment>,
    id: u32,
    c: int,
    i: int,
)
    requires
        records_valid(recs, segs, id),
        scan_fits(recs),
        forall|j: int| 0 <= j < recs.len() ==> (#[trigger] recs[j]).winding.len() == 4,
        0 <= c < 4,
        0 <= i <= recs.len(),
    ensures
        entries_weight(emitted_cell(scanned(recs), c, i)) <= 4 * fills_upto(recs, i) + tails_upto(
            recs,
            c,
            i,
        ),
        entries_valid(emitted_cell(scanned(recs), c, i), segs),
    decreases i,
{
    let sc = scanned(recs);
    if i > 0 {
        lemma_emitted_cell_bounds(recs, segs, id, c, i - 1);
        let prev = emitted_cell(sc, c, i - 1);
        let items = emits(sc, i - 1, c);
        let r = sc[i - 1];
        lemma_entries_weight_append(prev, items);
        lemma_entry_kinds(r, c);
        assert(is_tail(sc, i - 1) == is_tail(recs, i - 1));
        assert(r.winding[c] == run_sum(recs, i - 1, c));
        assert(i32::MIN <= run_sum(recs, i - 1, c) <= i32::MAX);
        assert(recs[i - 1].parent_cell_id == id);
        if seg_out(r, c) == 1 {
            lemma_fill_is_any_fill(r.split_info, c as u32);
        }
        let s = segment_entry(r, c);
        let w = winding_entry(r, c);
        lemma_weight_of_one(s);
        lemma_weight_of_one(w);
        if seg_out(r, c) == 1 && winc_out(sc, i - 1, c) == 1 {
            assert(items =~= seq![s] + seq![w]);
            lemma_entries_weight_append(seq![s], seq![w]);
            assert(entries_weight(items) == entry_weight(s) + entry_weight(w));
        } else if seg_out(r, c) == 1 {
            assert(items =~= seq![s]);
            assert(entries_weight(items) == entry_weight(s));
        } else if winc_out(sc, i - 1, c) == 1 {
            assert(items =~= seq![w]);
            assert(entries_weight(items) == entry_weight(w));
        } else {
            assert(items =~= Seq::<CellEntry>::empty());
        }
        let whole = emitted_cell(sc, c, i);
        assert(whole =~= prev + items);
        assert forall|a: int| 0 <= a < whole.len() && (#[trigger] whole[a]).is_segment() implies whole[a].seg_idx
            < segs.len() && segs[whole[a].seg_idx as int].path_idx <= u32::MAX by {
            if a < prev.len() {
                assert(whole[a] == prev[a]);
            } else {
                assert(whole[a] == items[a - prev.len()]);
            }
        }
    }
}

/// A cell within `cap` can be subdivided on the machine when `cap` is within
/// the limit and the identifiers of the cell's children fit 32 bits.
pub proof fn lemma_cell_fits(
    entries: Seq<CellEntry>,
    segs: Seq<AbstractLineSegment>,
    bound: RectView,
    mid: Point,
    id: u32,
    cap: int,
)
    requires
        cell_within(entries, segs, id, cap),
        cap <= MAX_ENTRIES,
        child_id(id, 3) <= u32::MAX,
    ensures
        subdivision_fits(split_records(entries, segs, bound, mid)),
{
    let recs = split_records(entries, segs, bound, mid);
    let sc = scanned(recs);
    lemma_split_records_bounds(entries, segs, bound, mid, id, 0);
    lemma_split_records_bounds(entries, segs, bound, mid, id, 1);
    lemma_split_records_bounds(entries, segs, bound, mid, id, 2);
    lemma_split_records_bounds(entries, segs, bound, mid, id, 3);
    lemma_scan_fits(recs, 4 * cap);
    lemma_outputs_monotone(sc, 0, 0, sc.len() as int);
    lemma_outputs_monotone(sc, 1, 0, sc.len() as int);
    lemma_outputs_monotone(sc, 2, 0, sc.len() as int);
    lemma_outputs_monotone(sc, 3, 0, sc.len() as int);
    assert(outputs_before(sc, 1) == outputs_before(sc, 0) + cell_outputs(sc, 0, sc.len() as int));
    assert(outputs_before(sc, 2) == outputs_before(sc, 1) + cell_outputs(sc, 1, sc.len() as int));
    assert(outputs_before(sc, 3) == outputs_before(sc, 2) + cell_outputs(sc, 2, sc.len() as int));
    assert(outputs_before(sc, 4) == outputs_before(sc, 3) + cell_outputs(sc, 3, sc.len() as int));
    assert(total_outputs(sc) <= 8 * sc.len());
    assert forall|i: int, c: int|
        0 <= i < sc.len() && 0 <= c < 4 && #[trigger] out_count(sc, i, c) > 0 implies child_id(
        sc[i].parent_cell_id,
        c,
    ) <= u32::MAX by {
        assert(recs[i].parent_cell_id == id);
    }
}

/// The entries of a child of a cell within `cap` are within `4 * cap`.
pub proof fn lemma_child_within(
    entries: Seq<CellEntry>,
    segs: Seq<AbstractLineSegment>,
    bound: RectView,
    mid: Point,
    id: u32,
    cap: int,
    c: u32,
    child: u32,
)
    requires
        cell_within(entries, segs, id, cap),
        cap <= MAX_ENTRIES,
        c < 4,
    ensures
        cell_within(
            child_entries(subdivided(entries, segs, bound, mid), c, child),
            segs,
            child,
            4 * cap,
        ),
{
    let recs = split_records(entries, segs, bound, mid);
    let sc = scanned(recs);
    let n = recs.len() as int;
    lemma_split_records_bounds(entries, segs, bound, mid, id, 0);
    lemma_split_records_bounds(entries, segs, bound, mid, id, 1);
    lemma_split_records_bounds(entries, segs, bound, mid, id, 2);
    lemma_split_records_bounds(entries, segs, bound, mid, id, 3);
    lemma_scan_fits(recs, 4 * cap);
    lemma_child_entries_of_emitted(sc, c, child);
    let own = emitted_cell(sc, c as int, n);
    let kept = child_entries(subdivided(entries, segs, bound, mid), c, child);
    assert(kept == all_owned_by(own, child));
    lemma_emitted_cell_bounds(recs, segs, id, c as int, n);
    lemma_emitted_cell_len(sc, c as int, n);
    lemma_outputs_monotone(sc, c as int, 0, n);
    lemma_tails_bound(recs, c as int, n);
    lemma_abs_upto_monotone(recs, c as int, n, n);
    lemma_entries_weight_nonnegative(entries);
    lemma_owned_weight(own, child);
    assert forall|a: int| 0 <= a < kept.len() && (#[trigger] kept[a]).is_segment() implies kept[a].seg_idx
        < segs.len() && segs[kept[a].seg_idx as int].path_idx <= u32::MAX by {
        assert(own[a].is_segment());
    }
    lemma_records_paths_known(entries, segs, bound, mid);
    lemma_emitted_paths_known(recs, segs, c as int, n);
    assert forall|a: int| 0 <= a < kept.len() implies path_known(
        (#[trigger] kept[a]).path_idx,
        segs,
    ) by {
        assert(kept[a].path_idx == own[a].path_idx);
    }
}

/// The split records of entries of known paths belong to known paths.
proof fn lemma_records_paths_known(
    entries: Seq<CellEntry>,
    segs: Seq<AbstractLineSegment>,
    bound: RectView,
    mid: Point,
)
    requires
        entries_valid(entries, segs),
        paths_known(entries, segs),
    ensures
        forall|i: int|
            0 <= i < split_records(entries, segs, bound, mid).len() ==> path_known(
                (#[trigger] split_records(entries, segs, bound, mid)[i]).path_idx,
                segs,
            ),
    decreases entries.len(),
{
    let recs = split_records(entries, segs, bound, mid);
    if entries.len() > 0 {
        let init = entries.drop_last();
        let e = entries.last();
        assert(e == entries[entries.len() - 1]);
        assert(entries_valid(init, segs) && paths_known(init, segs)) by {
            assert forall|i: int| 0 <= i < init.len() implies #[trigger] init[i] == entries[i] by {}
        }
        lemma_records_paths_known(init, segs, bound, mid);
        let before = split_records(init, segs, bound, mid);
        let added = records_of(e, segs, bound, mid);
        assert(recs == before + added);
        assert forall|i: int| 0 <= i < recs.len() implies path_known(
            (#[trigger] recs[i]).path_idx,
            segs,
        ) by {
            if i < before.len() {
                assert(recs[i] == before[i]);
            } else {
                assert(recs[i] == added[i - before.len()]);
                if e.is_segment() {
                    let seg = segs[e.seg_idx as int];
                    assert(seg.path_idx == (seg.path_idx as u32));
                }
                assert(path_known(e.path_idx, segs));
            }
        }
    }
}

/// What records of known paths emit belongs to known paths.
proof fn lemma_emitted_paths_known(
    recs: Seq<SplitRecord>,
    segs: Seq<AbstractLineSegment>,
    c: int,
    i: int,
)
    requires
        forall|j: int| 0 <= j < recs.len() ==> path_known((#[trigger] recs[j]).path_idx, segs),
        0 <= i <= recs.len(),
    ensures
        paths_known(emitted_cell(scanned(recs), c, i), segs),
    decreases i,
{
    let sc = scanned(recs);
    if i > 0 {
        lemma_emitted_paths_known(recs, segs, c, i - 1);
        let prev = emitted_cell(sc, c, i - 1);
        let items = emits(sc, i - 1, c);
        let whole = emitted_cell(sc, c, i);
        assert(whole == prev + items);
        assert(path_known(recs[i - 1].path_idx, segs));
        assert forall|a: int| 0 <= a < whole.len() implies path_known(
            (#[trigger] whole[a]).path_idx,
            segs,
        ) by {
            if a < prev.len() {
                assert(whole[a] == prev[a]);
            } else {
                assert(whole[a] == items[a - prev.len()]);
            }
        }
    }
}

/// The weight of a list of one entry is the weight of the entry.
proof fn lemma_weight_of_one(e: CellEntry)
    ensures
        entries_weight(seq![e]) == entry_weight(e),
{
    let s = seq![e];
    assert(s.drop_last() =~= Seq::<CellEntry>::empty());
    assert(s.last() == e);
    assert(entries_weight(s.drop_last()) == 0);
}

/// Changing the owner of entries does not change their weight.
proof fn lemma_owned_weight(s: Seq<CellEntry>, id: u32)
    ensures
        entries_weight(all_owned_by(s, id)) == entries_weight(s),
    decreases s.len(),
{
    if s.len() > 0 {
        lemma_owned_weight(s.drop_last(), id);
        assert(all_owned_by(s, id).drop_last() =~= all_owned_by(s.drop_last(), id));
        assert(all_owned_by(s, id).last() == owned_by(s.last(), id));
    }
}

} // verus!
