//! The order that the entries of a cell keep from level to level: paths
//! ascend, the segments of a path come before its one winding entry, and no
//! segment stands twice.
use crate::abstract_segment::AbstractLineSegment;
use crate::bounds::{all_owned_by, child_entries, lemma_child_entries_of_emitted};
use crate::cell_entry::{
    lemma_kinds, lemma_no_fill, CellEntry, SplitRecord, ABSTRACT, WINDING_INCREMENT,
};
use crate::geometry::point::Point;
use crate::geometry::rect::RectView;
use crate::scan::{is_tail, scanned, seg_out, winc_out};
use crate::scatter::{emits, emitted_cell, segment_entry, winding_entry};
use crate::split::{records_of, segment_record, split_records, winding_record};
use crate::subdivide::subdivided;
use crate::unique::{segments_unique, windings_unique};
use vstd::prelude::*;

verus! {

/// The segments come path after path, with ascending path index.
pub open spec fn paths_ascending(segs: Seq<AbstractLineSegment>) -> bool {
    forall|i: int, j: int|
        0 <= i < j < segs.len() ==> (#[trigger] segs[i]).path_idx <= (#[trigger] segs[j]).path_idx
}

/// The entries of one cell are in order.
///
/// Each entry is of one kind, a segment entry or a winding entry; a segment
/// entry refers to a segment of `segs` and has its path; the paths ascend; a
/// winding entry is the last entry of its path; no two segment entries refer
/// to one segment; and all entries belong to one cell.
pub open spec fn cell_ordered(entries: Seq<CellEntry>, segs: Seq<AbstractLineSegment>) -> bool {
    &&& forall|a: int|
        0 <= a < entries.len() ==> (#[trigger] entries[a]).entry_type == ABSTRACT
            || entries[a].entry_type == WINDING_INCREMENT
    &&& forall|a: int|
        0 <= a < entries.len() && (#[trigger] entries[a]).entry_type == ABSTRACT
            ==> entries[a].seg_idx < segs.len() && entries[a].path_idx
            == segs[entries[a].seg_idx as int].path_idx
    &&& forall|a: int, b: int|
        0 <= a < b < entries.len() ==> (#[trigger] entries[a]).path_idx <= (
        #[trigger] entries[b]).path_idx
    &&& forall|a: int, b: int|
        0 <= a < b < entries.len() && (#[trigger] entries[a]).entry_type == WINDING_INCREMENT
            ==> entries[a].path_idx < (#[trigger] entries[b]).path_idx
    &&& forall|a: int, b: int|
        0 <= a < b < entries.len() && (#[trigger] entries[a]).entry_type == ABSTRACT && (
        #[trigger] entries[b]).entry_type == ABSTRACT ==> entries[a].seg_idx != entries[b].seg_idx
    &&& forall|a: int, b: int|
        0 <= a < entries.len() && 0 <= b < entries.len() ==> (#[trigger] entries[a]).cell_id == (
        #[trigger] entries[b]).cell_id
}

/// Entries in order hold no segment twice and no two winding entries of one
/// path.
pub proof fn lemma_ordered_is_unique(entries: Seq<CellEntry>, segs: Seq<AbstractLineSegment>)
    requires
        cell_ordered(entries, segs),
    ensures
        segments_unique(entries),
        windings_unique(entries),
{
    lemma_kinds();
    assert forall|a: int, b: int|
        0 <= a < b < entries.len() && (#[trigger] entries[a]).is_segment() && (
        #[trigger] entries[b]).is_segment() implies !(entries[a].cell_id == entries[b].cell_id
        && entries[a].path_idx == entries[b].path_idx && entries[a].seg_idx
        == entries[b].seg_idx) by {
        assert(entries[a].entry_type == ABSTRACT);
        assert(entries[b].entry_type == ABSTRACT);
    }
    assert forall|a: int, b: int|
        0 <= a < b < entries.len() && (#[trigger] entries[a]).is_winding() && (
        #[trigger] entries[b]).is_winding() implies !(entries[a].cell_id == entries[b].cell_id
        && entries[a].path_idx == entries[b].path_idx) by {
        assert(entries[a].entry_type == WINDING_INCREMENT);
    }
}

/// The split record of an entry of one kind.
pub open spec fn record_for(
    e: CellEntry,
    segs: Seq<AbstractLineSegment>,
    bound: RectView,
    mid: Point,
) -> SplitRecord {
    if e.entry_type == ABSTRACT {
        segment_record(e, segs[e.seg_idx as int], bound, mid)
    } else {
        winding_record(e)
    }
}

/// The split records of entries in order: one record for each entry, with
/// the entry's path and segment, and without fill bits for a winding entry.
pub(crate) proof fn lemma_records_of_ordered(
    entries: Seq<CellEntry>,
    segs: Seq<AbstractLineSegment>,
    bound: RectView,
    mid: Point,
)
    requires
        cell_ordered(entries, segs),
        forall|i: int| 0 <= i < segs.len() ==> (#[trigger] segs[i]).path_idx <= u32::MAX,
    ensures
        ({
            let recs = split_records(entries, segs, bound, mid);
            &&& recs.len() == entries.len()
            &&& forall|i: int|
                0 <= i < recs.len() ==> (#[trigger] recs[i]) == record_for(
                    entries[i],
                    segs,
                    bound,
                    mid,
                )
            &&& forall|i: int|
                0 <= i < recs.len() ==> {
                    &&& (#[trigger] recs[i]).path_idx == entries[i].path_idx
                    &&& (entries[i].entry_type == ABSTRACT ==> recs[i].seg_idx
                        == entries[i].seg_idx)
                    &&& recs[i].parent_cell_id == entries[i].cell_id
                    &&& (entries[i].entry_type == WINDING_INCREMENT ==> recs[i].split_info == 0)
                }
        }),
    decreases entries.len(),
{
    lemma_kinds();
    let recs = split_records(entries, segs, bound, mid);
    if entries.len() > 0 {
        let init = entries.drop_last();
        let e = entries.last();
        assert(e == entries[entries.len() - 1]);
        assert(cell_ordered(init, segs)) by {
            assert forall|a: int| 0 <= a < init.len() implies #[trigger] init[a] == entries[a] by {}
        }
        lemma_records_of_ordered(init, segs, bound, mid);
        let before = split_records(init, segs, bound, mid);
        let added = records_of(e, segs, bound, mid);
        assert(recs == before + added);
        assert(e.entry_type == ABSTRACT || e.entry_type == WINDING_INCREMENT);
        if e.entry_type == ABSTRACT {
            assert(e.is_segment() && !e.is_winding());
            let seg = segs[e.seg_idx as int];
            assert(seg.path_idx <= u32::MAX);
            assert(added =~= seq![segment_record(e, seg, bound, mid)]);
        } else {
            assert(!e.is_segment() && e.is_winding());
            assert(added =~= seq![winding_record(e)]);
        }
        assert(added.len() == 1);
        assert forall|i: int| 0 <= i < recs.len() implies {
            &&& (#[trigger] recs[i]).path_idx == entries[i].path_idx
            &&& (entries[i].entry_type == ABSTRACT ==> recs[i].seg_idx == entries[i].seg_idx)
            &&& recs[i].parent_cell_id == entries[i].cell_id
            &&& (entries[i].entry_type == WINDING_INCREMENT ==> recs[i].split_info == 0)
            &&& recs[i] == record_for(entries[i], segs, bound, mid)
        } by {
            if i < before.len() {
                assert(recs[i] == before[i]);
                assert(entries[i] == init[i]);
                assert(before[i].path_idx == init[i].path_idx);
                assert(before[i] == record_for(init[i], segs, bound, mid));
            } else {
                assert(i == entries.len() - 1);
                assert(entries[i] == e);
                assert(recs[i] == added[0]);
                if e.entry_type == ABSTRACT {
                    let seg = segs[e.seg_idx as int];
                    assert(added[0] == segment_record(e, seg, bound, mid));
                    assert(e.path_idx == seg.path_idx);
                } else {
                    assert(added[0] == winding_record(e));
                }
            }
        }
    }
}

/// What the first `i` records of a cell in order emit into child `c` is in
/// order, and stays so with what the later records add.
proof fn lemma_emitted_prefix_ordered(
    entries: Seq<CellEntry>,
    segs: Seq<AbstractLineSegment>,
    recs: Seq<SplitRecord>,
    c: int,
    id: u32,
    i: int,
)
    requires
        cell_ordered(entries, segs),
        recs.len() == entries.len(),
        forall|j: int|
            0 <= j < recs.len() ==> {
                &&& (#[trigger] recs[j]).path_idx == entries[j].path_idx
                &&& (entries[j].entry_type == ABSTRACT ==> recs[j].seg_idx == entries[j].seg_idx)
                &&& (entries[j].entry_type == WINDING_INCREMENT ==> recs[j].split_info == 0)
            },
        0 <= c < 4,
        0 <= i <= recs.len(),
    ensures
        cell_ordered(all_owned_by(emitted_cell(recs, c, i), id), segs),
        forall|a: int, j: int|
            0 <= a < emitted_cell(recs, c, i).len() && i <= j < recs.len() ==> {
                &&& (#[trigger] emitted_cell(recs, c, i)[a]).path_idx <= (
                #[trigger] entries[j]).path_idx
                &&& (emitted_cell(recs, c, i)[a].entry_type == WINDING_INCREMENT ==> emitted_cell(
                    recs,
                    c,
                    i,
                )[a].path_idx < entries[j].path_idx)
                &&& (emitted_cell(recs, c, i)[a].entry_type == ABSTRACT && entries[j].entry_type
                    == ABSTRACT ==> emitted_cell(recs, c, i)[a].seg_idx != entries[j].seg_idx)
            },
    decreases i,
{
    lemma_kinds();
    let whole = emitted_cell(recs, c, i);
    if i > 0 {
        lemma_emitted_prefix_ordered(entries, segs, recs, c, id, i - 1);
        let prev = emitted_cell(recs, c, i - 1);
        let items = emits(recs, i - 1, c);
        let r = recs[i - 1];
        let e = entries[i - 1];
        let s = segment_entry(r, c);
        let w = winding_entry(r, c);
        assert(whole =~= prev + items);
        assert(r.path_idx == e.path_idx);
        if seg_out(r, c) == 1 {
            assert(r.split_info != 0) by {
                lemma_no_fill(c as u32);
            }
            assert(e.entry_type == ABSTRACT);
        }
        // what the items are
        assert forall|a: int| prev.len() <= a < whole.len() implies (#[trigger] whole[a]).path_idx
            == e.path_idx && (whole[a] == s || whole[a] == w) && (whole[a] == s ==> seg_out(r, c)
            == 1) && (whole[a] == w ==> winc_out(recs, i - 1, c) == 1) by {
            assert(whole[a] == items[a - prev.len()]);
        }
        // an entry before a winding entry of the items is their segment
        assert forall|a: int, b: int|
            prev.len() <= a < b < whole.len() implies (#[trigger] whole[a]) == s && (
        #[trigger] whole[b]) == w by {
            assert(whole[a] == items[a - prev.len()]);
            assert(whole[b] == items[b - prev.len()]);
        }
        let owned = all_owned_by(whole, id);
        assert forall|a: int| 0 <= a < owned.len() implies ((#[trigger] owned[a]).entry_type
            == ABSTRACT || owned[a].entry_type == WINDING_INCREMENT) && (owned[a].entry_type
            == ABSTRACT ==> owned[a].seg_idx < segs.len() && owned[a].path_idx
            == segs[owned[a].seg_idx as int].path_idx) by {
            if a < prev.len() {
                assert(whole[a] == prev[a]);
                assert(all_owned_by(prev, id)[a].entry_type == owned[a].entry_type);
            }
        }
        assert forall|a: int, b: int| 0 <= a < b < owned.len() implies (#[trigger] owned[a]).path_idx
            <= (#[trigger] owned[b]).path_idx && (owned[a].entry_type == WINDING_INCREMENT
            ==> owned[a].path_idx < owned[b].path_idx) && (owned[a].entry_type == ABSTRACT
            && owned[b].entry_type == ABSTRACT ==> owned[a].seg_idx != owned[b].seg_idx) by {
            if b < prev.len() {
                assert(whole[a] == prev[a] && whole[b] == prev[b]);
                let po = all_owned_by(prev, id);
                assert(po[a].path_idx <= po[b].path_idx);
            } else if a < prev.len() {
                assert(whole[a] == prev[a]);
                assert(prev[a].path_idx <= entries[i - 1].path_idx);
            }
        }
        assert forall|a: int, j: int|
            0 <= a < whole.len() && i <= j < recs.len() implies (#[trigger] whole[a]).path_idx <= (
        #[trigger] entries[j]).path_idx && (whole[a].entry_type == WINDING_INCREMENT
            ==> whole[a].path_idx < entries[j].path_idx) && (whole[a].entry_type == ABSTRACT
            && entries[j].entry_type == ABSTRACT ==> whole[a].seg_idx != entries[j].seg_idx) by {
            if a < prev.len() {
                assert(whole[a] == prev[a]);
            } else {
                assert(entries[i - 1].path_idx <= entries[j].path_idx);
                if whole[a] == w {
                    assert(is_tail(recs, i - 1));
                    assert(entries[i - 1].path_idx <= entries[i].path_idx);
                    if i < j {
                        assert(entries[i].path_idx <= entries[j].path_idx);
                    }
                }
            }
        }
    }
}

/// The order is kept from a cell to its children: where the entries of a
/// cell are in order, so are the entries that their subdivision emits into
/// each child.
pub proof fn lemma_subdivided_ordered(
    entries: Seq<CellEntry>,
    segs: Seq<AbstractLineSegment>,
    bound: RectView,
    mid: Point,
    c: u32,
    child: u32,
)
    requires
        cell_ordered(entries, segs),
        forall|i: int| 0 <= i < segs.len() ==> (#[trigger] segs[i]).path_idx <= u32::MAX,
        c < 4,
    ensures
        cell_ordered(child_entries(subdivided(entries, segs, bound, mid), c, child), segs),
{
    let recs = split_records(entries, segs, bound, mid);
    let sc = scanned(recs);
    lemma_records_of_ordered(entries, segs, bound, mid);
    lemma_child_entries_of_emitted(sc, c, child);
    lemma_emitted_prefix_ordered(entries, segs, sc, c as int, child, sc.len() as int);
}

/// The root's entries are in order where the segments come path after path.
pub proof fn lemma_root_ordered(segs: Seq<AbstractLineSegment>)
    requires
        paths_ascending(segs),
        segs.len() <= u32::MAX,
        forall|i: int| 0 <= i < segs.len() ==> (#[trigger] segs[i]).path_idx <= u32::MAX,
    ensures
        cell_ordered(crate::cell_entry::root_entries(segs), segs),
{
}

} // verus!
