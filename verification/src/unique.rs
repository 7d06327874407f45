//! What holds of the entries that a subdivision emits: no segment twice in a
//! cell, and one winding entry per path and cell at most.
use crate::cell_entry::{lemma_fill_is_any_fill, spec_has_any_fill, CellEntry, SplitRecord};
use crate::scan::{is_tail, seg_out, winc_out};
use crate::scatter::{
    child_id, emits, emitted, emitted_before, emitted_cell, lemma_entry_kinds, segment_entry,
    winding_entry,
};
use vstd::prelude::*;

verus! {

/// No two segment entries agree in cell, path and segment.
pub open spec fn segments_unique(entries: Seq<CellEntry>) -> bool {
    forall|a: int, b: int|
        0 <= a < b < entries.len() && (#[trigger] entries[a]).is_segment() && (
        #[trigger] entries[b]).is_segment() ==> !(entries[a].cell_id == entries[b].cell_id
            && entries[a].path_idx == entries[b].path_idx && entries[a].seg_idx
            == entries[b].seg_idx)
}

/// No two winding entries agree in cell and path.
pub open spec fn windings_unique(entries: Seq<CellEntry>) -> bool {
    forall|a: int, b: int|
        0 <= a < b < entries.len() && (#[trigger] entries[a]).is_winding() && (
        #[trigger] entries[b]).is_winding() ==> !(entries[a].cell_id == entries[b].cell_id
            && entries[a].path_idx == entries[b].path_idx)
}

/// No two records that keep their segment in some child agree in parent
/// cell, path and segment.
pub open spec fn record_segments_unique(recs: Seq<SplitRecord>) -> bool {
    forall|i: int, j: int|
        0 <= i < j < recs.len() && spec_has_any_fill((#[trigger] recs[i]).split_info)
            && spec_has_any_fill((#[trigger] recs[j]).split_info) ==> !(recs[i].parent_cell_id
            == recs[j].parent_cell_id && recs[i].path_idx == recs[j].path_idx && recs[i].seg_idx
            == recs[j].seg_idx)
}

/// The records of each path stand together: between two records of one path
/// there is no record of another.
pub open spec fn grouped_by_path(recs: Seq<SplitRecord>) -> bool {
    forall|i: int, m: int, j: int|
        0 <= i < m < j < recs.len() && (#[trigger] recs[i]).path_idx == (
        #[trigger] recs[j]).path_idx ==> (#[trigger] recs[m]).path_idx == recs[i].path_idx
}

/// The identifier of every child of every record's parent fits 32 bits.
pub open spec fn parents_fit(recs: Seq<SplitRecord>) -> bool {
    forall|i: int| 0 <= i < recs.len() ==> child_id((#[trigger] recs[i]).parent_cell_id, 3) <= u32::MAX
}

/// Record `i` emits `e` into child `c`.
pub open spec fn emitted_by(e: CellEntry, recs: Seq<SplitRecord>, c: int, i: int) -> bool {
    &&& 0 <= c < 4
    &&& 0 <= i < recs.len()
    &&& (seg_out(recs[i], c) == 1 && e == segment_entry(recs[i], c)) || (winc_out(recs, i, c) == 1
        && e == winding_entry(recs[i], c))
}

/// Child `c1` and record `i1` come before child `c` and record `i` in the
/// order of emission.
pub open spec fn comes_before(c1: int, i1: int, c: int, i: int) -> bool {
    c1 < c || (c1 == c && i1 < i)
}

/// `e` was emitted before child `c` and record `i`.
spec fn emitted_earlier(e: CellEntry, recs: Seq<SplitRecord>, c: int, i: int) -> bool {
    exists|c1: int, i1: int| comes_before(c1, i1, c, i) && #[trigger] emitted_by(e, recs, c1, i1)
}

/// Every entry of `s` was emitted before child `c` and record `i`.
spec fn all_emitted_before(s: Seq<CellEntry>, recs: Seq<SplitRecord>, c: int, i: int) -> bool {
    forall|a: int| 0 <= a < s.len() ==> emitted_earlier(#[trigger] s[a], recs, c, i)
}

/// The new entry `e`, which record `i` emits into child `c`, repeats no
/// entry that was emitted before.
proof fn lemma_new_entry_differs(
    recs: Seq<SplitRecord>,
    old_entry: CellEntry,
    c1: int,
    i1: int,
    e: CellEntry,
    c: int,
    i: int,
)
    requires
        record_segments_unique(recs),
        grouped_by_path(recs),
        parents_fit(recs),
        emitted_by(old_entry, recs, c1, i1),
        emitted_by(e, recs, c, i),
        comes_before(c1, i1, c, i),
    ensures
        old_entry.is_segment() && e.is_segment() ==> !(old_entry.cell_id == e.cell_id
            && old_entry.path_idx == e.path_idx && old_entry.seg_idx == e.seg_idx),
        old_entry.is_winding() && e.is_winding() ==> !(old_entry.cell_id == e.cell_id
            && old_entry.path_idx == e.path_idx),
{
    lemma_entry_kinds(recs[i1], c1);
    lemma_entry_kinds(recs[i], c);
    assert(child_id(recs[i1].parent_cell_id, 3) <= u32::MAX);
    assert(child_id(recs[i].parent_cell_id, 3) <= u32::MAX);
    if old_entry.cell_id == e.cell_id {
        assert(child_id(recs[i1].parent_cell_id, c1) == child_id(recs[i].parent_cell_id, c));
        assert(c1 == c);
        assert(recs[i1].parent_cell_id == recs[i].parent_cell_id);
        assert(i1 < i);
        if old_entry.is_segment() && e.is_segment() {
            lemma_fill_is_any_fill(recs[i1].split_info, c as u32);
            lemma_fill_is_any_fill(recs[i].split_info, c as u32);
        }
        if old_entry.is_winding() && e.is_winding() && old_entry.path_idx == e.path_idx {
            assert(is_tail(recs, i1));
            assert(recs[i1].path_idx == recs[i].path_idx);
            if i1 + 1 < i {
                assert(recs[i1 + 1].path_idx == recs[i1].path_idx);
            }
        }
    }
}

/// What is emitted before child `c` and record `i` holds no segment twice
/// and no two winding entries of one path and cell.
proof fn lemma_prefix_unique(recs: Seq<SplitRecord>, c: int, i: int)
    requires
        record_segments_unique(recs),
        grouped_by_path(recs),
        parents_fit(recs),
        0 <= c < 4,
        0 <= i <= recs.len(),
    ensures
        all_emitted_before(emitted_before(recs, c) + emitted_cell(recs, c, i), recs, c, i),
        segments_unique(emitted_before(recs, c) + emitted_cell(recs, c, i)),
        windings_unique(emitted_before(recs, c) + emitted_cell(recs, c, i)),
    decreases c, i,
{
    let whole = emitted_before(recs, c) + emitted_cell(recs, c, i);
    if i == 0 {
        assert(whole =~= emitted_before(recs, c));
        if c > 0 {
            lemma_prefix_unique(recs, c - 1, recs.len() as int);
            let prev = emitted_before(recs, c - 1) + emitted_cell(recs, c - 1, recs.len() as int);
            assert(whole =~= prev);
            assert forall|a: int| 0 <= a < whole.len() implies emitted_earlier(
                #[trigger] whole[a],
                recs,
                c,
                i,
            ) by {
                assert(emitted_earlier(prev[a], recs, c - 1, recs.len() as int));
                let (c1, i1) = choose|c1: int, i1: int|
                    comes_before(c1, i1, c - 1, recs.len() as int) && #[trigger] emitted_by(
                        prev[a],
                        recs,
                        c1,
                        i1,
                    );
                assert(comes_before(c1, i1, c, i) && emitted_by(whole[a], recs, c1, i1));
            }
        }
    } else {
        lemma_prefix_unique(recs, c, i - 1);
        let prev = emitted_before(recs, c) + emitted_cell(recs, c, i - 1);
        let items = emits(recs, i - 1, c);
        assert(whole =~= prev + items);
        lemma_entry_kinds(recs[i - 1], c);
        assert forall|a: int| 0 <= a < whole.len() implies emitted_earlier(
            #[trigger] whole[a],
            recs,
            c,
            i,
        ) by {
            if a < prev.len() {
                assert(emitted_earlier(prev[a], recs, c, i - 1));
                let (c1, i1) = choose|c1: int, i1: int|
                    comes_before(c1, i1, c, i - 1) && #[trigger] emitted_by(prev[a], recs, c1, i1);
                assert(comes_before(c1, i1, c, i) && emitted_by(whole[a], recs, c1, i1));
            } else {
                assert(whole[a] == items[a - prev.len()]);
                assert(comes_before(c, i - 1, c, i) && emitted_by(whole[a], recs, c, i - 1));
            }
        }
        assert forall|a: int, b: int|
            0 <= a < b < whole.len() implies (((#[trigger] whole[a]).is_segment() && (
        #[trigger] whole[b]).is_segment()) ==> !(whole[a].cell_id == whole[b].cell_id
            && whole[a].path_idx == whole[b].path_idx && whole[a].seg_idx == whole[b].seg_idx))
            && ((whole[a].is_winding() && whole[b].is_winding()) ==> !(whole[a].cell_id
            == whole[b].cell_id && whole[a].path_idx == whole[b].path_idx)) by {
            if b < prev.len() {
                assert(whole[a] == prev[a] && whole[b] == prev[b]);
            } else if a < prev.len() {
                assert(emitted_earlier(prev[a], recs, c, i - 1));
                let (c1, i1) = choose|c1: int, i1: int|
                    comes_before(c1, i1, c, i - 1) && #[trigger] emitted_by(prev[a], recs, c1, i1);
                assert(whole[b] == items[b - prev.len()]);
                assert(emitted_by(whole[b], recs, c, i - 1));
                lemma_new_entry_differs(recs, prev[a], c1, i1, whole[b], c, i - 1);
            } else {
                assert(whole[a] == items[a - prev.len()]);
                assert(whole[b] == items[b - prev.len()]);
            }
        }
    }
}

/// Scatter uniqueness. Where no two records stand for one segment of one
/// parent cell, the records of each path stand together, and the children's
/// identifiers fit their 32 bits, the emitted entries hold no segment twice
/// for one cell and path, and no more than one winding entry for one cell
/// and path.
pub proof fn lemma_emitted_unique(recs: Seq<SplitRecord>)
    requires
        record_segments_unique(recs),
        grouped_by_path(recs),
        parents_fit(recs),
    ensures
        segments_unique(emitted(recs)),
        windings_unique(emitted(recs)),
{
    lemma_prefix_unique(recs, 3, recs.len() as int);
    assert(emitted(recs) =~= emitted_before(recs, 3) + emitted_cell(recs, 3, recs.len() as int));
}

} // verus!
