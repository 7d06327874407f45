//! The last pass of a subdivision: each record writes the entries it emits
//! at its offsets, child by child.
use crate::cell_entry::{
    has_down, has_fill, has_up, lemma_kinds, records, spec_has_down, spec_has_up, CellEntry,
    SplitEntry, SplitRecord, ABSTRACT, BOTTOM_LEFT, BOTTOM_RIGHT, NONE_U32, TOP_LEFT, TOP_RIGHT,
    WINDING_INCREMENT,
};
use crate::scan::{
    cell_outputs, is_tail, offset_of, out_count, outputs_before, seg_out, total_outputs, winc_out,
};
use vstd::prelude::*;

verus! {

/// The shortcut marker that the flag field holds for child `c`: `+1` upward,
/// `-1` downward, `0` none. Upward wins where both bits are set.
pub open spec fn shortcut_of(split_info: u32, c: int) -> int {
    if spec_has_up(split_info, c as u32) {
        1
    } else if spec_has_down(split_info, c as u32) {
        -1
    } else {
        0
    }
}

/// The identifier of child `c` of the cell `parent`.
pub open spec fn child_id(parent: u32, c: int) -> int {
    parent * 4 + c
}

/// The segment entry that record `r` puts into child `c`.
pub open spec fn segment_entry(r: SplitRecord, c: int) -> CellEntry {
    CellEntry {
        entry_type: ABSTRACT,
        data: shortcut_of(r.split_info, c) as i32,
        seg_idx: r.seg_idx,
        path_idx: r.path_idx,
        cell_pos: c as u32,
        cell_id: child_id(r.parent_cell_id, c) as u32,
    }
}

/// The winding entry that record `r`, the tail of its run, puts into child
/// `c`: the run's winding there.
pub open spec fn winding_entry(r: SplitRecord, c: int) -> CellEntry {
    CellEntry {
        entry_type: WINDING_INCREMENT,
        data: r.winding[c] as i32,
        seg_idx: NONE_U32,
        path_idx: r.path_idx,
        cell_pos: c as u32,
        cell_id: child_id(r.parent_cell_id, c) as u32,
    }
}

/// An emitted segment entry is a segment entry and no winding entry, an
/// emitted winding entry a winding entry and no segment entry.
pub(crate) proof fn lemma_entry_kinds(r: SplitRecord, c: int)
    ensures
        segment_entry(r, c).is_segment(),
        !segment_entry(r, c).is_winding(),
        winding_entry(r, c).is_winding(),
        !winding_entry(r, c).is_segment(),
{
    lemma_kinds();
}

/// The entries that record `i` emits into child `c`: its segment entry if
/// the segment is kept there, then the run's winding entry if the record is
/// the tail of its run and the winding is not zero.
pub open spec fn emits(recs: Seq<SplitRecord>, i: int, c: int) -> Seq<CellEntry> {
    (if seg_out(recs[i], c) == 1 {
        seq![segment_entry(recs[i], c)]
    } else {
        seq![]
    }) + (if winc_out(recs, i, c) == 1 {
        seq![winding_entry(recs[i], c)]
    } else {
        seq![]
    })
}

/// Record `i` does not write into child `c` because the next record of its
/// run has the same offset there.
pub open spec fn skipped(recs: Seq<SplitRecord>, i: int, c: int) -> bool {
    !is_tail(recs, i) && recs[i + 1].offsets[c] == recs[i].offsets[c]
}

/// `out` with `items` written from position `at` on.
pub open spec fn place(out: Seq<CellEntry>, at: int, items: Seq<CellEntry>) -> Seq<CellEntry> {
    Seq::new(
        out.len(),
        |k: int|
            if at <= k < at + items.len() {
                items[k - at]
            } else {
                out[k]
            },
    )
}

/// `out` after record `i` has written into child `c`.
pub open spec fn write_record(out: Seq<CellEntry>, recs: Seq<SplitRecord>, i: int, c: int) -> Seq<
    CellEntry,
> {
    if skipped(recs, i, c) {
        out
    } else {
        place(out, recs[i].offsets[c], emits(recs, i, c))
    }
}

/// `out` after the first `i` records have written into child `c`, in order.
pub open spec fn scatter_cell(out: Seq<CellEntry>, recs: Seq<SplitRecord>, c: int, i: int) -> Seq<
    CellEntry,
>
    decreases i,
{
    if i <= 0 {
        out
    } else {
        write_record(scatter_cell(out, recs, c, i - 1), recs, i - 1, c)
    }
}

/// A buffer of `size` default entries after all records have written into
/// the children before `c`, child by child.
pub open spec fn scatter_cells(recs: Seq<SplitRecord>, size: int, c: int) -> Seq<CellEntry>
    decreases c,
{
    if c <= 0 {
        Seq::new(size as nat, |k: int| CellEntry::spec_default())
    } else {
        scatter_cell(scatter_cells(recs, size, c - 1), recs, c - 1, recs.len() as int)
    }
}

/// Every write lands inside a buffer of `size` entries, and the identifier
/// of every child that is written to fits 32 bits.
pub open spec fn writes_fit(recs: Seq<SplitRecord>, size: int) -> bool {
    forall|i: int, c: int|
        0 <= i < recs.len() && 0 <= c < 4 && !skipped(recs, i, c) && #[trigger] out_count(
            recs,
            i,
            c,
        ) > 0 ==> recs[i].offsets[c] + out_count(recs, i, c) <= size && child_id(
            recs[i].parent_cell_id,
            c,
        ) <= u32::MAX
}

/// Scatters the split entries into the entries of the next level.
///
/// The result has `out_vec_size` entries. Child by child and record by
/// record, each record writes the entries it emits at its offset for that
/// child, unless the next record of its run has the same offset; a later
/// write replaces an earlier one, and a slot that nothing writes to holds the
/// default entry.
pub fn split_to_cell_entry(split_entries: &mut [SplitEntry], out_vec_size: u32) -> (cell_entries:
    Vec<CellEntry>)
    requires
        writes_fit(records(old(split_entries)@), out_vec_size as int),
    ensures
        final(split_entries)@ == old(split_entries)@,
        cell_entries@ == scatter_cells(records(old(split_entries)@), out_vec_size as int, 4),
{
    let ghost recs = records(split_entries@);
    let n = split_entries.len();
    let mut cell_entries: Vec<CellEntry> = vec![CellEntry::default(); out_vec_size as usize];
    assert(cell_entries@ =~= scatter_cells(recs, out_vec_size as int, 0));
    let order: [u32; 4] = [TOP_LEFT, TOP_RIGHT, BOTTOM_LEFT, BOTTOM_RIGHT];
    let mut k: usize = 0;
    while k < 4
        invariant
            k <= 4,
            n == split_entries@.len(),
            split_entries@ == old(split_entries)@,
            recs == records(split_entries@),
            order[0] == 0 && order[1] == 1 && order[2] == 2 && order[3] == 3,
            writes_fit(recs, out_vec_size as int),
            cell_entries@.len() == out_vec_size,
            cell_entries@ == scatter_cells(recs, out_vec_size as int, k as int),
        decreases 4 - k,
    {
        let cell = order[k];
        let ci = cell as usize;
        let mut start: usize = 0;
        while start < n
            invariant
                k < 4,
                cell == k,
                ci == k,
                start <= n,
                n == split_entries@.len(),
                split_entries@ == old(split_entries)@,
                recs == records(split_entries@),
                writes_fit(recs, out_vec_size as int),
                cell_entries@.len() == out_vec_size,
                cell_entries@ == scatter_cell(
                    scatter_cells(recs, out_vec_size as int, k as int),
                    recs,
                    k as int,
                    start as int,
                ),
            decreases n - start,
        {
            let path = split_entries[start].path_idx;
            let mut end = start + 1;
            while end < n && split_entries[end].path_idx == path
                invariant
                    start < end <= n,
                    n == split_entries@.len(),
                    forall|j: int|
                        start <= j < end ==> (#[trigger] split_entries@[j]).path_idx == path,
                decreases n - end,
            {
                end += 1;
            }
            let tail = end - 1;

            let mut i = start;
            while i < end
                invariant
                    k < 4,
                    cell == k,
                    ci == k,
                    start <= i <= end <= n,
                    tail == end - 1,
                    n == split_entries@.len(),
                    split_entries@ == old(split_entries)@,
                    recs == records(split_entries@),
                    writes_fit(recs, out_vec_size as int),
                    cell_entries@.len() == out_vec_size,
                    forall|j: int|
                        start <= j < end ==> (#[trigger] split_entries@[j]).path_idx == path,
                    end == n || split_entries@[end as int].path_idx != path,
                    cell_entries@ == scatter_cell(
                        scatter_cells(recs, out_vec_size as int, k as int),
                        recs,
                        k as int,
                        i as int,
                    ),
                decreases end - i,
            {
                let curr = &split_entries[i];
                proof {
                    assert(split_entries@[i as int].path_idx == path);
                    if i < tail {
                        assert(split_entries@[i + 1].path_idx == path);
                    }
                    assert((i == tail) == is_tail(recs, i as int));
                    assert(recs[i as int].winding[k as int] == curr.split_data.winding[k as int]);
                    assert(recs[i as int].offsets[k as int] == curr.offsets[k as int]);
                    if i + 1 < n {
                        assert(recs[i + 1].offsets[k as int] == split_entries@[i
                            + 1].offsets[k as int]);
                    }
                }
                let same_as_next = i + 1 < end && split_entries[i + 1].offsets[ci]
                    == curr.offsets[ci];
                if !same_as_next {
                    let has_segment = has_fill(curr.split_data.split_info, cell);
                    let has_winding = (i == tail) && curr.split_data.winding[ci] != 0;
                    let shortcut: i32 = if has_up(curr.split_data.split_info, cell) {
                        1
                    } else if has_down(curr.split_data.split_info, cell) {
                        -1
                    } else {
                        0
                    };

                    let base = curr.offsets[ci] as usize;
                    let mut cursor = base;
                    let ghost before = cell_entries@;
                    assert(out_count(recs, i as int, k as int) == (if has_segment {
                        1int
                    } else {
                        0
                    }) + (if has_winding {
                        1int
                    } else {
                        0
                    }));
                    if has_segment {
                        cell_entries[cursor] = CellEntry {
                            entry_type: ABSTRACT,
                            data: shortcut,
                            seg_idx: curr.seg_idx,
                            path_idx: curr.path_idx,
                            cell_pos: cell,
                            cell_id: curr.parent_cell_id * 4 + cell,
                        };
                        cursor += 1;
                    }
                    if has_winding {
                        cell_entries[cursor] = CellEntry {
                            entry_type: WINDING_INCREMENT,
                            data: curr.split_data.winding[ci],
                            seg_idx: NONE_U32,
                            path_idx: curr.path_idx,
                            cell_pos: cell,
                            cell_id: curr.parent_cell_id * 4 + cell,
                        };
                    }
                    assert(cell_entries@ =~= place(
                        before,
                        recs[i as int].offsets[k as int],
                        emits(recs, i as int, k as int),
                    ));
                }
                i += 1;
            }

            start = end;
        }
        k += 1;
    }
    cell_entries
}

/// The entries that the first `i` records emit into child `c`, in order.
pub open spec fn emitted_cell(recs: Seq<SplitRecord>, c: int, i: int) -> Seq<CellEntry>
    decreases i,
{
    if i <= 0 {
        seq![]
    } else {
        emitted_cell(recs, c, i - 1) + emits(recs, i - 1, c)
    }
}

/// The entries that all records emit into the children before `c`, child by
/// child.
pub open spec fn emitted_before(recs: Seq<SplitRecord>, c: int) -> Seq<CellEntry>
    decreases c,
{
    if c <= 0 {
        seq![]
    } else {
        emitted_before(recs, c - 1) + emitted_cell(recs, c - 1, recs.len() as int)
    }
}

/// The next level's entries: what the records emit, child by child and,
/// within a child, record by record.
pub open spec fn emitted(recs: Seq<SplitRecord>) -> Seq<CellEntry> {
    emitted_before(recs, 4)
}

/// Every offset is the exclusive prefix sum of the output counts.
pub open spec fn offsets_exact(recs: Seq<SplitRecord>) -> bool {
    forall|i: int, c: int|
        0 <= i < recs.len() && 0 <= c < 4 ==> (#[trigger] recs[i].offsets[c]) == offset_of(
            recs,
            c,
            i,
        )
}

/// The entries emitted into a child by a prefix of the records are as many
/// as the output counts say.
pub(crate) proof fn lemma_emitted_cell_len(recs: Seq<SplitRecord>, c: int, i: int)
    ensures
        emitted_cell(recs, c, i).len() == cell_outputs(recs, c, i),
    decreases i,
{
    if i > 0 {
        lemma_emitted_cell_len(recs, c, i - 1);
    }
}

/// The entries emitted into the children before `c` are as many as the
/// output counts say.
proof fn lemma_emitted_before_len(recs: Seq<SplitRecord>, c: int)
    ensures
        emitted_before(recs, c).len() == outputs_before(recs, c),
    decreases c,
{
    if c > 0 {
        lemma_emitted_before_len(recs, c - 1);
        lemma_emitted_cell_len(recs, c - 1, recs.len() as int);
    }
}

/// `prefix`, followed by default entries up to `size`.
spec fn padded(prefix: Seq<CellEntry>, size: int) -> Seq<CellEntry> {
    Seq::new(
        size as nat,
        |k: int|
            if k < prefix.len() {
                prefix[k]
            } else {
                CellEntry::spec_default()
            },
    )
}

/// With exact offsets, the first `i` records write into child `c` what
/// they emit, right after what was emitted into the children before.
proof fn lemma_scatter_cell_exact(recs: Seq<SplitRecord>, size: int, c: int, i: int)
    requires
        offsets_exact(recs),
        0 <= c < 4,
        0 <= i <= recs.len(),
        size >= total_outputs(recs),
    ensures
        scatter_cell(padded(emitted_before(recs, c), size), recs, c, i) == padded(
            emitted_before(recs, c) + emitted_cell(recs, c, i),
            size,
        ),
    decreases i,
{
    let start = padded(emitted_before(recs, c), size);
    if i <= 0 {
        assert(emitted_before(recs, c) + emitted_cell(recs, c, i) =~= emitted_before(recs, c));
    } else {
        lemma_scatter_cell_exact(recs, size, c, i - 1);
        let done = emitted_before(recs, c) + emitted_cell(recs, c, i - 1);
        lemma_emitted_before_len(recs, c);
        lemma_emitted_cell_len(recs, c, i - 1);
        assert(done.len() == offset_of(recs, c, i - 1));
        assert(recs[i - 1].offsets[c] == offset_of(recs, c, i - 1));
        let items = emits(recs, i - 1, c);
        assert(items.len() == out_count(recs, i - 1, c));
        crate::scan::lemma_outputs_monotone(recs, c, i, recs.len() as int);
        crate::scan::lemma_before_monotone(recs, 0, c);
        crate::scan::lemma_before_monotone(recs, c + 1, 4);
        assert(done.len() + items.len() <= size);
        if skipped(recs, i - 1, c) {
            assert(recs[i].offsets[c] == offset_of(recs, c, i));
            assert(items.len() == 0);
            assert(done + items =~= done);
        } else {
            assert(place(padded(done, size), done.len() as int, items) =~= padded(
                done + items,
                size,
            ));
        }
        assert(emitted_before(recs, c) + emitted_cell(recs, c, i) =~= done + items);
    }
}

/// With exact offsets, the buffer begins with what was emitted into the
/// children before `c`.
proof fn lemma_scatter_cells_exact(recs: Seq<SplitRecord>, size: int, c: int)
    requires
        offsets_exact(recs),
        0 <= c <= 4,
        size >= total_outputs(recs),
    ensures
        scatter_cells(recs, size, c) == padded(emitted_before(recs, c), size),
    decreases c,
{
    if c <= 0 {
        crate::scan::lemma_before_monotone(recs, 0, 4);
        assert(scatter_cells(recs, size, c) =~= padded(emitted_before(recs, c), size));
    } else {
        lemma_scatter_cells_exact(recs, size, c - 1);
        lemma_scatter_cell_exact(recs, size, c - 1, recs.len() as int);
    }
}

/// With offsets that are the exclusive prefix sums and a buffer as long as
/// the total, the scatter leaves no default entry and no write replaces
/// another: the result is what the records emit, child by child and record
/// by record. Such writes all land inside the buffer.
pub proof fn lemma_scatter_of_exact_offsets(recs: Seq<SplitRecord>)
    requires
        offsets_exact(recs),
    ensures
        scatter_cells(recs, total_outputs(recs), 4) == emitted(recs),
        forall|i: int, c: int|
            0 <= i < recs.len() && 0 <= c < 4 ==> recs[i].offsets[c] + #[trigger] out_count(
                recs,
                i,
                c,
            ) <= total_outputs(recs),
{
    let size = total_outputs(recs);
    lemma_scatter_cells_exact(recs, size, 4);
    lemma_emitted_before_len(recs, 4);
    assert(padded(emitted(recs), size) =~= emitted(recs));
    assert forall|i: int, c: int| 0 <= i < recs.len() && 0 <= c < 4 implies recs[i].offsets[c]
        + #[trigger] out_count(recs, i, c) <= total_outputs(recs) by {
        assert(recs[i].offsets[c] == offset_of(recs, c, i));
        crate::scan::lemma_outputs_monotone(recs, c, i + 1, recs.len() as int);
        crate::scan::lemma_before_monotone(recs, 0, c);
        crate::scan::lemma_before_monotone(recs, c + 1, 4);
    }
}

} // verus!
