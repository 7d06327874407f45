//! The two scans of a subdivision: windings accumulate within each run of one
//! path, and output offsets count what the records before emit.
use crate::cell_entry::{
    has_fill, records, spec_has_fill, SplitEntry, SplitRecord, BOTTOM_LEFT, BOTTOM_RIGHT, TOP_LEFT,
    TOP_RIGHT,
};
use vstd::prelude::*;

verus! {

/// Record `i` belongs to the same path as the record before it.
pub open spec fn continues_run(recs: Seq<SplitRecord>, i: int) -> bool {
    0 < i < recs.len() && recs[i].path_idx == recs[i - 1].path_idx
}

/// The winding of child `c` summed from the first record of record `i`'s run
/// up to and including record `i`. A run is a maximal stretch of consecutive
/// records of one path.
pub open spec fn run_sum(recs: Seq<SplitRecord>, i: int, c: int) -> int
    decreases i,
{
    if i < 0 || i >= recs.len() {
        0
    } else if continues_run(recs, i) {
        run_sum(recs, i - 1, c) + recs[i].winding[c]
    } else {
        recs[i].winding[c]
    }
}

/// Every running sum fits the 32 bits that a record has for it.
pub open spec fn scan_fits(recs: Seq<SplitRecord>) -> bool {
    forall|i: int, c: int|
        0 <= i < recs.len() && 0 <= c < 4 ==> i32::MIN <= #[trigger] run_sum(recs, i, c)
            <= i32::MAX
}

/// The records with each winding replaced by its running sum.
pub open spec fn scanned(recs: Seq<SplitRecord>) -> Seq<SplitRecord> {
    Seq::new(
        recs.len(),
        |i: int|
            SplitRecord {
                winding: Seq::new(4, |c: int| run_sum(recs, i, c)),
                split_info: recs[i].split_info,
                offsets: recs[i].offsets,
                seg_idx: recs[i].seg_idx,
                path_idx: recs[i].path_idx,
                parent_cell_id: recs[i].parent_cell_id,
            },
    )
}

/// Replaces each winding by the inclusive sum of the windings of its run so
/// far, per child. The sum starts again where the path changes.
pub fn consolidate_winding_inc(split_entries: &mut Vec<SplitEntry>)
    requires
        scan_fits(records(old(split_entries)@)),
    ensures
        records(final(split_entries)@) == scanned(records(old(split_entries)@)),
{
    let ghost orig = records(split_entries@);
    let n = split_entries.len();
    assert(records(split_entries@).len() == n);
    if n == 0 {
        assert(records(split_entries@) =~= scanned(orig));
        return ;
    }
    assert(records(split_entries@)[0] =~= scanned(orig)[0]);
    let mut i: usize = 1;
    while i < n
        invariant
            1 <= i <= n,
            n == split_entries@.len(),
            orig.len() == n,
            scan_fits(orig),
            forall|j: int| 0 <= j < i ==> (#[trigger] split_entries@[j])@ == scanned(orig)[j],
            forall|j: int| i <= j < n ==> (#[trigger] split_entries@[j])@ == orig[j],
        decreases n - i,
    {
        let prev = split_entries[i - 1];
        let ghost current = split_entries@[i as int]@;
        if split_entries[i].path_idx == prev.path_idx {
            let mut cell: usize = 0;
            while cell < 4
                invariant
                    1 <= i < n,
                    cell <= 4,
                    n == split_entries@.len(),
                    orig.len() == n,
                    scan_fits(orig),
                    prev@ == scanned(orig)[i - 1],
                    continues_run(orig, i as int),
                    current == orig[i as int],
                    current.winding.len() == 4,
                    forall|j: int| 0 <= j < i ==> (#[trigger] split_entries@[j])@ == scanned(orig)[j],
                    forall|j: int| i < j < n ==> (#[trigger] split_entries@[j])@ == orig[j],
                    split_entries@[i as int]@.split_info == orig[i as int].split_info,
                    split_entries@[i as int]@.offsets == orig[i as int].offsets,
                    split_entries@[i as int]@.seg_idx == orig[i as int].seg_idx,
                    split_entries@[i as int]@.path_idx == orig[i as int].path_idx,
                    split_entries@[i as int]@.parent_cell_id == orig[i as int].parent_cell_id,
                    forall|c: int|
                        0 <= c < cell ==> split_entries@[i as int].split_data.winding[c] == run_sum(
                            orig,
                            i as int,
                            c,
                        ),
                    forall|c: int|
                        cell <= c < 4 ==> split_entries@[i as int].split_data.winding[c]
                            == current.winding[c],
                decreases 4 - cell,
            {
                let ghost before = split_entries@;
                assert(run_sum(orig, i as int, cell as int) == run_sum(
                    orig,
                    i - 1,
                    cell as int,
                ) + current.winding[cell as int]);
                assert(prev@.winding[cell as int] == prev.split_data.winding[cell as int]);
                assert(scanned(orig)[i - 1].winding[cell as int] == run_sum(
                    orig,
                    i - 1,
                    cell as int,
                ));
                split_entries[i].split_data.winding[cell] += prev.split_data.winding[cell];
                assert(forall|j: int| 0 <= j < n && j != i ==> split_entries@[j] == before[j]);
                assert(split_entries@[i as int]@.offsets =~= before[i as int]@.offsets);
                cell += 1;
            }
            assert(split_entries@[i as int]@ =~= scanned(orig)[i as int]);
        } else {
            assert(split_entries@[i as int]@ =~= scanned(orig)[i as int]);
        }
        i += 1;
    }
    assert(records(split_entries@) =~= scanned(orig));
}

/// Record `i` is the last of its run.
pub open spec fn is_tail(recs: Seq<SplitRecord>, i: int) -> bool {
    i + 1 == recs.len() || recs[i + 1].path_idx != recs[i].path_idx
}

/// `1` when record `r` puts a segment entry into child `c`, else `0`.
pub open spec fn seg_out(r: SplitRecord, c: int) -> int {
    if spec_has_fill(r.split_info, c as u32) {
        1
    } else {
        0
    }
}

/// `1` when record `i` puts a winding entry into child `c`, as the tail of a
/// run whose winding there is not zero does, else `0`.
pub open spec fn winc_out(recs: Seq<SplitRecord>, i: int, c: int) -> int {
    if is_tail(recs, i) && recs[i].winding[c] != 0 {
        1
    } else {
        0
    }
}

/// The number of entries that record `i` puts into child `c`.
pub open spec fn out_count(recs: Seq<SplitRecord>, i: int, c: int) -> int {
    seg_out(recs[i], c) + winc_out(recs, i, c)
}

/// The number of entries that the first `i` records put into child `c`.
pub open spec fn cell_outputs(recs: Seq<SplitRecord>, c: int, i: int) -> int
    decreases i,
{
    if i <= 0 {
        0
    } else {
        cell_outputs(recs, c, i - 1) + out_count(recs, i - 1, c)
    }
}

/// The number of entries that all records put into the children before `c`.
pub open spec fn outputs_before(recs: Seq<SplitRecord>, c: int) -> int
    decreases c,
{
    if c <= 0 {
        0
    } else {
        outputs_before(recs, c - 1) + cell_outputs(recs, c - 1, recs.len() as int)
    }
}

/// The exclusive prefix sum of the output counts at record `i` and child `c`,
/// in the order child first, then record: what is emitted into earlier
/// children, plus what earlier records emit into `c`.
pub open spec fn offset_of(recs: Seq<SplitRecord>, c: int, i: int) -> int {
    outputs_before(recs, c) + cell_outputs(recs, c, i)
}

/// The number of entries that the records emit in all.
pub open spec fn total_outputs(recs: Seq<SplitRecord>) -> int {
    outputs_before(recs, 4)
}

/// The records with each offset replaced by its exclusive prefix sum.
pub open spec fn with_offsets(recs: Seq<SplitRecord>) -> Seq<SplitRecord> {
    Seq::new(
        recs.len(),
        |i: int|
            SplitRecord {
                winding: recs[i].winding,
                split_info: recs[i].split_info,
                offsets: Seq::new(4, |c: int| offset_of(recs, c, i)),
                seg_idx: recs[i].seg_idx,
                path_idx: recs[i].path_idx,
                parent_cell_id: recs[i].parent_cell_id,
            },
    )
}

/// Output counts are never negative, so the prefix sums never decrease.
pub(crate) proof fn lemma_outputs_monotone(recs: Seq<SplitRecord>, c: int, i: int, j: int)
    requires
        0 <= i <= j,
    ensures
        0 <= cell_outputs(recs, c, i) <= cell_outputs(recs, c, j),
        cell_outputs(recs, c, j) <= cell_outputs(recs, c, i) + 2 * (j - i),
    decreases j,
{
    if i < j {
        lemma_outputs_monotone(recs, c, i, j - 1);
    } else if i > 0 {
        lemma_outputs_monotone(recs, c, i - 1, i - 1);
        lemma_outputs_monotone(recs, c, 0, i - 1);
    }
}

/// The outputs before a child never exceed the total.
pub(crate) proof fn lemma_before_monotone(recs: Seq<SplitRecord>, c: int, d: int)
    requires
        0 <= c <= d,
    ensures
        0 <= outputs_before(recs, c) <= outputs_before(recs, d),
    decreases d,
{
    if c < d {
        lemma_before_monotone(recs, c, d - 1);
        lemma_outputs_monotone(recs, d - 1, 0, recs.len() as int);
    } else if c > 0 {
        lemma_before_monotone(recs, 0, c - 1);
        lemma_outputs_monotone(recs, c - 1, 0, recs.len() as int);
    }
}

/// The offset after record `i` of child `c` is still within the total.
proof fn lemma_offset_within_total(recs: Seq<SplitRecord>, c: int, i: int)
    requires
        0 <= c < 4,
        0 <= i <= recs.len(),
    ensures
        0 <= offset_of(recs, c, i) <= total_outputs(recs),
        i == recs.len() ==> offset_of(recs, c, i) == outputs_before(recs, c + 1),
{
    lemma_outputs_monotone(recs, c, i, recs.len() as int);
    lemma_before_monotone(recs, 0, c);
    lemma_before_monotone(recs, c + 1, 4);
}

/// The entries are those of `orig` but for their offsets, which are final for
/// the children before `k` and for the first `i` records of child `k`.
spec fn offsets_assigned(cur: Seq<SplitEntry>, orig: Seq<SplitEntry>, k: int, i: int) -> bool {
    &&& cur.len() == orig.len()
    &&& forall|j: int|
        0 <= j < cur.len() ==> {
            &&& (#[trigger] cur[j]).split_data == orig[j].split_data
            &&& cur[j].seg_idx == orig[j].seg_idx
            &&& cur[j].path_idx == orig[j].path_idx
            &&& cur[j].parent_cell_id == orig[j].parent_cell_id
        }
    &&& forall|j: int, c: int|
        0 <= j < cur.len() && 0 <= c < 4 ==> (#[trigger] cur[j].offsets[c]) as int == if c < k || (c
            == k && j < i) {
            offset_of(records(orig), c, j)
        } else {
            orig[j].offsets[c] as int
        }
}

/// Gives each record, for each child, the number of entries emitted before
/// it: into the children before that child by all records, and into that
/// child by the records before this one. Returns the number of entries
/// emitted in all.
pub fn update_to_global_offset(entries: &mut [SplitEntry]) -> (total: u32)
    requires
        total_outputs(records(old(entries)@)) <= u32::MAX,
    ensures
        records(final(entries)@) == with_offsets(records(old(entries)@)),
        total == total_outputs(records(old(entries)@)),
{
    let ghost orig = entries@;
    let ghost recs = records(orig);
    let n = entries.len();
    let mut sum: u32 = 0;
    let order: [u32; 4] = [TOP_LEFT, TOP_RIGHT, BOTTOM_LEFT, BOTTOM_RIGHT];
    let mut k: usize = 0;
    while k < 4
        invariant
            k <= 4,
            n == entries@.len(),
            recs == records(orig),
            orig.len() == n,
            order[0] == 0 && order[1] == 1 && order[2] == 2 && order[3] == 3,
            total_outputs(recs) <= u32::MAX,
            sum == outputs_before(recs, k as int),
            offsets_assigned(entries@, orig, k as int, 0),
        decreases 4 - k,
    {
        let cell = order[k];
        let mut start: usize = 0;
        while start < n
            invariant
                k < 4,
                cell == k,
                start <= n,
                n == entries@.len(),
                recs == records(orig),
                orig.len() == n,
                total_outputs(recs) <= u32::MAX,
                sum == offset_of(recs, k as int, start as int),
                offsets_assigned(entries@, orig, k as int, start as int),
            decreases n - start,
        {
            // Find the start and tail entries in the same path
            let path = entries[start].path_idx;
            let mut end = start + 1;
            while end < n && entries[end].path_idx == path
                invariant
                    start < end <= n,
                    n == entries@.len(),
                    orig.len() == n,
                    offsets_assigned(entries@, orig, k as int, start as int),
                    forall|j: int| start <= j < end ==> (#[trigger] orig[j]).path_idx == path,
                decreases n - end,
            {
                end += 1;
            }
            let tail = end - 1;

            let mut i = start;
            while i < end
                invariant
                    k < 4,
                    cell == k,
                    start <= i <= end <= n,
                    tail == end - 1,
                    n == entries@.len(),
                    recs == records(orig),
                    orig.len() == n,
                    total_outputs(recs) <= u32::MAX,
                    sum == offset_of(recs, k as int, i as int),
                    offsets_assigned(entries@, orig, k as int, i as int),
                    forall|j: int| start <= j < end ==> (#[trigger] orig[j]).path_idx == path,
                    end == n || orig[end as int].path_idx != path,
                decreases end - i,
            {
                let split_info = entries[i].split_data.split_info;
                let seg_out: u32 = if has_fill(split_info, cell) { 1 } else { 0 };

                let is_tail = i == tail;
                let winc_out: u32 = if is_tail && entries[i].split_data.winding[cell as usize] != 0 {
                    1
                } else {
                    0
                };
                proof {
                    assert(orig[i as int].path_idx == path);
                    if i < tail {
                        assert(orig[i + 1].path_idx == path);
                    }
                    assert(is_tail == self::is_tail(recs, i as int));
                    assert(recs[i as int].winding[k as int]
                        == orig[i as int].split_data.winding[k as int]);
                    assert(seg_out + winc_out == out_count(recs, i as int, k as int));
                    lemma_offset_within_total(recs, k as int, i + 1);
                }
                let ghost before = entries@;
                entries[i].offsets[cell as usize] = sum;
                sum += seg_out + winc_out;
                proof {
                    assert(forall|j: int| 0 <= j < n && j != i ==> entries@[j] == before[j]);
                    assert(offsets_assigned(entries@, orig, k as int, i + 1));
                }
                i += 1;
            }

            start = end;
        }
        proof {
            lemma_offset_within_total(recs, k as int, n as int);
            assert(offsets_assigned(entries@, orig, k + 1, 0));
        }
        k += 1;
    }
    proof {
        assert forall|j: int| 0 <= j < n implies #[trigger] records(entries@)[j] == with_offsets(
            recs,
        )[j] by {
            assert(entries@[j].split_data == orig[j].split_data);
            assert(entries@[j]@.winding =~= orig[j]@.winding);
            assert forall|c: int| 0 <= c < 4 implies entries@[j]@.offsets[c] == offset_of(
                recs,
                c,
                j,
            ) by {
                assert(entries@[j].offsets[c] as int == offset_of(recs, c, j));
            }
            assert(entries@[j]@.offsets =~= with_offsets(recs)[j].offsets);
        }
        assert(records(entries@) =~= with_offsets(recs));
    }
    sum
}

} // verus!
