//! The quadtree: an arena of cells built level by level, and the entries of
//! its leaves.
use crate::abstract_segment::{AbstractLineSegment, SegType};
use crate::bounds::{
    cell_within, child_entries, lemma_cell_fits, lemma_child_within, owned_by, path_known,
    paths_known, segment_count, MAX_ENTRIES,
};
use crate::cell_entry::{init_root_cell_entries, root_entries, CellEntry, CellId, ABSTRACT};
use crate::error::RasterError;
use crate::geometry::point::Point;
use crate::geometry::rect::{Rect, RectView};
use crate::split::entries_valid;
use crate::order::{
    cell_ordered, lemma_ordered_is_unique, lemma_root_ordered, lemma_subdivided_ordered,
    paths_ascending,
};
use crate::unique::{segments_unique, windings_unique};
use crate::split::split_records;
use crate::subdivide::{
    child_rect, get_child_bounds, split_error, subdivide_cell_entry, subdivided, subdivision_fits,
};
use std::ops::Range;
use vstd::prelude::*;

verus! {

pub const TL_IDX: u32 = 0;

pub const TR_IDX: u32 = 1;

pub const BL_IDX: u32 = 2;

pub const BR_IDX: u32 = 3;

/// A reference to a segment from a cell, with the shortcut marker it has
/// there.
#[derive(Debug, Copy, Clone)]
pub struct CellSegmentRef {
    pub seg_index: usize,
    pub shortcut: i8,
}

/// A cell of the tree. An internal cell has four children; a leaf has the
/// range of its entries in the tree's entry buffer.
#[derive(Debug, Clone)]
pub struct QuadCell {
    pub id: CellId,
    pub depth: u8,
    pub bbox: Rect,
    pub children: Option<[CellId; 4]>,
    // This data will be filled once this cell is confirmed as a leaf
    pub leaf_entry_range: Option<Range<usize>>,
}

/// The cells, in the order in which a level-by-level walk creates them, and
/// the entries of the leaves, leaf after leaf.
#[derive(Debug)]
pub struct QuadTree {
    pub nodes: Vec<QuadCell>,
    pub entries: Vec<CellEntry>,
}

/// `4` to the power `d`.
pub open spec fn pow4(d: nat) -> nat
    decreases d,
{
    if d == 0 {
        1
    } else {
        4 * pow4((d - 1) as nat)
    }
}

/// The kinds of segment that are not rasterized.
pub open spec fn unsupported(t: SegType) -> bool {
    t == SegType::Quadratic || t == SegType::Cubic || t == SegType::Arc
}

/// Why no tree is built for these segments and this depth, if none is.
///
/// The segments, counted as one at least, times `4` to the power
/// `max_depth` must not exceed `MAX_ENTRIES`; no segment may be a curve; and
/// every path index must fit the 32 bits that entries have for it.
pub open spec fn tree_error(segs: Seq<AbstractLineSegment>, max_depth: u8) -> Option<RasterError> {
    if (if segs.len() == 0 { 1 } else { segs.len() }) * pow4(max_depth as nat) > MAX_ENTRIES {
        Some(RasterError::Overflow)
    } else if exists|i: int| 0 <= i < segs.len() && unsupported((#[trigger] segs[i]).seg_type) {
        Some(RasterError::UnsupportedSegment)
    } else if exists|i: int| 0 <= i < segs.len() && (#[trigger] segs[i]).path_idx > u32::MAX {
        Some(RasterError::Overflow)
    } else {
        None
    }
}

/// The grid point at the middle of a cell, where it is split.
pub open spec fn mid_of(b: RectView) -> Point {
    Point { x: b.mid_x() as i32, y: b.mid_y() as i32 }
}

/// Whether a cell with these entries, bounds and depth is split: it is above
/// the deepest level, it holds more than `min_seg` segment entries, and its
/// middle lies strictly inside it.
pub open spec fn splits(
    entries: Seq<CellEntry>,
    bbox: RectView,
    depth: int,
    max_depth: int,
    min_seg: int,
) -> bool {
    depth < max_depth && segment_count(entries) > min_seg && split_error(bbox, mid_of(bbox)).is_none()
}

/// The number of internal cells among the first `i`.
pub open spec fn internal_before(nodes: Seq<QuadCell>, i: int) -> int
    decreases i,
{
    if i <= 0 {
        0
    } else {
        internal_before(nodes, i - 1) + if nodes[i - 1].children.is_some() {
            1int
        } else {
            0
        }
    }
}

/// The number of entries that the leaves among the first `i` cells hold.
pub open spec fn leaf_start(nodes: Seq<QuadCell>, cells: Seq<Seq<CellEntry>>, i: int) -> int
    decreases i,
{
    if i <= 0 {
        0
    } else {
        leaf_start(nodes, cells, i - 1) + if nodes[i - 1].children.is_some() {
            0
        } else {
            cells[i - 1].len() as int
        }
    }
}

/// Child `c` of the internal cell `k` is where and what it has to be: the
/// children of a cell are four consecutive cells, the children of an earlier
/// internal cell come first, and cell `0` is the root. The child is one
/// level deeper, has the bounds of its quadrant, and holds the entries that
/// the subdivision of its parent's entries emits into it.
pub open spec fn child_built(
    nodes: Seq<QuadCell>,
    cells: Seq<Seq<CellEntry>>,
    segs: Seq<AbstractLineSegment>,
    k: int,
    c: int,
) -> bool {
    let node = nodes[k];
    let child = node.children.unwrap()[c] as int;
    let mid = mid_of(node.bbox@);
    &&& child == 1 + 4 * internal_before(nodes, k) + c
    &&& child < nodes.len()
    &&& nodes[child].depth == node.depth + 1
    &&& nodes[child].bbox@ == child_rect(node.bbox@, mid, c)
    &&& cells[child] == child_entries(
        subdivided(cells[k], segs, node.bbox@, mid),
        c as u32,
        child as u32,
    )
}

/// The leaf `k` has its entries in the buffer, right after the entries of
/// the leaves before it.
pub open spec fn leaf_built(
    nodes: Seq<QuadCell>,
    entries: Seq<CellEntry>,
    cells: Seq<Seq<CellEntry>>,
    k: int,
) -> bool {
    let range = nodes[k].leaf_entry_range.unwrap();
    &&& range.start == leaf_start(nodes, cells, k)
    &&& range.end == range.start + cells[k].len()
    &&& range.end <= entries.len()
    &&& entries.subrange(range.start as int, range.end as int) == cells[k]
}

/// The cell `k` is finished: it is internal exactly when it is to be split,
/// a leaf exactly when it is not, and built as its kind requires. The
/// entries of an internal cell were subdivided within the machine's
/// integers.
pub open spec fn node_built(
    nodes: Seq<QuadCell>,
    entries: Seq<CellEntry>,
    cells: Seq<Seq<CellEntry>>,
    segs: Seq<AbstractLineSegment>,
    max_depth: int,
    min_seg: int,
    k: int,
) -> bool {
    let node = nodes[k];
    &&& node.id == k
    &&& node.children.is_some() == splits(
        cells[k],
        node.bbox@,
        node.depth as int,
        max_depth,
        min_seg,
    )
    &&& node.children.is_some() != node.leaf_entry_range.is_some()
    &&& node.children.is_some() ==> forall|c: int|
        0 <= c < 4 ==> #[trigger] child_built(nodes, cells, segs, k, c)
    &&& node.children.is_some() ==> subdivision_fits(
        split_records(cells[k], segs, node.bbox@, mid_of(node.bbox@)),
    )
    &&& node.leaf_entry_range.is_some() ==> leaf_built(nodes, entries, cells, k)
}

/// The tree `(nodes, entries)` is the quadtree of `segs` over `root_bbox`,
/// where `cells` gives the entries of each cell.
pub open spec fn tree_built(
    nodes: Seq<QuadCell>,
    entries: Seq<CellEntry>,
    cells: Seq<Seq<CellEntry>>,
    segs: Seq<AbstractLineSegment>,
    root_bbox: RectView,
    max_depth: int,
    min_seg: int,
) -> bool {
    &&& nodes.len() == cells.len()
    &&& nodes.len() >= 1
    &&& nodes[0].depth == 0
    &&& nodes[0].bbox@ == root_bbox
    &&& cells[0] == root_entries(segs)
    &&& forall|k: int|
        0 <= k < nodes.len() ==> #[trigger] node_built(
            nodes,
            entries,
            cells,
            segs,
            max_depth,
            min_seg,
            k,
        )
    &&& nodes.len() == 1 + 4 * internal_before(nodes, nodes.len() as int)
    &&& entries.len() == leaf_start(nodes, cells, nodes.len() as int)
}

/// Every path index fits the 32 bits that entries have for it.
pub open spec fn paths_fit(segs: Seq<AbstractLineSegment>) -> bool {
    forall|i: int| 0 <= i < segs.len() ==> (#[trigger] segs[i]).path_idx <= u32::MAX
}

/// Where the segments come path after path, the entries of every cell are
/// in order.
pub open spec fn cells_ordered(cells: Seq<Seq<CellEntry>>, segs: Seq<AbstractLineSegment>) -> bool {
    paths_ascending(segs) ==> forall|k: int|
        0 <= k < cells.len() ==> cell_ordered(#[trigger] cells[k], segs)
}

impl QuadTree {
    /// Every cell is either internal, with four children, or a leaf, with
    /// its entry range: never neither, never both.
    pub open spec fn leaf_complete(self) -> bool {
        forall|k: int|
            0 <= k < self.nodes@.len() ==> (#[trigger] self.nodes@[k]).children.is_some()
                != self.nodes@[k].leaf_entry_range.is_some()
    }

    /// The ranges of the leaves lie within the entry buffer, the segment
    /// entries refer to segments of `segs`, and every entry belongs to the
    /// path of a segment of `segs`.
    pub open spec fn well_formed(self, segs: Seq<AbstractLineSegment>) -> bool {
        &&& entries_valid(self.entries@, segs)
        &&& paths_known(self.entries@, segs)
        &&& forall|k: int|
            0 <= k < self.nodes@.len() && (#[trigger] self.nodes@[k]).leaf_entry_range.is_some()
                ==> self.nodes@[k].leaf_entry_range.unwrap().start
                <= self.nodes@[k].leaf_entry_range.unwrap().end <= self.entries@.len()
    }
}

/// The cell is not finished: it has neither children nor an entry range.
spec fn pending(node: QuadCell, k: int) -> bool {
    node.children.is_none() && node.leaf_entry_range.is_none() && node.id == k
}

/// The tree while it is built: the cells before `decided` are finished, the
/// others are pending, and the leaf buffer holds the entries of the leaves
/// that are finished.
spec fn building(
    nodes: Seq<QuadCell>,
    leaf_entries: Seq<CellEntry>,
    cells: Seq<Seq<CellEntry>>,
    segs: Seq<AbstractLineSegment>,
    root_bbox: RectView,
    max_depth: int,
    min_seg: int,
    decided: int,
) -> bool {
    &&& nodes.len() == cells.len()
    &&& nodes.len() >= 1
    &&& nodes[0].depth == 0
    &&& nodes[0].bbox@ == root_bbox
    &&& cells[0] == root_entries(segs)
    &&& 0 <= decided <= nodes.len()
    &&& forall|k: int|
        0 <= k < decided ==> #[trigger] node_built(
            nodes,
            leaf_entries,
            cells,
            segs,
            max_depth,
            min_seg,
            k,
        )
    &&& forall|k: int| decided <= k < nodes.len() ==> pending(#[trigger] nodes[k], k)
    &&& nodes.len() == 1 + 4 * internal_before(nodes, decided)
    &&& leaf_entries.len() == leaf_start(nodes, cells, decided)
    &&& entries_valid(leaf_entries, segs)
    &&& paths_known(leaf_entries, segs)
}

/// Cell `first + j` of the frontier: its entries are the stretch `ranges[j]`
/// of `buffer`, within `cap`, and it is at level `depth`.
spec fn frontier_cell(
    nodes: Seq<QuadCell>,
    cells: Seq<Seq<CellEntry>>,
    segs: Seq<AbstractLineSegment>,
    ids: Seq<CellId>,
    ranges: Seq<Range<usize>>,
    buffer: Seq<CellEntry>,
    first: int,
    depth: int,
    cap: int,
    j: int,
) -> bool {
    &&& ids[j] == first + j
    &&& first + j < nodes.len()
    &&& nodes[first + j].depth == depth
    &&& ranges[j].start <= ranges[j].end <= buffer.len()
    &&& buffer.subrange(ranges[j].start as int, ranges[j].end as int) == cells[first + j]
    &&& cell_within(cells[first + j], segs, (first + j) as u32, cap)
}

/// The frontier: the cells `first`, `first + 1`, ... of one level, in order.
spec fn frontier(
    nodes: Seq<QuadCell>,
    cells: Seq<Seq<CellEntry>>,
    segs: Seq<AbstractLineSegment>,
    ids: Seq<CellId>,
    ranges: Seq<Range<usize>>,
    buffer: Seq<CellEntry>,
    first: int,
    depth: int,
    cap: int,
) -> bool {
    &&& ids.len() == ranges.len()
    &&& forall|j: int|
        0 <= j < ids.len() ==> #[trigger] frontier_cell(
            nodes,
            cells,
            segs,
            ids,
            ranges,
            buffer,
            first,
            depth,
            cap,
            j,
        )
}

/// The counts over the first `i` cells depend on these cells alone.
proof fn lemma_counts_frame(
    n1: Seq<QuadCell>,
    c1: Seq<Seq<CellEntry>>,
    n2: Seq<QuadCell>,
    c2: Seq<Seq<CellEntry>>,
    i: int,
)
    requires
        0 <= i <= n1.len(),
        i <= n2.len(),
        i <= c1.len(),
        i <= c2.len(),
        forall|j: int|
            0 <= j < i ==> (#[trigger] n1[j]).children.is_some() == n2[j].children.is_some(),
        forall|j: int| 0 <= j < i ==> (#[trigger] c1[j]) == c2[j],
    ensures
        internal_before(n1, i) == internal_before(n2, i),
        leaf_start(n1, c1, i) == leaf_start(n2, c2, i),
    decreases i,
{
    if i > 0 {
        lemma_counts_frame(n1, c1, n2, c2, i - 1);
    }
}

/// A finished cell stays finished when the tree grows: later cells change
/// or are added, and the leaf buffer gets longer.
proof fn lemma_node_built_frame(
    n1: Seq<QuadCell>,
    e1: Seq<CellEntry>,
    c1: Seq<Seq<CellEntry>>,
    n2: Seq<QuadCell>,
    e2: Seq<CellEntry>,
    c2: Seq<Seq<CellEntry>>,
    segs: Seq<AbstractLineSegment>,
    max_depth: int,
    min_seg: int,
    k: int,
)
    requires
        0 <= k < n1.len(),
        n1.len() <= n2.len(),
        n1.len() == c1.len(),
        n2.len() == c2.len(),
        node_built(n1, e1, c1, segs, max_depth, min_seg, k),
        forall|j: int| 0 <= j <= k ==> (#[trigger] n2[j]) == n1[j],
        forall|j: int|
            0 <= j < n1.len() ==> (#[trigger] n2[j]).depth == n1[j].depth && n2[j].bbox
                == n1[j].bbox,
        forall|j: int| 0 <= j < n1.len() ==> (#[trigger] c2[j]) == c1[j],
        e1.len() <= e2.len(),
        forall|a: int| 0 <= a < e1.len() ==> (#[trigger] e2[a]) == e1[a],
    ensures
        node_built(n2, e2, c2, segs, max_depth, min_seg, k),
{
    lemma_counts_frame(n1, c1, n2, c2, k);
    let node = n1[k];
    assert(n2[k] == node);
    assert(c2[k] == c1[k]);
    if node.children.is_some() {
        assert forall|c: int| 0 <= c < 4 implies #[trigger] child_built(n2, c2, segs, k, c) by {
            assert(child_built(n1, c1, segs, k, c));
            let child = node.children.unwrap()[c] as int;
            assert(n2[child].depth == n1[child].depth);
            assert(c2[child] == c1[child]);
        }
    }
    if node.leaf_entry_range.is_some() {
        let range = node.leaf_entry_range.unwrap();
        assert(e2.subrange(range.start as int, range.end as int) =~= e1.subrange(
            range.start as int,
            range.end as int,
        ));
    }
}

/// The number of segment entries.
fn count_segments(entries: &Vec<CellEntry>) -> (n: usize)
    ensures
        n == segment_count(entries@),
{
    let mut n: usize = 0;
    let mut i: usize = 0;
    assert(entries@.subrange(0, 0) =~= Seq::<CellEntry>::empty());
    while i < entries.len()
        invariant
            i <= entries@.len(),
            n == segment_count(entries@.subrange(0, i as int)),
            n <= i,
        decreases entries@.len() - i,
    {
        assert(entries@.subrange(0, i + 1).drop_last() =~= entries@.subrange(0, i as int));
        assert(entries@.subrange(0, i + 1).last() == entries@[i as int]);
        if (entries[i].entry_type & ABSTRACT) != 0 {
            n += 1;
        }
        i += 1;
    }
    assert(entries@.subrange(0, i as int) =~= entries@);
    n
}

/// A copy of the entries `start..end` of `src`.
fn copy_entries(src: &Vec<CellEntry>, start: usize, end: usize) -> (r: Vec<CellEntry>)
    requires
        start <= end <= src@.len(),
    ensures
        r@ == src@.subrange(start as int, end as int),
{
    let mut r: Vec<CellEntry> = Vec::new();
    let mut i = start;
    while i < end
        invariant
            start <= i <= end <= src@.len(),
            r@ == src@.subrange(start as int, i as int),
        decreases end - i,
    {
        r.push(src[i]);
        i += 1;
        assert(r@ =~= src@.subrange(start as int, i as int));
    }
    r
}

/// Appends `src` to `dst`.
fn append_entries(dst: &mut Vec<CellEntry>, src: &Vec<CellEntry>)
    ensures
        final(dst)@ == old(dst)@ + src@,
{
    let mut i: usize = 0;
    assert(dst@ =~= old(dst)@ + src@.subrange(0, 0));
    while i < src.len()
        invariant
            i <= src@.len(),
            dst@ == old(dst)@ + src@.subrange(0, i as int),
        decreases src@.len() - i,
    {
        dst.push(src[i]);
        i += 1;
        assert(dst@ =~= old(dst)@ + src@.subrange(0, i as int));
    }
    assert(src@.subrange(0, i as int) =~= src@);
}

/// The entries of `flat` that belong to child `c`, each now owned by `id`.
fn bucket_child(flat: &Vec<CellEntry>, c: u32, id: CellId) -> (r: Vec<CellEntry>)
    ensures
        r@ == child_entries(flat@, c, id),
{
    let mut r: Vec<CellEntry> = Vec::new();
    let mut i: usize = 0;
    assert(flat@.subrange(0, 0) =~= Seq::<CellEntry>::empty());
    while i < flat.len()
        invariant
            i <= flat@.len(),
            r@ == child_entries(flat@.subrange(0, i as int), c, id),
        decreases flat@.len() - i,
    {
        assert(flat@.subrange(0, i + 1).drop_last() =~= flat@.subrange(0, i as int));
        assert(flat@.subrange(0, i + 1).last() == flat@[i as int]);
        let mut e = flat[i];
        if e.cell_pos == c {
            e.cell_id = id;  // set actual child cell id
            assert(e == owned_by(flat@[i as int], id));
            r.push(e);
        }
        i += 1;
    }
    assert(flat@.subrange(0, i as int) =~= flat@);
    r
}

/// The frontier stays what it is when cells are added behind it, finished
/// or given children, and when its buffer gets longer.
proof fn lemma_frontier_frame(
    n1: Seq<QuadCell>,
    c1: Seq<Seq<CellEntry>>,
    b1: Seq<CellEntry>,
    n2: Seq<QuadCell>,
    c2: Seq<Seq<CellEntry>>,
    b2: Seq<CellEntry>,
    segs: Seq<AbstractLineSegment>,
    ids: Seq<CellId>,
    ranges: Seq<Range<usize>>,
    first: int,
    depth: int,
    cap: int,
)
    requires
        frontier(n1, c1, segs, ids, ranges, b1, first, depth, cap),
        n1.len() <= n2.len(),
        n1.len() == c1.len(),
        n2.len() == c2.len(),
        first >= 0,
        forall|j: int| 0 <= j < n1.len() ==> (#[trigger] n2[j]).depth == n1[j].depth,
        forall|j: int| 0 <= j < n1.len() ==> (#[trigger] c2[j]) == c1[j],
        b1.len() <= b2.len(),
        forall|a: int| 0 <= a < b1.len() ==> (#[trigger] b2[a]) == b1[a],
    ensures
        frontier(n2, c2, segs, ids, ranges, b2, first, depth, cap),
{
    assert forall|j: int| 0 <= j < ids.len() implies #[trigger] frontier_cell(
        n2,
        c2,
        segs,
        ids,
        ranges,
        b2,
        first,
        depth,
        cap,
        j,
    ) by {
        assert(frontier_cell(n1, c1, segs, ids, ranges, b1, first, depth, cap, j));
        assert(n2[first + j].depth == n1[first + j].depth);
        assert(c2[first + j] == c1[first + j]);
        assert(b2.subrange(ranges[j].start as int, ranges[j].end as int) =~= b1.subrange(
            ranges[j].start as int,
            ranges[j].end as int,
        ));
    }
}

/// Valid entries of known paths, one list after the other, are valid
/// entries of known paths.
proof fn lemma_entries_valid_append(
    a: Seq<CellEntry>,
    b: Seq<CellEntry>,
    segs: Seq<AbstractLineSegment>,
)
    requires
        entries_valid(a, segs),
        entries_valid(b, segs),
        paths_known(a, segs),
        paths_known(b, segs),
    ensures
        entries_valid(a + b, segs),
        paths_known(a + b, segs),
{
    assert forall|i: int| 0 <= i < (a + b).len() implies path_known(
        (#[trigger] (a + b)[i]).path_idx,
        segs,
    ) by {
        if i < a.len() {
            assert((a + b)[i] == a[i]);
        } else {
            assert((a + b)[i] == b[i - a.len()]);
        }
    }
    assert forall|i: int| 0 <= i < (a + b).len() && (#[trigger] (a + b)[i]).is_segment() implies (a
        + b)[i].seg_idx < segs.len() && segs[(a + b)[i].seg_idx as int].path_idx <= u32::MAX by {
        if i < a.len() {
            assert((a + b)[i] == a[i]);
        } else {
            assert((a + b)[i] == b[i - a.len()]);
        }
    }
}

/// Finishes the pending cell `cell_id` as a leaf: its entries go to the end
/// of the leaf buffer.
fn finalize_leaf(
    nodes: &mut Vec<QuadCell>,
    leaf_entries: &mut Vec<CellEntry>,
    cell_id: CellId,
    cell_entries: &Vec<CellEntry>,
    Ghost(cells): Ghost<Seq<Seq<CellEntry>>>,
    Ghost(segs): Ghost<Seq<AbstractLineSegment>>,
    Ghost(root_bbox): Ghost<RectView>,
    Ghost(max_depth): Ghost<int>,
    Ghost(min_seg): Ghost<int>,
)
    requires
        building(
            old(nodes)@,
            old(leaf_entries)@,
            cells,
            segs,
            root_bbox,
            max_depth,
            min_seg,
            cell_id as int,
        ),
        cell_id < old(nodes)@.len(),
        cell_entries@ == cells[cell_id as int],
        entries_valid(cell_entries@, segs),
        paths_known(cell_entries@, segs),
        !splits(
            cells[cell_id as int],
            old(nodes)@[cell_id as int].bbox@,
            old(nodes)@[cell_id as int].depth as int,
            max_depth,
            min_seg,
        ),
    ensures
        building(
            final(nodes)@,
            final(leaf_entries)@,
            cells,
            segs,
            root_bbox,
            max_depth,
            min_seg,
            cell_id + 1,
        ),
        final(nodes)@.len() == old(nodes)@.len(),
        forall|j: int|
            0 <= j < old(nodes)@.len() ==> (#[trigger] final(nodes)@[j]).depth == old(
                nodes,
            )@[j].depth && final(nodes)@[j].bbox == old(nodes)@[j].bbox,
{
    let ghost n1 = nodes@;
    let ghost e1 = leaf_entries@;
    let start = leaf_entries.len();
    append_entries(leaf_entries, cell_entries);
    let end = leaf_entries.len();
    nodes[cell_id as usize].leaf_entry_range = Some(start..end);
    proof {
        let n2 = nodes@;
        let e2 = leaf_entries@;
        let p = cell_id as int;
        assert(pending(n1[p], p));
        assert forall|k: int| 0 <= k < p implies #[trigger] node_built(
            n2,
            e2,
            cells,
            segs,
            max_depth,
            min_seg,
            k,
        ) by {
            assert(node_built(n1, e1, cells, segs, max_depth, min_seg, k));
            lemma_node_built_frame(n1, e1, cells, n2, e2, cells, segs, max_depth, min_seg, k);
        }
        lemma_counts_frame(n1, cells, n2, cells, p);
        assert(e2.subrange(start as int, end as int) =~= cells[p]);
        assert(node_built(n2, e2, cells, segs, max_depth, min_seg, p));
        assert forall|k: int| p + 1 <= k < n2.len() implies pending(#[trigger] n2[k], k) by {
            assert(pending(n1[k], k));
        }
        lemma_entries_valid_append(e1, cell_entries@, segs);
    }
}

/// Finishes the pending cell `parent_id` as an internal cell: its four
/// children are added to the arena, its entries are subdivided, and each
/// child joins the next frontier with the entries emitted into it.
fn split_cell(
    nodes: &mut Vec<QuadCell>,
    cells_next: &mut Vec<CellId>,
    entries_next: &mut Vec<CellEntry>,
    ranges_next: &mut Vec<Range<usize>>,
    parent_id: CellId,
    parent_entries: &mut Vec<CellEntry>,
    mid: Point,
    child_bounds: [Rect; 4],
    abs_segments: &[AbstractLineSegment],
    depth: u8,
    Ghost(cells): Ghost<Seq<Seq<CellEntry>>>,
    Ghost(leaf_entries): Ghost<Seq<CellEntry>>,
    Ghost(root_bbox): Ghost<RectView>,
    Ghost(max_depth): Ghost<int>,
    Ghost(min_seg): Ghost<int>,
    Ghost(cap): Ghost<int>,
    Ghost(first_next): Ghost<int>,
) -> (r: Ghost<Seq<Seq<CellEntry>>>)
    requires
        building(
            old(nodes)@,
            leaf_entries,
            cells,
            abs_segments@,
            root_bbox,
            max_depth,
            min_seg,
            parent_id as int,
        ),
        parent_id < old(nodes)@.len(),
        old(nodes)@.len() + 4 <= 0x2000_0000,
        old(parent_entries)@ == cells[parent_id as int],
        cell_within(cells[parent_id as int], abs_segments@, parent_id, cap),
        0 <= cap <= MAX_ENTRIES,
        old(nodes)@[parent_id as int].depth == depth,
        depth < max_depth <= 255,
        mid == mid_of(old(nodes)@[parent_id as int].bbox@),
        split_error(old(nodes)@[parent_id as int].bbox@, mid).is_none(),
        forall|c: int|
            0 <= c < 4 ==> (#[trigger] child_bounds[c])@ == child_rect(
                old(nodes)@[parent_id as int].bbox@,
                mid,
                c,
            ),
        segment_count(cells[parent_id as int]) > min_seg,
        first_next >= 0,
        frontier(
            old(nodes)@,
            cells,
            abs_segments@,
            old(cells_next)@,
            old(ranges_next)@,
            old(entries_next)@,
            first_next,
            depth + 1,
            4 * cap,
        ),
        old(nodes)@.len() == first_next + old(cells_next)@.len(),
        cells_ordered(cells, abs_segments@),
        paths_fit(abs_segments@),
    ensures
        cells_ordered(r@, abs_segments@),
        building(
            final(nodes)@,
            leaf_entries,
            r@,
            abs_segments@,
            root_bbox,
            max_depth,
            min_seg,
            parent_id + 1,
        ),
        final(nodes)@.len() == old(nodes)@.len() + 4,
        final(cells_next)@.len() == old(cells_next)@.len() + 4,
        r@.len() == final(nodes)@.len(),
        forall|j: int|
            0 <= j < old(nodes)@.len() ==> (#[trigger] final(nodes)@[j]).depth == old(
                nodes,
            )@[j].depth && final(nodes)@[j].bbox == old(nodes)@[j].bbox,
        forall|j: int| 0 <= j < old(nodes)@.len() ==> (#[trigger] r@[j]) == cells[j],
        frontier(
            final(nodes)@,
            r@,
            abs_segments@,
            final(cells_next)@,
            final(ranges_next)@,
            final(entries_next)@,
            first_next,
            depth + 1,
            4 * cap,
        ),
{
    let ghost segs = abs_segments@;
    let ghost n1 = nodes@;
    let ghost p = parent_id as int;
    let first = nodes.len() as u32;
    let parent_bbox = nodes[parent_id as usize].bbox;

    // Create 4 child cells in arena
    let mut pos: usize = 0;
    while pos < 4
        invariant
            pos <= 4,
            nodes@.len() == n1.len() + pos,
            first == n1.len(),
            n1.len() + 4 <= 0x2000_0000,
            depth < 255,
            forall|j: int| 0 <= j < n1.len() ==> (#[trigger] nodes@[j]) == n1[j],
            forall|c: int|
                0 <= c < pos ==> {
                    &&& pending(#[trigger] nodes@[first + c], first + c)
                    &&& nodes@[first + c].depth == depth + 1
                    &&& nodes@[first + c].bbox == child_bounds[c]
                },
        decreases 4 - pos,
    {
        nodes.push(
            QuadCell {
                id: first + pos as u32,
                depth: depth + 1,
                bbox: child_bounds[pos],
                children: None,
                leaf_entry_range: None,
            },
        );
        pos += 1;
    }
    let child_ids: [CellId; 4] = [first, first + 1, first + 2, first + 3];
    nodes[parent_id as usize].children = Some(child_ids);

    // Subdivide parent's cell entries into child cell entries, then create contiguous entries/ranges
    proof {
        lemma_cell_fits(cells[p], segs, parent_bbox@, mid, parent_id, cap);
    }
    let flat = subdivide_cell_entry(
        parent_entries.as_mut_slice(),
        &parent_bbox,
        &mid,
        abs_segments,
    ).unwrap();
    let ghost ce0 = child_entries(flat@, 0, first);
    let ghost ce1 = child_entries(flat@, 1, (first + 1) as u32);
    let ghost ce2 = child_entries(flat@, 2, (first + 2) as u32);
    let ghost ce3 = child_entries(flat@, 3, (first + 3) as u32);
    let ghost cells2 = cells.push(ce0).push(ce1).push(ce2).push(ce3);
    let ghost n2 = nodes@;
    proof {
        assert(pending(n1[p], p));
        assert forall|k: int| 0 <= k < p implies #[trigger] node_built(
            n2,
            leaf_entries,
            cells2,
            segs,
            max_depth,
            min_seg,
            k,
        ) by {
            assert(node_built(n1, leaf_entries, cells, segs, max_depth, min_seg, k));
            lemma_node_built_frame(
                n1,
                leaf_entries,
                cells,
                n2,
                leaf_entries,
                cells2,
                segs,
                max_depth,
                min_seg,
                k,
            );
        }
        lemma_counts_frame(n1, cells, n2, cells2, p);
        assert forall|c: int| 0 <= c < 4 implies #[trigger] child_built(n2, cells2, segs, p, c) by {
            assert(n2[first + c].bbox == child_bounds[c]);
            assert(child_bounds[c]@ == child_rect(parent_bbox@, mid, c));
        }
        assert(node_built(n2, leaf_entries, cells2, segs, max_depth, min_seg, p));
        assert forall|k: int| p + 1 <= k < n2.len() implies pending(#[trigger] n2[k], k) by {
            if k < n1.len() {
                assert(pending(n1[k], k));
            } else {
                assert(pending(n2[first + (k - first)], first + (k - first)));
            }
        }
        lemma_frontier_frame(
            n1,
            cells,
            entries_next@,
            n2,
            cells2,
            entries_next@,
            segs,
            cells_next@,
            ranges_next@,
            first_next,
            depth + 1,
            4 * cap,
        );
        if paths_ascending(segs) {
            assert(cell_ordered(cells[p], segs));
            lemma_subdivided_ordered(cells[p], segs, parent_bbox@, mid, 0, first);
            lemma_subdivided_ordered(cells[p], segs, parent_bbox@, mid, 1, (first + 1) as u32);
            lemma_subdivided_ordered(cells[p], segs, parent_bbox@, mid, 2, (first + 2) as u32);
            lemma_subdivided_ordered(cells[p], segs, parent_bbox@, mid, 3, (first + 3) as u32);
            assert forall|k: int| 0 <= k < cells2.len() implies cell_ordered(
                #[trigger] cells2[k],
                segs,
            ) by {
                if k < cells.len() {
                    assert(cells2[k] == cells[k]);
                }
            }
        }
        lemma_child_within(cells[p], segs, parent_bbox@, mid, parent_id, cap, 0, first);
        lemma_child_within(cells[p], segs, parent_bbox@, mid, parent_id, cap, 1, (first + 1) as u32);
        lemma_child_within(cells[p], segs, parent_bbox@, mid, parent_id, cap, 2, (first + 2) as u32);
        lemma_child_within(cells[p], segs, parent_bbox@, mid, parent_id, cap, 3, (first + 3) as u32);
    }
    let ghost next_len = cells_next@.len();
    let mut pos: usize = 0;
    while pos < 4
        invariant
            pos <= 4,
            n2 == nodes@,
            n2.len() == n1.len() + 4,
            cells2.len() == n2.len(),
            first == n1.len(),
            n1.len() == first_next + next_len,
            first_next >= 0,
            cells_next@.len() == next_len + pos,
            child_ids[0] == first && child_ids[1] == first + 1 && child_ids[2] == first + 2
                && child_ids[3] == first + 3,
            forall|c: int|
                0 <= c < 4 ==> #[trigger] cells2[first + c] == child_entries(
                    flat@,
                    c as u32,
                    (first + c) as u32,
                ) && n2[first + c].depth == depth + 1 && cell_within(
                    cells2[first + c],
                    segs,
                    (first + c) as u32,
                    4 * cap,
                ),
            frontier(
                n2,
                cells2,
                segs,
                cells_next@,
                ranges_next@,
                entries_next@,
                first_next,
                depth + 1,
                4 * cap,
            ),
        decreases 4 - pos,
    {
        let bucket = bucket_child(&flat, pos as u32, child_ids[pos]);
        let ghost b1 = entries_next@;
        let ghost ids1 = cells_next@;
        let ghost ranges1 = ranges_next@;
        let start = entries_next.len();
        append_entries(entries_next, &bucket);
        let end = entries_next.len();

        cells_next.push(child_ids[pos]);
        ranges_next.push(start..end);
        proof {
            let ids2 = cells_next@;
            let ranges2 = ranges_next@;
            let b2 = entries_next@;
            assert forall|j: int| 0 <= j < ids2.len() implies #[trigger] frontier_cell(
                n2,
                cells2,
                segs,
                ids2,
                ranges2,
                b2,
                first_next,
                depth + 1,
                4 * cap,
                j,
            ) by {
                if j < ids1.len() {
                    assert(frontier_cell(
                        n2,
                        cells2,
                        segs,
                        ids1,
                        ranges1,
                        b1,
                        first_next,
                        depth + 1,
                        4 * cap,
                        j,
                    ));
                    assert(b2.subrange(ranges1[j].start as int, ranges1[j].end as int)
                        =~= b1.subrange(ranges1[j].start as int, ranges1[j].end as int));
                } else {
                    assert(first_next + j == first + pos);
                    assert(cells2[first + pos as int] == child_entries(
                        flat@,
                        pos as u32,
                        (first + pos) as u32,
                    ));
                    assert(b2.subrange(start as int, end as int) =~= bucket@);
                }
            }
        }
        pos += 1;
    }
    Ghost(cells2)
}

/// Powers of four grow with the exponent.
proof fn lemma_pow4_monotone(a: nat, b: nat)
    requires
        a <= b,
    ensures
        1 <= pow4(a) <= pow4(b),
    decreases b,
{
    if a < b {
        lemma_pow4_monotone(a, (b - 1) as nat);
    } else if a > 0 {
        lemma_pow4_monotone((a - 1) as nat, (a - 1) as nat);
    }
}

/// A capacity for one level is within the capacity for a deeper level.
proof fn lemma_capacity_monotone(base: int, a: nat, b: nat)
    requires
        base >= 0,
        a <= b,
    ensures
        base * pow4(a) <= base * pow4(b),
        base * pow4(a + 1) == 4 * (base * pow4(a)),
{
    lemma_pow4_monotone(a, b);
    assert(base * pow4(a) <= base * pow4(b)) by (nonlinear_arith)
        requires
            base >= 0,
            pow4(a) <= pow4(b),
    ;
    assert(base * (4 * pow4(a)) == 4 * (base * pow4(a))) by (nonlinear_arith);
}

/// Build QuadTree from root CellEntry by level order.
fn build_quadtree(
    root_bbox: Rect,
    root_entries: Vec<CellEntry>,
    max_depth: u8,
    min_seg: usize,
    abs_segments: &[AbstractLineSegment],
) -> (r: (Vec<QuadCell>, Vec<CellEntry>, Ghost<Seq<Seq<CellEntry>>>))
    requires
        root_entries@ == crate::cell_entry::root_entries(abs_segments@),
        tree_error(abs_segments@, max_depth).is_none(),
    ensures
        tree_built(
            r.0@,
            r.1@,
            r.2@,
            abs_segments@,
            root_bbox@,
            max_depth as int,
            min_seg as int,
        ),
        entries_valid(r.1@, abs_segments@),
        paths_known(r.1@, abs_segments@),
        cells_ordered(r.2@, abs_segments@),
{
    let ghost segs = abs_segments@;
    let ghost base: int = if segs.len() == 0 { 1 } else { segs.len() as int };
    let ghost md = max_depth as int;
    let ghost ms = min_seg as int;
    // node arena; this will hold all cells' metadata
    let mut nodes: Vec<QuadCell> = Vec::new();
    let root_id: CellId = 0;
    // add root node first
    nodes.push(
        QuadCell { id: root_id, depth: 0, bbox: root_bbox, children: None, leaf_entry_range: None },
    );

    // frontier (cells to be subdivided)
    let mut cells_cur: Vec<CellId> = Vec::new();
    cells_cur.push(root_id);
    let mut ranges_cur: Vec<Range<usize>> = Vec::new();
    ranges_cur.push(0..root_entries.len());
    let mut entries_cur: Vec<CellEntry> = root_entries;

    // leaf stores cells that are already done subdivision
    let mut leaf_entries: Vec<CellEntry> = Vec::new();
    let ghost mut cells: Seq<Seq<CellEntry>> = seq![entries_cur@];
    let ghost mut lo: int = 0;
    proof {
        lemma_capacity_monotone(base, 0, max_depth as nat);
        assert(base * pow4(0) == base) by (nonlinear_arith)
            requires
                pow4(0) == 1,
        ;
        lemma_root_within(segs);
        if paths_ascending(segs) {
            lemma_root_ordered(segs);
        }
        assert(entries_cur@.subrange(0, entries_cur@.len() as int) =~= entries_cur@);
        assert(frontier_cell(
            nodes@,
            cells,
            segs,
            cells_cur@,
            ranges_cur@,
            entries_cur@,
            0,
            0,
            base * pow4(0),
            0,
        ));
    }

    let mut depth: u8 = 0;
    while depth < max_depth && cells_cur.len() > 0
        invariant
            depth <= max_depth,
            segs == abs_segments@,
            base >= 1,
            md == max_depth,
            ms == min_seg,
            base * pow4(max_depth as nat) <= MAX_ENTRIES,
            lo >= 0,
            nodes@.len() == lo + cells_cur@.len(),
            cells_cur@.len() <= pow4(depth as nat),
            nodes@.len() <= 2 * pow4(depth as nat),
            paths_fit(segs),
            cells_ordered(cells, segs),
            building(nodes@, leaf_entries@, cells, segs, root_bbox@, md, ms, lo),
            frontier(
                nodes@,
                cells,
                segs,
                cells_cur@,
                ranges_cur@,
                entries_cur@,
                lo,
                depth as int,
                base * pow4(depth as nat),
            ),
        decreases max_depth - depth,
    {
        let mut cells_next: Vec<CellId> = Vec::new();
        let mut entries_next: Vec<CellEntry> = Vec::new();
        let mut ranges_next: Vec<Range<usize>> = Vec::new();
        let ghost cap = base * pow4(depth as nat);
        let ghost first_next = nodes@.len() as int;
        proof {
            lemma_capacity_monotone(base, depth as nat, max_depth as nat);
            lemma_capacity_monotone(base, (depth + 1) as nat, max_depth as nat);
            lemma_pow4_monotone((depth + 1) as nat, max_depth as nat);
            lemma_pow4_monotone(depth as nat, max_depth as nat);
            assert(pow4(max_depth as nat) <= base * pow4(max_depth as nat)) by (nonlinear_arith)
                requires
                    base >= 1,
                    pow4(max_depth as nat) >= 0,
            ;
        }

        let n_cur = cells_cur.len();
        let mut i: usize = 0;
        while i < n_cur
            invariant
                i <= n_cur,
                n_cur == cells_cur@.len(),
                depth < max_depth,
                segs == abs_segments@,
                md == max_depth,
                ms == min_seg,
                lo >= 0,
                cap == base * pow4(depth as nat),
                0 <= cap,
                4 * cap <= MAX_ENTRIES,
                4 * pow4(depth as nat) <= MAX_ENTRIES,
                first_next == lo + n_cur,
                n_cur <= pow4(depth as nat),
                first_next <= 2 * pow4(depth as nat),
                nodes@.len() == first_next + cells_next@.len(),
                cells_next@.len() <= 4 * i,
                cells.len() == nodes@.len(),
                paths_fit(segs),
                cells_ordered(cells, segs),
                building(nodes@, leaf_entries@, cells, segs, root_bbox@, md, ms, lo + i),
                frontier(
                    nodes@,
                    cells,
                    segs,
                    cells_cur@,
                    ranges_cur@,
                    entries_cur@,
                    lo,
                    depth as int,
                    cap,
                ),
                frontier(
                    nodes@,
                    cells,
                    segs,
                    cells_next@,
                    ranges_next@,
                    entries_next@,
                    first_next,
                    depth + 1,
                    4 * cap,
                ),
            decreases n_cur - i,
        {
            assert(frontier_cell(
                nodes@,
                cells,
                segs,
                cells_cur@,
                ranges_cur@,
                entries_cur@,
                lo,
                depth as int,
                cap,
                i as int,
            ));
            let parent_id = cells_cur[i];
            let start = ranges_cur[i].start;
            let end = ranges_cur[i].end;
            let mut parent_entries = copy_entries(&entries_cur, start, end);  // for one cell
            let parent_seg_count = count_segments(&parent_entries);
            let can_split = parent_seg_count > min_seg;
            let parent_bbox = nodes[parent_id as usize].bbox;
            let ghost n1 = nodes@;
            let ghost c1 = cells;
            let ghost next1 = entries_next@;

            let middle = parent_bbox.mid_point();
            let mid = Point { x: middle[0], y: middle[1] };
            let child_bounds = if can_split {
                get_child_bounds(parent_bbox, mid)
            } else {
                Err(RasterError::DegenerateSubdivision)
            };
            match child_bounds {
                Ok(bounds) => {
                    let updated = split_cell(
                        &mut nodes,
                        &mut cells_next,
                        &mut entries_next,
                        &mut ranges_next,
                        parent_id,
                        &mut parent_entries,
                        mid,
                        bounds,
                        abs_segments,
                        depth,
                        Ghost(cells),
                        Ghost(leaf_entries@),
                        Ghost(root_bbox@),
                        Ghost(md),
                        Ghost(ms),
                        Ghost(cap),
                        Ghost(first_next),
                    );
                    proof {
                        cells = updated@;
                    }
                },
                Err(_) => {
                    // Cannot subdivide any more, save this cell as a leaf
                    finalize_leaf(
                        &mut nodes,
                        &mut leaf_entries,
                        parent_id,
                        &parent_entries,
                        Ghost(cells),
                        Ghost(segs),
                        Ghost(root_bbox@),
                        Ghost(md),
                        Ghost(ms),
                    );
                },
            }
            proof {
                lemma_frontier_frame(
                    n1,
                    c1,
                    entries_cur@,
                    nodes@,
                    cells,
                    entries_cur@,
                    segs,
                    cells_cur@,
                    ranges_cur@,
                    lo,
                    depth as int,
                    cap,
                );
                if nodes@.len() == n1.len() {
                    lemma_frontier_frame(
                        n1,
                        c1,
                        next1,
                        nodes@,
                        cells,
                        entries_next@,
                        segs,
                        cells_next@,
                        ranges_next@,
                        first_next,
                        depth + 1,
                        4 * cap,
                    );
                }
            }
            i += 1;
        }
        proof {
            lemma_capacity_monotone(base, depth as nat, (depth + 1) as nat);
            lo = first_next;
        }
        cells_cur = cells_next;
        entries_cur = entries_next;
        ranges_cur = ranges_next;
        depth += 1;
    }

    // Add all the frontiers to the leaf vec as the maximum depth is reached
    let n_cur = cells_cur.len();
    let ghost cap = base * pow4(depth as nat);
    let mut i: usize = 0;
    while i < n_cur
        invariant
            i <= n_cur,
            n_cur == cells_cur@.len(),
            depth == max_depth || n_cur == 0,
            segs == abs_segments@,
            md == max_depth,
            ms == min_seg,
            lo >= 0,
            nodes@.len() == lo + n_cur,
            cells.len() == nodes@.len(),
            cells_ordered(cells, segs),
            building(nodes@, leaf_entries@, cells, segs, root_bbox@, md, ms, lo + i),
            frontier(
                nodes@,
                cells,
                segs,
                cells_cur@,
                ranges_cur@,
                entries_cur@,
                lo,
                depth as int,
                cap,
            ),
        decreases n_cur - i,
    {
        assert(frontier_cell(
            nodes@,
            cells,
            segs,
            cells_cur@,
            ranges_cur@,
            entries_cur@,
            lo,
            depth as int,
            cap,
            i as int,
        ));
        let cell_id = cells_cur[i];
        let cell_entries = copy_entries(&entries_cur, ranges_cur[i].start, ranges_cur[i].end);
        let ghost n1 = nodes@;
        finalize_leaf(
            &mut nodes,
            &mut leaf_entries,
            cell_id,
            &cell_entries,
            Ghost(cells),
            Ghost(segs),
            Ghost(root_bbox@),
            Ghost(md),
            Ghost(ms),
        );
        proof {
            lemma_frontier_frame(
                n1,
                cells,
                entries_cur@,
                nodes@,
                cells,
                entries_cur@,
                segs,
                cells_cur@,
                ranges_cur@,
                lo,
                depth as int,
                cap,
            );
        }
        i += 1;
    }
    (nodes, leaf_entries, Ghost(cells))
}

/// The root's entries are within the number of segments, counted as one at
/// least.
proof fn lemma_root_within(segs: Seq<AbstractLineSegment>)
    requires
        segs.len() <= u32::MAX,
        forall|i: int| 0 <= i < segs.len() ==> (#[trigger] segs[i]).path_idx <= u32::MAX,
    ensures
        cell_within(
            root_entries(segs),
            segs,
            0,
            if segs.len() == 0 {
                1
            } else {
                segs.len() as int
            },
        ),
{
    let entries = root_entries(segs);
    lemma_root_weight(segs, segs.len() as int);
    assert(entries.subrange(0, segs.len() as int) =~= entries);
    assert((1u32 & 1u32) != 0) by (bit_vector);
    assert forall|a: int| 0 <= a < entries.len() implies path_known(
        (#[trigger] entries[a]).path_idx,
        segs,
    ) by {
        assert(segs[a].path_idx == entries[a].path_idx);
    }
}

/// The first `i` entries of the root weigh `4` each.
proof fn lemma_root_weight(segs: Seq<AbstractLineSegment>, i: int)
    requires
        0 <= i <= segs.len(),
    ensures
        crate::bounds::entries_weight(root_entries(segs).subrange(0, i)) == 4 * i,
    decreases i,
{
    assert((1u32 & 1u32) != 0 && (1u32 & 8u32) == 0) by (bit_vector);
    if i > 0 {
        lemma_root_weight(segs, i - 1);
        assert(root_entries(segs).subrange(0, i).drop_last() =~= root_entries(segs).subrange(
            0,
            i - 1,
        ));
    }
}

/// Whether the segments, counted as one at least, times `4` to the power
/// `max_depth` stay within `MAX_ENTRIES`.
fn capacity_fits(n: usize, max_depth: u8) -> (r: bool)
    ensures
        r == ((if n == 0 { 1 } else { n as int }) * pow4(max_depth as nat) <= MAX_ENTRIES),
{
    let ghost base: int = if n == 0 { 1 } else { n as int };
    if n > MAX_ENTRIES as usize {
        proof {
            lemma_capacity_monotone(base, 0, max_depth as nat);
            assert(base * pow4(0) == base) by (nonlinear_arith)
                requires
                    pow4(0) == 1,
            ;
        }
        return false;
    }
    let mut cap: u64 = if n == 0 { 1 } else { n as u64 };
    let mut depth: u8 = 0;
    assert(base * pow4(0) == base) by (nonlinear_arith)
        requires
            pow4(0) == 1,
    ;
    while depth < max_depth
        invariant
            depth <= max_depth,
            base == (if n == 0 {
                1
            } else {
                n as int
            }),
            cap == base * pow4(depth as nat),
            cap <= MAX_ENTRIES,
        decreases max_depth - depth,
    {
        proof {
            lemma_capacity_monotone(base, depth as nat, (depth + 1) as nat);
            lemma_capacity_monotone(base, (depth + 1) as nat, max_depth as nat);
        }
        if cap > MAX_ENTRIES / 4 {
            assert(base * pow4((depth + 1) as nat) == 4 * cap);
            assert(base * pow4((depth + 1) as nat) <= base * pow4(max_depth as nat));
            return false;
        }
        cap = cap * 4;
        depth += 1;
    }
    true
}

impl QuadTree {
    /// Builds the quadtree of `abs_segments` over `root_bbox`.
    ///
    /// Level by level, a cell that is above `max_depth`, holds more than
    /// `min_seg` segment entries and can be split at its middle gets four
    /// children, and its entries are subdivided among them; any other cell
    /// becomes a leaf, and its entries are appended to the tree's entry
    /// buffer.
    pub fn new(
        abs_segments: &[AbstractLineSegment],
        root_bbox: Rect,
        max_depth: u8,
        min_seg: usize,
    ) -> (r: Result<Self, RasterError>)
        ensures
            match tree_error(abs_segments@, max_depth) {
                Some(e) => r == Err::<QuadTree, RasterError>(e),
                None => r.is_ok() && r.unwrap().leaf_complete() && r.unwrap().well_formed(
                    abs_segments@,
                ) && exists|cells: Seq<Seq<CellEntry>>|
                    tree_built(
                        r.unwrap().nodes@,
                        r.unwrap().entries@,
                        cells,
                        abs_segments@,
                        root_bbox@,
                        max_depth as int,
                        min_seg as int,
                    ) && cells_ordered(cells, abs_segments@),
            },
    {
        if !capacity_fits(abs_segments.len(), max_depth) {
            return Err(RasterError::Overflow);
        }
        let mut curved = false;
        let mut wide = false;
        let mut i: usize = 0;
        while i < abs_segments.len()
            invariant
                i <= abs_segments@.len(),
                curved == exists|j: int|
                    0 <= j < i && unsupported((#[trigger] abs_segments@[j]).seg_type),
                wide == exists|j: int|
                    0 <= j < i && (#[trigger] abs_segments@[j]).path_idx > u32::MAX,
            decreases abs_segments@.len() - i,
        {
            let seg = &abs_segments[i];
            match seg.seg_type {
                SegType::Quadratic | SegType::Cubic | SegType::Arc => {
                    curved = true;
                },
                _ => {},
            }
            if seg.path_idx > u32::MAX as usize {
                wide = true;
            }
            i += 1;
        }
        if curved {
            return Err(RasterError::UnsupportedSegment);
        }
        if wide {
            return Err(RasterError::Overflow);
        }
        proof {
            let segs = abs_segments@;
            let base: int = if segs.len() == 0 { 1 } else { segs.len() as int };
            lemma_capacity_monotone(base, 0, max_depth as nat);
            assert(base * pow4(0) == base) by (nonlinear_arith)
                requires
                    pow4(0) == 1,
            ;
        }
        let root_entries = init_root_cell_entries(abs_segments);
        let (nodes, entries, Ghost(cells)) = build_quadtree(
            root_bbox,
            root_entries,
            max_depth,
            min_seg,
            abs_segments,
        );
        let tree = Self { nodes, entries };
        proof {
            assert forall|k: int| 0 <= k < tree.nodes@.len() implies (
            #[trigger] tree.nodes@[k]).children.is_some()
                != tree.nodes@[k].leaf_entry_range.is_some() && (
            tree.nodes@[k].leaf_entry_range.is_some()
                ==> tree.nodes@[k].leaf_entry_range.unwrap().start
                <= tree.nodes@[k].leaf_entry_range.unwrap().end <= tree.entries@.len()) by {
                assert(node_built(
                    tree.nodes@,
                    tree.entries@,
                    cells,
                    abs_segments@,
                    max_depth as int,
                    min_seg as int,
                    k,
                ));
            }
        }
        Ok(tree)
    }
}

/// In a tree built from segments that come path after path, the entries of
/// every leaf are in order: they hold no segment twice, one winding entry
/// for a path at most, and the winding entry of a path after its segments.
pub proof fn lemma_leaf_entries_ordered(
    nodes: Seq<QuadCell>,
    entries: Seq<CellEntry>,
    cells: Seq<Seq<CellEntry>>,
    segs: Seq<AbstractLineSegment>,
    root_bbox: RectView,
    max_depth: int,
    min_seg: int,
    k: int,
)
    requires
        tree_built(nodes, entries, cells, segs, root_bbox, max_depth, min_seg),
        cells_ordered(cells, segs),
        paths_ascending(segs),
        0 <= k < nodes.len(),
        nodes[k].leaf_entry_range.is_some(),
    ensures
        ({
            let range = nodes[k].leaf_entry_range.unwrap();
            let own = entries.subrange(range.start as int, range.end as int);
            &&& cell_ordered(own, segs)
            &&& segments_unique(own)
            &&& windings_unique(own)
        }),
{
    assert(node_built(nodes, entries, cells, segs, max_depth, min_seg, k));
    assert(cell_ordered(cells[k], segs));
    lemma_ordered_is_unique(cells[k], segs);
}

/// Segments for which a tree is built are fewer than `2^32`, and their
/// path indices fit 32 bits.
pub proof fn lemma_tree_input(segs: Seq<AbstractLineSegment>, max_depth: u8)
    requires
        tree_error(segs, max_depth).is_none(),
    ensures
        segs.len() <= MAX_ENTRIES,
        paths_fit(segs),
{
    let base: int = if segs.len() == 0 { 1 } else { segs.len() as int };
    lemma_capacity_monotone(base, 0, max_depth as nat);
    assert(base * pow4(0) == base) by (nonlinear_arith)
        requires
            pow4(0) == 1,
    ;
}

} // verus!
