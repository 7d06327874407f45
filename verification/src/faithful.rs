//! The tree is faithful to the paths: in every cell, the count of every
//! path at every pixel is odd exactly when the ray from the pixel crosses
//! the path an odd number of times.
use crate::abstract_segment::AbstractLineSegment;
use crate::cell_entry::{lemma_kinds, root_entries, CellEntry, ABSTRACT};
use crate::chain::{closed_paths, lemma_sum_agrees, sum_to};
use crate::classify::far_x;
use crate::conserve::{one_if, ray_crosses};
use crate::even_odd::best_color;
use crate::geometry::rect::RectView;
use crate::order::lemma_root_ordered;
use crate::path::{AbstractPath, Paint};
use crate::quad_tree::{
    child_built, internal_before, mid_of, node_built, paths_fit, tree_built, QuadCell,
};
use crate::settle::{lemma_child_settled, lemma_short_reaches, short_segments};
use crate::subdivide::{child_rect, split_error};
use crate::tally::{
    count_term, has_entry, lemma_child_keeps_parity, reaches, settled, tally,
};
use vstd::prelude::*;

verus! {

/// How often the ray from `(x, y)` to the right crosses the path `p`.
pub open spec fn crossing_term(
    segs: Seq<AbstractLineSegment>,
    p: int,
    x: int,
    y: int,
) -> spec_fn(int) -> int {
    |i: int|
        if segs[i].path_idx == p {
            one_if(ray_crosses(segs[i], x, y))
        } else {
            0
        }
}

/// How often the ray from `(x, y)` to the right crosses the path `p`.
pub open spec fn crossings(segs: Seq<AbstractLineSegment>, p: int, x: int, y: int) -> int {
    sum_to(segs.len() as int, crossing_term(segs, p, x, y))
}

/// Whether `(x, y)` is inside the path `p` by the even-odd rule: the ray
/// from it to the right crosses the path an odd number of times.
pub open spec fn inside_path(segs: Seq<AbstractLineSegment>, x: int, y: int) -> spec_fn(
    int,
) -> bool {
    |p: int| crossings(segs, p, x, y) % 2 != 0
}

/// The color of the pixel `(x, y)` by the even-odd rule: the color of the
/// last path that the pixel is inside of, or transparent black.
pub open spec fn even_odd_color(
    segs: Seq<AbstractLineSegment>,
    paths: Seq<AbstractPath>,
    paints: Seq<Paint>,
    x: int,
    y: int,
) -> Seq<u8> {
    best_color(inside_path(segs, x, y), paths, paints, paths.len() as int)
}

/// No segment reaches beyond the far column of the root.
pub open spec fn within_reach(segs: Seq<AbstractLineSegment>, root: RectView) -> bool {
    forall|i: int| 0 <= i < segs.len() ==> (#[trigger] segs[i]).bounding_box@.right <= far_x(root)
}

/// No segment of an internal cell above the level `depth` reaches beyond
/// the far column of the cell.
pub open spec fn reaches_above(
    nodes: Seq<QuadCell>,
    cells: Seq<Seq<CellEntry>>,
    segs: Seq<AbstractLineSegment>,
    depth: int,
) -> bool {
    forall|k: int|
        0 <= k < nodes.len() && (#[trigger] nodes[k]).children.is_some() && nodes[k].depth < depth
            ==> reaches(cells[k], segs, nodes[k].bbox@)
}

/// No segment of an internal cell reaches beyond the far column of the
/// cell.
pub open spec fn tree_reaches(
    nodes: Seq<QuadCell>,
    cells: Seq<Seq<CellEntry>>,
    segs: Seq<AbstractLineSegment>,
) -> bool {
    reaches_above(nodes, cells, segs, 256)
}

/// The root's entries are settled, and they count the crossings.
proof fn lemma_root_faithful(segs: Seq<AbstractLineSegment>, root: RectView)
    requires
        closed_paths(segs),
        paths_fit(segs),
        segs.len() <= u32::MAX,
    ensures
        settled(root_entries(segs), segs, root, true),
        forall|p: int, x: int, y: int|
            #[trigger] tally(root_entries(segs), segs, root.right, p, x, y) == crossings(
                segs,
                p,
                x,
                y,
            ),
{
    lemma_kinds();
    let entries = root_entries(segs);
    lemma_root_ordered(segs);
    assert forall|i: int| 0 <= i < segs.len() implies #[trigger] has_entry(
        entries,
        entries.len() as int,
        i,
    ) by {
        assert(entries[i].entry_type == ABSTRACT && entries[i].seg_idx == i);
    }
    assert forall|p: int, x: int, y: int| #[trigger]
        tally(entries, segs, root.right, p, x, y) == crossings(segs, p, x, y) by {
        let f = count_term(entries, segs, root.right, p, x, y);
        let g = crossing_term(segs, p, x, y);
        assert forall|i: int| 0 <= i < segs.len() implies #[trigger] f(i) == g(i) by {
            let e = entries[i];
            assert(e.is_segment() && !e.is_winding());
            assert(e.path_idx == segs[i].path_idx);
        }
        lemma_sum_agrees(segs.len() as int, f, g);
    }
}

/// Among the first `m` cells there is an internal cell before which `r`
/// cells are internal, where `r` is less than the internal cells among
/// them.
proof fn lemma_internal_rank(nodes: Seq<QuadCell>, m: int, r: int)
    requires
        0 <= m <= nodes.len(),
        0 <= r < internal_before(nodes, m),
    ensures
        exists|j: int|
            0 <= j < m && (#[trigger] nodes[j]).children.is_some() && internal_before(nodes, j)
                == r,
    decreases m,
{
    if m > 0 {
        if nodes[m - 1].children.is_some() && internal_before(nodes, m - 1) == r {
            assert(nodes[m - 1].children.is_some());
        } else {
            lemma_internal_rank(nodes, m - 1, r);
        }
    }
}

/// Every cell but the root is a child of an internal cell.
proof fn lemma_parent(
    nodes: Seq<QuadCell>,
    entries: Seq<CellEntry>,
    cells: Seq<Seq<CellEntry>>,
    segs: Seq<AbstractLineSegment>,
    root: RectView,
    max_depth: int,
    min_seg: int,
    k: int,
) -> (r: (int, int))
    requires
        tree_built(nodes, entries, cells, segs, root, max_depth, min_seg),
        1 <= k < nodes.len(),
    ensures
        0 <= r.0 < nodes.len(),
        0 <= r.1 < 4,
        nodes[r.0].children.is_some(),
        nodes[r.0].children.unwrap()[r.1] == k,
        child_built(nodes, cells, segs, r.0, r.1),
{
    let n = nodes.len() as int;
    let rank = (k - 1) / 4;
    let c = (k - 1) % 4;
    lemma_internal_rank(nodes, n, rank);
    let j = choose|j: int|
        0 <= j < n && (#[trigger] nodes[j]).children.is_some() && internal_before(nodes, j)
            == rank;
    assert(node_built(nodes, entries, cells, segs, max_depth, min_seg, j));
    assert(child_built(nodes, cells, segs, j, c));
    (j, c)
}

/// A cell is faithful: its entries are settled, and at every pixel that it
/// covers, the count of every path is the number of crossings but for an
/// even number. It covers no pixel outside the root.
pub open spec fn cell_faithful(
    nodes: Seq<QuadCell>,
    cells: Seq<Seq<CellEntry>>,
    segs: Seq<AbstractLineSegment>,
    root: RectView,
    k: int,
) -> bool {
    &&& settled(cells[k], segs, nodes[k].bbox@, k == 0)
    &&& forall|x: int, y: int|
        #[trigger] nodes[k].bbox@.covers_pixel(x, y) ==> root.covers_pixel(x, y)
    &&& forall|p: int, x: int, y: int|
        nodes[k].bbox@.covers_pixel(x, y) ==> (#[trigger] tally(
            cells[k],
            segs,
            nodes[k].bbox@.right,
            p,
            x,
            y,
        ) - crossings(segs, p, x, y)) % 2 == 0
}

/// Subdivision conservation. In the tree of closed paths, a cell is
/// faithful where no segment of a cell above it reaches beyond the far
/// column of that cell.
pub proof fn lemma_cell_faithful(
    nodes: Seq<QuadCell>,
    entries: Seq<CellEntry>,
    cells: Seq<Seq<CellEntry>>,
    segs: Seq<AbstractLineSegment>,
    root: RectView,
    max_depth: int,
    min_seg: int,
    k: int,
)
    requires
        tree_built(nodes, entries, cells, segs, root, max_depth, min_seg),
        closed_paths(segs),
        paths_fit(segs),
        segs.len() <= u32::MAX,
        0 <= k < nodes.len(),
        reaches_above(nodes, cells, segs, nodes[k].depth as int),
    ensures
        cell_faithful(nodes, cells, segs, root, k),
    decreases nodes[k].depth,
{
    if k == 0 {
        lemma_root_faithful(segs, root);
    } else {
        let (j, c) = lemma_parent(nodes, entries, cells, segs, root, max_depth, min_seg, k);
        assert(node_built(nodes, entries, cells, segs, max_depth, min_seg, j));
        lemma_cell_faithful(nodes, entries, cells, segs, root, max_depth, min_seg, j);
        let bound = nodes[j].bbox@;
        let mid = mid_of(bound);
        let r = child_rect(bound, mid, c);
        assert(nodes[k].bbox@ == r);
        assert(split_error(bound, mid).is_none());
        assert(reaches(cells[j], segs, bound));
        lemma_child_settled(cells[j], segs, bound, mid, c as u32, k as u32, j == 0);
        assert forall|x: int, y: int| #[trigger] r.covers_pixel(x, y) implies root.covers_pixel(
            x,
            y,
        ) by {
            assert(bound.covers_pixel(x, y));
        }
        assert forall|p: int, x: int, y: int| r.covers_pixel(x, y) implies (#[trigger] tally(
            cells[k],
            segs,
            r.right,
            p,
            x,
            y,
        ) - crossings(segs, p, x, y)) % 2 == 0 by {
            assert(bound.covers_pixel(x, y));
            lemma_child_keeps_parity(
                cells[j],
                segs,
                bound,
                mid,
                c as u32,
                k as u32,
                j == 0,
                p,
                x,
                y,
            );
            assert((tally(cells[j], segs, bound.right, p, x, y) - crossings(segs, p, x, y)) % 2
                == 0);
        }
    }
}

/// In the tree of closed paths of short segments within reach of the root,
/// no segment of an internal cell above the level `depth` reaches beyond
/// the far column of the cell.
proof fn lemma_short_reaches_above(
    nodes: Seq<QuadCell>,
    entries: Seq<CellEntry>,
    cells: Seq<Seq<CellEntry>>,
    segs: Seq<AbstractLineSegment>,
    root: RectView,
    max_depth: int,
    min_seg: int,
    depth: int,
)
    requires
        tree_built(nodes, entries, cells, segs, root, max_depth, min_seg),
        closed_paths(segs),
        short_segments(segs),
        within_reach(segs, root),
        paths_fit(segs),
        segs.len() <= u32::MAX,
        0 <= depth,
    ensures
        reaches_above(nodes, cells, segs, depth),
    decreases depth,
{
    if depth > 0 {
        lemma_short_reaches_above(nodes, entries, cells, segs, root, max_depth, min_seg, depth - 1);
        assert forall|k: int|
            0 <= k < nodes.len() && (#[trigger] nodes[k]).children.is_some() && nodes[k].depth
                < depth implies reaches(cells[k], segs, nodes[k].bbox@) by {
            if nodes[k].depth == depth - 1 {
                assert(node_built(nodes, entries, cells, segs, max_depth, min_seg, k));
                lemma_cell_faithful(nodes, entries, cells, segs, root, max_depth, min_seg, k);
                if k == 0 {
                    assert forall|m: int| 0 <= m < cells[0].len() && (#[trigger] cells[0][m]).entry_type
                        == ABSTRACT implies segs[cells[0][m].seg_idx as int].bounding_box@.right
                        <= far_x(root) by {
                        assert(cells[0][m].seg_idx == m);
                    }
                } else {
                    lemma_short_reaches(cells[k], segs, nodes[k].bbox@);
                }
            }
        }
    }
}

/// In the tree of closed paths of segments that are at most `2048` wide and
/// do not reach beyond the far column of the root, no segment of an internal
/// cell reaches beyond the far column of the cell.
pub proof fn lemma_short_segments_reach(
    nodes: Seq<QuadCell>,
    entries: Seq<CellEntry>,
    cells: Seq<Seq<CellEntry>>,
    segs: Seq<AbstractLineSegment>,
    root: RectView,
    max_depth: int,
    min_seg: int,
)
    requires
        tree_built(nodes, entries, cells, segs, root, max_depth, min_seg),
        closed_paths(segs),
        short_segments(segs),
        within_reach(segs, root),
        paths_fit(segs),
        segs.len() <= u32::MAX,
    ensures
        tree_reaches(nodes, cells, segs),
{
    lemma_short_reaches_above(nodes, entries, cells, segs, root, max_depth, min_seg, 256);
}

} // verus!
