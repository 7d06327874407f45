//! The image that the renderer paints from a tree is the image of the
//! even-odd rule, whatever the depth of the tree.
use crate::abstract_segment::AbstractLineSegment;
use crate::cell_entry::CellEntry;
use crate::chain::closed_paths;
use crate::cpu_renderer::{leaf_color, leaf_painted, paints_pixel, paths_valid, rendered};
use crate::even_odd::{lemma_best_agrees, lemma_cell_color, lemma_color_shift, tally_odd};
use crate::faithful::{
    crossings, even_odd_color, inside_path, lemma_cell_faithful, tree_reaches,
};
use crate::geometry::rect::RectView;
use crate::path::{AbstractPath, Paint};
use crate::quad_tree::{
    child_built, mid_of, node_built, paths_fit, tree_built, QuadCell, QuadTree,
};
use crate::subdivide::child_rect;
use crate::tally::tally;
use vstd::prelude::*;

verus! {

/// The image of the even-odd rule over `pixels`: every pixel that the root
/// covers has the color of the last path that it is inside of, or
/// transparent black; every other pixel keeps what it held.
pub open spec fn even_odd_image(
    segs: Seq<AbstractLineSegment>,
    paths: Seq<AbstractPath>,
    paints: Seq<Paint>,
    root: RectView,
    pixels: Seq<u8>,
    width: int,
    height: int,
) -> Seq<u8> {
    Seq::new(
        pixels.len(),
        |b: int|
            {
                let x = (b / 4) % width;
                let y = (b / 4) / width;
                if paints_pixel(root, width, height, x, y) {
                    even_odd_color(segs, paths, paints, x, y)[b % 4]
                } else {
                    pixels[b]
                }
            },
    )
}

/// A leaf among the first `k` cells covers the pixel `(x, y)`.
spec fn leaf_covers(nodes: Seq<QuadCell>, k: int, x: int, y: int) -> bool {
    exists|j: int|
        0 <= j < k && j < nodes.len() && (#[trigger] nodes[j]).leaf_entry_range.is_some()
            && nodes[j].bbox@.covers_pixel(x, y)
}

/// Every pixel that a cell covers is covered by a leaf.
proof fn lemma_leaf_covers(
    nodes: Seq<QuadCell>,
    entries: Seq<CellEntry>,
    cells: Seq<Seq<CellEntry>>,
    segs: Seq<AbstractLineSegment>,
    root: RectView,
    max_depth: int,
    min_seg: int,
    k: int,
    x: int,
    y: int,
)
    requires
        tree_built(nodes, entries, cells, segs, root, max_depth, min_seg),
        0 <= k < nodes.len(),
        nodes[k].bbox@.covers_pixel(x, y),
    ensures
        leaf_covers(nodes, nodes.len() as int, x, y),
    decreases max_depth - nodes[k].depth,
{
    assert(node_built(nodes, entries, cells, segs, max_depth, min_seg, k));
    if nodes[k].leaf_entry_range.is_some() {
        assert(nodes[k].leaf_entry_range.is_some() && nodes[k].bbox@.covers_pixel(x, y));
    } else {
        let bound = nodes[k].bbox@;
        let mid = mid_of(bound);
        let c: int = if x < mid.x {
            if y < mid.y {
                0
            } else {
                2
            }
        } else {
            if y < mid.y {
                1
            } else {
                3
            }
        };
        assert(child_built(nodes, cells, segs, k, c));
        let child = nodes[k].children.unwrap()[c] as int;
        assert(child_rect(bound, mid, c).covers_pixel(x, y));
        lemma_leaf_covers(nodes, entries, cells, segs, root, max_depth, min_seg, child, x, y);
    }
}

/// The color that a leaf gives a pixel that it covers is the color of the
/// even-odd rule.
proof fn lemma_leaf_color(
    nodes: Seq<QuadCell>,
    entries: Seq<CellEntry>,
    cells: Seq<Seq<CellEntry>>,
    segs: Seq<AbstractLineSegment>,
    paths: Seq<AbstractPath>,
    paints: Seq<Paint>,
    root: RectView,
    max_depth: int,
    min_seg: int,
    k: int,
    x: int,
    y: int,
)
    requires
        tree_built(nodes, entries, cells, segs, root, max_depth, min_seg),
        closed_paths(segs),
        tree_reaches(nodes, cells, segs),
        paths_fit(segs),
        segs.len() <= u32::MAX,
        paths_valid(entries, paths, paints),
        0 <= k < nodes.len(),
        nodes[k].leaf_entry_range.is_some(),
        nodes[k].bbox@.covers_pixel(x, y),
    ensures
        leaf_color(nodes[k], entries, segs, paths, paints, x, y) == even_odd_color(
            segs,
            paths,
            paints,
            x,
            y,
        ),
        root.covers_pixel(x, y),
{
    lemma_cell_faithful(nodes, entries, cells, segs, root, max_depth, min_seg, k);
    assert(node_built(nodes, entries, cells, segs, max_depth, min_seg, k));
    let range = nodes[k].leaf_entry_range.unwrap();
    let start = range.start as int;
    let end = range.end as int;
    let right = nodes[k].bbox@.right;
    let own = cells[k];
    assert(entries.subrange(start, end) == own);
    lemma_color_shift(entries, segs, paths, paints, start, end, right, x, y, end);
    assert forall|m: int| 0 <= m < own.len() implies (#[trigger] own[m]).path_idx
        < paths.len() by {
        assert(own[m] == entries[start + m]);
    }
    lemma_cell_color(own, segs, paths, paints, right, x, y);
    let odd = tally_odd(own, segs, right, x, y);
    let ideal = inside_path(segs, x, y);
    assert forall|q: int| 0 <= q < paths.len() implies #[trigger] odd(q) == ideal(q) by {
        assert((tally(own, segs, right, q, x, y) - crossings(segs, q, x, y)) % 2 == 0);
    }
    lemma_best_agrees(odd, ideal, paths, paints, paths.len() as int);
}

/// The image after the first `k` cells have painted: the pixels that a leaf
/// among them covers have the color of the even-odd rule, the others keep
/// what they held.
spec fn painted_by(
    nodes: Seq<QuadCell>,
    segs: Seq<AbstractLineSegment>,
    paths: Seq<AbstractPath>,
    paints: Seq<Paint>,
    pixels: Seq<u8>,
    width: int,
    height: int,
    k: int,
) -> Seq<u8> {
    Seq::new(
        pixels.len(),
        |b: int|
            {
                let x = (b / 4) % width;
                let y = (b / 4) / width;
                if 0 <= x < width && 0 <= y < height && leaf_covers(nodes, k, x, y) {
                    even_odd_color(segs, paths, paints, x, y)[b % 4]
                } else {
                    pixels[b]
                }
            },
    )
}

/// After the first `k` cells have painted, the pixels that a leaf among
/// them covers have the color of the even-odd rule.
proof fn lemma_rendered_prefix(
    tree: QuadTree,
    cells: Seq<Seq<CellEntry>>,
    segs: Seq<AbstractLineSegment>,
    paths: Seq<AbstractPath>,
    paints: Seq<Paint>,
    pixels: Seq<u8>,
    width: int,
    height: int,
    root: RectView,
    max_depth: int,
    min_seg: int,
    k: int,
)
    requires
        tree_built(tree.nodes@, tree.entries@, cells, segs, root, max_depth, min_seg),
        closed_paths(segs),
        tree_reaches(tree.nodes@, cells, segs),
        paths_fit(segs),
        segs.len() <= u32::MAX,
        paths_valid(tree.entries@, paths, paints),
        0 <= k <= tree.nodes@.len(),
    ensures
        rendered(tree, segs, paths, paints, pixels, width, height, k) == painted_by(
            tree.nodes@,
            segs,
            paths,
            paints,
            pixels,
            width,
            height,
            k,
        ),
    decreases k,
{
    let nodes = tree.nodes@;
    let now = painted_by(nodes, segs, paths, paints, pixels, width, height, k);
    if k == 0 {
        assert(rendered(tree, segs, paths, paints, pixels, width, height, k) =~= now);
    } else {
        lemma_rendered_prefix(
            tree,
            cells,
            segs,
            paths,
            paints,
            pixels,
            width,
            height,
            root,
            max_depth,
            min_seg,
            k - 1,
        );
        let before = painted_by(nodes, segs, paths, paints, pixels, width, height, k - 1);
        let node = nodes[k - 1];
        let after = rendered(tree, segs, paths, paints, pixels, width, height, k);
        assert forall|b: int| 0 <= b < pixels.len() implies #[trigger] after[b] == now[b] by {
            let x = (b / 4) % width;
            let y = (b / 4) / width;
            if leaf_covers(nodes, k - 1, x, y) {
                let j = choose|j: int|
                    0 <= j < k - 1 && j < nodes.len() && (#[trigger] nodes[j]).leaf_entry_range.is_some()
                        && nodes[j].bbox@.covers_pixel(x, y);
                assert(nodes[j].leaf_entry_range.is_some() && nodes[j].bbox@.covers_pixel(x, y));
                assert(leaf_covers(nodes, k, x, y));
            }
            if node.leaf_entry_range.is_some() {
                assert(after == leaf_painted(
                    before,
                    node,
                    tree.entries@,
                    segs,
                    paths,
                    paints,
                    width,
                    height,
                    height,
                    0,
                ));
                if paints_pixel(node.bbox@, width, height, x, y) {
                    lemma_leaf_color(
                        nodes,
                        tree.entries@,
                        cells,
                        segs,
                        paths,
                        paints,
                        root,
                        max_depth,
                        min_seg,
                        k - 1,
                        x,
                        y,
                    );
                    assert(node.leaf_entry_range.is_some() && node.bbox@.covers_pixel(x, y));
                    assert(leaf_covers(nodes, k, x, y));
                }
            }
            if leaf_covers(nodes, k, x, y) && !leaf_covers(nodes, k - 1, x, y) {
                let j = choose|j: int|
                    0 <= j < k && j < nodes.len() && (#[trigger] nodes[j]).leaf_entry_range.is_some()
                        && nodes[j].bbox@.covers_pixel(x, y);
                assert(j == k - 1);
            }
        }
        assert(after =~= now);
    }
}

/// Winding consistency and subdivision conservation. The image that the
/// renderer paints from the tree of closed paths is the image of the
/// even-odd rule, where no segment of an internal cell reaches beyond the
/// far column of the cell: it does not depend on the depth of the tree, nor
/// on the threshold at which a cell is split.
pub proof fn lemma_render_even_odd(
    tree: QuadTree,
    cells: Seq<Seq<CellEntry>>,
    segs: Seq<AbstractLineSegment>,
    paths: Seq<AbstractPath>,
    paints: Seq<Paint>,
    pixels: Seq<u8>,
    width: int,
    height: int,
    root: RectView,
    max_depth: int,
    min_seg: int,
)
    requires
        tree_built(tree.nodes@, tree.entries@, cells, segs, root, max_depth, min_seg),
        closed_paths(segs),
        tree_reaches(tree.nodes@, cells, segs),
        paths_fit(segs),
        segs.len() <= u32::MAX,
        paths_valid(tree.entries@, paths, paints),
    ensures
        rendered(tree, segs, paths, paints, pixels, width, height, tree.nodes@.len() as int)
            == even_odd_image(segs, paths, paints, root, pixels, width, height),
{
    let nodes = tree.nodes@;
    let n = nodes.len() as int;
    lemma_rendered_prefix(
        tree,
        cells,
        segs,
        paths,
        paints,
        pixels,
        width,
        height,
        root,
        max_depth,
        min_seg,
        n,
    );
    let got = painted_by(nodes, segs, paths, paints, pixels, width, height, n);
    let want = even_odd_image(segs, paths, paints, root, pixels, width, height);
    assert forall|b: int| 0 <= b < pixels.len() implies #[trigger] got[b] == want[b] by {
        let x = (b / 4) % width;
        let y = (b / 4) / width;
        if 0 <= x < width && 0 <= y < height {
            if root.covers_pixel(x, y) {
                lemma_leaf_covers(
                    nodes,
                    tree.entries@,
                    cells,
                    segs,
                    root,
                    max_depth,
                    min_seg,
                    0,
                    x,
                    y,
                );
            }
            if leaf_covers(nodes, n, x, y) {
                let j = choose|j: int|
                    0 <= j < n && j < nodes.len() && (#[trigger] nodes[j]).leaf_entry_range.is_some()
                        && nodes[j].bbox@.covers_pixel(x, y);
                lemma_cell_faithful(
                    nodes,
                    tree.entries@,
                    cells,
                    segs,
                    root,
                    max_depth,
                    min_seg,
                    j,
                );
                assert(nodes[j].bbox@.covers_pixel(x, y));
            }
        }
    }
    assert(got =~= want);
}

/// Two trees of the same closed paths over the same root paint the same
/// image, whatever their depths and thresholds, where in neither a segment
/// of an internal cell reaches beyond the far column of the cell: a tree
/// that is never split and a tree that is split as deep as it goes do.
pub proof fn lemma_depth_does_not_matter(
    shallow: QuadTree,
    shallow_cells: Seq<Seq<CellEntry>>,
    shallow_depth: int,
    shallow_min_seg: int,
    deep: QuadTree,
    deep_cells: Seq<Seq<CellEntry>>,
    deep_depth: int,
    deep_min_seg: int,
    segs: Seq<AbstractLineSegment>,
    paths: Seq<AbstractPath>,
    paints: Seq<Paint>,
    pixels: Seq<u8>,
    width: int,
    height: int,
    root: RectView,
)
    requires
        tree_built(
            shallow.nodes@,
            shallow.entries@,
            shallow_cells,
            segs,
            root,
            shallow_depth,
            shallow_min_seg,
        ),
        tree_built(deep.nodes@, deep.entries@, deep_cells, segs, root, deep_depth, deep_min_seg),
        closed_paths(segs),
        tree_reaches(shallow.nodes@, shallow_cells, segs),
        tree_reaches(deep.nodes@, deep_cells, segs),
        paths_fit(segs),
        segs.len() <= u32::MAX,
        paths_valid(shallow.entries@, paths, paints),
        paths_valid(deep.entries@, paths, paints),
    ensures
        rendered(
            shallow,
            segs,
            paths,
            paints,
            pixels,
            width,
            height,
            shallow.nodes@.len() as int,
        ) == rendered(deep, segs, paths, paints, pixels, width, height, deep.nodes@.len() as int),
{
    lemma_render_even_odd(
        shallow,
        shallow_cells,
        segs,
        paths,
        paints,
        pixels,
        width,
        height,
        root,
        shallow_depth,
        shallow_min_seg,
    );
    lemma_render_even_odd(
        deep,
        deep_cells,
        segs,
        paths,
        paints,
        pixels,
        width,
        height,
        root,
        deep_depth,
        deep_min_seg,
    );
}

} // verus!
