//! The per-pixel rasterizer: for each pixel of each leaf, the entries of the
//! leaf are walked and every path with an odd count paints the pixel.
use crate::abstract_segment::AbstractLineSegment;
use crate::cell_entry::{CellEntry, ABSTRACT, WINDING_INCREMENT};
use crate::error::RasterError;
use crate::geometry::rect::{Rect, RectView};
use crate::path::{AbstractPath, Paint};
use crate::quad_tree::{QuadCell, QuadTree};
use crate::bounds::{path_known, paths_known};
use crate::split::entries_valid;
use vstd::arithmetic::div_mod::{lemma_fundamental_div_mod, lemma_fundamental_div_mod_converse};
use vstd::prelude::*;

verus! {

/// What the entry `e` adds to the count of its path at the pixel `(x, y)` of
/// a cell whose right edge is at `cell_right`.
///
/// A segment entry adds `1` when the pixel is on the negative side of the
/// segment and within its rows `top <= y < bottom`, and its shortcut marker
/// when it has one and the pixel sees the shortcut. A winding entry adds its
/// increment.
pub open spec fn entry_count(
    e: CellEntry,
    segs: Seq<AbstractLineSegment>,
    cell_right: int,
    x: int,
    y: int,
) -> int {
    (if e.is_segment() {
        let seg = segs[e.seg_idx as int];
        (if seg.spec_is_left(x, y) && seg.bounding_box@.top <= y < seg.bounding_box@.bottom {
            1int
        } else {
            0
        }) + (if e.data != 0 && seg.spec_hit_shortcut(cell_right, x, y) {
            e.data as int
        } else {
            0
        })
    } else {
        0
    }) + (if e.is_winding() {
        e.data as int
    } else {
        0
    })
}

/// Entry `i` is the last of its path among the entries before `end`.
pub open spec fn ends_path(entries: Seq<CellEntry>, end: int, i: int) -> bool {
    i + 1 == end || entries[i + 1].path_idx != entries[i].path_idx
}

/// The count of the path of entry `i` at the pixel, from the first entry of
/// the path at or after `start` up to and including entry `i`.
pub open spec fn path_count(
    entries: Seq<CellEntry>,
    segs: Seq<AbstractLineSegment>,
    start: int,
    end: int,
    cell_right: int,
    x: int,
    y: int,
    i: int,
) -> int
    decreases i - start,
{
    if i < start {
        0
    } else if i > start && !ends_path(entries, end, i - 1) {
        path_count(entries, segs, start, end, cell_right, x, y, i - 1) + entry_count(
            entries[i],
            segs,
            cell_right,
            x,
            y,
        )
    } else {
        entry_count(entries[i], segs, cell_right, x, y)
    }
}

/// The color of the paint of the path `path_idx`.
pub open spec fn path_color(paths: Seq<AbstractPath>, paints: Seq<Paint>, path_idx: u32) -> Seq<u8> {
    paints[paths[path_idx as int].paint_id as int].color()
}

/// The color of the pixel after the entries `start..i` of a leaf are walked:
/// transparent black at first, then the color of the last path so far whose
/// count is odd.
pub open spec fn color_after(
    entries: Seq<CellEntry>,
    segs: Seq<AbstractLineSegment>,
    paths: Seq<AbstractPath>,
    paints: Seq<Paint>,
    start: int,
    end: int,
    cell_right: int,
    x: int,
    y: int,
    i: int,
) -> Seq<u8>
    decreases i - start,
{
    if i <= start {
        seq![0u8, 0u8, 0u8, 0u8]
    } else if ends_path(entries, end, i - 1) && path_count(
        entries,
        segs,
        start,
        end,
        cell_right,
        x,
        y,
        i - 1,
    ) % 2 != 0 {
        path_color(paths, paints, entries[i - 1].path_idx)
    } else {
        color_after(entries, segs, paths, paints, start, end, cell_right, x, y, i - 1)
    }
}

/// The color that the leaf `node` gives the pixel `(x, y)`.
pub open spec fn leaf_color(
    node: QuadCell,
    entries: Seq<CellEntry>,
    segs: Seq<AbstractLineSegment>,
    paths: Seq<AbstractPath>,
    paints: Seq<Paint>,
    x: int,
    y: int,
) -> Seq<u8> {
    let range = node.leaf_entry_range.unwrap();
    color_after(
        entries,
        segs,
        paths,
        paints,
        range.start as int,
        range.end as int,
        node.bbox@.right,
        x,
        y,
        range.end as int,
    )
}

/// Whether the cell `bbox` paints the pixel `(x, y)` of an image of `width`
/// by `height` pixels.
pub open spec fn paints_pixel(bbox: RectView, width: int, height: int, x: int, y: int) -> bool {
    bbox.covers_pixel(x, y) && 0 <= x < width && 0 <= y < height
}

/// The image after the leaf `node` has painted its pixels: those before row
/// `row`, and those of row `row` before column `col`.
pub open spec fn leaf_painted(
    pixels: Seq<u8>,
    node: QuadCell,
    entries: Seq<CellEntry>,
    segs: Seq<AbstractLineSegment>,
    paths: Seq<AbstractPath>,
    paints: Seq<Paint>,
    width: int,
    height: int,
    row: int,
    col: int,
) -> Seq<u8> {
    Seq::new(
        pixels.len(),
        |b: int|
            {
                let x = (b / 4) % width;
                let y = (b / 4) / width;
                if paints_pixel(node.bbox@, width, height, x, y) && (y < row || (y == row && x
                    < col)) {
                    leaf_color(node, entries, segs, paths, paints, x, y)[b % 4]
                } else {
                    pixels[b]
                }
            },
    )
}

/// The image after the first `k` cells of the tree have painted: each leaf
/// among them, in order, gives every pixel that it covers its color.
pub open spec fn rendered(
    tree: QuadTree,
    segs: Seq<AbstractLineSegment>,
    paths: Seq<AbstractPath>,
    paints: Seq<Paint>,
    pixels: Seq<u8>,
    width: int,
    height: int,
    k: int,
) -> Seq<u8>
    decreases k,
{
    if k <= 0 {
        pixels
    } else {
        let before = rendered(tree, segs, paths, paints, pixels, width, height, k - 1);
        let node = tree.nodes@[k - 1];
        if node.leaf_entry_range.is_some() {
            leaf_painted(
                before,
                node,
                tree.entries@,
                segs,
                paths,
                paints,
                width,
                height,
                height,
                0,
            )
        } else {
            before
        }
    }
}

/// Every entry names a path of `paths`, and every path a paint of `paints`.
pub open spec fn paths_valid(
    entries: Seq<CellEntry>,
    paths: Seq<AbstractPath>,
    paints: Seq<Paint>,
) -> bool {
    &&& forall|i: int| 0 <= i < entries.len() ==> (#[trigger] entries[i]).path_idx < paths.len()
    &&& forall|p: int| 0 <= p < paths.len() ==> (#[trigger] paths[p]).paint_id < paints.len()
}

/// The length of the buffer for an image of `width` by `height` pixels,
/// four bytes to a pixel, row after row. There is none where it does not
/// fit `usize`.
pub fn pixel_buffer_len(width: u32, height: u32) -> (r: Result<usize, RasterError>)
    ensures
        width * height * 4 <= usize::MAX ==> r == Ok::<usize, RasterError>(
            (width * height * 4) as usize,
        ),
        width * height * 4 > usize::MAX ==> r == Err::<usize, RasterError>(RasterError::Overflow),
{
    assert(0 <= width * height <= 0xFFFF_FFFF * 0xFFFF_FFFF) by (nonlinear_arith)
        requires
            0 <= width <= 0xFFFF_FFFF,
            0 <= height <= 0xFFFF_FFFF,
    ;
    let bytes: u128 = (width as u128) * (height as u128) * 4;
    if bytes > usize::MAX as u128 {
        Err(RasterError::Overflow)
    } else {
        Ok(bytes as usize)
    }
}

/// The entries of a tree name paths and paints where every segment names a
/// path of `paths` and every path a paint of `paints`.
pub proof fn lemma_paths_valid(
    tree: QuadTree,
    segs: Seq<AbstractLineSegment>,
    paths: Seq<AbstractPath>,
    paints: Seq<Paint>,
)
    requires
        tree.well_formed(segs),
        forall|i: int| 0 <= i < segs.len() ==> (#[trigger] segs[i]).path_idx < paths.len(),
        forall|p: int| 0 <= p < paths.len() ==> (#[trigger] paths[p]).paint_id < paints.len(),
    ensures
        paths_valid(tree.entries@, paths, paints),
{
    let entries = tree.entries@;
    assert forall|k: int| 0 <= k < entries.len() implies (#[trigger] entries[k]).path_idx
        < paths.len() by {
        assert(path_known(entries[k].path_idx, segs));
        let i = choose|i: int| 0 <= i < segs.len() && (#[trigger] segs[i]).path_idx
            == entries[k].path_idx;
        assert(segs[i].path_idx < paths.len());
    }
}

/// The color that the entries `start..end` of a leaf with bounds `cell`
/// give the pixel `(x, y)`.
fn pixel_color(
    entries: &Vec<CellEntry>,
    start: usize,
    end: usize,
    abs_segments: &[AbstractLineSegment],
    abs_paths: &[AbstractPath],
    paints: &[Paint],
    cell: &Rect,
    x: i32,
    y: i32,
) -> (out: [u8; 4])
    requires
        start <= end <= entries@.len(),
        entries_valid(entries@, abs_segments@),
        paths_valid(entries@, abs_paths@, paints@),
    ensures
        out@ == color_after(
            entries@,
            abs_segments@,
            abs_paths@,
            paints@,
            start as int,
            end as int,
            cell@.right,
            x as int,
            y as int,
            end as int,
        ),
{
    let mut out = [0u8;4];
    let mut count: i128 = 0;
    let ghost right = cell@.right;
    assert(out@ =~= seq![0u8, 0u8, 0u8, 0u8]);
    let mut i = start;
    while i < end
        invariant
            start <= i <= end <= entries@.len(),
            right == cell@.right,
            entries_valid(entries@, abs_segments@),
            paths_valid(entries@, abs_paths@, paints@),
            out@ == color_after(
                entries@,
                abs_segments@,
                abs_paths@,
                paints@,
                start as int,
                end as int,
                right,
                x as int,
                y as int,
                i as int,
            ),
            -(i - start) * 0x2_0000_0000 <= count <= (i - start) * 0x2_0000_0000,
            count == if i > start && !ends_path(entries@, end as int, i - 1) {
                path_count(
                    entries@,
                    abs_segments@,
                    start as int,
                    end as int,
                    right,
                    x as int,
                    y as int,
                    i - 1,
                )
            } else {
                0
            },
        decreases end - i,
    {
        let entry = &entries[i];
        let is_segment = (entry.entry_type & ABSTRACT) != 0;
        let is_winding_inc = (entry.entry_type & WINDING_INCREMENT) != 0;
        if is_segment {
            let seg = &abs_segments[entry.seg_idx as usize];
            let top = seg.bounding_box.top();
            let bottom = seg.bounding_box.bottom();
            let shortcut = entry.data;

            if seg.is_left(x, y) && y >= top && y < bottom {
                count += 1;
            }
            if shortcut != 0 && seg.hit_shortcut(cell, x, y) {
                count += shortcut as i128;
            }
        }
        if is_winding_inc {
            count += entry.data as i128;
        }
        assert(count == path_count(
            entries@,
            abs_segments@,
            start as int,
            end as int,
            right,
            x as int,
            y as int,
            i as int,
        ));
        let last_entry_in_path = i == end - 1 || entries[i + 1].path_idx != entry.path_idx;
        if last_entry_in_path {
            if count % 2 != 0 {
                let path = &abs_paths[entry.path_idx as usize];
                match &paints[path.paint_id] {
                    Paint::SolidColor { rgba } => {
                        out = *rgba;
                    },
                }
            }
            count = 0;
        }
        i += 1;
    }
    out
}

/// Writes the four bytes of `out` at `base`.
fn put_pixel(pixels: &mut [u8], base: usize, out: &[u8; 4])
    requires
        base + 4 <= old(pixels)@.len(),
    ensures
        final(pixels)@.len() == old(pixels)@.len(),
        forall|b: int|
            0 <= b < old(pixels)@.len() ==> #[trigger] final(pixels)@[b] == if base <= b < base
                + 4 {
                out[b - base]
            } else {
                old(pixels)@[b]
            },
{
    pixels[base] = out[0];
    pixels[base + 1] = out[1];
    pixels[base + 2] = out[2];
    pixels[base + 3] = out[3];
}

/// The pixel that byte `b` of an image of width `width` belongs to.
proof fn lemma_pixel_of_byte(width: int, x: int, y: int, b: int)
    requires
        0 <= x < width,
        0 <= y,
        0 <= b,
    ensures
        ((b / 4) % width == x && (b / 4) / width == y) <==> ((y * width + x) * 4 <= b < (y * width
            + x) * 4 + 4),
{
    let px = b / 4;
    lemma_fundamental_div_mod(b, 4);
    lemma_fundamental_div_mod(px, width);
    vstd::arithmetic::div_mod::lemma_mod_bound(px, width);
    vstd::arithmetic::div_mod::lemma_mod_bound(b, 4);
    if (y * width + x) * 4 <= b < (y * width + x) * 4 + 4 {
        lemma_fundamental_div_mod_converse(b, 4, y * width + x, b - (y * width + x) * 4);
        lemma_fundamental_div_mod_converse(px, width, y, x);
    }
    if px % width == x && px / width == y {
        assert(width * (px / width) == y * width) by (nonlinear_arith)
            requires
                px / width == y,
        ;
    }
}

/// Paints the pixels of one leaf.
fn paint_leaf(
    node: &QuadCell,
    entries: &Vec<CellEntry>,
    abs_segments: &[AbstractLineSegment],
    abs_paths: &[AbstractPath],
    paints: &[Paint],
    pixels: &mut [u8],
    img_width: u32,
    img_height: u32,
)
    requires
        node.leaf_entry_range.is_some(),
        node.leaf_entry_range.unwrap().start <= node.leaf_entry_range.unwrap().end
            <= entries@.len(),
        entries_valid(entries@, abs_segments@),
        paths_valid(entries@, abs_paths@, paints@),
        old(pixels)@.len() == img_width * img_height * 4,
    ensures
        final(pixels)@ == leaf_painted(
            old(pixels)@,
            *node,
            entries@,
            abs_segments@,
            abs_paths@,
            paints@,
            img_width as int,
            img_height as int,
            img_height as int,
            0,
        ),
{
    let ghost orig = pixels@;
    let ghost w = img_width as int;
    let ghost h = img_height as int;
    let total = pixels.len();
    let (start, end) = match &node.leaf_entry_range {
        Some(range) => (range.start, range.end),
        None => (0, 0),
    };
    let bb_left = node.bbox.left();
    let bb_top = node.bbox.top();
    let bb_right = node.bbox.right();
    let bb_bottom = node.bbox.bottom();
    let left: i64 = if bb_left > 0 { bb_left as i64 } else { 0 };
    let top: i64 = if bb_top > 0 { bb_top as i64 } else { 0 };
    let right: i64 = if (bb_right as i64) < img_width as i64 {
        bb_right as i64
    } else {
        img_width as i64
    };
    let bottom: i64 = if (bb_bottom as i64) < img_height as i64 {
        bb_bottom as i64
    } else {
        img_height as i64
    };
    assert(pixels@ =~= leaf_painted(
        orig,
        *node,
        entries@,
        abs_segments@,
        abs_paths@,
        paints@,
        w,
        h,
        top as int,
        left as int,
    ));
    let mut y = top;
    while y < bottom
        invariant
            w == img_width,
            h == img_height,
            top <= y,
            0 <= left,
            0 <= top,
            right <= img_width,
            bottom <= img_height,
            right <= i32::MAX,
            bottom <= i32::MAX,
            pixels@.len() == orig.len(),
            total == orig.len(),
            left == (if node.bbox@.left > 0 {
                node.bbox@.left
            } else {
                0
            }),
            top == (if node.bbox@.top > 0 {
                node.bbox@.top
            } else {
                0
            }),
            right == (if node.bbox@.right < w {
                node.bbox@.right
            } else {
                w
            }),
            bottom == (if node.bbox@.bottom < h {
                node.bbox@.bottom
            } else {
                h
            }),
            node.leaf_entry_range.is_some(),
            start == node.leaf_entry_range.unwrap().start,
            end == node.leaf_entry_range.unwrap().end,
            start <= end <= entries@.len(),
            entries_valid(entries@, abs_segments@),
            paths_valid(entries@, abs_paths@, paints@),
            orig.len() == w * h * 4,
            pixels@ == leaf_painted(
                orig,
                *node,
                entries@,
                abs_segments@,
                abs_paths@,
                paints@,
                w,
                h,
                y as int,
                left as int,
            ),
        decreases bottom - y,
    {
        let mut x = left;
        while x < right
            invariant
                w == img_width,
                h == img_height,
                top <= y < bottom,
                left <= x,
                0 <= left,
                0 <= top,
                right <= img_width,
                bottom <= img_height,
                right <= i32::MAX,
                bottom <= i32::MAX,
                pixels@.len() == orig.len(),
                total == orig.len(),
                left == (if node.bbox@.left > 0 {
                    node.bbox@.left
                } else {
                    0
                }),
                top == (if node.bbox@.top > 0 {
                    node.bbox@.top
                } else {
                    0
                }),
                right == (if node.bbox@.right < w {
                    node.bbox@.right
                } else {
                    w
                }),
                bottom == (if node.bbox@.bottom < h {
                    node.bbox@.bottom
                } else {
                    h
                }),
                node.leaf_entry_range.is_some(),
                start == node.leaf_entry_range.unwrap().start,
                end == node.leaf_entry_range.unwrap().end,
                start <= end <= entries@.len(),
                entries_valid(entries@, abs_segments@),
                paths_valid(entries@, abs_paths@, paints@),
                orig.len() == w * h * 4,
                pixels@ == leaf_painted(
                    orig,
                    *node,
                    entries@,
                    abs_segments@,
                    abs_paths@,
                    paints@,
                    w,
                    h,
                    y as int,
                    x as int,
                ),
            decreases right - x,
        {
            let out = pixel_color(
                entries,
                start,
                end,
                abs_segments,
                abs_paths,
                paints,
                &node.bbox,
                x as i32,
                y as i32,
            );
            proof {
                assert(y * w + x < w * h) by (nonlinear_arith)
                    requires
                        0 <= x < w,
                        0 <= y < h,
                ;
                assert(0 <= y * w) by (nonlinear_arith)
                    requires
                        0 <= y,
                        0 <= w,
                ;
                assert((y as usize) * (img_width as usize) == y * w);
                assert((y * w + x) * 4 + 4 <= w * h * 4);
            }
            let base = (y as usize * img_width as usize + x as usize) * 4;
            assert(base == (y * w + x) * 4);
            let ghost before = pixels@;
            put_pixel(pixels, base, &out);
            proof {
                let after = leaf_painted(
                    orig,
                    *node,
                    entries@,
                    abs_segments@,
                    abs_paths@,
                    paints@,
                    w,
                    h,
                    y as int,
                    x + 1,
                );
                assert forall|b: int| 0 <= b < orig.len() implies #[trigger] pixels@[b]
                    == after[b] by {
                    lemma_pixel_of_byte(w, x as int, y as int, b);
                    lemma_fundamental_div_mod(b, 4);
                    vstd::arithmetic::div_mod::lemma_mod_bound(b, 4);
                    if base <= b < base + 4 {
                        lemma_fundamental_div_mod_converse(b, 4, y * w + x, b - base);
                    }
                }
                assert(pixels@ =~= after);
            }
            x += 1;
        }
        proof {
            assert(pixels@ =~= leaf_painted(
                orig,
                *node,
                entries@,
                abs_segments@,
                abs_paths@,
                paints@,
                w,
                h,
                y + 1,
                left as int,
            ));
        }
        y += 1;
    }
    assert(pixels@ =~= leaf_painted(
        orig,
        *node,
        entries@,
        abs_segments@,
        abs_paths@,
        paints@,
        w,
        h,
        h,
        0,
    ));
}

/// Paints the image: every leaf of the tree, in the order of the cells,
/// gives each pixel that it covers the color of the last path whose count at
/// the pixel is odd, or transparent black where no count is odd. Pixels that
/// no leaf covers keep what they held.
pub fn render_quadtree_by_node_array(
    tree: &QuadTree,
    abs_segments: &[AbstractLineSegment],
    abs_paths: &[AbstractPath],
    paints: &[Paint],
    pixels: &mut [u8],
    img_width: u32,
    img_height: u32,
)
    requires
        tree.well_formed(abs_segments@),
        paths_valid(tree.entries@, abs_paths@, paints@),
        old(pixels)@.len() == img_width * img_height * 4,
    ensures
        final(pixels)@ == rendered(
            *tree,
            abs_segments@,
            abs_paths@,
            paints@,
            old(pixels)@,
            img_width as int,
            img_height as int,
            tree.nodes@.len() as int,
        ),
{
    let mut k: usize = 0;
    while k < tree.nodes.len()
        invariant
            k <= tree.nodes@.len(),
            tree.well_formed(abs_segments@),
            paths_valid(tree.entries@, abs_paths@, paints@),
            pixels@.len() == img_width * img_height * 4,
            pixels@ == rendered(
                *tree,
                abs_segments@,
                abs_paths@,
                paints@,
                old(pixels)@,
                img_width as int,
                img_height as int,
                k as int,
            ),
        decreases tree.nodes@.len() - k,
    {
        let node = &tree.nodes[k];
        if node.leaf_entry_range.is_some() {
            paint_leaf(
                node,
                &tree.entries,
                abs_segments,
                abs_paths,
                paints,
                pixels,
                img_width,
                img_height,
            );
        }
        k += 1;
    }
}

} // verus!
