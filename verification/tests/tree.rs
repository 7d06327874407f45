use quadraster::abstract_segment::{AbstractLineSegment, SegType};
use quadraster::bounds::MAX_ENTRIES;
use quadraster::cell_entry::{CellEntry, ABSTRACT, NONE_U32, WINDING_INCREMENT};
use quadraster::cpu_renderer::{pixel_buffer_len, render_quadtree_by_node_array};
use quadraster::error::RasterError;
use quadraster::geometry::point::Point;
use quadraster::geometry::rect::Rect;
use quadraster::path::{AbstractPath, FillRule, Paint};
use quadraster::quad_tree::QuadTree;

const RED: [u8; 4] = [255, 0, 0, 255];
const BLUE: [u8; 4] = [0, 0, 255, 255];
const CLEAR: [u8; 4] = [0, 0, 0, 0];

fn closed_path(points: &[(i32, i32)], path: usize) -> Vec<AbstractLineSegment> {
    let mut out = Vec::new();
    for i in 0..points.len() {
        let (x0, y0) = points[i];
        let (x1, y1) = points[(i + 1) % points.len()];
        out.push(AbstractLineSegment::new(
            Point { x: x0, y: y0 },
            Point { x: x1, y: y1 },
            SegType::Linear,
            path,
        ));
    }
    out
}

fn reversed(segs: &[AbstractLineSegment]) -> Vec<AbstractLineSegment> {
    segs.iter().map(|s| AbstractLineSegment::new(s.p1, s.p0, s.seg_type, s.path_idx)).collect()
}

fn paths_for(segs: &[AbstractLineSegment]) -> Vec<AbstractPath> {
    let count = segs.iter().map(|s| s.path_idx + 1).max().unwrap_or(0);
    let mut out = Vec::new();
    for p in 0..count {
        let start = segs.iter().position(|s| s.path_idx == p).unwrap_or(0);
        let len = segs.iter().filter(|s| s.path_idx == p).count();
        out.push(AbstractPath {
            seg_start_idx: start,
            seg_end_idx: start + len,
            fill_rule: FillRule::EvenOdd,
            paint_id: p,
            bounding_box: Rect::from_ltrb(0, 0, 0, 0).unwrap(),
        });
    }
    out
}

fn paints(n: usize) -> Vec<Paint> {
    let colors = [RED, BLUE, [0, 255, 0, 255], [9, 8, 7, 6]];
    (0..n).map(|i| Paint::SolidColor { rgba: colors[i % 4] }).collect()
}

fn render(
    segs: &[AbstractLineSegment],
    root: Rect,
    max_depth: u8,
    min_seg: usize,
    width: u32,
    height: u32,
    background: u8,
) -> Vec<u8> {
    let tree = QuadTree::new(segs, root, max_depth, min_seg).unwrap();
    let paths = paths_for(segs);
    let paints = paints(paths.len());
    let mut pixels = vec![background; (width * height * 4) as usize];
    render_quadtree_by_node_array(&tree, segs, &paths, &paints, &mut pixels, width, height);
    pixels
}

fn pixel(pixels: &[u8], width: u32, x: u32, y: u32) -> [u8; 4] {
    let base = ((y * width + x) * 4) as usize;
    [pixels[base], pixels[base + 1], pixels[base + 2], pixels[base + 3]]
}

fn root100() -> Rect {
    Rect::from_ltrb(0, 0, 100, 100).unwrap()
}

struct Lcg(u64);

impl Lcg {
    fn next(&mut self, lo: i32, hi: i32) -> i32 {
        self.0 = self.0.wrapping_mul(6364136223846793005).wrapping_add(1442695040888963407);
        lo + ((self.0 >> 33) % ((hi - lo + 1) as u64)) as i32
    }
}

fn check_leaf_complete(tree: &QuadTree) {
    for node in &tree.nodes {
        assert!(node.children.is_some() != node.leaf_entry_range.is_some());
    }
}

#[test]
fn tree_of_no_segments_is_one_leaf() {
    let tree = QuadTree::new(&[], root100(), 4, 0).unwrap();
    assert_eq!(tree.nodes.len(), 1);
    assert_eq!(tree.nodes[0].id, 0);
    assert_eq!(tree.nodes[0].depth, 0);
    assert_eq!(tree.nodes[0].bbox, root100());
    assert_eq!(tree.nodes[0].children, None);
    assert_eq!(tree.nodes[0].leaf_entry_range, Some(0..0));
    assert!(tree.entries.is_empty());
}

#[test]
fn tree_of_depth_zero_is_one_leaf_with_all_segments() {
    let segs = closed_path(&[(10, 10), (90, 20), (40, 90)], 0);
    let tree = QuadTree::new(&segs, root100(), 0, 0).unwrap();
    assert_eq!(tree.nodes.len(), 1);
    assert_eq!(tree.nodes[0].leaf_entry_range, Some(0..3));
    let expected: Vec<CellEntry> = (0..3)
        .map(|i| CellEntry {
            entry_type: ABSTRACT,
            data: 0,
            seg_idx: i,
            path_idx: 0,
            cell_pos: 0,
            cell_id: 0,
        })
        .collect();
    assert_eq!(tree.entries, expected);
}

#[test]
fn tree_at_the_threshold_is_not_split() {
    let segs = closed_path(&[(10, 10), (90, 20), (40, 90)], 0);
    let kept = QuadTree::new(&segs, root100(), 3, 3).unwrap();
    assert_eq!(kept.nodes.len(), 1);
    let split = QuadTree::new(&segs, root100(), 3, 2).unwrap();
    assert!(split.nodes.len() > 1);
    assert_eq!(split.nodes[0].children, Some([1, 2, 3, 4]));
    assert_eq!(split.nodes[0].leaf_entry_range, None);
}

#[test]
fn single_diagonal() {
    let segs = vec![AbstractLineSegment::new(
        Point { x: 20, y: 20 },
        Point { x: 80, y: 80 },
        SegType::Linear,
        0,
    )];
    let tree = QuadTree::new(&segs, root100(), 1, 0).unwrap();
    check_leaf_complete(&tree);
    assert_eq!(tree.nodes.len(), 5);
    assert_eq!(tree.nodes[0].children, Some([1, 2, 3, 4]));
    let boxes: Vec<[i32; 4]> = tree.nodes.iter().map(|n| n.bbox.to_ltrb()).collect();
    assert_eq!(
        boxes,
        vec![
            [0, 0, 100, 100],
            [0, 0, 50, 50],
            [50, 0, 100, 50],
            [0, 50, 50, 100],
            [50, 50, 100, 100],
        ]
    );
    let depths: Vec<u8> = tree.nodes.iter().map(|n| n.depth).collect();
    assert_eq!(depths, vec![0, 1, 1, 1, 1]);
    let ranges: Vec<Option<std::ops::Range<usize>>> =
        tree.nodes.iter().map(|n| n.leaf_entry_range.clone()).collect();
    assert_eq!(ranges, vec![None, Some(0..1), Some(1..1), Some(1..2), Some(2..3)]);
    let seg_entry = |data: i32, pos: u32, id: u32| CellEntry {
        entry_type: ABSTRACT,
        data,
        seg_idx: 0,
        path_idx: 0,
        cell_pos: pos,
        cell_id: id,
    };
    // The diagonal ends in the top left and bottom right child and passes
    // the corner of the bottom left one, where it leaves a marker; the top
    // right child holds nothing.
    assert_eq!(tree.entries, vec![seg_entry(0, 0, 1), seg_entry(1, 2, 3), seg_entry(0, 3, 4)]);
}

#[test]
fn single_diagonal_closed_fills_nothing() {
    let segs = closed_path(&[(20, 20), (80, 80)], 0);
    let pixels = render(&segs, root100(), 1, 0, 100, 100, 77);
    // A pixel on the line is not on its negative side.
    assert_eq!(pixel(&pixels, 100, 50, 50), CLEAR);
    assert_eq!(pixel(&pixels, 100, 20, 80), CLEAR);
    assert!(pixels.iter().all(|b| *b == 0));
}

#[test]
fn segment_right_of_the_root() {
    let segs = closed_path(&[(110, 40), (110, 60)], 0);
    let tree = QuadTree::new(&segs, root100(), 1, 0).unwrap();
    check_leaf_complete(&tree);
    // The two runs of the closed path cancel in every child.
    assert_eq!(tree.nodes.len(), 5);
    assert!(tree.entries.is_empty());
    let flat = QuadTree::new(&segs, root100(), 0, 0).unwrap();
    let paths = paths_for(&segs);
    let paints = paints(1);
    let mut a = vec![0u8; 100 * 100 * 4];
    let mut b = vec![0u8; 100 * 100 * 4];
    render_quadtree_by_node_array(&tree, &segs, &paths, &paints, &mut a, 100, 100);
    render_quadtree_by_node_array(&flat, &segs, &paths, &paints, &mut b, 100, 100);
    assert_eq!(a, b);
    assert_eq!(pixel(&a, 100, 50, 50), CLEAR);
}

#[test]
fn open_segment_right_of_the_root_is_crossed_once() {
    // Alone, the segment is crossed by the ray from (50, 50): the leaf root
    // counts one crossing and paints the pixel.
    let segs = vec![AbstractLineSegment::new(
        Point { x: 110, y: 40 },
        Point { x: 110, y: 60 },
        SegType::Linear,
        0,
    )];
    let pixels = render(&segs, root100(), 0, 0, 100, 100, 0);
    assert_eq!(pixel(&pixels, 100, 50, 50), RED);
    assert_eq!(pixel(&pixels, 100, 50, 39), CLEAR);
    assert_eq!(pixel(&pixels, 100, 50, 40), RED);
    assert_eq!(pixel(&pixels, 100, 50, 59), RED);
    assert_eq!(pixel(&pixels, 100, 50, 60), CLEAR);
}

#[test]
fn two_overlapping_squares() {
    let mut segs = closed_path(&[(10, 10), (90, 10), (90, 90), (10, 90)], 0);
    segs.extend(closed_path(&[(40, 40), (120, 40), (120, 120), (40, 120)], 1));
    for depth in 0..5 {
        let pixels = render(&segs, root100(), depth, 1, 100, 100, 0);
        assert_eq!(pixel(&pixels, 100, 50, 50), BLUE);
        assert_eq!(pixel(&pixels, 100, 95, 45), BLUE);
        assert_eq!(pixel(&pixels, 100, 20, 20), RED);
        assert_eq!(pixel(&pixels, 100, 5, 5), CLEAR);
        assert_eq!(pixel(&pixels, 100, 95, 20), CLEAR);
        // the squares hold their left and top edge, not their right and bottom
        assert_eq!(pixel(&pixels, 100, 10, 10), RED);
        assert_eq!(pixel(&pixels, 100, 89, 39), RED);
        assert_eq!(pixel(&pixels, 100, 90, 39), CLEAR);
        assert_eq!(pixel(&pixels, 100, 39, 90), CLEAR);
        assert_eq!(pixel(&pixels, 100, 40, 90), BLUE);
    }
}

#[test]
fn horizontal_only_path() {
    let segs = closed_path(&[(10, 50), (90, 50)], 0);
    for depth in 0..4 {
        let pixels = render(&segs, root100(), depth, 0, 100, 100, 200);
        assert!(pixels.iter().all(|b| *b == 0));
    }
}

#[test]
fn path_boundary_isolation() {
    // Two paths over the same square: each has one crossing at the pixel.
    // Their counts do not add up to an even number; the later path paints.
    let mut segs = closed_path(&[(10, 10), (90, 10), (90, 90), (10, 90)], 0);
    segs.extend(closed_path(&[(10, 10), (90, 10), (90, 90), (10, 90)], 1));
    for depth in 0..4 {
        let pixels = render(&segs, root100(), depth, 0, 100, 100, 0);
        assert_eq!(pixel(&pixels, 100, 50, 50), BLUE);
        assert_eq!(pixel(&pixels, 100, 9, 50), CLEAR);
    }
    // One path that runs twice around the square has an even count.
    let mut twice = closed_path(&[(10, 10), (90, 10), (90, 90), (10, 90)], 0);
    twice.extend(closed_path(&[(10, 10), (90, 10), (90, 90), (10, 90)], 0));
    for depth in 0..4 {
        let pixels = render(&twice, root100(), depth, 0, 100, 100, 0);
        assert_eq!(pixel(&pixels, 100, 50, 50), CLEAR);
    }
}

#[test]
fn reversed_path_renders_the_same() {
    let mut segs = closed_path(&[(10, 15), (95, 30), (60, 55), (80, 95), (20, 70)], 0);
    segs.extend(closed_path(&[(40, 5), (120, 60), (30, 110)], 1));
    let back = reversed(&segs);
    for depth in 0..5 {
        let a = render(&segs, root100(), depth, 0, 100, 100, 0);
        let b = render(&back, root100(), depth, 0, 100, 100, 0);
        assert_eq!(a, b);
    }
}

#[test]
fn subdivision_does_not_change_the_image() {
    let mut rng = Lcg(20240607);
    for round in 0..150 {
        let (lo, hi) = [(0, 32), (-16, 48), (-40, 80), (8, 24)][round % 4];
        let path_count = 1 + round % 3;
        let mut segs = Vec::new();
        for p in 0..path_count {
            let corners = rng.next(2, 6) as usize;
            let points: Vec<(i32, i32)> =
                (0..corners).map(|_| (rng.next(lo, hi), rng.next(lo, hi))).collect();
            segs.extend(closed_path(&points, p));
        }
        let root = Rect::from_ltrb(0, 0, 32, 32).unwrap();
        let flat = render(&segs, root, 0, 0, 32, 32, 0);
        for depth in 1..5 {
            let min_seg = (round / 4) % 3;
            let deep = render(&segs, root, depth, min_seg, 32, 32, 0);
            assert_eq!(flat, deep);
        }
    }
}

#[test]
fn subdivision_does_not_change_the_image_off_center() {
    let mut rng = Lcg(99);
    for _ in 0..60 {
        let corners = rng.next(3, 7) as usize;
        let points: Vec<(i32, i32)> =
            (0..corners).map(|_| (rng.next(-30, 60), rng.next(-30, 60))).collect();
        let segs = closed_path(&points, 0);
        let root = Rect::from_ltrb(-7, 3, 30, 29).unwrap();
        let flat = render(&segs, root, 0, 0, 40, 40, 0);
        let deep = render(&segs, root, 6, 0, 40, 40, 0);
        assert_eq!(flat, deep);
    }
}

#[test]
fn every_cell_is_internal_or_leaf() {
    let mut rng = Lcg(7);
    for round in 0..40 {
        let corners = rng.next(3, 8) as usize;
        let points: Vec<(i32, i32)> =
            (0..corners).map(|_| (rng.next(-10, 74), rng.next(-10, 74))).collect();
        let segs = closed_path(&points, 0);
        let root = Rect::from_ltrb(0, 0, 64, 64).unwrap();
        let tree = QuadTree::new(&segs, root, (round % 6) as u8, round % 3).unwrap();
        check_leaf_complete(&tree);
        let mut internal = 0;
        let mut next = 0;
        for (k, node) in tree.nodes.iter().enumerate() {
            assert_eq!(node.id as usize, k);
            match (&node.children, &node.leaf_entry_range) {
                (Some(children), None) => {
                    let first = 1 + 4 * internal;
                    assert_eq!(*children, [first, first + 1, first + 2, first + 3]);
                    for c in children {
                        assert_eq!(tree.nodes[*c as usize].depth, node.depth + 1);
                    }
                    assert!(node.depth < (round % 6) as u8);
                    internal += 1;
                },
                (None, Some(range)) => {
                    // the leaves' entries follow each other in the buffer
                    assert_eq!(range.start, next);
                    next = range.end;
                    for e in &tree.entries[range.clone()] {
                        assert_eq!(e.cell_id as usize, k);
                        assert!(e.entry_type == ABSTRACT || e.entry_type == WINDING_INCREMENT);
                        if e.entry_type == ABSTRACT {
                            assert!((e.seg_idx as usize) < segs.len());
                        } else {
                            assert_eq!(e.seg_idx, NONE_U32);
                            assert!(e.data != 0);
                        }
                    }
                },
                _ => panic!("cell {} is neither internal nor a leaf", k),
            }
        }
        assert_eq!(next, tree.entries.len());
        assert_eq!(tree.nodes.len() as u32, 1 + 4 * internal);
    }
}

#[test]
fn leaves_hold_each_segment_once() {
    let mut segs = closed_path(&[(3, 3), (60, 9), (50, 61), (8, 50)], 0);
    segs.extend(closed_path(&[(20, 20), (70, 30), (30, 70)], 1));
    let tree =
        QuadTree::new(&segs, Rect::from_ltrb(0, 0, 64, 64).unwrap(), 4, 0).unwrap();
    for node in &tree.nodes {
        if let Some(range) = &node.leaf_entry_range {
            let entries = &tree.entries[range.clone()];
            for a in 0..entries.len() {
                for b in (a + 1)..entries.len() {
                    let (x, y) = (entries[a], entries[b]);
                    assert!(x.path_idx <= y.path_idx);
                    if x.entry_type == ABSTRACT && y.entry_type == ABSTRACT {
                        assert!(x.seg_idx != y.seg_idx);
                    }
                    if x.entry_type == WINDING_INCREMENT {
                        assert!(x.path_idx < y.path_idx);
                    }
                }
            }
        }
    }
}

#[test]
fn cell_of_one_pixel_is_not_split() {
    let segs = closed_path(&[(0, 0), (2, 0), (2, 2), (0, 2)], 0);
    let tree = QuadTree::new(&segs, Rect::from_ltrb(0, 0, 2, 2).unwrap(), 5, 0).unwrap();
    // The root is split once; its children are one pixel wide.
    assert_eq!(tree.nodes.len(), 5);
    for node in &tree.nodes[1..] {
        assert_eq!(node.children, None);
        assert!(node.leaf_entry_range.is_some());
    }
    let thin = QuadTree::new(&segs, Rect::from_ltrb(0, 0, 1, 64).unwrap(), 5, 0).unwrap();
    assert_eq!(thin.nodes.len(), 1);
}

#[test]
fn tree_rejects_curves() {
    let mut segs = closed_path(&[(10, 10), (90, 20), (40, 90)], 0);
    for kind in [SegType::Quadratic, SegType::Cubic, SegType::Arc] {
        segs[1].seg_type = kind;
        let r = QuadTree::new(&segs, root100(), 2, 0);
        assert_eq!(r.err(), Some(RasterError::UnsupportedSegment));
    }
    segs[1].seg_type = SegType::Point;
    assert!(QuadTree::new(&segs, root100(), 2, 0).is_ok());
    segs[1].seg_type = SegType::Commit;
    assert!(QuadTree::new(&segs, root100(), 2, 0).is_ok());
}

#[test]
fn tree_rejects_what_exceeds_the_limit() {
    assert_eq!(MAX_ENTRIES, 1 << 27);
    let segs = closed_path(&[(10, 10), (90, 20), (40, 90)], 0);
    // 3 * 4^13 > 2^27 >= 3 * 4^12
    assert!(QuadTree::new(&segs, root100(), 12, 0).is_ok());
    assert_eq!(QuadTree::new(&segs, root100(), 13, 0).err(), Some(RasterError::Overflow));
    assert_eq!(QuadTree::new(&segs, root100(), 255, 0).err(), Some(RasterError::Overflow));
    // no segments count as one: 4^13 <= 2^27 < 4^14
    assert!(QuadTree::new(&[], root100(), 13, 0).is_ok());
    assert_eq!(QuadTree::new(&[], root100(), 14, 0).err(), Some(RasterError::Overflow));
    // the limit is checked first
    let mut curved = segs.clone();
    curved[0].seg_type = SegType::Arc;
    assert_eq!(QuadTree::new(&curved, root100(), 13, 0).err(), Some(RasterError::Overflow));
}

#[test]
fn tree_rejects_a_path_index_beyond_32_bits() {
    if usize::BITS > 32 {
        let wide = (u32::MAX as u64 + 1) as usize;
        let segs = closed_path(&[(10, 10), (90, 20), (40, 90)], wide);
        assert_eq!(QuadTree::new(&segs, root100(), 2, 0).err(), Some(RasterError::Overflow));
        let fits = closed_path(&[(10, 10), (90, 20), (40, 90)], u32::MAX as usize);
        assert!(QuadTree::new(&fits, root100(), 2, 0).is_ok());
    }
}

#[test]
fn render_leaves_pixels_outside_the_root_alone() {
    let segs = closed_path(&[(2, 2), (6, 2), (6, 6), (2, 6)], 0);
    let root = Rect::from_ltrb(0, 0, 8, 8).unwrap();
    let pixels = render(&segs, root, 2, 0, 10, 9, 9);
    for y in 0..9 {
        for x in 0..10 {
            let p = pixel(&pixels, 10, x, y);
            if x >= 8 || y >= 8 {
                assert_eq!(p, [9, 9, 9, 9]);
            } else if (2..6).contains(&x) && (2..6).contains(&y) {
                assert_eq!(p, RED);
            } else {
                assert_eq!(p, CLEAR);
            }
        }
    }
}

#[test]
fn render_clips_a_root_larger_than_the_image() {
    let segs = closed_path(&[(-5, -5), (20, -5), (20, 20), (-5, 20)], 0);
    let root = Rect::from_ltrb(-8, -8, 24, 24).unwrap();
    for depth in 0..4 {
        let pixels = render(&segs, root, depth, 0, 6, 5, 1);
        assert_eq!(pixels.len(), 6 * 5 * 4);
        for y in 0..5 {
            for x in 0..6 {
                assert_eq!(pixel(&pixels, 6, x, y), RED);
            }
        }
    }
}

#[test]
fn render_into_an_empty_image() {
    let segs = closed_path(&[(2, 2), (6, 2), (6, 6), (2, 6)], 0);
    let root = Rect::from_ltrb(0, 0, 8, 8).unwrap();
    assert!(render(&segs, root, 2, 0, 0, 0, 0).is_empty());
    assert!(render(&segs, root, 2, 0, 0, 5, 0).is_empty());
}

#[test]
fn later_paths_paint_over_earlier_ones() {
    let mut segs = closed_path(&[(0, 0), (8, 0), (8, 8), (0, 8)], 0);
    segs.extend(closed_path(&[(4, 0), (8, 0), (8, 8), (4, 8)], 1));
    segs.extend(closed_path(&[(6, 0), (8, 0), (8, 8), (6, 8)], 2));
    let pixels = render(&segs, Rect::from_ltrb(0, 0, 8, 8).unwrap(), 3, 0, 8, 8, 0);
    assert_eq!(pixel(&pixels, 8, 1, 1), RED);
    assert_eq!(pixel(&pixels, 8, 5, 1), BLUE);
    assert_eq!(pixel(&pixels, 8, 7, 1), [0, 255, 0, 255]);
}

fn even_odd_image(segs: &[AbstractLineSegment], root: Rect, width: u32, height: u32) -> Vec<u8> {
    let paths = paths_for(segs);
    let paints = paints(paths.len());
    let mut pixels = vec![0u8; (width * height * 4) as usize];
    for y in 0..height as i32 {
        for x in 0..width as i32 {
            if !(root.left() <= x && x < root.right() && root.top() <= y && y < root.bottom()) {
                continue;
            }
            let mut color = CLEAR;
            for (p, path) in paths.iter().enumerate() {
                let mut crossings = 0;
                for s in segs.iter().filter(|s| s.path_idx == p) {
                    let bb = s.bounding_box;
                    if s.eval(x, y) < 0 && bb.top() <= y && y < bb.bottom() {
                        crossings += 1;
                    }
                }
                if crossings % 2 == 1 {
                    let Paint::SolidColor { rgba } = &paints[path.paint_id];
                    color = *rgba;
                }
            }
            let base = ((y as u32 * width + x as u32) * 4) as usize;
            pixels[base..base + 4].copy_from_slice(&color);
        }
    }
    pixels
}

#[test]
fn rendered_image_follows_the_even_odd_rule() {
    let mut rng = Lcg(4711);
    for round in 0..80 {
        let path_count = 1 + round % 3;
        let mut segs = Vec::new();
        for p in 0..path_count {
            let corners = rng.next(3, 7) as usize;
            let points: Vec<(i32, i32)> =
                (0..corners).map(|_| (rng.next(-12, 44), rng.next(-12, 44))).collect();
            segs.extend(closed_path(&points, p));
        }
        let root = Rect::from_ltrb(0, 0, 32, 32).unwrap();
        let expected = even_odd_image(&segs, root, 32, 32);
        for depth in [0u8, 1, 3, 6] {
            assert_eq!(render(&segs, root, depth, round % 2, 32, 32, 0), expected);
        }
    }
}

#[test]
fn even_odd_rule_of_a_star() {
    // a five-pointed star drawn in one stroke: its middle is crossed twice
    let segs = closed_path(&[(32, 2), (50, 60), (4, 24), (60, 24), (14, 60)], 0);
    let root = Rect::from_ltrb(0, 0, 64, 64).unwrap();
    for depth in 0..6 {
        let pixels = render(&segs, root, depth, 0, 64, 64, 0);
        assert_eq!(pixel(&pixels, 64, 32, 10), RED);
        assert_eq!(pixel(&pixels, 64, 32, 30), CLEAR);
        assert_eq!(pixel(&pixels, 64, 12, 26), RED);
        assert_eq!(pixel(&pixels, 64, 2, 2), CLEAR);
    }
}

#[test]
fn segment_beyond_the_far_column_is_lost_by_a_split() {
    // The far column of the root is at 8 + 9 * 1024; two corners of the
    // triangle lie beyond it, and the split cells see its long sides
    // wrongly.
    let segs = closed_path(&[(28632, 2), (-2, -2), (23002, 19)], 0);
    let root = Rect::from_ltrb(0, 0, 8, 8).unwrap();
    let flat = render(&segs, root, 0, 0, 8, 8, 0);
    assert_eq!(flat, even_odd_image(&segs, root, 8, 8));
    let deep = render(&segs, root, 2, 0, 8, 8, 0);
    assert_ne!(flat, deep);
    assert_eq!(pixel(&flat, 8, 0, 0), CLEAR);
    assert_eq!(pixel(&deep, 8, 0, 0), RED);
}

#[test]
fn pixel_buffer_len_is_four_bytes_a_pixel() {
    assert_eq!(pixel_buffer_len(1000, 1000), Ok(4_000_000));
    assert_eq!(pixel_buffer_len(0, 77), Ok(0));
    assert_eq!(pixel_buffer_len(3, 5), Ok(60));
    if usize::BITS <= 64 {
        assert_eq!(pixel_buffer_len(u32::MAX, u32::MAX), Err(RasterError::Overflow));
    }
    if usize::BITS == 64 {
        assert_eq!(pixel_buffer_len(u32::MAX, 1 << 30), Ok(((u32::MAX as usize) << 30) * 4));
    }
}

#[test]
fn short_segments_far_from_the_root_are_conserved() {
    // corners up to 3000 away from a small root, no side wider than 2048
    let mut rng = Lcg(31337);
    let roots = [(0, 0, 16, 16), (0, 0, 8, 8), (3, 5, 19, 14), (0, 0, 2, 2)];
    let mut tested = 0;
    while tested < 60 {
        let (l, t, r, b) = roots[tested % 4];
        let root = Rect::from_ltrb(l, t, r, b).unwrap();
        let corners = rng.next(3, 6) as usize;
        let mut points = Vec::new();
        let mut x = rng.next(-1500, 1500);
        for _ in 0..corners {
            let y = if rng.next(0, 1) == 0 { rng.next(-3000, 3000) } else { rng.next(-5, 25) };
            points.push((x, y));
            x = (x + rng.next(-1000, 1000)).clamp(-3000, 3000);
        }
        let segs = closed_path(&points, 0);
        if segs.iter().any(|s| s.bounding_box.width() > 2048) {
            continue;
        }
        tested += 1;
        let flat = render(&segs, root, 0, 0, 20, 16, 0);
        assert_eq!(flat, even_odd_image(&segs, root, 20, 16));
        for depth in 1..5 {
            assert_eq!(render(&segs, root, depth, 0, 20, 16, 0), flat);
        }
    }
}

#[test]
fn wide_segment_is_lost_by_a_deep_split() {
    // Every corner is within the far column of the root, but the sides are
    // wider than the far column of a small cell is away from it.
    let segs =
        closed_path(&[(-6274, -2), (9728, 6), (-11615, 39), (8268, 8), (10466, 1)], 0);
    let root = Rect::from_ltrb(0, 0, 16, 16).unwrap();
    let flat = render(&segs, root, 0, 0, 16, 16, 0);
    assert_eq!(flat, even_odd_image(&segs, root, 16, 16));
    assert_eq!(render(&segs, root, 1, 0, 16, 16, 0), flat);
    assert_ne!(render(&segs, root, 3, 0, 16, 16, 0), flat);
}
