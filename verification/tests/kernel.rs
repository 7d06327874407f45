use quadraster::abstract_segment::{AbstractLineSegment, SegType};
use quadraster::cell_entry::{
    down, fill, flag, has_any_fill, has_down, has_fill, has_up, init_root_cell_entries, up,
    CellEntry, SplitData, SplitEntry, ABSTRACT, BOTTOM_LEFT, BOTTOM_RIGHT, EMPTY, FILL_MASK,
    NONE_U32, TOP_LEFT, TOP_RIGHT, WINDING_INCREMENT,
};
use quadraster::classify::{half_open_eval, EdgeIntersectionInfo};
use quadraster::error::RasterError;
use quadraster::geometry::point::Point;
use quadraster::geometry::rect::Rect;
use quadraster::scan::{consolidate_winding_inc, update_to_global_offset};
use quadraster::scatter::split_to_cell_entry;
use quadraster::split::build_split_entries;
use quadraster::subdivide::{get_child_bounds, subdivide_cell_entry};

fn seg(x0: i32, y0: i32, x1: i32, y1: i32, path: usize) -> AbstractLineSegment {
    AbstractLineSegment::new(Point { x: x0, y: y0 }, Point { x: x1, y: y1 }, SegType::Linear, path)
}

fn root() -> Rect {
    Rect::from_ltrb(0, 0, 100, 100).unwrap()
}

fn crossed(e: &EdgeIntersectionInfo) -> Vec<u32> {
    let flags = [
        e.cross0, e.cross1, e.cross2, e.cross3, e.cross4, e.cross5, e.cross6, e.cross7, e.cross8,
        e.cross9, e.cross10, e.cross11, e.cross12, e.cross13, e.cross14, e.cross15, e.cross16,
        e.cross17,
    ];
    let mut out = Vec::new();
    for (i, f) in flags.iter().enumerate() {
        if *f {
            out.push(i as u32);
        }
    }
    out
}

fn record(winding: [i32; 4], split_info: u32, seg_idx: u32, path_idx: u32) -> SplitEntry {
    SplitEntry {
        split_data: SplitData { winding, split_info },
        offsets: [0; 4],
        seg_idx,
        path_idx,
        parent_cell_id: 0,
    }
}

fn segment_entry(data: i32, seg_idx: u32, path_idx: u32, pos: u32, id: u32) -> CellEntry {
    CellEntry { entry_type: ABSTRACT, data, seg_idx, path_idx, cell_pos: pos, cell_id: id }
}

fn winding_entry(data: i32, path_idx: u32, pos: u32, id: u32) -> CellEntry {
    CellEntry {
        entry_type: WINDING_INCREMENT,
        data,
        seg_idx: NONE_U32,
        path_idx,
        cell_pos: pos,
        cell_id: id,
    }
}

#[test]
fn flag_bits() {
    assert_eq!(flag(0, 0), 1);
    assert_eq!(flag(3, 0), 8);
    assert_eq!(flag(2, 4), 64);
    assert_eq!(flag(3, 8), 2048);
    assert_eq!([fill(0), fill(1), fill(2), fill(3)], [1, 2, 4, 8]);
    assert_eq!([up(0), up(1), up(2), up(3)], [16, 32, 64, 128]);
    assert_eq!([down(0), down(1), down(2), down(3)], [256, 512, 1024, 2048]);
    assert_eq!(FILL_MASK, 15);
}

#[test]
fn flag_tests() {
    let info = fill(BOTTOM_LEFT) | up(TOP_RIGHT) | down(BOTTOM_RIGHT);
    assert_eq!(info, 4 + 32 + 2048);
    for c in 0..4 {
        assert_eq!(has_fill(info, c), c == BOTTOM_LEFT);
        assert_eq!(has_up(info, c), c == TOP_RIGHT);
        assert_eq!(has_down(info, c), c == BOTTOM_RIGHT);
    }
    assert!(has_any_fill(info));
    assert!(!has_any_fill(up(TOP_LEFT) | down(TOP_LEFT)));
    assert!(!has_any_fill(0));
    assert!(has_any_fill(fill(TOP_LEFT)));
}

#[test]
fn default_entry() {
    let e = CellEntry::default();
    assert_eq!(
        e,
        CellEntry {
            entry_type: EMPTY,
            data: 0,
            seg_idx: NONE_U32,
            path_idx: u32::MAX,
            cell_pos: 0,
            cell_id: u32::MAX,
        }
    );
}

#[test]
fn root_entries_one_per_segment() {
    let segs = vec![seg(0, 0, 5, 5, 0), seg(5, 5, 0, 9, 0), seg(1, 1, 2, 2, 4)];
    let entries = init_root_cell_entries(&segs);
    assert_eq!(
        entries,
        vec![
            segment_entry(0, 0, 0, 0, 0),
            segment_entry(0, 1, 0, 0, 0),
            segment_entry(0, 2, 4, 0, 0),
        ]
    );
    assert_eq!(init_root_cell_entries(&[]), vec![]);
}

#[test]
fn half_open_eval_inside_the_band() {
    let s = seg(90, 20, 40, 90, 0);
    // left of the box, right of the box, and on either side of the line
    assert_eq!(half_open_eval(&s, 0, 50), -1);
    assert_eq!(half_open_eval(&s, 100, 50), 1);
    assert_eq!(half_open_eval(&s, 103524, 50), 1);
    assert_eq!(half_open_eval(&s, 65, 55), 1);
    assert_eq!(half_open_eval(&s, 64, 56), -1);
    // the band is open at the top and closed at the bottom
    assert_eq!(half_open_eval(&s, 60, 21), -1);
    assert_eq!(half_open_eval(&s, 60, 90), 1);
}

#[test]
fn half_open_eval_outside_the_band() {
    let s = seg(90, 20, 40, 90, 0);
    // above: the row of the top edge is outside
    assert_eq!(half_open_eval(&s, 60, 20), -1);
    assert_eq!(half_open_eval(&s, 60, 10), -1);
    // below
    assert_eq!(half_open_eval(&s, 60, 91), 1);
    assert_eq!(half_open_eval(&s, 40, 95), 1);
    assert_eq!(half_open_eval(&s, 89, 95), 1);
    // the columns are closed at the left and open at the right
    assert_eq!(half_open_eval(&s, 90, 95), 0);
    assert_eq!(half_open_eval(&s, 39, 95), 0);
    // the other diagonal has the other constants
    let t = seg(40, 20, 90, 90, 0);
    assert_eq!(half_open_eval(&t, 60, 10), 1);
    assert_eq!(half_open_eval(&t, 60, 95), -1);
}

#[test]
fn half_open_eval_on_the_line_is_positive() {
    let s = seg(20, 20, 80, 80, 0);
    assert_eq!(half_open_eval(&s, 50, 50), 1);
    assert_eq!(half_open_eval(&s, 49, 50), -1);
}

#[test]
fn half_open_sign_flips_once_along_a_row() {
    let s = seg(90, 20, 40, 90, 0);
    for y in [21i64, 50, 90] {
        let mut flips = 0;
        let mut prev = half_open_eval(&s, -10, y);
        assert_eq!(prev, -1);
        for x in -9..=120i64 {
            let cur = half_open_eval(&s, x, y);
            assert!(cur >= prev);
            if prev * cur < 0 {
                flips += 1;
            }
            prev = cur;
        }
        assert_eq!(flips, 1);
    }
    for y in [0i64, 20, 91, 200] {
        let mut prev = half_open_eval(&s, -10, y);
        for x in -9..=120i64 {
            let cur = half_open_eval(&s, x, y);
            assert!(prev * cur >= 0);
            assert_eq!(cur == 0, !(40 <= x && x < 90));
            prev = cur;
        }
    }
}

#[test]
fn crossings_of_a_triangle() {
    let mid = Point { x: 50, y: 50 };
    let e0 = EdgeIntersectionInfo::new(&seg(10, 10, 90, 20, 0), &root(), &mid);
    assert_eq!(crossed(&e0), vec![8]);
    let e1 = EdgeIntersectionInfo::new(&seg(90, 20, 40, 90, 0), &root(), &mid);
    assert_eq!(crossed(&e1), vec![3, 6, 16]);
    let e2 = EdgeIntersectionInfo::new(&seg(40, 90, 10, 10, 0), &root(), &mid);
    assert_eq!(crossed(&e2), vec![5]);
}

#[test]
fn crossings_beyond_the_right_edge() {
    let mid = Point { x: 50, y: 50 };
    let down = EdgeIntersectionInfo::new(&seg(110, 40, 110, 60, 0), &root(), &mid);
    assert_eq!(crossed(&down), vec![13, 16]);
    let through = EdgeIntersectionInfo::new(&seg(130, 120, 40, 30, 0), &root(), &mid);
    assert_eq!(crossed(&through), vec![4, 6, 8, 12, 16, 17]);
}

#[test]
fn split_data_of_a_triangle() {
    let mid = Point { x: 50, y: 50 };
    let expected = [
        (seg(10, 10, 90, 20, 0), [0, 0, 0, 0], 19u32),
        (seg(90, 20, 40, 90, 0), [-1, 0, 0, 0], 14),
        (seg(40, 90, 10, 10, 0), [0, 0, 0, 0], 5),
    ];
    for (s, winding, info) in expected {
        let e = EdgeIntersectionInfo::new(&s, &root(), &mid);
        let d = SplitData::new(&s, 0, &e, &root(), &mid);
        assert_eq!(d.winding, winding);
        assert_eq!(d.split_info, info);
    }
}

#[test]
fn split_data_shortcut_markers() {
    let mid = Point { x: 50, y: 50 };
    let cases = [
        (seg(60, 60, 140, 80, 0), fill(BOTTOM_RIGHT) | up(BOTTOM_RIGHT)),
        (seg(140, 80, 60, 60, 0), fill(BOTTOM_RIGHT) | down(BOTTOM_RIGHT)),
        (seg(60, 10, 140, 30, 0), fill(TOP_RIGHT) | up(TOP_RIGHT)),
        (seg(20, 60, 70, 80, 0), fill(BOTTOM_LEFT) | fill(BOTTOM_RIGHT) | up(BOTTOM_LEFT)),
        (seg(20, 10, 70, 30, 0), fill(TOP_LEFT) | fill(TOP_RIGHT) | up(TOP_LEFT)),
        (seg(70, 30, 20, 10, 0), fill(TOP_LEFT) | fill(TOP_RIGHT) | down(TOP_LEFT)),
    ];
    for (s, info) in cases {
        let e = EdgeIntersectionInfo::new(&s, &root(), &mid);
        let d = SplitData::new(&s, 0, &e, &root(), &mid);
        assert_eq!(d.split_info, info);
        assert_eq!(d.winding, [0, 0, 0, 0]);
    }
}

#[test]
fn split_data_carries_the_parent_shortcut() {
    let mid = Point { x: 50, y: 50 };
    let s = seg(40, 30, 130, 70, 0);
    let e = EdgeIntersectionInfo::new(&s, &root(), &mid);
    assert_eq!(SplitData::new(&s, 0, &e, &root(), &mid).winding, [0, 0, 0, 0]);
    assert_eq!(SplitData::new(&s, 1, &e, &root(), &mid).winding, [1, 1, 0, 0]);
    assert_eq!(SplitData::new(&s, -1, &e, &root(), &mid).winding, [-1, -1, 0, 0]);
    assert_eq!(SplitData::new(&s, 5, &e, &root(), &mid).winding, [1, 1, 0, 0]);
    assert_eq!(SplitData::new(&s, 1, &e, &root(), &mid).split_info, 139);
    let t = seg(130, 120, 40, 30, 0);
    let e = EdgeIntersectionInfo::new(&t, &root(), &mid);
    assert_eq!(SplitData::new(&t, 0, &e, &root(), &mid).winding, [0, 0, 1, 0]);
    assert_eq!(SplitData::new(&t, 1, &e, &root(), &mid).winding, [1, 1, 2, 1]);
    assert_eq!(SplitData::new(&t, -1, &e, &root(), &mid).winding, [-1, -1, 0, -1]);
    assert_eq!(SplitData::new(&t, 0, &e, &root(), &mid).split_info, 11);
}

#[test]
fn split_data_beyond_the_right_edge_is_winding_only() {
    let mid = Point { x: 50, y: 50 };
    let down_seg = seg(110, 40, 110, 60, 0);
    let e = EdgeIntersectionInfo::new(&down_seg, &root(), &mid);
    let d = SplitData::new(&down_seg, 0, &e, &root(), &mid);
    assert_eq!((d.winding, d.split_info), ([-1, -1, 0, 0], 0));
    let up_seg = seg(110, 60, 110, 40, 0);
    let e = EdgeIntersectionInfo::new(&up_seg, &root(), &mid);
    let d = SplitData::new(&up_seg, 0, &e, &root(), &mid);
    assert_eq!((d.winding, d.split_info), ([1, 1, 0, 0], 0));
}

#[test]
fn build_split_entries_one_record_per_entry() {
    let segs = vec![seg(10, 10, 90, 20, 7), seg(90, 20, 40, 90, 7)];
    let mut entries = vec![
        segment_entry(0, 1, 7, 0, 3),
        winding_entry(-4, 7, 0, 3),
        CellEntry::default(),
        segment_entry(0, 0, 7, 0, 3),
    ];
    let before = entries.clone();
    let recs = build_split_entries(&root(), &Point { x: 50, y: 50 }, &mut entries, &segs);
    assert_eq!(entries, before);
    assert_eq!(recs.len(), 3);
    assert_eq!(recs[0].split_data.winding, [-1, 0, 0, 0]);
    assert_eq!(recs[0].split_data.split_info, 14);
    assert_eq!((recs[0].seg_idx, recs[0].path_idx, recs[0].parent_cell_id), (1, 7, 3));
    assert_eq!(recs[0].offsets, [0, 0, 0, 0]);
    assert_eq!(recs[1].split_data.winding, [-4, -4, -4, -4]);
    assert_eq!(recs[1].split_data.split_info, 0);
    assert_eq!((recs[1].seg_idx, recs[1].path_idx, recs[1].parent_cell_id), (NONE_U32, 7, 3));
    assert_eq!(recs[2].split_data.winding, [0, 0, 0, 0]);
    assert_eq!(recs[2].split_data.split_info, 19);
    assert_eq!((recs[2].seg_idx, recs[2].path_idx, recs[2].parent_cell_id), (0, 7, 3));
}

#[test]
fn build_split_entries_takes_the_path_from_the_segment() {
    let segs = vec![seg(10, 10, 90, 20, 7)];
    let mut entries = vec![segment_entry(0, 0, 2, 0, 0)];
    let recs = build_split_entries(&root(), &Point { x: 50, y: 50 }, &mut entries, &segs);
    assert_eq!(recs[0].path_idx, 7);
}

#[test]
fn build_split_entries_of_an_entry_with_both_kinds() {
    let segs = vec![seg(10, 10, 90, 20, 1)];
    let mut entries = vec![CellEntry {
        entry_type: ABSTRACT | WINDING_INCREMENT,
        data: 0,
        seg_idx: 0,
        path_idx: 1,
        cell_pos: 0,
        cell_id: 0,
    }];
    let recs = build_split_entries(&root(), &Point { x: 50, y: 50 }, &mut entries, &segs);
    assert_eq!(recs.len(), 2);
    assert_eq!(recs[0].seg_idx, 0);
    assert_eq!(recs[1].seg_idx, NONE_U32);
}

#[test]
fn consolidate_sums_within_a_path() {
    let mut recs = vec![
        record([1, 0, -1, 2], 0, 0, 0),
        record([1, 1, 1, 1], 0, 1, 0),
        record([-3, 0, 0, 5], 0, 2, 0),
        record([10, 20, 30, 40], 0, 3, 1),
        record([1, 2, 3, 4], 0, 4, 1),
        record([7, 7, 7, 7], 0, 5, 0),
    ];
    consolidate_winding_inc(&mut recs);
    let windings: Vec<[i32; 4]> = recs.iter().map(|r| r.split_data.winding).collect();
    assert_eq!(
        windings,
        vec![
            [1, 0, -1, 2],
            [2, 1, 0, 3],
            [-1, 1, 0, 8],
            [10, 20, 30, 40],
            [11, 22, 33, 44],
            [7, 7, 7, 7],
        ]
    );
    // nothing but the windings changes
    let ids: Vec<(u32, u32)> = recs.iter().map(|r| (r.seg_idx, r.path_idx)).collect();
    assert_eq!(ids, vec![(0, 0), (1, 0), (2, 0), (3, 1), (4, 1), (5, 0)]);
}

#[test]
fn consolidate_of_one_and_of_none() {
    let mut one = vec![record([3, -3, 0, 1], 5, 0, 0)];
    consolidate_winding_inc(&mut one);
    assert_eq!(one[0].split_data.winding, [3, -3, 0, 1]);
    let mut none: Vec<SplitEntry> = vec![];
    consolidate_winding_inc(&mut none);
    assert!(none.is_empty());
}

#[test]
fn consolidate_reaches_the_limits_of_i32() {
    let mut recs = vec![
        record([i32::MAX - 1, i32::MIN + 1, 0, 0], 0, 0, 0),
        record([1, -1, 0, 0], 0, 1, 0),
    ];
    consolidate_winding_inc(&mut recs);
    assert_eq!(recs[1].split_data.winding, [i32::MAX, i32::MIN, 0, 0]);
}

#[test]
fn offsets_are_exclusive_prefix_sums_child_first() {
    // path 0: two records, path 1: one record
    let mut recs = vec![
        record([0, 0, 0, 0], fill(TOP_LEFT) | fill(TOP_RIGHT), 0, 0),
        record([2, 0, 0, 0], fill(TOP_LEFT), 1, 0),
        record([1, 1, 0, 0], fill(BOTTOM_RIGHT), 2, 1),
    ];
    let total = update_to_global_offset(&mut recs);
    // child 0 emits 1, 2, 1; child 1 emits 1, 0, 1; child 2 emits nothing;
    // child 3 emits 0, 0, 1
    assert_eq!(total, 7);
    assert_eq!(recs[0].offsets, [0, 4, 6, 6]);
    assert_eq!(recs[1].offsets, [1, 5, 6, 6]);
    assert_eq!(recs[2].offsets, [3, 5, 6, 6]);
}

#[test]
fn offsets_count_a_winding_only_at_the_tail() {
    let mut recs = vec![
        record([5, 5, 5, 5], 0, 0, 0),
        record([6, 0, 6, 0], 0, 1, 0),
    ];
    let total = update_to_global_offset(&mut recs);
    assert_eq!(total, 2);
    assert_eq!(recs[0].offsets, [0, 1, 1, 2]);
    assert_eq!(recs[1].offsets, [0, 1, 1, 2]);
    let mut none: Vec<SplitEntry> = vec![];
    assert_eq!(update_to_global_offset(&mut none), 0);
}

#[test]
fn scatter_writes_segment_then_winding() {
    let mut recs = vec![
        record([0, 0, 0, 0], fill(TOP_LEFT) | fill(TOP_RIGHT) | up(TOP_RIGHT), 10, 0),
        record([2, 0, 0, 0], fill(TOP_LEFT) | down(TOP_LEFT), 11, 0),
        record([1, 1, 0, 0], fill(BOTTOM_RIGHT), 12, 1),
    ];
    for r in recs.iter_mut() {
        r.parent_cell_id = 5;
    }
    let total = update_to_global_offset(&mut recs);
    let before: Vec<[u32; 4]> = recs.iter().map(|r| r.offsets).collect();
    let out = split_to_cell_entry(&mut recs, total);
    let after: Vec<[u32; 4]> = recs.iter().map(|r| r.offsets).collect();
    assert_eq!(before, after);
    assert_eq!(
        out,
        vec![
            segment_entry(0, 10, 0, 0, 20),
            segment_entry(-1, 11, 0, 0, 20),
            winding_entry(2, 0, 0, 20),
            winding_entry(1, 1, 0, 20),
            segment_entry(1, 10, 0, 1, 21),
            winding_entry(1, 1, 1, 21),
            segment_entry(0, 12, 1, 3, 23),
        ]
    );
}

#[test]
fn scatter_skips_a_record_whose_successor_shares_its_offset() {
    // All offsets are zero: within a run only the tail writes, and the
    // second run then overwrites the first.
    let mut recs = vec![
        record([0, 0, 0, 0], fill(TOP_LEFT), 1, 0),
        record([0, 0, 0, 0], fill(TOP_LEFT), 2, 0),
        record([0, 0, 0, 0], 0, 3, 4),
    ];
    let out = split_to_cell_entry(&mut recs, 2);
    assert_eq!(out, vec![segment_entry(0, 2, 0, 0, 0), CellEntry::default()]);
    // A record with another offset than its successor writes.
    recs[0].offsets = [1, 0, 0, 0];
    let out = split_to_cell_entry(&mut recs, 2);
    assert_eq!(out, vec![segment_entry(0, 2, 0, 0, 0), segment_entry(0, 1, 0, 0, 0)]);
}

#[test]
fn scatter_of_nothing_is_all_default() {
    let mut none: Vec<SplitEntry> = vec![];
    assert_eq!(split_to_cell_entry(&mut none, 0), vec![]);
    assert_eq!(split_to_cell_entry(&mut none, 2), vec![CellEntry::default(); 2]);
}

#[test]
fn scatter_prefers_the_upward_marker() {
    let mut recs = vec![record([0; 4], fill(TOP_LEFT) | up(TOP_LEFT) | down(TOP_LEFT), 0, 0)];
    let out = split_to_cell_entry(&mut recs, 1);
    assert_eq!(out[0].data, 1);
}

#[test]
fn subdivide_a_triangle() {
    let segs = vec![seg(10, 10, 90, 20, 0), seg(90, 20, 40, 90, 0), seg(40, 90, 10, 10, 0)];
    let mut entries = init_root_cell_entries(&segs);
    let out = subdivide_cell_entry(&mut entries, &root(), &Point { x: 50, y: 50 }, &segs).unwrap();
    assert_eq!(
        out,
        vec![
            segment_entry(1, 0, 0, 0, 0),
            segment_entry(0, 2, 0, 0, 0),
            winding_entry(-1, 0, 0, 0),
            segment_entry(0, 0, 0, 1, 1),
            segment_entry(0, 1, 0, 1, 1),
            segment_entry(0, 1, 0, 2, 2),
            segment_entry(0, 2, 0, 2, 2),
            segment_entry(0, 1, 0, 3, 3),
        ]
    );
    assert_eq!(entries, init_root_cell_entries(&segs));
}

#[test]
fn subdivide_beyond_the_right_edge_cancels() {
    let segs = vec![seg(110, 40, 110, 60, 0), seg(110, 60, 110, 40, 0)];
    let mut entries = init_root_cell_entries(&segs);
    let out = subdivide_cell_entry(&mut entries, &root(), &Point { x: 50, y: 50 }, &segs).unwrap();
    assert_eq!(out, vec![]);
    // one segment alone leaves a winding in the top row
    let mut first = vec![entries[0]];
    let out = subdivide_cell_entry(&mut first, &root(), &Point { x: 50, y: 50 }, &segs).unwrap();
    assert_eq!(out, vec![winding_entry(-1, 0, 0, 0), winding_entry(-1, 0, 1, 1)]);
}

#[test]
fn subdivide_keeps_paths_apart() {
    // the same segment in two paths: each path gets its own winding entry
    let segs = vec![seg(110, 40, 110, 60, 0), seg(110, 40, 110, 60, 1)];
    let mut entries = init_root_cell_entries(&segs);
    let out = subdivide_cell_entry(&mut entries, &root(), &Point { x: 50, y: 50 }, &segs).unwrap();
    assert_eq!(
        out,
        vec![
            winding_entry(-1, 0, 0, 0),
            winding_entry(-1, 1, 0, 0),
            winding_entry(-1, 0, 1, 1),
            winding_entry(-1, 1, 1, 1),
        ]
    );
}

#[test]
fn subdivide_of_no_entries() {
    let segs: Vec<AbstractLineSegment> = vec![];
    let mut entries: Vec<CellEntry> = vec![];
    let out = subdivide_cell_entry(&mut entries, &root(), &Point { x: 50, y: 50 }, &segs);
    assert_eq!(out, Ok(vec![]));
}

#[test]
fn subdivide_fails_where_the_cell_cannot_be_split() {
    let segs = vec![seg(10, 10, 90, 20, 0)];
    let mut entries = init_root_cell_entries(&segs);
    let on_edge = subdivide_cell_entry(&mut entries, &root(), &Point { x: 0, y: 50 }, &segs);
    assert_eq!(on_edge, Err(RasterError::DegenerateSubdivision));
    let on_corner = subdivide_cell_entry(&mut entries, &root(), &Point { x: 100, y: 100 }, &segs);
    assert_eq!(on_corner, Err(RasterError::DegenerateSubdivision));
    let outside = subdivide_cell_entry(&mut entries, &root(), &Point { x: 50, y: 101 }, &segs);
    assert_eq!(outside, Err(RasterError::InvalidRect));
    let thin = Rect::from_ltrb(0, 0, 1, 100).unwrap();
    let mid = thin.mid_point();
    let r = subdivide_cell_entry(&mut entries, &thin, &Point { x: mid[0], y: mid[1] }, &segs);
    assert_eq!(r, Err(RasterError::DegenerateSubdivision));
}

#[test]
fn child_bounds_of_a_cell() {
    let bounds = get_child_bounds(root(), Point { x: 50, y: 40 }).unwrap();
    assert_eq!(bounds[TOP_LEFT as usize], Rect::from_ltrb(0, 0, 50, 40).unwrap());
    assert_eq!(bounds[TOP_RIGHT as usize], Rect::from_ltrb(50, 0, 100, 40).unwrap());
    assert_eq!(bounds[BOTTOM_LEFT as usize], Rect::from_ltrb(0, 40, 50, 100).unwrap());
    assert_eq!(bounds[BOTTOM_RIGHT as usize], Rect::from_ltrb(50, 40, 100, 100).unwrap());
    assert_eq!(
        get_child_bounds(root(), Point { x: -1, y: 40 }),
        Err(RasterError::InvalidRect)
    );
    assert_eq!(
        get_child_bounds(root(), Point { x: 50, y: 0 }),
        Err(RasterError::DegenerateSubdivision)
    );
}

#[test]
fn emitted_entries_are_unique_per_cell() {
    let segs = vec![
        seg(10, 10, 90, 20, 0),
        seg(90, 20, 40, 90, 0),
        seg(40, 90, 10, 10, 0),
        seg(30, 30, 130, 40, 1),
        seg(130, 40, 60, 120, 1),
        seg(60, 120, 30, 30, 1),
    ];
    let mut entries = init_root_cell_entries(&segs);
    let out = subdivide_cell_entry(&mut entries, &root(), &Point { x: 50, y: 50 }, &segs).unwrap();
    for a in 0..out.len() {
        for b in (a + 1)..out.len() {
            let (x, y) = (out[a], out[b]);
            if x.entry_type == ABSTRACT && y.entry_type == ABSTRACT {
                assert!((x.cell_id, x.path_idx, x.seg_idx) != (y.cell_id, y.path_idx, y.seg_idx));
            }
            if x.entry_type == WINDING_INCREMENT && y.entry_type == WINDING_INCREMENT {
                assert!((x.cell_id, x.path_idx) != (y.cell_id, y.path_idx));
            }
        }
    }
    // child by child, path by path, segments before the winding
    let keys: Vec<(u32, u32, u32)> =
        out.iter().map(|e| (e.cell_pos, e.path_idx, e.entry_type)).collect();
    let mut sorted = keys.clone();
    sorted.sort();
    assert_eq!(keys, sorted);
}
