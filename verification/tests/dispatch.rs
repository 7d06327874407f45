use quadraster::dispatch::{
    dispatch_for_items, hierarchical_level_counts, split_dispatch_3d, CellMetadata, WG_SIZE,
};
use quadraster::geometry::rect::Rect;

#[test]
fn dispatch_within_one_extent() {
    assert_eq!(split_dispatch_3d(1, 65535), [1, 1, 1]);
    assert_eq!(split_dispatch_3d(100, 65535), [100, 1, 1]);
    assert_eq!(split_dispatch_3d(65535, 65535), [65535, 1, 1]);
}

#[test]
fn dispatch_over_two_and_three_extents() {
    assert_eq!(split_dispatch_3d(65536, 65535), [65535, 2, 1]);
    assert_eq!(split_dispatch_3d(10, 4), [4, 3, 1]);
    assert_eq!(split_dispatch_3d(17, 4), [4, 4, 2]);
    assert_eq!(split_dispatch_3d(64, 4), [4, 4, 4]);
    assert_eq!(split_dispatch_3d(1, 1), [1, 1, 1]);
}

#[test]
fn dispatch_holds_every_workgroup() {
    for max_dim in 1..6u32 {
        for needed in 1..=(max_dim * max_dim * max_dim) {
            let [x, y, z] = split_dispatch_3d(needed, max_dim);
            assert!(x >= 1 && x <= max_dim);
            assert!(y >= 1 && y <= max_dim);
            assert!(z >= 1 && z <= max_dim);
            assert!(x * y * z >= needed);
        }
    }
}

#[test]
fn dispatch_for_items_counts_workgroups() {
    assert_eq!(WG_SIZE, 2);
    assert_eq!(dispatch_for_items(0, 8), [1, 1, 1]);
    assert_eq!(dispatch_for_items(1, 8), [1, 1, 1]);
    assert_eq!(dispatch_for_items(2, 8), [1, 1, 1]);
    assert_eq!(dispatch_for_items(3, 8), [2, 1, 1]);
    assert_eq!(dispatch_for_items(16, 8), [8, 1, 1]);
    assert_eq!(dispatch_for_items(17, 8), [8, 2, 1]);
}

#[test]
fn level_counts_halve_until_one() {
    assert_eq!(hierarchical_level_counts(9, 10), vec![9, 5, 3, 2, 1]);
    assert_eq!(hierarchical_level_counts(8, 10), vec![8, 4, 2, 1]);
    assert_eq!(hierarchical_level_counts(9, 3), vec![9, 5, 3]);
    assert_eq!(hierarchical_level_counts(1, 4), vec![1]);
    assert_eq!(hierarchical_level_counts(0, 4), vec![0]);
    assert_eq!(hierarchical_level_counts(9, 0), Vec::<u32>::new());
    assert_eq!(hierarchical_level_counts(u32::MAX, 2), vec![u32::MAX, 1 << 31]);
}

#[test]
fn cell_metadata_keeps_what_it_was_given() {
    let rect = Rect::from_ltrb(-4, 2, 10, 9).unwrap();
    let meta = CellMetadata::new(&rect, 7, 3);
    assert_eq!(meta.bbox_ltrb(), [-4, 2, 10, 9]);
    assert_eq!(meta.entry_start(), 7);
    assert_eq!(meta.entry_count(), 3);
    assert_eq!(meta.bbox_rect(), rect);
}
