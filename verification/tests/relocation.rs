use image_dedup::group::group_records;
use image_dedup::records::{HashedRecord, ImageRecord};
use image_dedup::relocate::{
    apply_moves, plan_moves, quarantine_dir_path, summarize_moves, PathStore,
};

fn hashed(fp: u64, path: &[u8]) -> HashedRecord {
    HashedRecord { fingerprint: fp, record: ImageRecord { path: path.to_vec(), file_size: 0 } }
}

#[test]
fn quarantine_path_is_the_duplicates_subdirectory() {
    assert_eq!(quarantine_dir_path(&b"dir".to_vec()), b"dir/duplicates".to_vec());
}

#[test]
fn plans_one_move_per_member_of_duplicate_sized_groups() {
    let records = vec![
        hashed(1, b"d/a.png"),
        hashed(1, b"d/b.png"),
        hashed(2, b"d/c.png"),
    ];
    let groups = group_records(&records);
    let quarantine = quarantine_dir_path(&b"d".to_vec());
    let plan = plan_moves(&groups, &quarantine);
    assert_eq!(plan.len(), 2);
    let sources: Vec<Vec<u8>> = plan.iter().map(|op| op.source.clone()).collect();
    assert!(sources.contains(&b"d/a.png".to_vec()));
    assert!(sources.contains(&b"d/b.png".to_vec()));
    for op in &plan {
        assert!(op.dest.starts_with(b"d/duplicates/"));
    }
}

#[test]
fn singleton_groups_are_left_untouched() {
    let records = vec![hashed(1, b"d/a.png"), hashed(2, b"d/b.png")];
    let groups = group_records(&records);
    let quarantine = quarantine_dir_path(&b"d".to_vec());
    let plan = plan_moves(&groups, &quarantine);
    assert_eq!(plan.len(), 0);
}

#[test]
fn successful_move_leaves_exactly_the_destination() {
    let mut store = PathStore::new();
    store.add_path(&b"d/a.png".to_vec());
    let ok = store.rename_path(&b"d/a.png".to_vec(), &b"d/duplicates/a.png".to_vec());
    assert!(ok);
    assert!(store.contains_path(&b"d/duplicates/a.png".to_vec()));
    assert!(!store.contains_path(&b"d/a.png".to_vec()));
}

#[test]
fn collision_fails_the_move_and_leaves_the_source() {
    let mut store = PathStore::new();
    store.add_path(&b"d/a.png".to_vec());
    store.add_path(&b"d/duplicates/a.png".to_vec());
    let ok = store.rename_path(&b"d/a.png".to_vec(), &b"d/duplicates/a.png".to_vec());
    assert!(!ok);
    assert!(store.contains_path(&b"d/a.png".to_vec()));
    assert!(store.contains_path(&b"d/duplicates/a.png".to_vec()));
}

#[test]
fn missing_source_fails_the_move() {
    let mut store = PathStore::new();
    let ok = store.rename_path(&b"d/gone.png".to_vec(), &b"d/duplicates/gone.png".to_vec());
    assert!(!ok);
    assert!(!store.contains_path(&b"d/duplicates/gone.png".to_vec()));
}

#[test]
fn same_named_files_from_two_groups_collide_once() {
    let records = vec![
        hashed(1, b"d/one/img.png"),
        hashed(1, b"d/one/other.png"),
        hashed(2, b"d/two/img.png"),
        hashed(2, b"d/two/extra.png"),
    ];
    let groups = group_records(&records);
    let quarantine = quarantine_dir_path(&b"d".to_vec());
    let plan = plan_moves(&groups, &quarantine);
    assert_eq!(plan.len(), 4);

    let mut store = PathStore::new();
    for r in &records {
        store.add_path(&r.record.path);
    }
    let outcomes = apply_moves(&mut store, &plan);
    let summary = summarize_moves(&plan, &outcomes);
    assert_eq!(summary.moved, 3);
    assert_eq!(summary.failed.len(), 1);
    assert!(!summary.remove_quarantine);

    // groups keep first-occurrence order, so the first group's img.png
    // reaches the quarantine and the second one's collides and stays put
    assert!(store.contains_path(&b"d/duplicates/img.png".to_vec()));
    assert_eq!(summary.failed[0].source, b"d/two/img.png".to_vec());
    assert!(!store.contains_path(&b"d/one/img.png".to_vec()));
    assert!(store.contains_path(&b"d/two/img.png".to_vec()));
    assert!(store.contains_path(&b"d/duplicates/other.png".to_vec()));
    assert!(store.contains_path(&b"d/duplicates/extra.png".to_vec()));
}

#[test]
fn quarantine_is_removed_exactly_when_nothing_moved() {
    let no_plan = Vec::new();
    let no_outcomes = Vec::new();
    let summary = summarize_moves(&no_plan, &no_outcomes);
    assert_eq!(summary.moved, 0);
    assert!(summary.remove_quarantine);

    let records = vec![hashed(1, b"d/a.png"), hashed(1, b"d/b.png")];
    let groups = group_records(&records);
    let quarantine = quarantine_dir_path(&b"d".to_vec());
    let plan = plan_moves(&groups, &quarantine);

    // every move fails: the sources do not exist in the store
    let mut empty_store = PathStore::new();
    let outcomes = apply_moves(&mut empty_store, &plan);
    let summary = summarize_moves(&plan, &outcomes);
    assert_eq!(summary.moved, 0);
    assert_eq!(summary.failed.len(), 2);
    assert!(summary.remove_quarantine);

    // with the sources present both moves succeed
    let mut store = PathStore::new();
    store.add_path(&b"d/a.png".to_vec());
    store.add_path(&b"d/b.png".to_vec());
    let outcomes = apply_moves(&mut store, &plan);
    let summary = summarize_moves(&plan, &outcomes);
    assert_eq!(summary.moved, 2);
    assert!(!summary.remove_quarantine);
}
