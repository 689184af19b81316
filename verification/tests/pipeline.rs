use image_dedup::extract::{hash_all, split_outcomes};
use image_dedup::group::group_records;
use image_dedup::records::{HashedRecord, ImageRecord};
use image_dedup::relocate::{apply_moves, plan_moves, quarantine_dir_path, summarize_moves, PathStore};
use image_dedup::run::{collect_failures, RunResult};
use image_dedup::scan::scan_directory;

fn hashed(fp: u64, path: &[u8]) -> HashedRecord {
    HashedRecord { fingerprint: fp, record: ImageRecord { path: path.to_vec(), file_size: 0 } }
}

#[test]
fn one_directory_failure_does_not_touch_another() {
    // the unreadable directory yields a directory-level failure
    let failure = RunResult::Failed { dir: b"d1".to_vec(), cause: "cannot list".to_string() };

    // the healthy directory holds two byte-identical images, so both move
    let records = vec![hashed(42, b"d2/x.png"), hashed(42, b"d2/y.png")];
    let groups = group_records(&records);
    let quarantine = quarantine_dir_path(&b"d2".to_vec());
    let plan = plan_moves(&groups, &quarantine);
    let mut store = PathStore::new();
    store.add_path(&b"d2/x.png".to_vec());
    store.add_path(&b"d2/y.png".to_vec());
    let outcomes = apply_moves(&mut store, &plan);
    let summary = summarize_moves(&plan, &outcomes);
    assert_eq!(summary.moved, 2);
    assert!(store.contains_path(&b"d2/duplicates/x.png".to_vec()));
    assert!(store.contains_path(&b"d2/duplicates/y.png".to_vec()));
    assert!(!store.contains_path(&b"d2/x.png".to_vec()));
    assert!(!store.contains_path(&b"d2/y.png".to_vec()));
    let success = RunResult::Completed { dir: b"d2".to_vec(), moved: summary.moved };

    let failures = collect_failures(vec![failure, success]);
    assert_eq!(failures.len(), 1);
    match &failures[0] {
        RunResult::Failed { dir, cause } => {
            assert_eq!(dir, &b"d1".to_vec());
            assert_eq!(cause, "cannot list");
        },
        RunResult::Completed { .. } => panic!("a completed run was reported as a failure"),
    }
}

#[test]
fn perceptually_distinct_images_leave_no_quarantine() {
    let records = vec![
        hashed(1, b"d/a.png"),
        hashed(2, b"d/b.png"),
        hashed(3, b"d/c.png"),
    ];
    let groups = group_records(&records);
    assert_eq!(groups.len(), 3);
    let quarantine = quarantine_dir_path(&b"d".to_vec());
    let plan = plan_moves(&groups, &quarantine);
    assert_eq!(plan.len(), 0);
    let mut store = PathStore::new();
    let outcomes = apply_moves(&mut store, &plan);
    let summary = summarize_moves(&plan, &outcomes);
    assert_eq!(summary.moved, 0);
    assert!(summary.remove_quarantine);
}

#[test]
fn unreadable_candidates_become_warnings_not_failures() {
    let paths: Vec<Vec<u8>> = vec![b"no/such/file.png".to_vec(), b"also/missing.gif".to_vec()];
    let sizes: Vec<u64> = vec![0, 0];
    let outcomes = hash_all(&paths, &sizes);
    assert_eq!(outcomes.len(), 2);
    let (records, warnings) = split_outcomes(outcomes);
    assert_eq!(records.len(), 0);
    assert_eq!(warnings.len(), 2);
    assert_eq!(warnings[0].path, b"no/such/file.png".to_vec());
    assert_eq!(warnings[1].path, b"also/missing.gif".to_vec());
    assert!(!warnings[0].cause.is_empty());
}

#[test]
fn a_malformed_scan_pattern_is_a_directory_level_failure() {
    assert!(scan_directory(&b"[".to_vec()).is_err());
}

#[test]
fn a_missing_directory_yields_no_candidates() {
    let r = scan_directory(&b"surely/not/a/real/directory".to_vec());
    assert_eq!(r.unwrap(), Vec::<Vec<u8>>::new());
}
