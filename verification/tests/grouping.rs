use image_dedup::group::{group_records, Group};
use image_dedup::records::{HashedRecord, ImageRecord};

fn hashed(fp: u64, path: &[u8], size: u64) -> HashedRecord {
    HashedRecord { fingerprint: fp, record: ImageRecord { path: path.to_vec(), file_size: size } }
}

fn paths_of(g: &Group) -> Vec<Vec<u8>> {
    g.records.iter().map(|r| r.path.clone()).collect()
}

#[test]
fn buckets_equal_fingerprints_together_in_scan_order() {
    let records = vec![
        hashed(7, b"d/x.png", 10),
        hashed(9, b"d/y.png", 20),
        hashed(7, b"d/z.png", 30),
    ];
    let groups = group_records(&records);
    assert_eq!(groups.len(), 2);
    let seven = groups.iter().find(|g| g.fingerprint == 7).unwrap();
    let nine = groups.iter().find(|g| g.fingerprint == 9).unwrap();
    assert_eq!(paths_of(seven), vec![b"d/x.png".to_vec(), b"d/z.png".to_vec()]);
    assert_eq!(paths_of(nine), vec![b"d/y.png".to_vec()]);
    assert_eq!(seven.records[0].file_size, 10);
    assert_eq!(seven.records[1].file_size, 30);
}

#[test]
fn every_record_lands_in_exactly_one_group() {
    let records = vec![
        hashed(1, b"a.png", 0),
        hashed(2, b"b.png", 0),
        hashed(1, b"c.png", 0),
        hashed(3, b"d.png", 0),
    ];
    let groups = group_records(&records);
    let total: usize = groups.iter().map(|g| g.records.len()).sum();
    assert_eq!(total, records.len());
    for r in &records {
        let holders: Vec<&Group> = groups
            .iter()
            .filter(|g| g.records.iter().any(|m| m.path == r.record.path))
            .collect();
        assert_eq!(holders.len(), 1);
        assert_eq!(holders[0].fingerprint, r.fingerprint);
    }
}

#[test]
fn regrouping_reordered_pairs_gives_the_same_mapping() {
    let records = vec![
        hashed(5, b"p.png", 0),
        hashed(6, b"q.png", 0),
        hashed(5, b"r.png", 0),
    ];
    let reordered = vec![
        hashed(5, b"r.png", 0),
        hashed(5, b"p.png", 0),
        hashed(6, b"q.png", 0),
    ];
    let g1 = group_records(&records);
    let g2 = group_records(&reordered);
    assert_eq!(g1.len(), g2.len());
    for g in &g1 {
        let other = g2.iter().find(|o| o.fingerprint == g.fingerprint).unwrap();
        let mut a = paths_of(g);
        let mut b = paths_of(other);
        a.sort();
        b.sort();
        assert_eq!(a, b);
    }
}

#[test]
fn grouping_twice_gives_identical_groups() {
    let records = vec![hashed(4, b"m.png", 1), hashed(4, b"n.png", 2)];
    let g1 = group_records(&records);
    let g2 = group_records(&records);
    assert_eq!(g1.len(), g2.len());
    for (a, b) in g1.iter().zip(g2.iter()) {
        assert_eq!(a.fingerprint, b.fingerprint);
        assert_eq!(paths_of(a), paths_of(b));
    }
}
