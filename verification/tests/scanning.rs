use image_dedup::paths::{extension_of, file_name_of, has_allowed_extension};
use image_dedup::scan::filter_candidates;

#[test]
fn filters_by_case_sensitive_extension() {
    let paths: Vec<Vec<u8>> = vec![b"d/a.png".to_vec(), b"d/b.txt".to_vec(), b"d/c.JPG".to_vec()];
    let kept = filter_candidates(&paths);
    assert_eq!(kept, vec![b"d/a.png".to_vec()]);
}

#[test]
fn accepts_every_allow_listed_extension() {
    let paths: Vec<Vec<u8>> = vec![
        b"a.png".to_vec(),
        b"b.jpeg".to_vec(),
        b"c.jpg".to_vec(),
        b"d.gif".to_vec(),
    ];
    let kept = filter_candidates(&paths);
    assert_eq!(kept.len(), 4);
}

#[test]
fn rejects_files_without_a_usable_extension() {
    assert!(!has_allowed_extension(&b"noext".to_vec()));
    assert!(!has_allowed_extension(&b"dir/.png".to_vec()));
    assert!(!has_allowed_extension(&b"trailing.".to_vec()));
    assert!(!has_allowed_extension(&b"upper.PNG".to_vec()));
    assert!(!has_allowed_extension(&b"dir.png/file".to_vec()));
}

#[test]
fn accepts_nested_dots_and_directories() {
    assert!(has_allowed_extension(&b"x.y.png".to_vec()));
    assert!(has_allowed_extension(&b"some/dir/photo.gif".to_vec()));
}

#[test]
fn extension_is_the_part_after_the_last_dot() {
    assert_eq!(extension_of(&b"a.png".to_vec()), Some(b"png".to_vec()));
    assert_eq!(extension_of(&b"a.tar.gz".to_vec()), Some(b"gz".to_vec()));
    assert_eq!(extension_of(&b"apng".to_vec()), None);
    assert_eq!(extension_of(&b".png".to_vec()), None);
}

#[test]
fn file_name_is_the_part_after_the_last_slash() {
    assert_eq!(file_name_of(&b"a/b/c.png".to_vec()), b"c.png".to_vec());
    assert_eq!(file_name_of(&b"c.png".to_vec()), b"c.png".to_vec());
    assert_eq!(file_name_of(&b"a/b/".to_vec()), b"".to_vec());
}
