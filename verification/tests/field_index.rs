use bstorage::{Field, Index};

/// A restored record reports the name, size and bytes it was bound to.
#[test]
fn field_restore_reports_its_parts() {
    let f = Field::restore("r.bstorage".to_string(), vec![1u8, 2u8]);
    assert_eq!(f.file_name(), "r.bstorage");
    assert_eq!(f.size(), 2);
    assert_eq!(f.extract(), vec![1u8, 2u8]);
}

/// Overwriting a record's content keeps its file name.
#[test]
fn field_set_keeps_the_name() {
    let mut f = Field::restore("r.bstorage".to_string(), vec![1u8, 2u8]);
    f.set(vec![9u8]);
    assert_eq!(f.file_name(), "r.bstorage");
    assert_eq!(f.extract(), vec![9u8]);
}

/// A fresh record starts empty under a unique name with the record extension.
#[test]
fn field_create_draws_a_fresh_name() {
    let f = Field::create();
    let g = Field::create();
    assert_eq!(f.size(), 0);
    assert_eq!(f.file_name().chars().count(), 45);
    assert!(f.file_name().ends_with(".bstorage"));
    assert_ne!(f.file_name(), g.file_name());
}

/// The index derives its table from the records, and reading it back against
/// a directory snapshot rebuilds them; an entry whose file is gone is dropped.
#[test]
fn index_write_read_round_trip() {
    let index = Index::new("dir");
    assert_eq!(index.path(), "dir/map.bstorage");

    let fields = vec![(
        "k".to_string(),
        Field::restore("r.bstorage".to_string(), vec![1u8, 2u8]),
    )];
    let bytes = index.write(&fields).unwrap();

    let dir = vec![("r.bstorage".to_string(), vec![1u8, 2u8])];
    let back = index.read(&bytes, &dir).unwrap();
    assert_eq!(back.len(), 1);
    assert_eq!(back[0].0, "k");
    assert_eq!(back[0].1.file_name(), "r.bstorage");
    assert_eq!(back[0].1.extract(), vec![1u8, 2u8]);

    let empty_dir: Vec<(String, Vec<u8>)> = Vec::new();
    let dropped = index.read(&bytes, &empty_dir).unwrap();
    assert!(dropped.is_empty());

    let no_bytes: Vec<u8> = Vec::new();
    let empty = index.read(&no_bytes, &dir).unwrap();
    assert!(empty.is_empty());
}
