use bstorage::{Storage, E};

/// Splits a full record path `dir/name` into its bare file name.
fn bare_name(record_path: &str, dir: &str) -> String {
    let prefix = format!("{}/", dir);
    assert!(record_path.starts_with(&prefix));
    record_path[prefix.len()..].to_string()
}

fn fresh_store(dir: &str) -> Storage {
    let empty_index: Vec<u8> = Vec::new();
    let empty_dir: Vec<(String, Vec<u8>)> = Vec::new();
    Storage::open(dir, &empty_index, &empty_dir).expect("open over an empty directory")
}

/// Sets three values of different shapes, "reopens" the store from the index
/// bytes and record files the set actions asked to persist, and reads each
/// value back.
#[test]
fn scenario_set_close_reopen() {
    let dir = "store";
    let mut storage = fresh_store(dir);

    let a = bincode::serialize(&1u8).unwrap();
    let b = bincode::serialize("hello").unwrap();
    let c = bincode::serialize(&vec![1i32, 2, 3]).unwrap();

    let act_a = storage.set("a", a.clone()).unwrap();
    let act_b = storage.set("b", b.clone()).unwrap();
    let act_c = storage.set("c", c.clone()).unwrap();

    // the directory as the actions asked the caller to write it
    let files: Vec<(String, Vec<u8>)> = vec![
        (bare_name(&act_a.record_path, dir), act_a.record_data.clone()),
        (bare_name(&act_b.record_path, dir), act_b.record_data.clone()),
        (bare_name(&act_c.record_path, dir), act_c.record_data.clone()),
    ];
    let reopened = Storage::open(dir, &act_c.index_data, &files).expect("reopen");

    let got_a: u8 = bincode::deserialize(&reopened.get("a").unwrap()).unwrap();
    let got_b: String = bincode::deserialize(&reopened.get("b").unwrap()).unwrap();
    let got_c: Vec<i32> = bincode::deserialize(&reopened.get("c").unwrap()).unwrap();
    assert_eq!(got_a, 1u8);
    assert_eq!(got_b, "hello");
    assert_eq!(got_c, vec![1i32, 2, 3]);
    assert!(!reopened.has("z"));
    assert_eq!(reopened.cwd().as_str(), dir);
}

/// The index bytes a set action carries are exactly the bincode encoding of
/// the (key, file name) table.
#[test]
fn index_bytes_are_the_encoded_table() {
    let dir = "store";
    let mut storage = fresh_store(dir);
    let act = storage.set("only", vec![42u8]).unwrap();
    let name = bare_name(&act.record_path, dir);
    let expected = bincode::serialize(&vec![("only".to_string(), name)]).unwrap();
    assert_eq!(act.index_data, expected);
}

/// Record files get fresh 36-character unique names with the record extension.
#[test]
fn record_files_get_fresh_unique_names() {
    let dir = "store";
    let mut storage = fresh_store(dir);
    let one = storage.set("one", vec![1u8]).unwrap();
    let two = storage.set("two", vec![2u8]).unwrap();
    let name_one = bare_name(&one.record_path, dir);
    let name_two = bare_name(&two.record_path, dir);
    assert_ne!(name_one, name_two);
    assert_eq!(name_one.chars().count(), 45);
    assert!(name_one.ends_with(".bstorage"));
    assert!(two.record_data == vec![2u8]);
}

/// A key whose record file went missing is dropped when the store is
/// reopened; the open itself succeeds and other keys keep their values.
#[test]
fn missing_record_file_is_tolerated() {
    let dir = "store";
    let mut storage = fresh_store(dir);
    let kept = storage.set("kept", vec![7u8, 8u8]).unwrap();
    let lost = storage.set("lost", vec![9u8]).unwrap();

    // the directory snapshot without the file backing "lost"
    let files: Vec<(String, Vec<u8>)> = vec![
        (bare_name(&kept.record_path, dir), kept.record_data.clone()),
    ];
    let reopened = Storage::open(dir, &lost.index_data, &files).expect("open tolerates the gap");
    assert!(!reopened.has("lost"));
    assert!(reopened.has("kept"));
    assert_eq!(reopened.get("kept").unwrap(), vec![7u8, 8u8]);
}

/// Clearing twice equals clearing once: the second clear names no record
/// files to delete and persists the same empty index; no keys are left.
#[test]
fn clear_is_idempotent() {
    let dir = "store";
    let mut storage = fresh_store(dir);
    storage.set("a", vec![1u8]).unwrap();
    storage.set("b", vec![2u8]).unwrap();

    let first = storage.clear().unwrap();
    assert_eq!(first.record_paths.len(), 2);
    let second = storage.clear().unwrap();
    assert_eq!(second.record_paths.len(), 0);
    assert_eq!(first.index_data, second.index_data);

    let mut iter = storage.iterate();
    assert!(iter.next().is_none());
    assert!(!storage.has("a"));
    assert!(!storage.has("b"));
}

/// Setting the same key twice keeps the record file: both actions name the
/// same path, and the value read back is the second one.
#[test]
fn overwrite_preserves_filename() {
    let dir = "store";
    let mut storage = fresh_store(dir);
    let first = storage.set("key", vec![1u8, 1u8]).unwrap();
    let second = storage.set("key", vec![2u8]).unwrap();
    assert_eq!(first.record_path, second.record_path);
    assert_eq!(first.index_data, second.index_data);
    assert_eq!(storage.get("key").unwrap(), vec![2u8]);
}

/// `remove` deletes exactly the removed key, reports whether it existed, and
/// names the right file.
#[test]
fn remove_reports_and_drops_the_key() {
    let dir = "store";
    let mut storage = fresh_store(dir);
    let act = storage.set("gone", vec![3u8]).unwrap();
    storage.set("stays", vec![4u8]).unwrap();

    let removed = storage.remove("gone").unwrap();
    let removed = removed.expect("the key existed");
    assert_eq!(removed.record_path, act.record_path);
    assert!(!storage.has("gone"));
    assert!(storage.has("stays"));

    let missing = storage.remove("gone").unwrap();
    assert!(missing.is_none());
}

/// An empty value is a real value for the in-memory store and for reopening:
/// the key stays present and yields the empty encoding.
#[test]
fn empty_value_survives_reopen() {
    let dir = "store";
    let mut storage = fresh_store(dir);
    let unit = bincode::serialize(&()).unwrap();
    assert_eq!(unit.len(), 0);
    let act = storage.set("empty", unit.clone()).unwrap();
    assert!(storage.has("empty"));
    assert_eq!(storage.get("empty").unwrap(), unit);

    let files = vec![(bare_name(&act.record_path, dir), act.record_data.clone())];
    let reopened = Storage::open(dir, &act.index_data, &files).unwrap();
    assert!(reopened.has("empty"));
    assert_eq!(reopened.get("empty").unwrap(), Vec::<u8>::new());
}

/// Bytes that are not an encoded index table are rejected when opening.
#[test]
fn open_rejects_garbage_index() {
    let garbage: Vec<u8> = vec![1, 2, 3];
    let empty_dir: Vec<(String, Vec<u8>)> = Vec::new();
    let r = Storage::open("store", &garbage, &empty_dir);
    assert_eq!(r.unwrap_err(), E::Bincode);
}

/// The key iterator is an eager snapshot: it yields every key exactly once
/// and is not affected by later mutation.
#[test]
fn iterate_is_an_eager_snapshot() {
    let dir = "store";
    let mut storage = fresh_store(dir);
    storage.set("x", vec![1u8]).unwrap();
    storage.set("y", vec![2u8]).unwrap();

    let mut iter = storage.iterate();
    storage.remove("x").unwrap();

    let mut seen: Vec<String> = Vec::new();
    while let Some(k) = iter.next() {
        seen.push(k);
    }
    seen.sort();
    assert_eq!(seen, vec!["x".to_string(), "y".to_string()]);

    let mut rest = storage.iterate();
    assert_eq!(rest.next(), Some("y".to_string()));
    assert_eq!(rest.next(), None);
}

/// Path helpers join directories and names with a single separator.
#[test]
fn path_helpers() {
    assert_eq!(bstorage::join_path("dir", "file.bstorage"), "dir/file.bstorage");
    assert_eq!(bstorage::as_path_buf("some/where"), "some/where");
}
