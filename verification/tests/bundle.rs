use bstorage::{Storage, E};

fn fresh_store(dir: &str) -> Storage {
    let empty_index: Vec<u8> = Vec::new();
    let empty_dir: Vec<(String, Vec<u8>)> = Vec::new();
    Storage::open(dir, &empty_index, &empty_dir).expect("open over an empty directory")
}

/// The archive of an empty store is exactly 8 bytes: the little-endian
/// trailer pointer, reading back as 8.
#[test]
fn empty_store_packs_to_eight_bytes() {
    let storage = fresh_store("store");
    let archive = storage.pack().unwrap();
    assert_eq!(archive.len(), 8);
    let mut header = [0u8; 8];
    header.copy_from_slice(&archive);
    assert_eq!(u64::from_le_bytes(header), 8);
}

/// An 8-byte archive unpacks to an empty store.
#[test]
fn minimal_archive_unpacks_empty() {
    let archive: Vec<u8> = 8u64.to_le_bytes().to_vec();
    let unpacked = Storage::unpack("bundle", &archive).unwrap();
    assert_eq!(unpacked.storage.cwd().as_str(), "bundle.unpacked");
    assert!(unpacked.files.is_empty());
    let mut iter = unpacked.storage.iterate();
    assert!(iter.next().is_none());
}

/// Packing a store and unpacking the archive yields a store from which every
/// original key retrieves its original value.
#[test]
fn pack_unpack_round_trip() {
    let mut storage = fresh_store("store");
    let a = bincode::serialize(&1u8).unwrap();
    let b = bincode::serialize("hello").unwrap();
    let c = bincode::serialize(&vec![1i32, 2, 3]).unwrap();
    storage.set("a", a.clone()).unwrap();
    storage.set("b", b.clone()).unwrap();
    storage.set("c", c.clone()).unwrap();

    let archive = storage.pack().unwrap();
    let unpacked = Storage::unpack("bundle", &archive).unwrap();
    let restored = unpacked.storage;

    assert_eq!(restored.cwd().as_str(), "bundle.unpacked");
    assert_eq!(restored.get("a").unwrap(), a);
    assert_eq!(restored.get("b").unwrap(), b);
    assert_eq!(restored.get("c").unwrap(), c);
    let got_b: String = bincode::deserialize(&restored.get("b").unwrap()).unwrap();
    assert_eq!(got_b, "hello");
    assert!(!restored.has("z"));
    // one materialized record file per key, with the original bytes
    assert_eq!(unpacked.files.len(), 3);
    let mut sizes: Vec<usize> = unpacked.files.iter().map(|f| f.1.len()).collect();
    sizes.sort();
    let mut expected: Vec<usize> = vec![a.len(), b.len(), c.len()];
    expected.sort();
    assert_eq!(sizes, expected);
}

/// A key whose value encodes to zero bytes answers to `has` before packing
/// but is absent from the unpacked store: the archive drops empty records.
#[test]
fn zero_size_records_are_omitted() {
    let mut storage = fresh_store("store");
    let unit = bincode::serialize(&()).unwrap();
    assert_eq!(unit.len(), 0);
    storage.set("empty", unit).unwrap();
    storage.set("full", vec![5u8]).unwrap();
    assert!(storage.has("empty"));
    assert!(storage.get("empty").is_some());

    let archive = storage.pack().unwrap();
    let unpacked = Storage::unpack("bundle", &archive).unwrap();
    assert!(!unpacked.storage.has("empty"));
    assert_eq!(unpacked.storage.get("full").unwrap(), vec![5u8]);
    assert_eq!(unpacked.files.len(), 1);
}

/// The unpacked store's index bytes decode to the rebuilt (key, file name)
/// table, so the new directory reopens like any other.
#[test]
fn unpacked_store_reopens() {
    let mut storage = fresh_store("store");
    storage.set("k", vec![9u8, 9u8]).unwrap();
    let archive = storage.pack().unwrap();
    let unpacked = Storage::unpack("bundle", &archive).unwrap();

    let reopened = Storage::open("bundle.unpacked", &unpacked.index_data, &unpacked.files)
        .expect("reopen the unpacked directory");
    assert_eq!(reopened.get("k").unwrap(), vec![9u8, 9u8]);
    assert_eq!(unpacked.index_path, "bundle.unpacked/map.bstorage");
}

/// An archive too short to hold the leading pointer is rejected.
#[test]
fn short_archive_is_invalid() {
    let archive: Vec<u8> = vec![1, 2, 3];
    let r = Storage::unpack("tiny", &archive);
    assert_eq!(r.unwrap_err(), E::PackageFileInvalid("tiny".to_string()));
}

/// An archive whose leading pointer runs past its end is rejected.
#[test]
fn pointer_past_end_is_invalid() {
    let mut archive: Vec<u8> = 100u64.to_le_bytes().to_vec();
    archive.extend_from_slice(&[1, 2, 3]);
    let r = Storage::unpack("bundle", &archive);
    assert_eq!(r.unwrap_err(), E::PackageFileInvalid("bundle".to_string()));
}

/// A trailer that does not decode as a table is rejected.
#[test]
fn garbage_trailer_is_rejected() {
    let mut archive: Vec<u8> = 8u64.to_le_bytes().to_vec();
    archive.extend_from_slice(&[0xff, 0xff, 0xff]);
    let r = Storage::unpack("bundle", &archive);
    assert_eq!(r.unwrap_err(), E::Bincode);
}

/// A trailer entry whose range is inverted is skipped, not fatal.
#[test]
fn inverted_range_is_skipped() {
    let table: Vec<(String, String, u64, u64)> =
        vec![("bad".to_string(), "bad.bstorage".to_string(), 9, 8)];
    let trailer = bincode::serialize(&table).unwrap();
    let mut archive: Vec<u8> = 8u64.to_le_bytes().to_vec();
    archive.extend_from_slice(&trailer);
    let unpacked = Storage::unpack("bundle", &archive).unwrap();
    assert!(!unpacked.storage.has("bad"));
    assert!(unpacked.files.is_empty());
}

/// A trailer entry whose range runs past the end of the archive is fatal.
#[test]
fn out_of_range_entry_is_invalid() {
    let table: Vec<(String, String, u64, u64)> =
        vec![("far".to_string(), "far.bstorage".to_string(), 8, 10_000)];
    let trailer = bincode::serialize(&table).unwrap();
    let mut archive: Vec<u8> = 8u64.to_le_bytes().to_vec();
    archive.extend_from_slice(&trailer);
    let r = Storage::unpack("bundle", &archive);
    assert_eq!(r.unwrap_err(), E::PackageFileInvalid("bundle".to_string()));
}

/// An archive whose trailer is an explicitly encoded empty table (as a packer
/// that always writes the trailer would produce) unpacks to an empty store.
#[test]
fn encoded_empty_trailer_unpacks_empty() {
    let table: Vec<(String, String, u64, u64)> = Vec::new();
    let trailer = bincode::serialize(&table).unwrap();
    assert_eq!(trailer.len(), 8);
    let mut archive: Vec<u8> = 8u64.to_le_bytes().to_vec();
    archive.extend_from_slice(&trailer);
    assert_eq!(archive.len(), 16);
    let unpacked = Storage::unpack("bundle", &archive).unwrap();
    assert!(!unpacked.storage.has("anything"));
    assert!(unpacked.files.is_empty());
}

/// The unpack directory is the archive path with its file name's extension
/// replaced by `unpacked`; a file name without an extension (a hidden file's
/// leading dot does not start one) gets `.unpacked` appended instead.
#[test]
fn unpack_directory_replaces_extension() {
    let archive: Vec<u8> = 8u64.to_le_bytes().to_vec();
    let cases = [
        ("records.pack", "records.unpacked"),
        ("a.tar.gz", "a.tar.unpacked"),
        ("dir.v2/archive", "dir.v2/archive.unpacked"),
        (".hidden", ".hidden.unpacked"),
        ("trailing.", "trailing.unpacked"),
        ("plain", "plain.unpacked"),
    ];
    for (path, dir) in cases {
        let unpacked = Storage::unpack(path, &archive).unwrap();
        assert_eq!(unpacked.storage.cwd().as_str(), dir);
        assert_eq!(unpacked.index_path, format!("{dir}/map.bstorage"));
    }
}

/// The archive layout is bit-exact: pointer, payloads in order, trailer whose
/// ranges slice the payloads back out.
#[test]
fn archive_layout_is_exact() {
    let mut storage = fresh_store("store");
    let act = storage.set("k", vec![0xAB, 0xCD]).unwrap();
    let archive = storage.pack().unwrap();

    let mut header = [0u8; 8];
    header.copy_from_slice(&archive[0..8]);
    let trailer_offset = u64::from_le_bytes(header) as usize;
    assert_eq!(trailer_offset, 10);
    assert_eq!(&archive[8..10], &[0xAB, 0xCD]);

    let table: Vec<(String, String, u64, u64)> =
        bincode::deserialize(&archive[trailer_offset..]).unwrap();
    let name = act.record_path["store/".len()..].to_string();
    assert_eq!(table, vec![("k".to_string(), name, 8, 10)]);
}
