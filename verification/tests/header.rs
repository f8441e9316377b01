use hive_asar::header::{
    Algorithm, Directory, Entry, FileMetadata, FilePosition, Integrity, PositionFields,
};
use hive_asar::PositionError;

fn file(offset: u64, size: u64) -> Entry {
    Entry::File(FileMetadata {
        pos: FilePosition::Offset(offset),
        size,
        executable: false,
        integrity: None,
    })
}

fn sample_tree() -> Directory {
    let mut sub = Directory::new();
    sub.insert("c.txt".to_string(), file(10, 3));
    sub.insert("u".to_string(), Entry::File(FileMetadata {
        pos: FilePosition::Unpacked,
        size: 1,
        executable: true,
        integrity: None,
    }));
    let mut root = Directory::new();
    root.insert("a.txt".to_string(), file(0, 10));
    root.insert("b".to_string(), Entry::Directory(sub));
    root
}

#[test]
fn metadata_offset_of_packed_and_unpacked() {
    let packed = FileMetadata { pos: FilePosition::Offset(123), size: 4, executable: false, integrity: None };
    assert_eq!(packed.offset(), Ok(123));
    let unpacked = FileMetadata { pos: FilePosition::Unpacked, size: 4, executable: false, integrity: None };
    assert_eq!(unpacked.offset(), Err(hive_asar::ArchiveError::UnpackedUnsupported));
}

#[test]
fn directory_insert_replaces_and_returns_previous() {
    let mut d = Directory::new();
    assert_eq!(d.len(), 0);
    assert!(d.insert("x".to_string(), file(1, 1)).is_none());
    assert!(d.insert("y".to_string(), file(2, 2)).is_none());
    let previous = d.insert("x".to_string(), file(3, 3));
    assert!(matches!(previous, Some(Entry::File(FileMetadata { pos: FilePosition::Offset(1), .. }))));
    assert_eq!(d.len(), 2);
    assert!(matches!(d.get("x"), Some(Entry::File(FileMetadata { pos: FilePosition::Offset(3), .. }))));
    assert!(matches!(d.get("y"), Some(Entry::File(FileMetadata { pos: FilePosition::Offset(2), .. }))));
    assert!(d.get("z").is_none());
}

#[test]
fn directory_default_is_empty() {
    let d = Directory::default();
    assert_eq!(d.len(), 0);
    assert!(d.files().is_empty());
}

#[test]
fn search_finds_nested_file() {
    let root = sample_tree();
    let found = root.search_segments(&["b", "c.txt"]);
    assert!(matches!(found, Some(Entry::File(FileMetadata { pos: FilePosition::Offset(10), size: 3, .. }))));
}

#[test]
fn search_finds_directory() {
    let root = sample_tree();
    assert!(matches!(root.search_segments(&["b"]), Some(Entry::Directory(_))));
}

#[test]
fn search_missing_and_through_file() {
    let root = sample_tree();
    assert!(root.search_segments(&["nope"]).is_none());
    assert!(root.search_segments(&["b", "nope"]).is_none());
    assert!(root.search_segments(&["a.txt", "x"]).is_none());
}

#[test]
fn entry_search_with_no_segments_is_itself() {
    let e = file(5, 6);
    assert!(matches!(e.search_segments(&[]), Some(Entry::File(FileMetadata { pos: FilePosition::Offset(5), .. }))));
}

#[test]
fn search_step_by_step_matches_whole_path() {
    let root = Entry::Directory(sample_tree());
    let whole = root.search_segments(&["b", "c.txt"]);
    let step = root.search_segments(&["b"]).and_then(|e| e.search_segments(&["c.txt"]));
    assert!(matches!(whole, Some(Entry::File(FileMetadata { size: 3, .. }))));
    assert!(matches!(step, Some(Entry::File(FileMetadata { size: 3, .. }))));
}

#[test]
fn position_serialize_offset() {
    match FilePosition::Offset(4096).serialize() {
        PositionFields::Offset { unpacked, offset } => {
            assert_eq!(unpacked, None);
            assert_eq!(offset, "4096");
        }
        other => panic!("unexpected {:?}", other),
    }
}

#[test]
fn position_serialize_unpacked() {
    assert!(matches!(FilePosition::Unpacked.serialize(), PositionFields::Unpacked(true)));
}

#[test]
fn position_deserialize_cases() {
    let ok = FilePosition::deserialize(&PositionFields::Offset { unpacked: None, offset: "77".to_string() });
    assert!(matches!(ok, Ok(FilePosition::Offset(77))));
    let ok2 = FilePosition::deserialize(&PositionFields::Offset { unpacked: Some(false), offset: "1".to_string() });
    assert!(matches!(ok2, Ok(FilePosition::Offset(1))));
    let both = FilePosition::deserialize(&PositionFields::Offset { unpacked: Some(true), offset: "1".to_string() });
    assert!(matches!(both, Err(PositionError::BothUnpackedAndOffset)));
    let bad = FilePosition::deserialize(&PositionFields::Offset { unpacked: None, offset: "12x".to_string() });
    assert!(matches!(bad, Err(PositionError::InvalidOffset)));
    let unpacked = FilePosition::deserialize(&PositionFields::Unpacked(true));
    assert!(matches!(unpacked, Ok(FilePosition::Unpacked)));
    let no = FilePosition::deserialize(&PositionFields::Unpacked(false));
    assert!(matches!(no, Err(PositionError::UnpackedFalse)));
}

#[test]
fn position_roundtrip() {
    for p in [FilePosition::Offset(0), FilePosition::Offset(u64::MAX), FilePosition::Offset(12345), FilePosition::Unpacked] {
        let back = FilePosition::deserialize(&p.serialize()).unwrap();
        match (p, back) {
            (FilePosition::Offset(a), FilePosition::Offset(b)) => assert_eq!(a, b),
            (FilePosition::Unpacked, FilePosition::Unpacked) => {}
            other => panic!("mismatch {:?}", other),
        }
    }
}

#[test]
fn hash_hex_and_conversions() {
    let h = hive_asar::header::Hash::from(vec![0xde, 0xad, 0x01, 0xf0]);
    assert_eq!(h.to_hex(), "dead01f0");
    assert_eq!(AsRef::<[u8]>::as_ref(&h), &[0xde, 0xad, 0x01, 0xf0]);
    assert_eq!(&*h, &[0xde, 0xad, 0x01, 0xf0]);
    let back: Vec<u8> = h.clone().into();
    assert_eq!(back, vec![0xde, 0xad, 0x01, 0xf0]);
    assert_eq!(hive_asar::header::Hash::from(Vec::new()).to_hex(), "");
}

#[test]
fn metadata_clone_keeps_values() {
    let m = FileMetadata {
        pos: FilePosition::Offset(9),
        size: 8,
        executable: true,
        integrity: Some(Integrity {
            algorithm: Algorithm::SHA256,
            hash: hive_asar::header::Hash::from(vec![1, 2]),
            block_size: 4,
            blocks: vec![hive_asar::header::Hash::from(vec![3]), hive_asar::header::Hash::from(vec![4])],
        }),
    };
    let c = m.clone();
    assert!(matches!(c.pos, FilePosition::Offset(9)));
    assert_eq!(c.size, 8);
    assert!(c.executable);
    let i = c.integrity.unwrap();
    assert_eq!(&*i.hash, &[1, 2]);
    assert_eq!(i.block_size, 4);
    assert_eq!(i.blocks.len(), 2);
    assert_eq!(&*i.blocks[1], &[4]);
}
