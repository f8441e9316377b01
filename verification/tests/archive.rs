use hive_asar::archive::header_offset;
use hive_asar::extract::ExtractStep;
use hive_asar::header::{Directory, Entry, FileMetadata, FilePosition};
use hive_asar::{Archive, ArchiveError, SeekPosition};

fn file(offset: u64, size: u64) -> Entry {
    Entry::File(FileMetadata { pos: FilePosition::Offset(offset), size, executable: false, integrity: None })
}

fn sample_archive() -> Archive<Vec<u8>> {
    let mut sub = Directory::new();
    sub.insert("c.txt".to_string(), file(10, 3));
    sub.insert(
        "u".to_string(),
        Entry::File(FileMetadata { pos: FilePosition::Unpacked, size: 1, executable: false, integrity: None }),
    );
    let mut root = Directory::new();
    root.insert("a.txt".to_string(), file(0, 10));
    root.insert("b".to_string(), Entry::Directory(sub));
    Archive::new(100, root, vec![1, 2, 3])
}

#[test]
fn header_offset_aligns_to_four() {
    assert_eq!(header_offset(0), 16);
    assert_eq!(header_offset(1), 20);
    assert_eq!(header_offset(3), 20);
    assert_eq!(header_offset(4), 20);
    assert_eq!(header_offset(5), 24);
    assert_eq!(header_offset(100), 116);
    assert_eq!(header_offset(101), 120);
}

#[test]
fn archive_parts() {
    let mut a = sample_archive();
    assert_eq!(a.offset(), 116);
    assert_eq!(a.header().len(), 2);
    assert_eq!(a.reader(), &vec![1, 2, 3]);
    a.reader_mut().push(4);
    assert_eq!(a.into_reader(), vec![1, 2, 3, 4]);
}

#[test]
fn read_finds_file() {
    let a = sample_archive();
    let f = a.read("/b/./c.txt").unwrap();
    assert_eq!(f.offset(), 116);
    assert!(matches!(f.metadata().pos, FilePosition::Offset(10)));
    assert_eq!(f.metadata().size, 3);
    assert_eq!(f.start(), Ok(126));
}

#[test]
fn read_normalises_the_path() {
    let a = sample_archive();
    let f = a.read("b/../a.txt").unwrap();
    assert_eq!(f.metadata().size, 10);
    assert_eq!(f.start(), Ok(116));
}

#[test]
fn read_errors() {
    let a = sample_archive();
    assert_eq!(a.read("missing").unwrap_err(), ArchiveError::NotFound);
    assert_eq!(a.read("b/missing").unwrap_err(), ArchiveError::NotFound);
    assert_eq!(a.read("a.txt/x").unwrap_err(), ArchiveError::NotFound);
    assert_eq!(a.read("b").unwrap_err(), ArchiveError::NotAFile);
    assert_eq!(a.read("b/u").unwrap_err(), ArchiveError::UnpackedUnsupported);
}

fn sample_file() -> hive_asar::File {
    let a = sample_archive();
    a.read("b/c.txt").unwrap()
}

#[test]
fn seek_from_start_is_clamped() {
    let f = sample_file();
    assert_eq!(f.seek_target(SeekPosition::Start(1), 3), Ok(SeekPosition::Start(127)));
    assert_eq!(f.seek_target(SeekPosition::Start(100), 3), Ok(SeekPosition::Start(129)));
}

#[test]
fn seek_from_end() {
    let f = sample_file();
    assert_eq!(f.seek_target(SeekPosition::End(0), 3), Ok(SeekPosition::Start(129)));
    assert_eq!(f.seek_target(SeekPosition::End(5), 3), Ok(SeekPosition::Start(129)));
    assert_eq!(f.seek_target(SeekPosition::End(-2), 3), Ok(SeekPosition::Start(127)));
    assert_eq!(f.seek_target(SeekPosition::End(-3), 3), Ok(SeekPosition::Start(126)));
    assert_eq!(f.seek_target(SeekPosition::End(-4), 3), Err(ArchiveError::InvalidSeek));
}

#[test]
fn seek_from_current_backwards() {
    let f = sample_file();
    // two bytes read, one left
    assert_eq!(f.seek_target(SeekPosition::Current(-2), 1), Ok(SeekPosition::Current(-2)));
    assert_eq!(f.seek_target(SeekPosition::Current(-3), 1), Err(ArchiveError::InvalidSeek));
    assert_eq!(f.seek_target(SeekPosition::Current(0), 1), Ok(SeekPosition::Current(0)));
}

#[test]
fn seek_from_current_forwards_is_refused() {
    // `(-pos) as u64` wraps for a positive `pos`, so a forward seek from the
    // current position is taken for one far before the start.
    let f = sample_file();
    assert_eq!(f.seek_target(SeekPosition::Current(1), 3), Err(ArchiveError::InvalidSeek));
}

#[test]
fn complete_seek_reports_position_and_rest() {
    let f = sample_file();
    assert_eq!(f.complete_seek(126), Ok((0, 3)));
    assert_eq!(f.complete_seek(127), Ok((1, 2)));
    assert_eq!(f.complete_seek(129), Ok((3, 0)));
}

#[test]
fn seek_then_complete_lands_in_file() {
    let f = sample_file();
    for (pos, expect) in [(SeekPosition::Start(2), (2, 1)), (SeekPosition::End(-1), (2, 1)), (SeekPosition::Start(50), (3, 0))] {
        match f.seek_target(pos, 3).unwrap() {
            SeekPosition::Start(t) => assert_eq!(f.complete_seek(t), Ok(expect)),
            other => panic!("unexpected {:?}", other),
        }
    }
}

fn names(p: &[String]) -> Vec<&str> {
    p.iter().map(|s| s.as_str()).collect()
}

#[test]
fn extract_plan_creates_directories_first() {
    let a = sample_archive();
    let steps = a.extract();
    assert_eq!(steps.len(), 4);
    match &steps[0] {
        ExtractStep::WriteFile(p, f) => {
            assert_eq!(names(p), vec!["a.txt"]);
            assert_eq!(f.start(), Ok(116));
        }
        other => panic!("unexpected {:?}", other),
    }
    match &steps[1] {
        ExtractStep::CreateDir(p) => assert_eq!(names(p), vec!["b"]),
        other => panic!("unexpected {:?}", other),
    }
    match &steps[2] {
        ExtractStep::WriteFile(p, f) => {
            assert_eq!(names(p), vec!["b", "c.txt"]);
            assert_eq!(f.metadata().size, 3);
            assert_eq!(f.start(), Ok(126));
        }
        other => panic!("unexpected {:?}", other),
    }
    match &steps[3] {
        ExtractStep::WriteFile(p, f) => {
            assert_eq!(names(p), vec!["b", "u"]);
            assert_eq!(f.start(), Err(ArchiveError::UnpackedUnsupported));
        }
        other => panic!("unexpected {:?}", other),
    }
}

#[test]
fn extract_plan_of_empty_archive() {
    let a: Archive<()> = Archive::new(0, Directory::new(), ());
    assert!(a.extract().is_empty());
}

#[test]
fn extract_entry_appends_steps_below_path() {
    let mut inner = Directory::new();
    inner.insert("f".to_string(), file(4, 2));
    let entry = Entry::Directory(inner);
    let mut out = Vec::new();
    hive_asar::extract::extract_entry(&file(0, 1), &vec!["top".to_string()], 16, &mut out);
    hive_asar::extract::extract_entry(&entry, &vec!["d".to_string()], 16, &mut out);
    assert_eq!(out.len(), 3);
    assert!(matches!(&out[0], ExtractStep::WriteFile(p, _) if names(p) == vec!["top"]));
    assert!(matches!(&out[1], ExtractStep::CreateDir(p) if names(p) == vec!["d"]));
    match &out[2] {
        ExtractStep::WriteFile(p, f) => {
            assert_eq!(names(p), vec!["d", "f"]);
            assert_eq!(f.start(), Ok(20));
        }
        other => panic!("unexpected {:?}", other),
    }
}

#[test]
fn read_ignores_reader_changes() {
    let mut a = sample_archive();
    let before = a.read("b/c.txt").unwrap();
    *a.reader_mut() = vec![9, 9];
    let after = a.read("b/c.txt").unwrap();
    assert_eq!(before.offset(), after.offset());
    assert_eq!(before.start(), after.start());
    assert_eq!(before.metadata().size, after.metadata().size);
    assert_eq!(a.read("b").unwrap_err(), ArchiveError::NotAFile);
}

#[test]
fn relative_seek_stays_in_file() {
    let f = sample_file();
    // one byte read (position 1), two left; seek back one byte
    match f.seek_target(SeekPosition::Current(-1), 2).unwrap() {
        SeekPosition::Current(q) => {
            let land = (3 - 2) as i64 + q;
            assert_eq!(land, 0);
            assert_eq!(f.complete_seek(126 + land as u64), Ok((0, 3)));
        }
        other => panic!("unexpected {:?}", other),
    }
}
